use luthor::textfmt::{fields_of, lines_of, parse_u32, u32_to_decimal, usize_to_decimal};

#[test]
fn fields_split_on_any_whitespace() {
    let fields = fields_of(&b"  + 0\t1  E \r".to_vec());
    let expected: Vec<Vec<u8>> = vec![
        b"+".to_vec(),
        b"0".to_vec(),
        b"1".to_vec(),
        b"E".to_vec(),
    ];
    assert_eq!(fields, expected);
    assert!(fields_of(&b" \t ".to_vec()).is_empty());
}

#[test]
fn lines_split_on_line_feeds() {
    let lines = lines_of(&b"a\nbc\n\nd".to_vec());
    let expected: Vec<Vec<u8>> = vec![
        b"a".to_vec(),
        b"bc".to_vec(),
        Vec::new(),
        b"d".to_vec(),
    ];
    assert_eq!(lines, expected);
    // a terminated last line leaves nothing after its feed
    assert_eq!(lines_of(&b"a\n".to_vec()), vec![b"a".to_vec()]);
    assert!(lines_of(&Vec::new()).is_empty());
}

#[test]
fn decimal_renders_exactly() {
    assert_eq!(u32_to_decimal(0), b"0".to_vec());
    assert_eq!(u32_to_decimal(907), b"907".to_vec());
    assert_eq!(u32_to_decimal(u32::MAX), b"4294967295".to_vec());
    assert_eq!(usize_to_decimal(12), b"12".to_vec());
}

#[test]
fn decimal_parses_exactly() {
    assert_eq!(parse_u32(&b"0".to_vec()), Some(0));
    assert_eq!(parse_u32(&b"907".to_vec()), Some(907));
    assert_eq!(parse_u32(&b"4294967295".to_vec()), Some(u32::MAX));
    assert_eq!(parse_u32(&b"4294967296".to_vec()), None);
    assert_eq!(parse_u32(&b"".to_vec()), None);
    assert_eq!(parse_u32(&b"12a".to_vec()), None);
    assert_eq!(parse_u32(&b"+5".to_vec()), None);
    // leading zeros are read as the same number
    assert_eq!(parse_u32(&b"007".to_vec()), Some(7));
}

#[test]
fn decimal_round_trips() {
    for n in [0u32, 1, 9, 10, 99, 100, 65535, u32::MAX] {
        assert_eq!(parse_u32(&u32_to_decimal(n)), Some(n));
    }
}
