use luthor::codec::CodecError;
use luthor::loader::{parse_alphabet, parse_scanner_definition, parse_scanner_line, ScannerEntry};
use luthor::table::ConfigError;

#[test]
fn alphabet_strips_whitespace_and_decodes() {
    let alpha = parse_alphabet(&b"  a x20 b \t".to_vec()).unwrap();
    assert_eq!(alpha, vec![b'a', b' ', b'b']);
}

#[test]
fn alphabet_rejects_duplicates() {
    assert_eq!(
        parse_alphabet(&b"aba".to_vec()),
        Err(ConfigError::DuplicateAlphabetByte { byte: b'a' })
    );
}

#[test]
fn alphabet_rejects_bad_encoding() {
    assert_eq!(
        parse_alphabet(&b"a:b".to_vec()),
        Err(ConfigError::AlphabetDecode {
            err: CodecError::ForbiddenLiteral { byte: b':' }
        })
    );
    assert_eq!(
        parse_alphabet(&b"ax2".to_vec()),
        Err(ConfigError::AlphabetDecode {
            err: CodecError::TruncatedEscape
        })
    );
}

#[test]
fn scanner_line_blank_is_skipped() {
    assert_eq!(parse_scanner_line(&b"   ".to_vec()), Ok(None));
    assert_eq!(parse_scanner_line(&Vec::new()), Ok(None));
}

#[test]
fn scanner_line_two_fields() {
    let e = parse_scanner_line(&b"table.tt ID".to_vec()).unwrap().unwrap();
    assert_eq!(
        e,
        ScannerEntry {
            tt_path: b"table.tt".to_vec(),
            token_id: b"ID".to_vec(),
            token_value: None,
        }
    );
}

#[test]
fn scanner_line_three_fields() {
    let e = parse_scanner_line(&b"kw.tt IF if".to_vec()).unwrap().unwrap();
    assert_eq!(
        e,
        ScannerEntry {
            tt_path: b"kw.tt".to_vec(),
            token_id: b"IF".to_vec(),
            token_value: Some(b"if".to_vec()),
        }
    );
}

#[test]
fn scanner_line_wrong_arity_fails() {
    assert_eq!(
        parse_scanner_line(&b"one".to_vec()),
        Err(ConfigError::MalformedScannerLine)
    );
    assert_eq!(
        parse_scanner_line(&b"a b c d".to_vec()),
        Err(ConfigError::MalformedScannerLine)
    );
}

#[test]
fn definition_reads_alphabet_and_entries() {
    let text = b"\nab\n\nid.tt ID\nkw.tt IF if\n".to_vec();
    let (alpha, entries) = parse_scanner_definition(&text).unwrap();
    assert_eq!(alpha, vec![b'a', b'b']);
    assert_eq!(entries.len(), 2);
    assert_eq!(entries[0].tt_path, b"id.tt".to_vec());
    assert_eq!(entries[0].token_id, b"ID".to_vec());
    assert_eq!(entries[0].token_value, None);
    assert_eq!(entries[1].token_value, Some(b"if".to_vec()));
}

#[test]
fn definition_without_alphabet_fails() {
    assert_eq!(
        parse_scanner_definition(&Vec::new()),
        Err(ConfigError::MissingAlphabet)
    );
    assert_eq!(
        parse_scanner_definition(&b"   \n\t\n".to_vec()),
        Err(ConfigError::MissingAlphabet)
    );
}

#[test]
fn definition_propagates_entry_errors() {
    let text = b"ab\nonly_one_field\n".to_vec();
    assert_eq!(
        parse_scanner_definition(&text),
        Err(ConfigError::MalformedScannerLine)
    );
}
