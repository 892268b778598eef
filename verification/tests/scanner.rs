use luthor::dfa::{StateRow, DFA};
use luthor::scanner::{render_tokens, tokenize, LexError, Token, TokenRecognizer};

fn row(accepting: bool, state_id: u32, transitions: Vec<Option<u32>>) -> StateRow {
    StateRow {
        accepting,
        state_id,
        transitions,
    }
}

/// A recognizer for one-or-more alphabet bytes, over [i, f, x].
fn id_recognizer() -> TokenRecognizer {
    let rows = vec![
        row(false, 0, vec![Some(1), Some(1), Some(1)]),
        row(true, 1, vec![Some(1), Some(1), Some(1)]),
    ];
    TokenRecognizer {
        dfa: DFA::new(rows, vec![b'i', b'f', b'x']).unwrap(),
        token_id: b"ID".to_vec(),
        token_value: None,
    }
}

/// A recognizer for the literal keyword "if", over [i, f, x].
fn if_recognizer() -> TokenRecognizer {
    let rows = vec![
        row(false, 0, vec![Some(1), None, None]),
        row(false, 1, vec![None, Some(2), None]),
        row(true, 2, vec![None, None, None]),
    ];
    TokenRecognizer {
        dfa: DFA::new(rows, vec![b'i', b'f', b'x']).unwrap(),
        token_id: b"IF".to_vec(),
        token_value: Some(b"if".to_vec()),
    }
}

/// A recognizer for any single byte of the alphabet [a, b, \n].
fn char_recognizer() -> TokenRecognizer {
    let rows = vec![
        row(false, 0, vec![Some(1), Some(1), Some(1)]),
        row(true, 1, vec![None, None, None]),
    ];
    TokenRecognizer {
        dfa: DFA::new(rows, vec![b'a', b'b', b'\n']).unwrap(),
        token_id: b"CH".to_vec(),
        token_value: None,
    }
}

#[test]
fn maximal_munch_beats_keyword() {
    // ID's 3-byte match on "ifx" beats IF's 2-byte match
    let mut scanner = vec![id_recognizer(), if_recognizer()];
    let tokens = tokenize(&b"ifx".to_vec(), &mut scanner).unwrap();
    assert_eq!(tokens.len(), 1);
    assert_eq!(tokens[0].token_id, b"ID".to_vec());
    // the lexeme "ifx" is codec-encoded on emission, and 'x' is reserved
    assert_eq!(tokens[0].token_value, b"ifx78".to_vec());
    assert_eq!(tokens[0].line, 1);
    assert_eq!(tokens[0].column, 1);
}

#[test]
fn tie_break_takes_lowest_index() {
    // both match "if" with length 2; the earlier declaration wins
    let mut scanner = vec![if_recognizer(), id_recognizer()];
    let tokens = tokenize(&b"if".to_vec(), &mut scanner).unwrap();
    assert_eq!(tokens.len(), 1);
    assert_eq!(tokens[0].token_id, b"IF".to_vec());
    assert_eq!(tokens[0].token_value, b"if".to_vec());

    let mut scanner2 = vec![id_recognizer(), if_recognizer()];
    let tokens2 = tokenize(&b"if".to_vec(), &mut scanner2).unwrap();
    assert_eq!(tokens2.len(), 1);
    assert_eq!(tokens2[0].token_id, b"ID".to_vec());
}

#[test]
fn fixed_token_value_is_verbatim() {
    let mut scanner = vec![if_recognizer()];
    let tokens = tokenize(&b"if".to_vec(), &mut scanner).unwrap();
    assert_eq!(tokens[0].token_value, b"if".to_vec());
}

#[test]
fn line_and_column_track_the_lexeme_start() {
    // "a\nb" under a one-byte recognizer: (1,1), (1,2), (2,1)
    let mut scanner = vec![char_recognizer()];
    let tokens = tokenize(&b"a\nb".to_vec(), &mut scanner).unwrap();
    assert_eq!(tokens.len(), 3);
    assert_eq!((tokens[0].line, tokens[0].column), (1, 1));
    assert_eq!((tokens[1].line, tokens[1].column), (1, 2));
    assert_eq!((tokens[2].line, tokens[2].column), (2, 1));
    assert_eq!(tokens[0].token_value, b"a".to_vec());
    assert_eq!(tokens[1].token_value, b"x0a".to_vec());
    assert_eq!(tokens[2].token_value, b"b".to_vec());
}

#[test]
fn lexemes_cover_the_whole_input() {
    // position accounting: three one-byte lexemes cover the 3-byte input
    let mut scanner = vec![char_recognizer()];
    let tokens = tokenize(&b"aba".to_vec(), &mut scanner).unwrap();
    assert_eq!(tokens.len(), 3);
    assert_eq!((tokens[2].line, tokens[2].column), (1, 3));
}

#[test]
fn lex_error_reports_position() {
    let mut scanner = vec![if_recognizer()];
    assert_eq!(
        tokenize(&b"fi".to_vec(), &mut scanner),
        Err(LexError { line: 1, column: 1 })
    );
    assert_eq!(
        tokenize(&b"iff".to_vec(), &mut scanner),
        Err(LexError { line: 1, column: 3 })
    );
}

#[test]
fn empty_input_yields_no_tokens() {
    let mut scanner = vec![id_recognizer()];
    let tokens = tokenize(&Vec::new(), &mut scanner).unwrap();
    assert!(tokens.is_empty());
}

#[test]
fn empty_scanner_fails_on_any_input() {
    let mut scanner: Vec<TokenRecognizer> = Vec::new();
    assert_eq!(
        tokenize(&b"a".to_vec(), &mut scanner),
        Err(LexError { line: 1, column: 1 })
    );
}

#[test]
fn render_writes_one_record_per_line() {
    let tokens = vec![
        Token {
            token_id: b"CH".to_vec(),
            token_value: b"a".to_vec(),
            line: 1,
            column: 1,
        },
        Token {
            token_id: b"CH".to_vec(),
            token_value: b"x0a".to_vec(),
            line: 1,
            column: 2,
        },
        Token {
            token_id: b"CH".to_vec(),
            token_value: b"b".to_vec(),
            line: 2,
            column: 1,
        },
    ];
    let text = render_tokens(&tokens);
    assert_eq!(text, b"CH a 1 1\nCH x0a 1 2\nCH b 2 1\n".to_vec());
}

#[test]
fn tokenize_then_render_end_to_end() {
    let mut scanner = vec![char_recognizer()];
    let tokens = tokenize(&b"a\nb".to_vec(), &mut scanner).unwrap();
    let text = render_tokens(&tokens);
    assert_eq!(text, b"CH a 1 1\nCH x0a 1 2\nCH b 2 1\n".to_vec());
}

#[test]
fn mixed_stream_of_keywords_and_identifiers() {
    // ID's five-byte match swallows "ifxif" whole; alone, "if" goes to IF
    let mut scanner = vec![if_recognizer(), id_recognizer()];
    let tokens = tokenize(&b"ifxif".to_vec(), &mut scanner).unwrap();
    assert_eq!(tokens.len(), 1);
    assert_eq!(tokens[0].token_id, b"ID".to_vec());

    let tokens2 = tokenize(&b"if".to_vec(), &mut scanner).unwrap();
    assert_eq!(tokens2[0].token_id, b"IF".to_vec());
}

#[test]
fn scanner_is_reusable_across_runs() {
    let mut scanner = vec![char_recognizer()];
    let first = tokenize(&b"ab".to_vec(), &mut scanner).unwrap();
    let second = tokenize(&b"ba".to_vec(), &mut scanner).unwrap();
    assert_eq!(first.len(), 2);
    assert_eq!(second.len(), 2);
    assert_eq!(second[0].token_value, b"b".to_vec());
}
