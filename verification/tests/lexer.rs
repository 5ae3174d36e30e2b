use mcfc::lexer::{lex, TokenKind};

#[test]
fn lexes_comments_and_newlines() {
    let tokens = lex("fn main() -> void # trailing\n# own line\nend\n").unwrap();
    let kinds: Vec<_> = tokens.into_iter().map(|token| token.kind).collect();
    assert!(matches!(kinds[0], TokenKind::Fn));
    assert!(
        kinds
            .iter()
            .filter(|kind| matches!(kind, TokenKind::Newline))
            .count()
            >= 2
    );
    assert!(matches!(kinds.last(), Some(TokenKind::Eof)));
}

#[test]
fn lexes_book_annotation_and_ranges() {
    let tokens = lex("@book\n0..10\n0..=10\n").unwrap();
    assert!(matches!(tokens[0].kind, TokenKind::BookAnnotation));
    assert_eq!(tokens[0].range.start, 0);
    assert_eq!(tokens[0].range.end, 5);
    assert!(tokens.iter().any(|token| matches!(token.kind, TokenKind::DotDot)));
    assert!(tokens.iter().any(|token| matches!(token.kind, TokenKind::DotDotEq)));
}

#[test]
fn reports_malformed_tokens_without_stopping() {
    let error = lex("!\n\"\n").unwrap_err();
    let rendered = error.to_display_string();
    assert!(rendered.contains("unexpected '!'"));
    assert!(rendered.contains("unterminated string literal"));
}

#[test]
fn lexes_single_quoted_strings() {
    let tokens = lex("'hello' '\"\"' 'it\\'s'").unwrap();
    let strings: Vec<_> = tokens
        .into_iter()
        .filter_map(|token| match token.kind {
            TokenKind::String(value) => Some(value),
            _ => None,
        })
        .collect();

    assert_eq!(strings, vec!["hello", "\"\"", "it's"]);
}

#[test]
fn lexes_control_flow_keywords() {
    let tokens = lex("else for in break continue and or not\n").unwrap();
    let kinds: Vec<_> = tokens.into_iter().map(|token| token.kind).collect();
    assert!(kinds.iter().any(|kind| matches!(kind, TokenKind::Else)));
    assert!(kinds.iter().any(|kind| matches!(kind, TokenKind::For)));
    assert!(kinds.iter().any(|kind| matches!(kind, TokenKind::In)));
    assert!(kinds.iter().any(|kind| matches!(kind, TokenKind::Break)));
    assert!(kinds.iter().any(|kind| matches!(kind, TokenKind::Continue)));
    assert!(kinds.iter().any(|kind| matches!(kind, TokenKind::And)));
    assert!(kinds.iter().any(|kind| matches!(kind, TokenKind::Or)));
    assert!(kinds.iter().any(|kind| matches!(kind, TokenKind::Not)));
}

#[test]
fn lexer_token_ranges_are_byte_offsets() {
    let tokens = lex("\"é\" x\n").unwrap();
    // `é` is two bytes wide, so the string spans bytes 0..4 and `x` is at 5.
    assert!(matches!(tokens[0].kind, TokenKind::String(ref s) if s == "é"));
    assert_eq!((tokens[0].range.start, tokens[0].range.end), (0, 4));
    assert!(matches!(tokens[1].kind, TokenKind::Identifier(ref s) if s == "x"));
    assert_eq!((tokens[1].range.start, tokens[1].range.end), (5, 6));
}
