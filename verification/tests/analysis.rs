use mcfc::analysis::{collect_statement_let_names, word_at_offset, FunctionInfo, SourceMap};
use mcfc::ast::{Expr, ExprKind, MatchArm, Stmt, StmtKind, Type};
use mcfc::diagnostics::{SourceFile, Span, TextRange};

#[test]
fn finds_word_at_utf8_offset() {
    let source = "mc \"å\"\nlet value = 1\n";
    let offset = source.find("value").unwrap() + 2;
    let (word, range) = word_at_offset(source, offset).unwrap();

    assert_eq!(word, "value");
    assert_eq!(&source[range.start..range.end], "value");
}

#[test]
fn collects_match_arm_let_names() {
    let span = Span::new(1, 1);
    let statements = vec![Stmt {
        span: span.clone(),
        kind: StmtKind::Match {
            value: Expr {
                kind: ExprKind::String("idle".to_string()),
                span: span.clone(),
            },
            arms: vec![MatchArm {
                pattern: "idle".to_string(),
                body: vec![Stmt {
                    span: span.clone(),
                    kind: StmtKind::Let {
                        name: "inner".to_string(),
                        value: Expr {
                            kind: ExprKind::Int(1),
                            span: span.clone(),
                        },
                    },
                }],
            }],
            else_body: vec![Stmt {
                span: span.clone(),
                kind: StmtKind::Let {
                    name: "fallback".to_string(),
                    value: Expr {
                        kind: ExprKind::Int(2),
                        span: span.clone(),
                    },
                },
            }],
        },
    }];
    let mut names = Vec::new();

    collect_statement_let_names(&statements, &mut names);

    assert!(names.contains(&"inner".to_string()));
    assert!(names.contains(&"fallback".to_string()));
}

#[test]
fn word_at_offset_edges() {
    assert_eq!(word_at_offset("", 0), None);
    assert_eq!(word_at_offset("a + b", 2), None);
    let (word, range) = word_at_offset("foo_bar baz", 100).unwrap();
    assert_eq!(word, "baz");
    assert_eq!((range.start, range.end), (8, 11));
    let (word, _) = word_at_offset("foo_bar baz", 0).unwrap();
    assert_eq!(word, "foo_bar");
}

#[test]
fn identity_source_map_keeps_offsets() {
    let map = SourceMap::identity("abc\ndef");
    assert_eq!(map.to_original_offset(5), 5);
    assert_eq!(map.to_original_offset(99), 7);
    let r = map.to_original_range(TextRange::new(1, 4));
    assert_eq!((r.start, r.end), (1, 4));
}

#[test]
fn source_map_tracks_a_rewritten_line() {
    let original = "event chat:\n    body\n";
    let normalized = "fn __mcfc_event_chat() -> void:\n    body\n";
    let map = SourceMap::from_sources(original, normalized);
    let body = normalized.find("body").unwrap();
    assert_eq!(map.to_original_offset(body), original.find("body").unwrap());
    // the end of the text maps to the end
    assert_eq!(map.to_original_offset(normalized.len()), original.len());
    // an offset in the changed middle of a line is clamped into its counterpart
    assert!(map.to_original_offset(10) <= "event chat:".len());
}

#[test]
fn function_signature_text() {
    let info = FunctionInfo {
        name: "launch".to_string(),
        params: vec![("level".to_string(), Type::Int), ("items".to_string(), Type::Array(Box::new(Type::String)))],
        return_type: Type::Void,
        range: TextRange::new(0, 1),
        name_range: TextRange::new(0, 1),
    };
    assert_eq!(info.signature(), "fn launch(level: int, items: array<string>) -> void");
}

#[test]
fn line_text_counts_lines_from_one() {
    let file = SourceFile::new("a\r\nb\n");
    assert_eq!(file.line_text(0), "");
    assert_eq!(file.line_text(1), "a");
    assert_eq!(file.line_text(2), "b");
    assert_eq!(file.line_text(3), "");
    assert_eq!(file.line_text(4), "");
}

#[test]
fn source_map_is_monotone_and_maps_end_to_end() {
    let original = "event tick:\n    say(\"hi\")\n";
    let normalized = "fn __mcfc_event_tick() -> void:\n    say(\"hi\")\n";
    let map = SourceMap::from_sources(original, normalized);
    let mut last = 0;
    for offset in 0..=normalized.len() + 3 {
        let mapped = map.to_original_offset(offset);
        assert!(mapped >= last && mapped <= original.len());
        last = mapped;
    }
    assert_eq!(map.to_original_offset(normalized.len()), original.len());
}
