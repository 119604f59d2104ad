use neon_compiler::lexer::{Span, Spanned, Token};
use neon_compiler::lexer::{LexError, LexErrorKind};
use neon_compiler::lsp::analysis::{editor_diagnostic, lex_diagnostics, parse_diagnostics, Diagnostic};
use neon_compiler::lsp::position::{LineIndex, Position};
use neon_compiler::parser::parse;

#[test]
fn parse_errors_become_plain_diagnostics() {
    let ts = vec![Spanned { token: Token::Int(7), span: Span { start: 0, end: 1 } }];
    let (_, errors) = parse(&ts, 1);
    let ds = parse_diagnostics(&errors);
    assert_eq!(ds.len(), 1);
    assert_eq!(ds[0].span, Span { start: 0, end: 1 });
    assert_eq!(ds[0].message, "expected `fn` or `test` or `bench`, found `7`");
    assert!(ds[0].labels.is_empty());
    assert!(ds[0].help.is_none());
    let d = Diagnostic::plain(Span { start: 2, end: 3 }, "m".to_string());
    assert_eq!(d.message, "m");
}

#[test]
fn a_diagnostic_is_placed_for_an_editor_with_its_help_appended() {
    let index = LineIndex::new("ab\ncd");
    let d = Diagnostic {
        span: Span { start: 3, end: 5 },
        message: "unknown type".to_string(),
        labels: vec![(Span { start: 0, end: 1 }, "declared here".to_string())],
        help: Some("import it".to_string()),
    };
    let e = editor_diagnostic(&d, &index);
    assert_eq!(e.start, Position { line: 1, character: 0 });
    assert_eq!(e.end, Position { line: 1, character: 2 });
    assert_eq!(e.message, "unknown type\n\nhelp: import it");
    let related = e.related.expect("one note");
    assert_eq!(related.len(), 1);
    assert_eq!(related[0].0, Position { line: 0, character: 0 });
    assert_eq!(related[0].1, Position { line: 0, character: 1 });
    assert_eq!(related[0].2, "declared here");
    let plain = editor_diagnostic(&Diagnostic::plain(Span { start: 0, end: 0 }, "m".to_string()), &index);
    assert!(plain.related.is_none());
    assert_eq!(plain.message, "m");
}

#[test]
fn lex_errors_become_plain_diagnostics() {
    let errors = vec![
        LexError { kind: LexErrorKind::UnexpectedChar('$'), span: Span { start: 4, end: 5 } },
        LexError { kind: LexErrorKind::IntegerOverflow, span: Span { start: 7, end: 30 } },
    ];
    let ds = lex_diagnostics(&errors);
    assert_eq!(ds.len(), 2);
    assert_eq!(ds[0].span, Span { start: 4, end: 5 });
    assert_eq!(ds[0].message, "unexpected character `$`");
    assert_eq!(ds[1].span, Span { start: 7, end: 30 });
    assert_eq!(ds[1].message, "integer literal does not fit in 64 bits");
    assert!(ds.iter().all(|d| d.labels.is_empty() && d.help.is_none()));
}
