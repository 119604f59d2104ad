use neon_compiler::lexer::{LexError, LexErrorKind, Lexed, Span, Trivia, TriviaKind};

fn lexed(line_starts: Vec<usize>, trivia: Vec<Trivia>) -> Lexed {
    Lexed { tokens: Vec::new(), trivia, line_starts }
}

#[test]
fn line_of_finds_the_line_holding_an_offset() {
    // "ab\ncd\n\nef": lines start at 0, 3, 6 and 7.
    let l = lexed(vec![0, 3, 6, 7], Vec::new());
    assert_eq!(l.line_of(0), 0);
    assert_eq!(l.line_of(2), 0);
    assert_eq!(l.line_of(3), 1);
    assert_eq!(l.line_of(6), 2);
    assert_eq!(l.line_of(8), 3);
    // Past the end: the last line, which the formatter relies on for `span.end`.
    assert_eq!(l.line_of(100), 3);
}

#[test]
fn blank_lines_between_two_items() {
    let l = lexed(vec![0, 3, 6, 7], Vec::new());
    assert_eq!(l.blank_lines_between(1, 8), 2);
    assert_eq!(l.blank_lines_between(1, 4), 0);
    assert_eq!(l.blank_lines_between(4, 1), 0);
    assert_eq!(l.blank_lines_between(1, 1), 0);
}

fn comment(kind: TriviaKind, start: usize, end: usize, text: &str) -> Trivia {
    Trivia { kind, span: Span { start, end }, text: text.to_string() }
}

#[test]
fn trivia_within_keeps_the_comments_inside_a_span_in_order() {
    let l = lexed(
        vec![0],
        vec![
            comment(TriviaKind::Line, 0, 5, "a"),
            comment(TriviaKind::Doc, 6, 10, "b"),
            comment(TriviaKind::Block, 9, 20, "c"),
            comment(TriviaKind::Line, 12, 14, "d"),
        ],
    );
    let inside = l.trivia_within(&Span { start: 6, end: 15 });
    let texts: Vec<&str> = inside.iter().map(|t| t.text.as_str()).collect();
    assert_eq!(texts, vec!["b", "d"]);
    assert_eq!(inside[0].kind, TriviaKind::Doc);
    assert!(l.trivia_within(&Span { start: 30, end: 40 }).is_empty());
}

#[test]
fn lex_errors_say_what_went_wrong() {
    let at = Span { start: 3, end: 4 };
    let e = LexError::new(LexErrorKind::UnexpectedChar('$'), at);
    assert_eq!(e.kind, LexErrorKind::UnexpectedChar('$'));
    assert_eq!(e.span, at);
    assert_eq!(e.message(), "unexpected character `$`");
    assert_eq!(LexError::new(LexErrorKind::UnknownEscape('q'), at).message(), "unknown escape `\\q`");
    assert_eq!(LexError::new(LexErrorKind::IntegerOverflow, at).message(), "integer literal does not fit in 64 bits");
    assert_eq!(LexError::new(LexErrorKind::UnterminatedInterp, at).message(), "unterminated `#{` interpolation");
    assert_eq!(
        LexError::new(LexErrorKind::BadUnicodeEscape, at).message(),
        "`\\u{...}` needs 1-6 hex digits naming a character"
    );
    assert_eq!(LexError::new(LexErrorKind::UnmatchedCloseBrace, at).message(), "unmatched `}`");
    assert_eq!(LexError::new(LexErrorKind::UnexpectedChar('é'), at).message(), "unexpected character `é`");
}
