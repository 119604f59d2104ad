use neon_compiler::source::line_of;

#[test]
fn lines_are_counted_from_one() {
    assert_eq!(line_of("ab\ncd\nef", 0), 1);
    assert_eq!(line_of("ab\ncd\nef", 2), 1);
    assert_eq!(line_of("ab\ncd\nef", 3), 2);
    assert_eq!(line_of("ab\ncd\nef", 7), 3);
    // Past the end: the last line.
    assert_eq!(line_of("ab\ncd\nef", 100), 3);
    assert_eq!(line_of("", 5), 1);
}
