use neon_compiler::lsp::position::{LineIndex, Position};

#[test]
fn a_multibyte_line_counts_utf16_units_not_bytes() {
    // "é" is two bytes and one UTF-16 unit; the emoji is four bytes and *two* units, being
    // outside the basic plane. A byte count would report 6 here and a character count 2,
    // and both would be wrong.
    let idx = LineIndex::new("é🙂x");
    let offset = "é🙂".len();
    assert_eq!(idx.position(offset), Position { line: 0, character: 3 });
}

#[test]
fn positions_are_relative_to_their_own_line() {
    let idx = LineIndex::new("ab\ncd\nef");
    assert_eq!(idx.position(4), Position { line: 1, character: 1 });
    assert_eq!(idx.position(6), Position { line: 2, character: 0 });
}

#[test]
fn an_offset_past_the_end_clamps() {
    let idx = LineIndex::new("ab\n");
    assert_eq!(idx.position(999), idx.position("ab\n".len()));
}

#[test]
fn the_text_is_kept_and_lines_start_after_newlines() {
    let idx = LineIndex::new("x\n\ny");
    assert_eq!(idx.text(), "x\n\ny");
    assert_eq!(idx.position(0), Position { line: 0, character: 0 });
    assert_eq!(idx.position(2), Position { line: 1, character: 0 });
    assert_eq!(idx.position(3), Position { line: 2, character: 0 });
    assert_eq!(idx.position(4), Position { line: 2, character: 1 });
    assert_eq!(idx.position(999), Position { line: 2, character: 1 });
}
