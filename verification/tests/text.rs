//! Byte offsets and editor positions.

use pine_rs::text::LineIndex;

#[test]
fn ascii_roundtrip() {
    let text = "//@version=6\nplot(close)\n";
    let idx = LineIndex::new(text);
    // start of line 1 ("plot...") is byte 13
    assert_eq!(idx.offset_at(text, 1, 0), 13);
    assert_eq!(idx.position_at(text, 13), (1, 0));
    // "close" starts at column 5 on line 1
    assert_eq!(idx.offset_at(text, 1, 5), 18);
    assert_eq!(idx.position_at(text, 18), (1, 5));
}

#[test]
fn utf16_counts_astral_as_two_units() {
    // 😀 is one Unicode scalar (4 UTF-8 bytes) but TWO UTF-16 code units.
    let text = "x = \"😀ab\"\n";
    let idx = LineIndex::new(text);
    // byte offset of 'a' (after the 4-byte emoji at byte 5): 5 + 4 = 9
    let a_byte = text.find('a').unwrap();
    assert_eq!(a_byte, 9);
    let (line, col) = idx.position_at(text, a_byte);
    assert_eq!(line, 0);
    // columns: x(0) space(1) =(2) space(3) "(4) 😀(5,6) a(7)
    assert_eq!(col, 7, "emoji must count as 2 UTF-16 units");
    // round-trip back to the same byte
    assert_eq!(idx.offset_at(text, line, col), a_byte);
}

#[test]
fn out_of_range_clamps() {
    let text = "abc\n";
    let idx = LineIndex::new(text);
    assert_eq!(idx.offset_at(text, 99, 0), text.len());
    assert_eq!(idx.position_at(text, 9999), idx.position_at(text, text.len()));
}

#[test]
fn column_past_its_line_gives_the_end_of_the_line() {
    let text = "ab\ncd";
    let idx = LineIndex::new(text);
    assert_eq!(idx.offset_at(text, 0, 2), 2);
    assert_eq!(idx.offset_at(text, 0, 99), 2);
    assert_eq!(idx.position_at(text, idx.offset_at(text, 0, 99)), (0, 2));
    assert_eq!(idx.offset_at(text, 1, 99), 5);
    // A surrogate pair is not split: its second half gives the character after it.
    let astral = "😀\n\nx";
    let idx = LineIndex::new(astral);
    assert_eq!(idx.offset_at(astral, 0, 1), 4);
    assert_eq!(idx.offset_at(astral, 0, 3), 4);
    assert_eq!(idx.offset_at(astral, 1, 1), 5);
}

#[test]
fn every_character_round_trips() {
    let text = "é😀\n\n  ß = \"日本\"\nend";
    let idx = LineIndex::new(text);
    for (byte, _) in text.char_indices() {
        let (line, character) = idx.position_at(text, byte);
        assert_eq!(idx.offset_at(text, line, character), byte);
    }
    let (line, character) = idx.position_at(text, text.len());
    assert_eq!((line, character), (3, 3));
    assert_eq!(idx.offset_at(text, line, character), text.len());
}

#[test]
fn later_positions_have_later_offsets() {
    let text = "a😀b\n\ncd\n";
    let idx = LineIndex::new(text);
    let mut last: usize = 0;
    for line in 0..5u32 {
        for character in 0..6u32 {
            let offset = idx.offset_at(text, line, character);
            assert!(last <= offset);
            last = offset;
        }
    }
    assert_eq!(last, text.len());
}

#[test]
fn points_count_bytes() {
    let text = "x\né=1\n";
    let idx = LineIndex::new(text);
    assert_eq!(idx.line_count(), 3);
    assert_eq!(idx.byte_to_point(0), (0, 0));
    assert_eq!(idx.byte_to_point(2), (1, 0));
    assert_eq!(idx.byte_to_point(4), (1, 2));
    assert_eq!(idx.byte_to_point(999), (2, 0));
}

#[test]
fn empty_text_has_one_line() {
    let idx = LineIndex::new("");
    assert_eq!(idx.line_count(), 1);
    assert_eq!(idx.offset_at("", 0, 0), 0);
    assert_eq!(idx.position_at("", 7), (0, 0));
}
