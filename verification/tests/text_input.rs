use nowui::toolkit::text_input::{
    char_index_at, char_len, char_to_byte, delete_range, display_string, hard_lines, insert_str, line_and_col,
    move_left, move_right, ordered_range,
};

#[test]
fn char_to_byte_handles_multibyte_chars() {
    let s = "héllo"; // é is 2 bytes
    assert_eq!(char_to_byte(s, 0), 0);
    assert_eq!(char_to_byte(s, 1), 1);
    assert_eq!(char_to_byte(s, 2), 3, "past the 2-byte é");
    assert_eq!(char_to_byte(s, 5), s.len());
    assert_eq!(char_to_byte(s, 99), s.len(), "out of range clamps to end");
}

#[test]
fn display_string_splices_preview_at_cursor_and_masks() {
    assert_eq!(display_string("ab", 1, "XY", false), "aXYb");
    assert_eq!(display_string("ab", 1, "XY", true), "****");
    assert_eq!(display_string("ab", 2, "", false), "ab");
}

#[test]
fn delete_range_removes_selection_and_moves_cursor_to_start() {
    let mut label = "hello".to_string();
    let mut cursor = 4;
    assert!(delete_range(&mut label, &mut cursor, 1));
    assert_eq!(label, "ho");
    assert_eq!(cursor, 1);
}

#[test]
fn delete_range_is_a_noop_for_a_zero_width_selection() {
    let mut label = "hello".to_string();
    let mut cursor = 2;
    assert!(!delete_range(&mut label, &mut cursor, 2));
    assert_eq!(label, "hello");
}

#[test]
fn insert_str_advances_cursor_past_inserted_text() {
    let mut label = "ac".to_string();
    let mut cursor = 1;
    insert_str(&mut label, &mut cursor, "b");
    assert_eq!(label, "abc");
    assert_eq!(cursor, 2);
}

#[test]
fn move_left_without_shift_collapses_selection_to_its_start() {
    let mut cursor = 4;
    let mut anchor = Some(1);
    move_left(&mut cursor, &mut anchor, false);
    assert_eq!(cursor, 1);
    assert_eq!(anchor, None);
}

#[test]
fn move_left_with_shift_extends_selection() {
    let mut cursor = 4;
    let mut anchor = None;
    move_left(&mut cursor, &mut anchor, true);
    assert_eq!(cursor, 3);
    assert_eq!(anchor, Some(4));
}

#[test]
fn move_right_clamps_to_len() {
    let mut cursor = 4;
    let mut anchor = None;
    move_right(&mut cursor, &mut anchor, false, 4);
    assert_eq!(cursor, 4);
}

#[test]
fn move_right_without_shift_collapses_selection_to_its_end() {
    let mut cursor = 1;
    let mut anchor = Some(4);
    move_right(&mut cursor, &mut anchor, false, 10);
    assert_eq!(cursor, 4);
    assert_eq!(anchor, None);
}

#[test]
fn hard_lines_splits_on_newline() {
    assert_eq!(hard_lines("a\nbb\nccc"), vec!["a", "bb", "ccc"]);
    assert_eq!(hard_lines("no newlines"), vec!["no newlines"]);
}

#[test]
fn line_and_col_finds_the_hard_line_and_offset_within_it() {
    let shown = "abc\nde\nfghij";
    assert_eq!(line_and_col(shown, 0), (0, 0), "start of first line");
    assert_eq!(line_and_col(shown, 2), (0, 2), "mid first line");
    assert_eq!(line_and_col(shown, 4), (1, 0), "just after the first \\n, start of second line");
    assert_eq!(line_and_col(shown, 6), (1, 2), "end of second line");
    assert_eq!(line_and_col(shown, 7), (2, 0), "start of third line");
    assert_eq!(line_and_col(shown, 12), (2, 5), "end of third (last) line");
}

#[test]
fn line_and_col_on_a_single_line_string_is_always_line_zero() {
    assert_eq!(line_and_col("hello", 0), (0, 0));
    assert_eq!(line_and_col("hello", 5), (0, 5));
}

#[test]
fn char_index_at_is_the_inverse_of_line_and_col() {
    let shown = "abc\nde\nfghij";
    for cursor in 0..=char_len(shown) {
        let (line, col) = line_and_col(shown, cursor);
        assert_eq!(char_index_at(shown, line, col), cursor, "round-trips for cursor {cursor}");
    }
}

#[test]
fn char_index_at_clamps_out_of_range_line_and_col() {
    let shown = "ab\ncd";
    assert_eq!(char_index_at(shown, 99, 0), 3, "out-of-range line clamps to the last line");
    assert_eq!(char_index_at(shown, 0, 99), 2, "out-of-range col clamps to that line's length");
}

#[test]
fn deleting_what_was_inserted_gives_the_text_back() {
    let mut label = "añb".to_string();
    let mut cursor = 2usize;
    insert_str(&mut label, &mut cursor, "x\ny");
    assert_eq!(label, "añx\nyb");
    assert!(delete_range(&mut label, &mut cursor, 2));
    assert_eq!((label.as_str(), cursor), ("añb", 2));
    assert_eq!(ordered_range(5, 2), (2, 5));
}

#[test]
fn a_selection_beyond_the_end_removes_nothing() {
    let mut label = "hi".to_string();
    let mut cursor = 5;
    assert!(!delete_range(&mut label, &mut cursor, 7));
    assert_eq!((label.as_str(), cursor), ("hi", 5));
    assert!(delete_range(&mut label, &mut cursor, 1));
    assert_eq!((label.as_str(), cursor), ("h", 1));
}
