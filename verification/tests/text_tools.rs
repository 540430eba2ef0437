use goncharov::editor::CursorState;
use goncharov::format::{_make_text_blue, _make_text_red, make_text_green};
use goncharov::text::{
    get_number_of_lines, get_offset_of_position, get_position_of_offset, get_width_of_line, insert_string,
    split_lines_wrapped,
};

#[test]
fn number_of_lines_counts_line_breaks() {
    assert_eq!(get_number_of_lines(&"".to_string()), 0);
    assert_eq!(get_number_of_lines(&"abc".to_string()), 0);
    assert_eq!(get_number_of_lines(&"a\nb\n\naaa\naaa".to_string()), 4);
    assert_eq!(get_number_of_lines(&"\n".to_string()), 1);
}

#[test]
fn width_of_line() {
    let m = "a\nbb\n\naaa\naaaa".to_string();
    assert_eq!(get_width_of_line(&m, 0), 1);
    assert_eq!(get_width_of_line(&m, 1), 2);
    assert_eq!(get_width_of_line(&m, 2), 0);
    assert_eq!(get_width_of_line(&m, 3), 3);
    assert_eq!(get_width_of_line(&m, 4), 4);
    // past the last line: the width of the last line
    assert_eq!(get_width_of_line(&m, 9), 4);
    // widths are counted in bytes
    assert_eq!(get_width_of_line(&"é\nx".to_string(), 0), 2);
}

#[test]
fn position_past_the_end_is_the_end_without_wrapping() {
    let m = "ab\ncd".to_string();
    assert_eq!(get_position_of_offset(&m, 5, 80, false), (2, 1));
    assert_eq!(get_position_of_offset(&m, 6, 80, false), (2, 1));
    assert_eq!(get_position_of_offset(&m, 3, 80, false), (0, 1));
}

#[test]
fn wrapping_moves_full_rows_to_the_next_row() {
    let m = "abcdef".to_string();
    assert_eq!(get_position_of_offset(&m, 3, 3, true), (0, 1));
    assert_eq!(get_position_of_offset(&m, 4, 3, true), (1, 1));
    assert_eq!(get_offset_of_position(&m, 1, 1, 3, true), 4);
}

#[test]
fn offset_and_position_round_trip() {
    let m = "a\nbb\n\nccc".to_string();
    for k in 0..=m.len() {
        let (x, y) = get_position_of_offset(&m, k, 80, false);
        assert_eq!(get_offset_of_position(&m, x, y, 80, false), k);
    }
}

#[test]
fn unreachable_position_gives_the_length() {
    let m = "a\nb".to_string();
    assert_eq!(get_offset_of_position(&m, 5, 0, 80, false), 3);
    assert_eq!(get_offset_of_position(&m, 0, 7, 80, false), 3);
}

#[test]
fn positions_a_wrapped_text_does_not_reach() {
    // The byte after a full row sits at the start of the next row. A text
    // that ends on a wrapped row gives its last byte for unreached positions
    // up to its last row, and the byte before for rows past it.
    let m = "012345678901234567890123456789012345678901234567890123456789012345678901234567890".to_string();
    assert_eq!(get_position_of_offset(&m, 80, 80, true), (0, 1));
    assert_eq!(get_offset_of_position(&m, 0, 1, 80, true), 80);
    assert_eq!(get_offset_of_position(&m, 5, 1, 80, true), 80);
    assert_eq!(get_offset_of_position(&m, 0, 2, 80, true), 79);
    assert_eq!(get_offset_of_position(&m, 80, 0, 80, true), 80);
    // A text whose last line fits in a row gives its length.
    let full = "01234567890123456789012345678901234567890123456789012345678901234567890123456789".to_string();
    assert_eq!(get_offset_of_position(&full, 0, 1, 80, true), 80);
    assert_eq!(get_offset_of_position(&"abcdef\nxy".to_string(), 0, 3, 4, true), 9);
}

#[test]
fn split_without_wrapping_keeps_lines() {
    assert_eq!(split_lines_wrapped("a\n\nb".to_string(), 24, 80, false), "a\n\nb");
    assert_eq!(split_lines_wrapped("".to_string(), 5, 3, false), "");
    assert_eq!(split_lines_wrapped("a\n\nb\nc".to_string(), 3, 80, false), "a\n\nb");
}

#[test]
fn split_cuts_to_screen_height() {
    assert_eq!(split_lines_wrapped("abcdef\n\nxy".to_string(), 3, 2, true), "ab\ncd\nef");
    assert_eq!(split_lines_wrapped("".to_string(), 5, 3, true), "");
    assert_eq!(split_lines_wrapped("a\nb\nc".to_string(), 0, 3, true), "");
}

#[test]
fn split_multibyte_on_character_boundaries() {
    assert_eq!(split_lines_wrapped("éé".to_string(), 5, 2, true), "é\né");
}

#[test]
fn insert_string_counts_characters() {
    assert_eq!(insert_string(&"héllo".to_string(), &"X".to_string(), 2), "héXllo");
    assert_eq!(insert_string(&"abc".to_string(), &"".to_string(), 3), "abc");
    assert_eq!(insert_string(&"".to_string(), &"new".to_string(), 0), "new");
}

#[test]
fn colours() {
    let t = "hi".to_string();
    assert_eq!(_make_text_red(&t), "\x1b[31mhi\x1b[0m");
    assert_eq!(make_text_green(&t), "\x1b[32mhi\x1b[0m");
    assert_eq!(_make_text_blue(&t), "\x1b[34mhi\x1b[0m");
}

#[test]
fn cursor_listing() {
    let c = CursorState { desired_x: 12, x: 3, y: 40, clip_right: true };
    assert_eq!(c.to_display_string(), "desired_x: 12(x, y): (3,40)clip_right: true");
    let c = CursorState { desired_x: 0, x: 0, y: 0, clip_right: false };
    assert_eq!(c.to_display_string(), "desired_x: 0(x, y): (0,0)clip_right: false");
}

#[test]
fn line_breaks_add_up_over_concatenation() {
    let a = "a\nb".to_string();
    let b = "\nc\n".to_string();
    let ab = a.clone() + &b;
    assert_eq!(get_number_of_lines(&ab), get_number_of_lines(&a) + get_number_of_lines(&b));
    assert_eq!(get_number_of_lines(&ab), 3);
}

#[test]
fn position_of_offset_of_position_without_wrapping() {
    let m = "a\nb\n\naaa\naaa".to_string();
    for (x, y) in [(0, 0), (1, 0), (0, 2), (2, 3), (3, 3), (3, 4)] {
        let k = get_offset_of_position(&m, x, y, 80, false);
        assert_eq!(get_position_of_offset(&m, k, 80, false), (x, y));
    }
}
