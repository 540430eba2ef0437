use goncharov::editor::{CursorState, EditorState, Event, KeyCode, KeyEvent, KeyModifiers};
use goncharov::piece_table::{Buffer, PieceTable};
use goncharov::text::wraps_cleanly;

fn state_with_text(text: &str) -> EditorState {
    EditorState {
        piece_table: PieceTable { which: vec![Buffer::Original], start: vec![0], end: vec![text.len()] },
        original_buffer: text.to_string(),
        add_buffer: "".to_string(),
        running_buffer: "".to_string(),
        display_buffer: "".to_string(),
        cursor_state: CursorState { desired_x: 0, x: 0, y: 0, clip_right: false },
        line_offset: 0,
        insert_index: 0,
        line_wrap: true,
        printable_height: 24,
        printable_width: 80,
        quit: false,
    }
}

fn key(code: KeyCode) -> Event {
    Event::Key(KeyEvent { code, modifiers: KeyModifiers { shift: false, control: false, alt: false } })
}

#[test]
fn well_formed_states() {
    assert!(state_with_text("hello").is_well_formed());
    assert!(state_with_text("héllo").is_well_formed());
}

#[test]
fn pieces_past_their_buffer_or_inside_a_character_are_rejected() {
    let mut s = state_with_text("abc");
    s.piece_table.end[0] = 4;
    assert!(!s.is_well_formed());
    let mut s = state_with_text("é");
    s.piece_table.end[0] = 1;
    assert!(!s.is_well_formed());
    let mut s = state_with_text("abc");
    s.piece_table.start.push(0);
    assert!(!s.is_well_formed());
    let mut s = state_with_text("abc");
    s.piece_table.start[0] = 2;
    s.piece_table.end[0] = 1;
    assert!(!s.is_well_formed());
}

#[test]
fn typing_inside_a_character_is_refused() {
    let mut s = state_with_text("é");
    s.cursor_state.x = 1;
    assert!(!s.check_update_editor_state(key(KeyCode::Char(' '))));
    assert!(!s.check_update_editor_state(key(KeyCode::Enter)));
    // a plain character only joins the pending text
    assert!(s.check_update_editor_state(key(KeyCode::Char('a'))));
    s.cursor_state.x = 2;
    assert!(s.check_update_editor_state(key(KeyCode::Char(' '))));
}

#[test]
fn moving_up_from_the_top_row_with_an_offset_is_refused() {
    let mut s = state_with_text("a\nb");
    s.line_offset = 1;
    assert!(!s.check_update_editor_state(key(KeyCode::Up)));
    s.line_offset = 0;
    assert!(s.check_update_editor_state(key(KeyCode::Up)));
    assert!(s.check_update_editor_state(key(KeyCode::Down)));
    assert!(s.check_update_editor_state(key(KeyCode::Left)));
    assert!(s.check_update_editor_state(key(KeyCode::Right)));
    assert!(s.check_update_editor_state(Event::Other));
}

#[test]
fn display_refresh_needs_index_between_characters() {
    let mut s = state_with_text("héllo");
    s.insert_index = 5;
    assert!(s.can_refresh_display_buffer());
    s.insert_index = 6;
    assert!(s.can_refresh_display_buffer());
    s.insert_index = 7;
    assert!(!s.can_refresh_display_buffer());
    s.insert_index = 2;
    assert!(!s.can_refresh_display_buffer());
}

#[test]
fn rendering_checks() {
    let mut s = state_with_text("");
    s.display_buffer = "éé\n".to_string();
    s.printable_width = 2;
    assert!(s.check_render_editor());
    s.printable_width = 3;
    assert!(!s.check_render_editor());
    s.line_wrap = false;
    assert!(s.check_render_editor());
    s.line_wrap = true;
    s.printable_width = 0;
    assert!(!s.check_render_editor());
}

#[test]
fn wrapping_checks() {
    assert!(wraps_cleanly(&"abc\néé\nx".to_string(), 2));
    assert!(!wraps_cleanly(&"abc\néé\nx".to_string(), 3));
    assert!(wraps_cleanly(&"é".to_string(), 5));
    assert!(wraps_cleanly(&"".to_string(), 1));
}
