use goncharov::editor::{
    move_cursor_down, move_cursor_left, move_cursor_right, move_cursor_up, process_text_input,
    refresh_display_buffer, render_editor, update_editor_state, CursorState, EditorAction, EditorState, Event,
    KeyCode, KeyEvent, KeyModifiers,
};
use goncharov::piece_table::{read_table, Buffer, PieceTable};

fn empty_state() -> EditorState {
    EditorState {
        piece_table: PieceTable { which: Vec::new(), start: Vec::new(), end: Vec::new() },
        original_buffer: "".to_string(),
        add_buffer: "".to_string(),
        running_buffer: "".to_string(),
        display_buffer: "".to_string(),
        cursor_state: CursorState { desired_x: 0, x: 0, y: 0, clip_right: false },
        line_offset: 0,
        insert_index: 0,
        line_wrap: true,
        printable_height: 24,
        printable_width: 80,
        quit: false,
    }
}

fn state_with_text(text: &str) -> EditorState {
    let mut s = empty_state();
    s.original_buffer = text.to_string();
    s.piece_table.which.push(Buffer::Original);
    s.piece_table.start.push(0);
    s.piece_table.end.push(text.len());
    s
}

fn no_mods() -> KeyModifiers {
    KeyModifiers { shift: false, control: false, alt: false }
}

fn document(s: &EditorState) -> String {
    read_table(&s.piece_table, &s.original_buffer, &s.add_buffer)
}

#[test]
fn test_move_cursor_left_01() {
    let initial_editor_state: EditorState = EditorState {
        piece_table: PieceTable {
            which: Vec::new(),
            start: Vec::new(),
            end: Vec::new(),
        },
        original_buffer: "".to_string(),
        add_buffer: "".to_string(),
        running_buffer: "".to_string(),
        display_buffer: "".to_string(),
        cursor_state: CursorState {
            desired_x: 0,
            x: 0,
            y: 0,
            clip_right: false,
        },
        line_offset: 0,
        insert_index: 0,
        line_wrap: true,
        printable_height: 24,
        printable_width: 80,
        quit: false,
    };

    let after_editor_state = move_cursor_left(initial_editor_state);
    assert_eq!(after_editor_state.cursor_state.x, 0);
    assert_eq!(after_editor_state.cursor_state.y, 0);
}

#[test]
fn typed_characters_stay_pending_until_a_space() {
    let mut s = empty_state();
    s = process_text_input(s, KeyCode::Char('h'), no_mods());
    s = process_text_input(s, KeyCode::Char('i'), no_mods());
    assert_eq!(s.running_buffer, "hi");
    assert_eq!(document(&s), "");
    assert_eq!(s.cursor_state.x, 2);
    assert_eq!(s.cursor_state.desired_x, 2);
    s = process_text_input(s, KeyCode::Char(' '), no_mods());
    assert_eq!(s.running_buffer, "");
    assert_eq!(s.add_buffer, "hi ");
    assert_eq!(document(&s), "hi ");
    assert_eq!(s.cursor_state.x, 3);
    // the insertion index stays where the committed text went in
    assert_eq!(s.insert_index, 0);
}

#[test]
fn enter_commits_and_moves_to_next_row() {
    let mut s = empty_state();
    s = process_text_input(s, KeyCode::Char('a'), no_mods());
    s = process_text_input(s, KeyCode::Enter, no_mods());
    assert_eq!(document(&s), "a\n");
    assert_eq!(s.insert_index, 2);
    assert_eq!((s.cursor_state.x, s.cursor_state.y, s.cursor_state.desired_x), (0, 1, 0));
}

#[test]
fn other_keys_only_fix_the_insertion_index() {
    let mut s = state_with_text("abc");
    s.cursor_state.x = 2;
    s.insert_index = 0;
    s = process_text_input(s, KeyCode::Tab, no_mods());
    assert_eq!(s.insert_index, 2);
    assert_eq!(document(&s), "abc");
}

#[test]
fn typing_goes_in_at_the_cursor() {
    let mut s = state_with_text("Hello world");
    s.cursor_state.x = 6;
    s.cursor_state.desired_x = 6;
    s = process_text_input(s, KeyCode::Char('b'), no_mods());
    s = process_text_input(s, KeyCode::Char('i'), no_mods());
    s = process_text_input(s, KeyCode::Char('g'), no_mods());
    s = process_text_input(s, KeyCode::Char(' '), no_mods());
    assert_eq!(document(&s), "Hello big world");
    assert_eq!(s.original_buffer, "Hello world");
    assert_eq!(s.add_buffer, "big ");
}

#[test]
fn left_commits_pending_text_and_steps_back() {
    let mut s = empty_state();
    s = process_text_input(s, KeyCode::Char('x'), no_mods());
    s = process_text_input(s, KeyCode::Char('y'), no_mods());
    s = move_cursor_left(s);
    assert_eq!(document(&s), "xy");
    assert_eq!(s.running_buffer, "");
    assert_eq!(s.insert_index, 1);
    assert_eq!(s.cursor_state.x, 1);
    assert!(!s.cursor_state.clip_right);
}

#[test]
fn left_at_start_of_row_jumps_to_end_of_row_above() {
    let mut s = state_with_text("ab\ncd");
    s.cursor_state.x = 0;
    s.cursor_state.y = 1;
    s.insert_index = 3;
    s = move_cursor_left(s);
    assert_eq!(s.insert_index, 2);
    assert_eq!((s.cursor_state.x, s.cursor_state.y), (2, 0));
    assert_eq!(s.cursor_state.desired_x, 2);
}

#[test]
fn right_moves_one_column() {
    let mut s = state_with_text("abc");
    s = move_cursor_right(s);
    assert_eq!(s.insert_index, 1);
    assert_eq!(s.cursor_state.x, 1);
}

#[test]
fn right_at_end_of_row_goes_to_next_row() {
    let mut s = state_with_text("ab\ncd");
    s.cursor_state.x = 2;
    s.insert_index = 2;
    s = move_cursor_right(s);
    assert_eq!(s.insert_index, 3);
    assert_eq!((s.cursor_state.x, s.cursor_state.y), (0, 1));
}

#[test]
fn right_at_end_of_document_stays() {
    let mut s = state_with_text("ab");
    s.cursor_state.x = 2;
    s.insert_index = 2;
    s = move_cursor_right(s);
    assert_eq!(s.insert_index, 2);
    assert_eq!((s.cursor_state.x, s.cursor_state.y), (2, 0));
}

#[test]
fn down_keeps_column_when_row_below_is_long_enough() {
    let mut s = state_with_text("abc\ndefg");
    s.cursor_state.x = 1;
    s.insert_index = 1;
    s = move_cursor_down(s);
    assert_eq!((s.cursor_state.x, s.cursor_state.y), (1, 1));
    assert_eq!(s.insert_index, 5);
    assert!(!s.cursor_state.clip_right);
}

#[test]
fn down_clips_to_end_of_shorter_row() {
    let mut s = state_with_text("abcd\nef");
    s.cursor_state.x = 3;
    s.insert_index = 3;
    s = move_cursor_down(s);
    assert_eq!((s.cursor_state.x, s.cursor_state.y), (2, 1));
    assert_eq!(s.insert_index, 7);
}

#[test]
fn down_on_last_row_stays() {
    let mut s = state_with_text("abc");
    s.cursor_state.x = 1;
    s.insert_index = 1;
    s = move_cursor_down(s);
    assert_eq!((s.cursor_state.x, s.cursor_state.y), (1, 0));
    assert_eq!(s.insert_index, 1);
}

#[test]
fn up_goes_to_row_above() {
    let mut s = state_with_text("abcd\nef");
    s.cursor_state.x = 1;
    s.cursor_state.y = 1;
    s.insert_index = 6;
    s = move_cursor_up(s);
    assert_eq!((s.cursor_state.x, s.cursor_state.y), (1, 0));
    assert_eq!(s.insert_index, 1);
}

#[test]
fn up_from_end_of_row_goes_to_end_of_row_above() {
    let mut s = state_with_text("abcd\nef");
    s.cursor_state.x = 2;
    s.cursor_state.y = 1;
    s.insert_index = 7;
    s = move_cursor_up(s);
    assert_eq!((s.cursor_state.x, s.cursor_state.y), (4, 0));
    assert!(s.cursor_state.clip_right);
    assert_eq!(s.insert_index, 4);
}

#[test]
fn up_on_first_row_stays() {
    let mut s = state_with_text("abc");
    s.cursor_state.x = 2;
    s.insert_index = 2;
    s = move_cursor_up(s);
    assert_eq!((s.cursor_state.x, s.cursor_state.y), (2, 0));
    assert_eq!(s.insert_index, 2);
}

#[test]
fn control_q_asks_to_quit() {
    let s = empty_state();
    let event = Event::Key(KeyEvent {
        code: KeyCode::Char('q'),
        modifiers: KeyModifiers { shift: false, control: true, alt: false },
    });
    let (s, action) = update_editor_state(s, event);
    assert!(s.quit);
    assert!(matches!(action, EditorAction::Nothing));
}

#[test]
fn control_h_and_alt_k_show_messages() {
    let s = empty_state();
    let help = Event::Key(KeyEvent {
        code: KeyCode::Char('h'),
        modifiers: KeyModifiers { shift: false, control: true, alt: false },
    });
    let (s, action) = update_editor_state(s, help);
    match action {
        EditorAction::ShowMessage(m) => assert_eq!(m, "This is a minimalist text editor."),
        EditorAction::Nothing => panic!("expected a message"),
    }
    let alt_k = Event::Key(KeyEvent {
        code: KeyCode::Char('k'),
        modifiers: KeyModifiers { shift: false, control: false, alt: true },
    });
    let (s, action) = update_editor_state(s, alt_k);
    match action {
        EditorAction::ShowMessage(m) => assert_eq!(m, "You typed alt-k"),
        EditorAction::Nothing => panic!("expected a message"),
    }
    assert!(!s.quit);
    assert_eq!(s.running_buffer, "");
}

#[test]
fn plain_keys_are_typed_and_arrows_move() {
    let s = empty_state();
    let (s, _) = update_editor_state(s, Event::Key(KeyEvent { code: KeyCode::Char('h'), modifiers: no_mods() }));
    assert_eq!(s.running_buffer, "h");
    let (s, _) = update_editor_state(s, Event::Key(KeyEvent { code: KeyCode::Left, modifiers: no_mods() }));
    assert_eq!(document(&s), "h");
    assert_eq!(s.cursor_state.x, 0);
    let (s, action) = update_editor_state(s, Event::Other);
    assert!(matches!(action, EditorAction::Nothing));
    assert_eq!(document(&s), "h");
}

#[test]
fn display_shows_pending_text_at_insertion_index() {
    let mut s = state_with_text("Hello world");
    s.running_buffer = "big ".to_string();
    s.insert_index = 6;
    let s = refresh_display_buffer(s);
    assert_eq!(s.display_buffer, "Hello big world");
}

#[test]
fn display_insertion_index_counts_bytes() {
    let mut s = state_with_text("héllo");
    s.running_buffer = "X".to_string();
    s.insert_index = 3;
    let s = refresh_display_buffer(s);
    assert_eq!(s.display_buffer, "héXllo");
}

#[test]
fn render_shows_rows_of_the_display() {
    let mut s = empty_state();
    s.display_buffer = "abcdef\nxy".to_string();
    s.printable_width = 4;
    s.printable_height = 3;
    assert_eq!(render_editor(&s), Some("abcd\nef\nxy".to_string()));
    s.line_offset = 2;
    assert_eq!(render_editor(&s), None);
}

#[test]
fn render_cuts_page_between_its_bounds() {
    let mut s = empty_state();
    s.display_buffer = "ab\ncd\nef\ngh\n".to_string();
    s.printable_width = 2;
    s.printable_height = 2;
    s.line_wrap = true;
    s.line_offset = 2;
    assert_eq!(render_editor(&s), Some("cd\n".to_string()));
}

#[test]
fn cursor_moves_keep_the_insertion_index_at_the_cursor() {
    let mut s = state_with_text("ab\ncdef\n\ng");
    s.line_wrap = false;
    let at_cursor = |s: &EditorState| {
        goncharov::text::get_offset_of_position(&document(s), s.cursor_state.x, s.cursor_state.y, s.printable_width, false)
    };
    assert_eq!(s.insert_index, at_cursor(&s));
    let moves: [fn(EditorState) -> EditorState; 10] = [
        move_cursor_right,
        move_cursor_right,
        move_cursor_right,
        move_cursor_down,
        move_cursor_right,
        move_cursor_down,
        move_cursor_down,
        move_cursor_up,
        move_cursor_left,
        move_cursor_left,
    ];
    for m in moves {
        s = m(s);
        assert_eq!(s.insert_index, at_cursor(&s));
        assert_eq!(document(&s), "ab\ncdef\n\ng");
    }
}
