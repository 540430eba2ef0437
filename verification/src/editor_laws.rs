//! What the editor operations do, stated over the document, the cursor and
//! the insertion index: typing, the four cursor moves, the key dispatch and
//! the page that is drawn.

use vstd::prelude::*;
use crate::editor::{
    can_move_cursor_down, can_move_cursor_left, can_move_cursor_right, can_move_cursor_up, can_process_text_input,
    can_update_editor_state, control_only, cursor_down, cursor_left, cursor_right, cursor_up, editor_update,
    lemma_bytes_empty, lemma_flushed_document, rendered_screen, text_input, EditorView, Event, KeyCode, KeyEvent,
};
use crate::piece_table::{insert_table_inserts_text, lemma_valid_pieces_in_bounds};
use crate::text::{
    bytes_of, lemma_line_width_bound, lemma_offset_of_position_bounds, line_width_at, lines, offset_of_position,
    position_of_offset, NEWLINE,
};
use crate::utf8_facts::lemma_encode_concat;

verus! {

/// `doc` with `text` put in at byte `k`, or at its end when `k` is past it.
pub open spec fn with_text_at(doc: Seq<u8>, text: Seq<u8>, k: int) -> Seq<u8> {
    let at = if k < doc.len() { k } else { doc.len() as int };
    doc.take(at) + (text + doc.skip(at))
}

/// Committing text at byte `k` puts its bytes into the document there.
proof fn lemma_committed_document(v: EditorView, t: Seq<char>, k: int)
    requires
        v.well_formed(),
        0 <= k,
    ensures
        v.with_committed(t, k).document() == with_text_at(v.document(), bytes_of(t), k),
{
    let ob = bytes_of(v.original);
    let ab = bytes_of(v.add);
    lemma_valid_pieces_in_bounds(v.pieces, ob, ab);
    insert_table_inserts_text(v.pieces, ob, ab, bytes_of(t), k);
    lemma_encode_concat(v.add, t);
}

/// The bytes of pending text followed by one ASCII character `c`, whose
/// byte is `b`.
proof fn lemma_push_ascii(s: Seq<char>, c: char, b: u8)
    requires
        c as u32 == b as u32,
        b < 128,
    ensures
        bytes_of(s.push(c)) == bytes_of(s) + seq![b],
{
    assert(s.push(c) =~= s + seq![c]);
    lemma_encode_concat(s, seq![c]);
    let one = seq![c];
    assert(one.drop_first() =~= Seq::<char>::empty());
    let x = c as u32;
    assert((x & 0x7F) as u8 == b) by (bit_vector)
        requires
            x == b as u32,
            b < 128,
    ;
    assert(vstd::utf8::encode_scalar(x) =~= seq![b]);
    assert(vstd::utf8::encode_utf8(one) =~= vstd::utf8::encode_scalar(one[0] as u32) + vstd::utf8::encode_utf8(one.drop_first()));
}

/// Nothing is drawn exactly when the line offset lies past the last line of
/// the text on screen; in particular the first page is always drawn.
pub proof fn rendering_draws_up_to_the_last_line(v: EditorView)
    ensures
        (rendered_screen(v) is None) == (v.line_offset > lines(bytes_of(v.display)).len() - 1),
        v.line_offset == 0 ==> rendered_screen(v) is Some,
{
    crate::text::lemma_lines_nonempty(bytes_of(v.display));
}

/// Without wrapping, from the first line, a text with no more lines than
/// the screen has rows is drawn whole, as it is.
pub proof fn short_text_is_drawn_whole(v: EditorView)
    requires
        !v.line_wrap,
        v.line_offset == 0,
        lines(bytes_of(v.display)).len() <= v.printable_height,
    ensures
        rendered_screen(v) == Some(bytes_of(v.display)),
{
    let d = bytes_of(v.display);
    let h = v.printable_height as int;
    let w = v.printable_width;
    crate::text::lemma_lines_nonempty(d);
    assert(d.take(0) =~= Seq::<u8>::empty());
    crate::text::lemma_offset_of_position(d, 0, 0, w, false, 0);
    crate::text::lemma_offset_of_position(d, 0, h, w, false, 0);
    let e = offset_of_position(d, 0, h, w, false);
    if e < d.len() {
        crate::text::lemma_offset_of_reached_position(d, e, w);
    }
    assert(d.subrange(0, d.len() as int) =~= d);
    crate::text::split_without_wrapping_keeps_text(d, v.printable_height, w);
}

/// Typing a key. With nothing pending the text goes in at the offset of the
/// cursor (row `y + line_offset`), otherwise where the pending text goes.
/// Enter commits the pending text and a line break there, moves the
/// insertion index past them and the cursor to the start of the next row;
/// a space commits the pending text and the space and moves the cursor one
/// column right; any other character joins the pending text and moves the
/// cursor one column right without touching the document; other keys only
/// fix the insertion index.
pub proof fn typing_puts_text_at_the_cursor(v: EditorView, c: KeyCode)
    requires
        v.well_formed(),
        can_process_text_input(v, c),
    ensures
        ({
            let doc = v.document();
            let k = if v.running.len() == 0 {
                offset_of_position(doc, v.cursor.x as int, v.cursor.y + v.line_offset, v.printable_width, v.line_wrap)
            } else {
                v.insert_index as int
            };
            let r = text_input(v, c);
            match c {
                KeyCode::Enter => {
                    &&& r.document() == with_text_at(doc, v.pending() + seq![NEWLINE], k)
                    &&& r.running.len() == 0
                    &&& r.insert_index == k + v.pending().len() + 1
                    &&& r.cursor.x == 0
                    &&& r.cursor.y == v.cursor.y + 1
                },
                KeyCode::Char(ch) => {
                    &&& r.insert_index == k
                    &&& r.cursor.x == v.cursor.x + 1
                    &&& r.cursor.y == v.cursor.y
                    &&& (ch == ' ' ==> r.document() == with_text_at(doc, v.pending() + seq![32u8], k)
                        && r.running.len() == 0)
                    &&& (ch != ' ' ==> r.document() == doc && r.running == v.running.push(ch))
                },
                _ => {
                    &&& r.insert_index == k
                    &&& r.document() == doc
                    &&& r.running == v.running
                    &&& r.cursor == v.cursor
                },
            }
        }),
{
    let doc = v.document();
    let k = if v.running.len() == 0 {
        offset_of_position(doc, v.cursor.x as int, v.cursor.y + v.line_offset, v.printable_width, v.line_wrap)
    } else {
        v.insert_index as int
    };
    lemma_offset_of_position_bounds(doc, v.cursor.x as int, v.cursor.y + v.line_offset, v.printable_width, v.line_wrap);
    match c {
        KeyCode::Enter => {
            lemma_push_ascii(v.running, '\n', NEWLINE);
            lemma_committed_document(v, v.running.push('\n'), k);
        },
        KeyCode::Char(ch) => {
            if ch == ' ' {
                lemma_push_ascii(v.running, ' ', 32u8);
                lemma_committed_document(v, v.running.push(' '), k);
            }
        },
        _ => {},
    }
}

/// The document once a move has committed the pending text: the pending
/// text goes in at the insertion index, the add buffer grows by it and
/// nothing is pending any more.
proof fn lemma_move_commits(v: EditorView)
    requires
        v.well_formed(),
    ensures
        v.flushed().document() == with_text_at(v.document(), v.pending(), v.insert_index as int),
        v.flushed().running.len() == 0,
        v.running.len() == 0 <==> v.pending().len() == 0,
{
    lemma_flushed_document(v);
    lemma_bytes_empty(v.running);
}

/// A left move commits the pending text at the insertion index and steps
/// the insertion index back one byte from the end of that text. Inside a
/// line the cursor steps one column left on the same row; at the start of a
/// row below the first it goes to the on-screen position of the new index;
/// at the start of the first row it stays.
pub proof fn left_move_steps_back(v: EditorView)
    requires
        v.well_formed(),
        can_move_cursor_left(v),
    ensures
        ({
            let d = with_text_at(v.document(), v.pending(), v.insert_index as int);
            let after = v.insert_index + v.pending().len();
            let ii = if after > 0 { after - 1 } else { 0 };
            let r = cursor_left(v);
            let p = position_of_offset(d, ii, v.printable_width, v.line_wrap);
            &&& r.document() == d
            &&& r.running.len() == 0
            &&& r.insert_index == ii
            &&& (v.cursor.x > 0 ==> r.cursor.x == v.cursor.x - 1 && r.cursor.y == v.cursor.y)
            &&& (v.cursor.x == 0 && v.cursor.y > 0 ==> r.cursor.x == p.0 && r.cursor.y + v.line_offset == p.1)
            &&& (v.cursor.x == 0 && v.cursor.y == 0 ==> r.cursor == v.cursor)
        }),
{
    lemma_move_commits(v);
    let d = v.flushed().document();
    let after = v.insert_index + v.pending().len();
    let ii = if after > 0 { after - 1 } else { 0 };
    assert(d.len() == v.document().len() + v.pending().len());
    assert(d.len() <= isize::MAX);
    crate::text::lemma_cursor_after_bounds(d.take(ii), v.printable_width, v.line_wrap);
    crate::text::lemma_cursor_after_bounds(d, v.printable_width, v.line_wrap);
    assert(v.insert_index + v.pending().len() <= usize::MAX);
}

/// The insertion index once a move right, up or down has committed the
/// pending text: past that text, when it lay before the end of the
/// committed document plus the length of the text.
pub open spec fn index_past_committed(v: EditorView, d: Seq<u8>) -> int {
    if v.insert_index < d.len() + v.pending().len() {
        v.insert_index + v.pending().len()
    } else {
        v.insert_index as int
    }
}

/// A right move commits the pending text. When the cursor is not at the end
/// of its line (the width of line `y + line_offset` of the committed
/// document), it moves one column right on the same row and the insertion
/// index moves one byte past the committed text. At the end of a line, the
/// insertion index moves one byte and the cursor goes to its on-screen
/// position, unless that reaches the end of the document, where nothing
/// moves.
pub proof fn right_move_steps_forward(v: EditorView)
    requires
        v.well_formed(),
        can_move_cursor_right(v),
    ensures
        ({
            let d = with_text_at(v.document(), v.pending(), v.insert_index as int);
            let ii = index_past_committed(v, d);
            let w = line_width_at(d, v.cursor.y + v.line_offset);
            let r = cursor_right(v);
            let p = position_of_offset(d, ii + 1, v.printable_width, v.line_wrap);
            &&& r.document() == d
            &&& r.running.len() == 0
            &&& (v.cursor.x != w ==> r.cursor.x == v.cursor.x + 1 && r.cursor.y == v.cursor.y && r.insert_index == ii + 1)
            &&& (v.cursor.x == w && ii + 1 < d.len() ==> r.insert_index == ii + 1 && r.cursor.x == p.0
                && r.cursor.y + v.line_offset == p.1)
            &&& (v.cursor.x == w && ii + 1 >= d.len() ==> r.insert_index == ii && r.cursor == v.cursor)
        }),
{
    lemma_move_commits(v);
    let d = v.flushed().document();
    let ii = index_past_committed(v, d);
    if ii + 1 < d.len() {
        crate::text::lemma_cursor_after_bounds(d.take(ii + 1), v.printable_width, v.line_wrap);
    }
}

/// A down move commits the pending text. When row `y + line_offset` lies
/// before the last line of the committed document, the cursor goes to row
/// `y + 1`, in its own column or at the end of the line below, never past
/// it; the insertion index becomes the offset of the new position.
/// Otherwise the cursor stays and the insertion index moves past the
/// committed text.
pub proof fn down_move_goes_to_the_next_row(v: EditorView)
    requires
        v.well_formed(),
        can_move_cursor_down(v),
    ensures
        ({
            let d = with_text_at(v.document(), v.pending(), v.insert_index as int);
            let below = line_width_at(d, v.cursor.y + v.line_offset + 1);
            let r = cursor_down(v);
            &&& r.document() == d
            &&& r.running.len() == 0
            &&& (v.cursor.y + v.line_offset < lines(d).len() - 1 ==> {
                &&& r.cursor.y == v.cursor.y + 1
                &&& (r.cursor.x == v.cursor.x || r.cursor.x == below)
                &&& r.cursor.x <= below
                &&& r.insert_index == offset_of_position(d, r.cursor.x as int, r.cursor.y as int, v.printable_width, v.line_wrap)
            })
            &&& (v.cursor.y + v.line_offset >= lines(d).len() - 1 ==> r.cursor == v.cursor
                && r.insert_index == index_past_committed(v, d))
        }),
{
    lemma_move_commits(v);
    let d = v.flushed().document();
    let y2 = v.cursor.y + v.line_offset + 1;
    lemma_line_width_bound(d, y2);
    crate::text::lemma_lines_count_bound(d);
    let below = line_width_at(d, y2);
    lemma_offset_of_position_bounds(d, below, v.cursor.y + 1, v.printable_width, v.line_wrap);
    lemma_offset_of_position_bounds(d, v.cursor.x as int, v.cursor.y + 1, v.printable_width, v.line_wrap);
}

/// An up move commits the pending text. When row `y + line_offset` is below
/// the first, the cursor goes to row `y - 1`, in its own column or at the
/// end of the line above, never past it; the insertion index becomes the
/// offset of the new position. Otherwise the cursor stays and the insertion
/// index moves past the committed text.
pub proof fn up_move_goes_to_the_previous_row(v: EditorView)
    requires
        v.well_formed(),
        can_move_cursor_up(v),
    ensures
        ({
            let d = with_text_at(v.document(), v.pending(), v.insert_index as int);
            let above = line_width_at(d, v.cursor.y + v.line_offset - 1);
            let r = cursor_up(v);
            &&& r.document() == d
            &&& r.running.len() == 0
            &&& (v.cursor.y + v.line_offset > 0 ==> {
                &&& r.cursor.y == v.cursor.y - 1
                &&& (r.cursor.x == v.cursor.x || r.cursor.x == above)
                &&& r.cursor.x <= above
                &&& r.insert_index == offset_of_position(d, r.cursor.x as int, r.cursor.y as int, v.printable_width, v.line_wrap)
            })
            &&& (v.cursor.y + v.line_offset == 0 ==> r.cursor == v.cursor && r.insert_index == index_past_committed(v, d))
        }),
{
    lemma_move_commits(v);
    let d = v.flushed().document();
    if v.cursor.y + v.line_offset > 0 {
        let y2 = v.cursor.y + v.line_offset - 1;
        lemma_line_width_bound(d, y2);
        let above = line_width_at(d, y2);
        lemma_offset_of_position_bounds(d, above, v.cursor.y - 1, v.printable_width, v.line_wrap);
        lemma_offset_of_position_bounds(d, v.cursor.x as int, v.cursor.y - 1, v.printable_width, v.line_wrap);
    }
}

/// The arrow keys move the cursor the way they point, whatever modifiers
/// are held: Up never raises the row (it goes one row up when the row plus
/// line offset is above 0), Down never lowers it (one row down while there
/// is a line below), Left steps one column left and Right one column right
/// inside a line; each commits the pending text first.
pub proof fn arrow_keys_move_their_way(v: EditorView, k: KeyEvent)
    requires
        v.well_formed(),
        can_update_editor_state(v, Event::Key(k)),
    ensures
        ({
            let d = with_text_at(v.document(), v.pending(), v.insert_index as int);
            let r = editor_update(v, Event::Key(k));
            let y = v.cursor.y as int;
            let x = v.cursor.x as int;
            &&& k.code == KeyCode::Up ==> r.document() == d && r.cursor.y == (if y + v.line_offset > 0 { y - 1 } else { y })
            &&& k.code == KeyCode::Down ==> r.document() == d && r.cursor.y == (if y + v.line_offset < lines(d).len() - 1 { y + 1 } else { y })
            &&& k.code == KeyCode::Left ==> r.document() == d && (x > 0 ==> r.cursor.x == x - 1 && r.cursor.y == y)
            &&& k.code == KeyCode::Right ==> r.document() == d
                && (x != line_width_at(d, y + v.line_offset) ==> r.cursor.x == x + 1 && r.cursor.y == y)
        }),
{
    match k.code {
        KeyCode::Up => up_move_goes_to_the_previous_row(v),
        KeyCode::Down => down_move_goes_to_the_next_row(v),
        KeyCode::Left => left_move_steps_back(v),
        KeyCode::Right => right_move_steps_forward(v),
        _ => {},
    }
}

/// Ctrl-q asks to quit and changes nothing else; Ctrl-h and Alt-k change
/// nothing; events other than key presses change nothing.
pub proof fn quit_and_message_keys_keep_the_text(v: EditorView, k: KeyEvent)
    ensures
        k.code == KeyCode::Char('q') && control_only(k.modifiers) ==> editor_update(v, Event::Key(k)) == (EditorView { quit: true, ..v }),
        k.code == KeyCode::Char('h') && control_only(k.modifiers) ==> editor_update(v, Event::Key(k)) == v,
        editor_update(v, Event::Other) == v,
{
}

} // verus!
