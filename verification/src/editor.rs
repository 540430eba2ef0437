//! The editor state and how it reacts to key presses: cursor movement,
//! typing, and committing typed text to the piece table.

use vstd::prelude::*;
use vstd::utf8::*;
use crate::piece_table::{
    insert_table, insert_table_inserts_text, insert_table_keeps_pieces_valid, lemma_table_text_valid,
    lemma_valid_pieces_in_bounds,
    pieces_valid_for, read_table, table_after_insert, table_text, Piece, PieceTable,
};
use crate::text::{
    bytes_of, fits_in_memory, get_offset_of_position, get_position_of_offset, get_width_of_line,
    get_number_of_lines, join_lines, lemma_offset_of_position, line_width_at,
    lines, offset_of_position, position_of_offset, lemma_cursor_after_step, lemma_cursor_after_bounds,
    lemma_cursor_after_increases, lemma_offset_of_reached_position, position_of_offset_of_position, cursor_after, screen_rows, split_lines_wrapped, string_from_bytes,
    wraps_on_char_boundaries,
};
use crate::utf8_facts::lemma_encode_concat;
use crate::format::{bool_text, decimal, push_bool, push_char, push_decimal};

verus! {

/// Where the cursor is on screen. `desired_x` is the column that vertical
/// movement tries to keep; `clip_right` records that the cursor sits at the
/// end of its line.
#[derive(Debug, Clone, Copy, PartialEq, Eq, Structural)]
pub struct CursorState {
    pub desired_x: usize,
    pub x: usize,
    pub y: usize,
    pub clip_right: bool,
}

/// A key, as the terminal reports it.
#[derive(Debug, Clone, Copy, PartialEq, Eq, Structural)]
pub enum KeyCode {
    Backspace,
    Enter,
    Left,
    Right,
    Up,
    Down,
    Home,
    End,
    PageUp,
    PageDown,
    Tab,
    BackTab,
    Delete,
    Insert,
    F(u8),
    Char(char),
    Null,
    Esc,
}

/// The modifier keys held with a key.
#[derive(Debug, Clone, Copy, PartialEq, Eq, Structural)]
pub struct KeyModifiers {
    pub shift: bool,
    pub control: bool,
    pub alt: bool,
}

/// A key press.
#[derive(Debug, Clone, Copy, PartialEq, Eq, Structural)]
pub struct KeyEvent {
    pub code: KeyCode,
    pub modifiers: KeyModifiers,
}

/// What the terminal reports: a key press, or something else (mouse,
/// resize) that the editor ignores.
#[derive(Debug, Clone, Copy, PartialEq, Eq, Structural)]
pub enum Event {
    Key(KeyEvent),
    Other,
}

/// Everything the editor knows: the document (a piece table over its two
/// buffers), the text typed but not yet committed (`running_buffer`), the
/// text on screen, the cursor, and the screen geometry.
#[derive(Debug, Clone)]
pub struct EditorState {
    pub piece_table: PieceTable,
    pub original_buffer: String,
    pub add_buffer: String,
    pub running_buffer: String,
    pub display_buffer: String,
    pub cursor_state: CursorState,
    pub line_offset: usize,
    pub insert_index: usize,
    pub printable_height: usize,
    pub printable_width: usize,
    pub line_wrap: bool,
    pub quit: bool,
}

/// The editor state as a mathematical value.
pub struct EditorView {
    pub pieces: Seq<Piece>,
    pub original: Seq<char>,
    pub add: Seq<char>,
    pub running: Seq<char>,
    pub display: Seq<char>,
    pub cursor: CursorState,
    pub line_offset: usize,
    pub insert_index: usize,
    pub printable_height: usize,
    pub printable_width: usize,
    pub line_wrap: bool,
    pub quit: bool,
}

impl View for EditorState {
    type V = EditorView;

    open spec fn view(&self) -> EditorView {
        EditorView {
            pieces: self.piece_table@,
            original: self.original_buffer@,
            add: self.add_buffer@,
            running: self.running_buffer@,
            display: self.display_buffer@,
            cursor: self.cursor_state,
            line_offset: self.line_offset,
            insert_index: self.insert_index,
            printable_height: self.printable_height,
            printable_width: self.printable_width,
            line_wrap: self.line_wrap,
            quit: self.quit,
        }
    }
}

/// Where text inserted at byte `k` of `doc` lands: at `k`, or at the end.
pub open spec fn insert_at(doc: Seq<u8>, k: int) -> int {
    if k < doc.len() {
        k
    } else {
        doc.len() as int
    }
}

impl EditorView {
    /// The document that the piece table describes.
    pub open spec fn document(self) -> Seq<u8> {
        table_text(self.pieces, bytes_of(self.original), bytes_of(self.add))
    }

    /// The bytes typed but not yet committed.
    pub open spec fn pending(self) -> Seq<u8> {
        bytes_of(self.running)
    }

    /// Every piece can be read from its buffer, and the text fits in memory
    /// with room for the pending text twice over: a move commits it and then
    /// measures the committed document plus the pending text again, and moves
    /// the insertion index past it.
    pub open spec fn well_formed(self) -> bool {
        &&& pieces_valid_for(self.pieces, bytes_of(self.original), bytes_of(self.add))
        &&& fits_in_memory(bytes_of(self.add).len() + self.pending().len())
        &&& fits_in_memory(self.document().len() + 2 * self.pending().len())
    }

    /// `text` committed to the piece table at byte `k` of the document.
    pub open spec fn with_committed(self, text: Seq<char>, k: int) -> EditorView {
        EditorView {
            pieces: table_after_insert(self.pieces, k, bytes_of(self.add).len() as int, bytes_of(text).len() as int),
            add: self.add + text,
            running: Seq::empty(),
            ..self
        }
    }

    /// Text can go in at byte `k` without splitting a character.
    pub open spec fn can_insert_at(self, k: int) -> bool {
        is_char_boundary(self.document(), insert_at(self.document(), k))
    }

    /// The pending text, if any, committed at the insertion index.
    pub open spec fn flushed(self) -> EditorView {
        if self.running.len() == 0 {
            self
        } else {
            self.with_committed(self.running, self.insert_index as int)
        }
    }

    /// The pending text, if any, can be committed at the insertion index.
    pub open spec fn can_flush(self) -> bool {
        self.running.len() > 0 ==> self.can_insert_at(self.insert_index as int)
    }
}

impl EditorState {
    /// The piece table has one entry per piece in each column, and the view
    /// is well formed.
    pub open spec fn well_formed(&self) -> bool {
        &&& self.piece_table.well_shaped()
        &&& self@.well_formed()
    }
}

/// Empty text has no bytes, and text with characters has some.
pub proof fn lemma_bytes_empty(s: Seq<char>)
    ensures
        (bytes_of(s).len() == 0) == (s.len() == 0),
{
    if s.len() > 0 {
        encode_utf8_first_scalar(s);
    }
}

/// Commits `text` at byte `k`: appends it to the add buffer and inserts a
/// piece for it.
fn commit_text(editor_state: EditorState, text: &String, k: usize) -> (res: EditorState)
    requires
        editor_state.well_formed(),
        fits_in_memory(bytes_of(editor_state.add_buffer@).len() + bytes_of(text@).len()),
        fits_in_memory(editor_state@.document().len() + bytes_of(text@).len()),
        editor_state@.can_insert_at(k as int),
    ensures
        res@ == editor_state@.with_committed(text@, k as int),
        res.well_formed(),
        res@.document() == ({
            let doc = editor_state@.document();
            let at = insert_at(doc, k as int);
            doc.take(at) + (bytes_of(text@) + doc.skip(at))
        }),
{
    let ghost v = editor_state@;
    let ghost ob = bytes_of(v.original);
    let ghost ab = bytes_of(v.add);
    let ghost tb = bytes_of(text@);
    proof {
        encode_utf8_valid_utf8(v.original);
        encode_utf8_valid_utf8(v.add);
        encode_utf8_valid_utf8(text@);
        lemma_valid_pieces_in_bounds(v.pieces, ob, ab);
        insert_table_inserts_text(v.pieces, ob, ab, tb, k as int);
        insert_table_keeps_pieces_valid(v.pieces, ob, ab, tb, k as int);
        crate::piece_table::lemma_piece_texts_len(v.pieces, ob, ab, v.pieces.len() as int);
        assert(crate::piece_table::piece_texts(v.pieces, ob, ab).take(v.pieces.len() as int) =~= crate::piece_table::piece_texts(v.pieces, ob, ab));
        lemma_encode_concat(v.add, text@);
    }
    let EditorState {
        piece_table,
        original_buffer,
        add_buffer,
        running_buffer,
        display_buffer,
        cursor_state,
        line_offset,
        insert_index,
        printable_height,
        printable_width,
        line_wrap,
        quit,
    } = editor_state;
    let (add_buffer, piece_table) = insert_table(add_buffer, piece_table, text, k);
    let res = EditorState {
        piece_table,
        original_buffer,
        add_buffer,
        running_buffer: String::new(),
        display_buffer,
        cursor_state,
        line_offset,
        insert_index,
        printable_height,
        printable_width,
        line_wrap,
        quit,
    };
    proof {
        assert(res@ =~= v.with_committed(text@, k as int));
    }
    res
}


/// Commits the pending text, if any, at the insertion index.
fn flush(editor_state: EditorState) -> (res: EditorState)
    requires
        editor_state.well_formed(),
        editor_state@.can_flush(),
    ensures
        res@ == editor_state@.flushed(),
        res.well_formed(),
        editor_state@.running.len() > 0 ==> res@.document() == ({
            let doc = editor_state@.document();
            let at = insert_at(doc, editor_state.insert_index as int);
            doc.take(at) + (editor_state@.pending() + doc.skip(at))
        }),
{
    proof {
        lemma_bytes_empty(editor_state.running_buffer@);
    }
    if editor_state.running_buffer.as_str().len() > 0 {
        let running = editor_state.running_buffer.clone();
        let k = editor_state.insert_index;
        commit_text(editor_state, &running, k)
    } else {
        editor_state
    }
}

/// The insertion index once pending text is committed, for a left move:
/// it moves past the committed text.
pub open spec fn index_after_flush_left(v: EditorView) -> int {
    if v.running.len() > 0 {
        v.insert_index + v.pending().len()
    } else {
        v.insert_index as int
    }
}

/// The state after the cursor moves one place left. Pending text is
/// committed first; the insertion index steps back one byte (not below 0).
/// In the middle of a line the cursor steps back one column; at the start of
/// a line below the first, it goes to the on-screen position of the new
/// insertion index, less the line offset; at the very start nothing moves.
pub open spec fn cursor_left(v: EditorView) -> EditorView {
    let c = v.flushed();
    let ii1 = index_after_flush_left(v);
    let ii = if ii1 > 0 { ii1 - 1 } else { 0 };
    let cur = v.cursor;
    if cur.x == 0 {
        if cur.y > 0 {
            let p = position_of_offset(c.document(), ii, v.printable_width, v.line_wrap);
            EditorView {
                insert_index: ii as usize,
                cursor: CursorState {
                    desired_x: p.0 as usize,
                    x: p.0 as usize,
                    y: (p.1 - v.line_offset) as usize,
                    clip_right: cur.clip_right,
                },
                ..c
            }
        } else {
            EditorView { insert_index: ii as usize, ..c }
        }
    } else {
        EditorView {
            insert_index: ii as usize,
            cursor: CursorState {
                desired_x: (cur.x - 1) as usize,
                x: (cur.x - 1) as usize,
                y: cur.y,
                clip_right: false,
            },
            ..c
        }
    }
}

/// A left move does not fail: pending text goes in between characters, the
/// insertion index stays representable, and a jump to the line above does
/// not land above the line offset.
pub open spec fn can_move_cursor_left(v: EditorView) -> bool {
    let ii1 = index_after_flush_left(v);
    let ii = if ii1 > 0 { ii1 - 1 } else { 0 };
    &&& v.can_flush()
    &&& ii1 <= usize::MAX
    &&& (v.cursor.x == 0 && v.cursor.y > 0 ==> position_of_offset(
        v.flushed().document(),
        ii,
        v.printable_width,
        v.line_wrap,
    ).1 >= v.line_offset)
}

/// Moves the cursor one place left, as `cursor_left` says.
pub fn move_cursor_left(editor_state: EditorState) -> (res: EditorState)
    requires
        editor_state.well_formed(),
        can_move_cursor_left(editor_state@),
    ensures
        res.well_formed(),
        res@ == cursor_left(editor_state@),
{
    let ghost v = editor_state@;
    let running_len = editor_state.running_buffer.as_str().len();
    proof {
        lemma_bytes_empty(v.running);
    }
    let mut editor_state = flush(editor_state);
    if running_len > 0 {
        editor_state.insert_index = editor_state.insert_index + running_len;
    }
    if editor_state.insert_index > 0 {
        editor_state.insert_index = editor_state.insert_index - 1;
    }
    if editor_state.cursor_state.x == 0 {
        if editor_state.cursor_state.y > 0 {
            let document = read_table(&editor_state.piece_table, &editor_state.original_buffer, &editor_state.add_buffer);
            let (x, y) = get_position_of_offset(&document, editor_state.insert_index, editor_state.printable_width, editor_state.line_wrap);
            editor_state.cursor_state.x = x;
            editor_state.cursor_state.y = y - editor_state.line_offset;
            editor_state.cursor_state.desired_x = x;
        }
    } else {
        editor_state.cursor_state.x = editor_state.cursor_state.x - 1;
        editor_state.cursor_state.desired_x = editor_state.cursor_state.x;
        editor_state.cursor_state.clip_right = false;
    }
    proof {
        assert(editor_state@ =~= cursor_left(v));
    }
    editor_state
}


/// The insertion index once pending text is committed, for moves right, up
/// and down: it moves past the committed text when it lies before the end of
/// the document plus the length of that text.
pub open spec fn index_after_flush(v: EditorView) -> int {
    if v.running.len() > 0 && v.insert_index < v.flushed().document().len() + v.pending().len() {
        v.insert_index + v.pending().len()
    } else {
        v.insert_index as int
    }
}

/// Commits the pending text and moves the insertion index as
/// `index_after_flush` says.
fn flush_and_advance(editor_state: EditorState) -> (res: EditorState)
    requires
        editor_state.well_formed(),
        editor_state@.can_flush(),
    ensures
        res.well_formed(),
        res@ == (EditorView { insert_index: index_after_flush(editor_state@) as usize, ..editor_state@.flushed() }),
        index_after_flush(editor_state@) <= usize::MAX,
{
    let ghost v = editor_state@;
    let running_len = editor_state.running_buffer.as_str().len();
    proof {
        lemma_bytes_empty(v.running);
        encode_utf8_valid_utf8(v.original);
        encode_utf8_valid_utf8(v.add);
    }
    let mut editor_state = flush(editor_state);
    if running_len > 0 {
        let document = read_table(&editor_state.piece_table, &editor_state.original_buffer, &editor_state.add_buffer);
        proof {
            assert(editor_state@.document().len() == v.document().len() + running_len);
        }
        if editor_state.insert_index < document.as_str().len() + running_len {
            editor_state.insert_index = editor_state.insert_index + running_len;
        }
    }
    proof {
        assert(editor_state@ =~= (EditorView { insert_index: index_after_flush(v) as usize, ..v.flushed() }));
    }
    editor_state
}

/// The state after the cursor moves one place right. Pending text is
/// committed first. Inside a line the cursor steps one column right and the
/// insertion index one byte; at the end of a line (by the width of screen
/// line `y + line_offset`) the insertion index steps one byte and the cursor
/// goes to its on-screen position, unless that would reach the end of the
/// document, in which case nothing moves.
pub open spec fn cursor_right(v: EditorView) -> EditorView {
    let c = v.flushed();
    let d = c.document();
    let ii1 = index_after_flush(v);
    let cur = v.cursor;
    if cur.x == line_width_at(d, cur.y + v.line_offset) {
        if ii1 + 1 < d.len() {
            let p = position_of_offset(d, ii1 + 1, v.printable_width, v.line_wrap);
            EditorView {
                insert_index: (ii1 + 1) as usize,
                cursor: CursorState {
                    desired_x: p.0 as usize,
                    x: p.0 as usize,
                    y: (p.1 - v.line_offset) as usize,
                    clip_right: cur.clip_right,
                },
                ..c
            }
        } else {
            EditorView { insert_index: ii1 as usize, ..c }
        }
    } else {
        EditorView {
            insert_index: (ii1 + 1) as usize,
            cursor: CursorState {
                desired_x: (cur.x + 1) as usize,
                x: (cur.x + 1) as usize,
                y: cur.y,
                clip_right: false,
            },
            ..c
        }
    }
}

/// A right move does not fail: pending text goes in between characters,
/// the line, index and column arithmetic stays representable, and a jump to
/// the next line does not land above the line offset.
pub open spec fn can_move_cursor_right(v: EditorView) -> bool {
    let d = v.flushed().document();
    let ii1 = index_after_flush(v);
    let cur = v.cursor;
    &&& v.can_flush()
    &&& cur.y + v.line_offset <= usize::MAX
    &&& (d.len() == 0 || cur.y + v.line_offset < usize::MAX)
    &&& ii1 < usize::MAX
    &&& (cur.x != line_width_at(d, cur.y + v.line_offset) ==> cur.x < usize::MAX)
    &&& (cur.x == line_width_at(d, cur.y + v.line_offset) && ii1 + 1 < d.len() ==> position_of_offset(
        d,
        ii1 + 1,
        v.printable_width,
        v.line_wrap,
    ).1 >= v.line_offset)
}

/// Moves the cursor one place right, as `cursor_right` says.
pub fn move_cursor_right(editor_state: EditorState) -> (res: EditorState)
    requires
        editor_state.well_formed(),
        can_move_cursor_right(editor_state@),
    ensures
        res.well_formed(),
        res@ == cursor_right(editor_state@),
{
    let ghost v = editor_state@;
    let mut editor_state = flush_and_advance(editor_state);
    let document = read_table(&editor_state.piece_table, &editor_state.original_buffer, &editor_state.add_buffer);
    let width = get_width_of_line(&document, editor_state.cursor_state.y + editor_state.line_offset);
    if editor_state.cursor_state.x == width {
        if editor_state.insert_index + 1 < document.as_str().len() {
            editor_state.insert_index = editor_state.insert_index + 1;
            let (x, y) = get_position_of_offset(&document, editor_state.insert_index, editor_state.printable_width, editor_state.line_wrap);
            editor_state.cursor_state.x = x;
            editor_state.cursor_state.y = y - editor_state.line_offset;
            editor_state.cursor_state.desired_x = x;
        }
    } else {
        editor_state.insert_index = editor_state.insert_index + 1;
        editor_state.cursor_state.x = editor_state.cursor_state.x + 1;
        editor_state.cursor_state.desired_x = editor_state.cursor_state.x;
        editor_state.cursor_state.clip_right = false;
    }
    proof {
        assert(editor_state@ =~= cursor_right(v));
    }
    editor_state
}

/// The state after the cursor moves one row down, if there is a row below
/// (`y + line_offset` before the last line). Pending text is committed
/// first. The cursor keeps its column, or goes to the end of the row below
/// when it was at the end of its own row (the width of line `y`) or the row
/// below is shorter; the insertion index becomes the offset of the new
/// position.
pub open spec fn cursor_down(v: EditorView) -> EditorView {
    let c = v.flushed();
    let d = c.document();
    let ii1 = index_after_flush(v);
    let cur = v.cursor;
    if cur.y + v.line_offset < lines(d).len() - 1 {
        let clip = cur.x == line_width_at(d, cur.y as int) || cur.clip_right;
        let below = line_width_at(d, cur.y + v.line_offset + 1);
        let y2 = cur.y + 1;
        if clip || cur.x >= below {
            EditorView {
                insert_index: offset_of_position(d, below, y2, v.printable_width, v.line_wrap) as usize,
                cursor: CursorState { desired_x: below as usize, x: below as usize, y: y2 as usize, clip_right: clip },
                ..c
            }
        } else {
            EditorView {
                insert_index: offset_of_position(d, cur.x as int, y2, v.printable_width, v.line_wrap) as usize,
                cursor: CursorState { desired_x: cur.x, x: cur.x, y: y2 as usize, clip_right: false },
                ..c
            }
        }
    } else {
        EditorView { insert_index: ii1 as usize, ..c }
    }
}

/// A down move does not fail: pending text goes in between characters and
/// the row arithmetic stays representable.
pub open spec fn can_move_cursor_down(v: EditorView) -> bool {
    &&& v.can_flush()
    &&& v.cursor.y + v.line_offset <= usize::MAX
}

/// Moves the cursor one row down, as `cursor_down` says.
pub fn move_cursor_down(editor_state: EditorState) -> (res: EditorState)
    requires
        editor_state.well_formed(),
        can_move_cursor_down(editor_state@),
    ensures
        res.well_formed(),
        res@ == cursor_down(editor_state@),
{
    let ghost v = editor_state@;
    let mut editor_state = flush_and_advance(editor_state);
    let document = read_table(&editor_state.piece_table, &editor_state.original_buffer, &editor_state.add_buffer);
    proof {
        crate::text::lemma_lines_count_bound(bytes_of(document@));
    }
    if editor_state.cursor_state.y + editor_state.line_offset < get_number_of_lines(&document) {
        if editor_state.cursor_state.x == get_width_of_line(&document, editor_state.cursor_state.y) {
            editor_state.cursor_state.clip_right = true;
        }
        let length_of_below_line = get_width_of_line(&document, editor_state.cursor_state.y + editor_state.line_offset + 1);
        if editor_state.cursor_state.clip_right || editor_state.cursor_state.x >= length_of_below_line {
            editor_state.cursor_state.y = editor_state.cursor_state.y + 1;
            editor_state.cursor_state.x = length_of_below_line;
            editor_state.cursor_state.desired_x = editor_state.cursor_state.x;
            editor_state.insert_index = get_offset_of_position(&document, editor_state.cursor_state.x, editor_state.cursor_state.y, editor_state.printable_width, editor_state.line_wrap);
        } else {
            editor_state.cursor_state.y = editor_state.cursor_state.y + 1;
            editor_state.cursor_state.desired_x = editor_state.cursor_state.x;
            editor_state.cursor_state.clip_right = false;
            editor_state.insert_index = get_offset_of_position(&document, editor_state.cursor_state.x, editor_state.cursor_state.y, editor_state.printable_width, editor_state.line_wrap);
        }
    }
    proof {
        assert(editor_state@ =~= cursor_down(v));
    }
    editor_state
}

/// The state after the cursor moves one row up, if `y + line_offset` is
/// above 0. Pending text is committed first. The cursor keeps its column,
/// or goes to the end of the row above when it was at the end of its own
/// row (the width of line `y`) or the row above is shorter; the insertion
/// index becomes the offset of the new position.
pub open spec fn cursor_up(v: EditorView) -> EditorView {
    let c = v.flushed();
    let d = c.document();
    let ii1 = index_after_flush(v);
    let cur = v.cursor;
    if cur.y + v.line_offset > 0 {
        let clip = cur.x == line_width_at(d, cur.y as int) || cur.clip_right;
        let above = line_width_at(d, cur.y + v.line_offset - 1);
        let y2 = cur.y - 1;
        if clip || cur.x >= above {
            EditorView {
                insert_index: offset_of_position(d, above, y2, v.printable_width, v.line_wrap) as usize,
                cursor: CursorState { desired_x: above as usize, x: above as usize, y: y2 as usize, clip_right: clip },
                ..c
            }
        } else {
            EditorView {
                insert_index: offset_of_position(d, cur.x as int, y2, v.printable_width, v.line_wrap) as usize,
                cursor: CursorState { desired_x: cur.x, x: cur.x, y: y2 as usize, clip_right: false },
                ..c
            }
        }
    } else {
        EditorView { insert_index: ii1 as usize, ..c }
    }
}

/// An up move does not fail: pending text goes in between characters, the
/// row arithmetic stays representable, and a move up from screen row 0 only
/// happens when the line offset is 0.
pub open spec fn can_move_cursor_up(v: EditorView) -> bool {
    let d = v.flushed().document();
    &&& v.can_flush()
    &&& v.cursor.y + v.line_offset <= usize::MAX
    &&& (v.cursor.y + v.line_offset > 0 ==> v.cursor.y > 0)
    &&& (v.cursor.y + v.line_offset > 0 ==> d.len() == 0 || v.cursor.y < usize::MAX)
}

/// Moves the cursor one row up, as `cursor_up` says.
pub fn move_cursor_up(editor_state: EditorState) -> (res: EditorState)
    requires
        editor_state.well_formed(),
        can_move_cursor_up(editor_state@),
    ensures
        res.well_formed(),
        res@ == cursor_up(editor_state@),
{
    let ghost v = editor_state@;
    let mut editor_state = flush_and_advance(editor_state);
    let document = read_table(&editor_state.piece_table, &editor_state.original_buffer, &editor_state.add_buffer);
    if editor_state.cursor_state.y + editor_state.line_offset > 0 {
        if editor_state.cursor_state.x == get_width_of_line(&document, editor_state.cursor_state.y) {
            editor_state.cursor_state.clip_right = true;
        }
        let length_of_above_line = get_width_of_line(&document, editor_state.cursor_state.y + editor_state.line_offset - 1);
        if editor_state.cursor_state.clip_right || editor_state.cursor_state.x >= length_of_above_line {
            editor_state.cursor_state.y = editor_state.cursor_state.y - 1;
            editor_state.cursor_state.x = length_of_above_line;
            editor_state.cursor_state.desired_x = editor_state.cursor_state.x;
            editor_state.insert_index = get_offset_of_position(&document, editor_state.cursor_state.x, editor_state.cursor_state.y, editor_state.printable_width, editor_state.line_wrap);
        } else {
            editor_state.cursor_state.y = editor_state.cursor_state.y - 1;
            editor_state.cursor_state.desired_x = editor_state.cursor_state.x;
            editor_state.cursor_state.clip_right = false;
            editor_state.insert_index = get_offset_of_position(&document, editor_state.cursor_state.x, editor_state.cursor_state.y, editor_state.printable_width, editor_state.line_wrap);
        }
    }
    proof {
        assert(editor_state@ =~= cursor_up(v));
    }
    editor_state
}


/// Where typed text goes: with nothing pending, the offset of the cursor's
/// position (row `y + line_offset`) in the document; otherwise the
/// insertion index, where the pending text will go.
pub open spec fn typing_index(v: EditorView) -> int {
    if v.running.len() == 0 {
        offset_of_position(
            v.document(),
            v.cursor.x as int,
            v.cursor.y + v.line_offset,
            v.printable_width,
            v.line_wrap,
        )
    } else {
        v.insert_index as int
    }
}

/// The state after key `c` is typed. A space is committed at once together
/// with the pending text, and the cursor moves one column right. Enter is
/// committed the same way, the insertion index moves past the committed
/// text, and the cursor goes to the start of the next row. Any other
/// character joins the pending text and moves the cursor one column right.
/// Other keys only fix the insertion index.
pub open spec fn text_input(v: EditorView, c: KeyCode) -> EditorView {
    let ii = typing_index(v);
    let cur = v.cursor;
    match c {
        KeyCode::Char(ch) => {
            if ch == ' ' {
                EditorView {
                    insert_index: ii as usize,
                    cursor: CursorState { desired_x: (cur.x + 1) as usize, x: (cur.x + 1) as usize, ..cur },
                    ..v.with_committed(v.running.push(' '), ii)
                }
            } else {
                EditorView {
                    running: v.running.push(ch),
                    insert_index: ii as usize,
                    cursor: CursorState { desired_x: (cur.desired_x + 1) as usize, x: (cur.x + 1) as usize, ..cur },
                    ..v
                }
            }
        },
        KeyCode::Enter => {
            let t = v.running.push('\n');
            EditorView {
                insert_index: (ii + bytes_of(t).len()) as usize,
                cursor: CursorState { desired_x: 0, x: 0, y: (cur.y + 1) as usize, ..cur },
                ..v.with_committed(t, ii)
            }
        },
        _ => EditorView { insert_index: ii as usize, ..v },
    }
}

/// Typing `c` does not fail: committed text goes in between characters,
/// the text still fits in memory, and the cursor arithmetic stays
/// representable.
pub open spec fn can_process_text_input(v: EditorView, c: KeyCode) -> bool {
    let ii = typing_index(v);
    let cur = v.cursor;
    let ab = bytes_of(v.add).len();
    let d = v.document().len();
    &&& (v.running.len() == 0 ==> cur.y + v.line_offset <= usize::MAX)
    &&& match c {
        KeyCode::Char(ch) => {
            let t = bytes_of(v.running.push(ch)).len();
            if ch == ' ' {
                &&& v.can_insert_at(ii)
                &&& fits_in_memory(ab + t)
                &&& fits_in_memory(d + t)
                &&& cur.x < usize::MAX
            } else {
                &&& fits_in_memory(ab + t)
                &&& fits_in_memory(d + 2 * t)
                &&& cur.x < usize::MAX
                &&& cur.desired_x < usize::MAX
            }
        },
        KeyCode::Enter => {
            let t = bytes_of(v.running.push('\n')).len();
            &&& v.can_insert_at(ii)
            &&& fits_in_memory(ab + t)
            &&& fits_in_memory(d + t)
            &&& ii + t <= usize::MAX
            &&& cur.y < usize::MAX
        },
        _ => true,
    }
}

/// Handles a typed key, as `text_input` says.
pub fn process_text_input(editor_state: EditorState, c: KeyCode, _m: KeyModifiers) -> (res: EditorState)
    requires
        editor_state.well_formed(),
        can_process_text_input(editor_state@, c),
    ensures
        res.well_formed(),
        res@ == text_input(editor_state@, c),
{
    let ghost v = editor_state@;
    let mut editor_state = editor_state;
    proof {
        lemma_bytes_empty(v.running);
    }
    if editor_state.running_buffer.as_str().len() == 0 {
        let document = read_table(&editor_state.piece_table, &editor_state.original_buffer, &editor_state.add_buffer);
        editor_state.insert_index = get_offset_of_position(
            &document,
            editor_state.cursor_state.x,
            editor_state.cursor_state.y + editor_state.line_offset,
            editor_state.printable_width,
            editor_state.line_wrap,
        );
    }
    assert(editor_state@ == (EditorView { insert_index: typing_index(v) as usize, ..v }));
    match c {
        KeyCode::Char(ch) => {
            if ch == ' ' {
                let mut text = editor_state.running_buffer.clone();
                push_char(&mut text, ' ');
                let k = editor_state.insert_index;
                editor_state = commit_text(editor_state, &text, k);
                editor_state.cursor_state.x = editor_state.cursor_state.x + 1;
                editor_state.cursor_state.desired_x = editor_state.cursor_state.x;
            } else {
                push_char(&mut editor_state.running_buffer, ch);
                editor_state.cursor_state.desired_x = editor_state.cursor_state.desired_x + 1;
                editor_state.cursor_state.x = editor_state.cursor_state.x + 1;
            }
        },
        KeyCode::Enter => {
            let mut text = editor_state.running_buffer.clone();
            push_char(&mut text, '\n');
            let k = editor_state.insert_index;
            let text_len = text.as_str().len();
            editor_state = commit_text(editor_state, &text, k);
            editor_state.insert_index = editor_state.insert_index + text_len;
            editor_state.cursor_state.desired_x = 0;
            editor_state.cursor_state.x = 0;
            editor_state.cursor_state.y = editor_state.cursor_state.y + 1;
        },
        _ => {},
    }
    proof {
        assert(editor_state@ =~= text_input(v, c));
    }
    editor_state
}


/// Control held, and nothing else.
pub open spec fn control_only(m: KeyModifiers) -> bool {
    m == KeyModifiers { shift: false, control: true, alt: false }
}

/// Alt held, and nothing else.
pub open spec fn alt_only(m: KeyModifiers) -> bool {
    m == KeyModifiers { shift: false, control: false, alt: true }
}

/// What the editor asks the terminal to do besides redrawing.
#[derive(Debug, Clone)]
pub enum EditorAction {
    /// Nothing.
    Nothing,
    /// Clear the screen and print the message.
    ShowMessage(String),
}

/// The message that an event asks the editor to show, if any: Ctrl-h shows
/// a short description, Alt-k says that it was typed.
pub open spec fn event_message(e: Event) -> Option<Seq<char>> {
    match e {
        Event::Key(k) => {
            if k.code == KeyCode::Char('h') && control_only(k.modifiers) {
                Some("This is a minimalist text editor."@)
            } else if k.code == KeyCode::Char('k') && alt_only(k.modifiers) {
                Some("You typed alt-k"@)
            } else {
                None
            }
        },
        Event::Other => None,
    }
}

/// The state after an event: Ctrl-h and Alt-k change nothing, Ctrl-q asks
/// to quit, the arrow keys move the cursor, any other key is typed, and
/// other events change nothing.
pub open spec fn editor_update(v: EditorView, e: Event) -> EditorView {
    match e {
        Event::Key(k) => {
            if k.code == KeyCode::Char('h') && control_only(k.modifiers) {
                v
            } else if k.code == KeyCode::Char('k') && alt_only(k.modifiers) {
                v
            } else if k.code == KeyCode::Char('q') && control_only(k.modifiers) {
                EditorView { quit: true, ..v }
            } else {
                match k.code {
                    KeyCode::Left => cursor_left(v),
                    KeyCode::Right => cursor_right(v),
                    KeyCode::Up => cursor_up(v),
                    KeyCode::Down => cursor_down(v),
                    _ => text_input(v, k.code),
                }
            }
        },
        Event::Other => v,
    }
}

/// An event can be handled without failing.
pub open spec fn can_update_editor_state(v: EditorView, e: Event) -> bool {
    match e {
        Event::Key(k) => {
            if k.code == KeyCode::Char('h') && control_only(k.modifiers) {
                true
            } else if k.code == KeyCode::Char('k') && alt_only(k.modifiers) {
                true
            } else if k.code == KeyCode::Char('q') && control_only(k.modifiers) {
                true
            } else {
                match k.code {
                    KeyCode::Left => can_move_cursor_left(v),
                    KeyCode::Right => can_move_cursor_right(v),
                    KeyCode::Up => can_move_cursor_up(v),
                    KeyCode::Down => can_move_cursor_down(v),
                    _ => can_process_text_input(v, k.code),
                }
            }
        },
        Event::Other => true,
    }
}

/// Reacts to one event, as `editor_update` and `event_message` say.
pub fn update_editor_state(editor_state: EditorState, event: Event) -> (res: (EditorState, EditorAction))
    requires
        editor_state.well_formed(),
        can_update_editor_state(editor_state@, event),
    ensures
        res.0.well_formed(),
        res.0@ == editor_update(editor_state@, event),
        match res.1 {
            EditorAction::Nothing => event_message(event) is None,
            EditorAction::ShowMessage(m) => event_message(event) == Some(m@),
        },
{
    let control = KeyModifiers { shift: false, control: true, alt: false };
    let alt = KeyModifiers { shift: false, control: false, alt: true };
    match event {
        Event::Key(k) => {
            if k.code == KeyCode::Char('h') && k.modifiers == control {
                (editor_state, EditorAction::ShowMessage(String::from_str("This is a minimalist text editor.")))
            } else if k.code == KeyCode::Char('k') && k.modifiers == alt {
                (editor_state, EditorAction::ShowMessage(String::from_str("You typed alt-k")))
            } else if k.code == KeyCode::Char('q') && k.modifiers == control {
                let mut editor_state = editor_state;
                editor_state.quit = true;
                (editor_state, EditorAction::Nothing)
            } else {
                match k.code {
                    KeyCode::Left => (move_cursor_left(editor_state), EditorAction::Nothing),
                    KeyCode::Right => (move_cursor_right(editor_state), EditorAction::Nothing),
                    KeyCode::Up => (move_cursor_up(editor_state), EditorAction::Nothing),
                    KeyCode::Down => (move_cursor_down(editor_state), EditorAction::Nothing),
                    _ => (process_text_input(editor_state, k.code, k.modifiers), EditorAction::Nothing),
                }
            }
        },
        Event::Other => (editor_state, EditorAction::Nothing),
    }
}


/// The cursor as it is displayed.
pub open spec fn cursor_text(c: CursorState) -> Seq<char> {
    "desired_x: "@ + decimal(c.desired_x as nat) + "(x, y): ("@ + decimal(c.x as nat) + ","@ + decimal(c.y as nat)
        + ")"@ + "clip_right: "@ + bool_text(c.clip_right)
}

impl CursorState {
    /// The cursor as `desired_x: D(x, y): (X,Y)clip_right: B`.
    pub fn to_display_string(&self) -> (text: String)
        ensures
            text@ == cursor_text(*self),
    {
        let mut result = String::from_str("desired_x: ");
        push_decimal(&mut result, self.desired_x);
        result.append("(x, y): (");
        push_decimal(&mut result, self.x);
        result.append(",");
        push_decimal(&mut result, self.y);
        result.append(")");
        result.append("clip_right: ");
        push_bool(&mut result, self.clip_right);
        proof {
            assert(result@ =~= cursor_text(*self));
        }
        result
    }
}

/// The screen shows the whole document including the pending text, put in
/// where it will be committed: at the insertion index, which is a byte
/// offset into the document, as for the piece table (not a count of
/// characters, as `insert_string` takes).
pub open spec fn with_display_refreshed(v: EditorView) -> EditorView {
    let doc = v.document();
    let ii = v.insert_index as int;
    EditorView {
        display: decode_utf8(doc.take(ii)) + v.running + decode_utf8(doc.skip(ii)),
        ..v
    }
}

/// Recomputes the text on screen, as `with_display_refreshed` says.
pub fn refresh_display_buffer(editor_state: EditorState) -> (res: EditorState)
    requires
        editor_state.well_formed(),
        is_char_boundary(editor_state@.document(), editor_state.insert_index as int),
    ensures
        res.well_formed(),
        res@ == with_display_refreshed(editor_state@),
{
    let ghost v = editor_state@;
    let mut editor_state = editor_state;
    let document = read_table(&editor_state.piece_table, &editor_state.original_buffer, &editor_state.add_buffer);
    let (before, after) = document.as_str().split_at(editor_state.insert_index);
    let mut display = String::from_str(before);
    display.append(editor_state.running_buffer.as_str());
    display.append(after);
    proof {
        let doc = v.document();
        let ii = v.insert_index as int;
        assert(doc.subrange(0, ii) =~= doc.take(ii));
        assert(doc.subrange(ii, doc.len() as int) =~= doc.skip(ii));
        encode_utf8_decode_utf8(before@);
        encode_utf8_decode_utf8(after@);
    }
    editor_state.display_buffer = display;
    proof {
        assert(editor_state@ =~= with_display_refreshed(v));
    }
    editor_state
}

/// Where the page on screen starts and the cut-off applied after it: the
/// offsets of the start of screen rows `line_offset` and
/// `line_offset + printable_height` in the text on screen.
pub open spec fn page_bounds(v: EditorView) -> (int, int) {
    let d = bytes_of(v.display);
    (
        offset_of_position(d, 0, v.line_offset as int, v.printable_width, v.line_wrap),
        offset_of_position(d, 0, v.line_offset + v.printable_height, v.printable_width, v.line_wrap),
    )
}

/// The page: the text on screen from the page start to the page end.
pub open spec fn page_text(v: EditorView) -> Seq<u8> {
    let (s, e) = page_bounds(v);
    bytes_of(v.display).subrange(s, e)
}

/// What the screen shows: nothing when the line offset is past the last
/// line; otherwise the page, laid out in rows and cut to the screen height.
pub open spec fn rendered_screen(v: EditorView) -> Option<Seq<u8>> {
    let d = bytes_of(v.display);
    if v.line_offset > lines(d).len() - 1 {
        None
    } else {
        Some(join_lines(screen_rows(page_text(v), v.printable_height, v.printable_width, v.line_wrap)))
    }
}

/// The page can be cut out of the text on screen and laid out without
/// failing.
pub open spec fn can_render_editor(v: EditorView) -> bool {
    let d = bytes_of(v.display);
    let (s, e) = page_bounds(v);
    &&& fits_in_memory(d.len())
    &&& v.line_offset + v.printable_height <= usize::MAX
    &&& (v.line_offset <= lines(d).len() - 1 ==> {
        &&& s <= e <= d.len()
        &&& valid_utf8(page_text(v))
        &&& (v.line_wrap ==> v.printable_width > 0 && wraps_on_char_boundaries(page_text(v), v.printable_width))
    })
}

/// The page of text to draw, as `rendered_screen` says.
pub fn render_editor(editor_state: &EditorState) -> (screen: Option<String>)
    requires
        can_render_editor(editor_state@),
    ensures
        match screen {
            None => rendered_screen(editor_state@) is None,
            Some(s) => rendered_screen(editor_state@) == Some(bytes_of(s@)),
        },
{
    let display = &editor_state.display_buffer;
    if editor_state.line_offset > get_number_of_lines(display) {
        return None;
    }
    let start_of_page = get_offset_of_position(display, 0, editor_state.line_offset, editor_state.printable_width, editor_state.line_wrap);
    let end_of_page = get_offset_of_position(
        display,
        0,
        editor_state.line_offset + editor_state.printable_height,
        editor_state.printable_width,
        editor_state.line_wrap,
    );
    let bytes = display.as_str().as_bytes();
    let page = string_from_bytes(bytes, start_of_page, end_of_page);
    Some(split_lines_wrapped(page, editor_state.printable_height, editor_state.printable_width, editor_state.line_wrap))
}


/// Committing the pending text puts it into the document at the insertion
/// index, or at the end when the index is past it.
pub proof fn lemma_flushed_document(v: EditorView)
    requires
        v.well_formed(),
    ensures
        ({
            let doc = v.document();
            let at = insert_at(doc, v.insert_index as int);
            v.flushed().document() == doc.take(at) + (v.pending() + doc.skip(at))
        }),
        v.flushed().add == v.add + v.running,
        v.flushed().original == v.original,
        v.flushed().running.len() == 0,
{
    let ob = bytes_of(v.original);
    let ab = bytes_of(v.add);
    let doc = v.document();
    let at = insert_at(doc, v.insert_index as int);
    if v.running.len() == 0 {
        lemma_bytes_empty(v.running);
        assert(v.pending() =~= Seq::<u8>::empty());
        assert(doc.take(at) + (v.pending() + doc.skip(at)) =~= doc);
        assert(v.add + v.running =~= v.add);
    } else {
        lemma_valid_pieces_in_bounds(v.pieces, ob, ab);
        insert_table_inserts_text(v.pieces, ob, ab, v.pending(), v.insert_index as int);
        lemma_encode_concat(v.add, v.running);
    }
}

/// Cursor moves change no text beyond committing what was typed: after a
/// move in any direction the document is the old document with the pending
/// text put in at the insertion index (or at its end), the original buffer
/// is untouched, the add buffer has only grown by the pending text, and
/// nothing is pending any more.
pub proof fn cursor_moves_only_commit(v: EditorView)
    requires
        v.well_formed(),
        v.can_flush(),
    ensures
        ({
            let doc = v.document();
            let at = insert_at(doc, v.insert_index as int);
            let committed = doc.take(at) + (v.pending() + doc.skip(at));
            &&& cursor_left(v).document() == committed
            &&& cursor_right(v).document() == committed
            &&& cursor_up(v).document() == committed
            &&& cursor_down(v).document() == committed
            &&& cursor_left(v).original == v.original && cursor_left(v).add == v.add + v.running
            &&& cursor_right(v).original == v.original && cursor_right(v).add == v.add + v.running
            &&& cursor_up(v).original == v.original && cursor_up(v).add == v.add + v.running
            &&& cursor_down(v).original == v.original && cursor_down(v).add == v.add + v.running
            &&& cursor_left(v).running.len() == 0 && cursor_right(v).running.len() == 0
            &&& cursor_up(v).running.len() == 0 && cursor_down(v).running.len() == 0
        }),
{
    lemma_flushed_document(v);
}

/// What the screen shows of typed text is what the document will hold once
/// it is committed: the text on screen is the committed document.
pub proof fn display_shows_committed_text(v: EditorView)
    requires
        v.well_formed(),
        is_char_boundary(v.document(), v.insert_index as int),
    ensures
        bytes_of(with_display_refreshed(v).display) == ({
            let doc = v.document();
            let at = insert_at(doc, v.insert_index as int);
            doc.take(at) + (v.pending() + doc.skip(at))
        }),
        bytes_of(with_display_refreshed(v).display) == v.flushed().document(),
{
    let ob = bytes_of(v.original);
    let ab = bytes_of(v.add);
    let doc = v.document();
    let ii = v.insert_index as int;
    encode_utf8_valid_utf8(v.original);
    encode_utf8_valid_utf8(v.add);
    lemma_table_text_valid(v.pieces, ob, ab);
    crate::utf8_facts::lemma_boundary_range(doc, ii);
    valid_utf8_split(doc, ii);
    assert(doc.subrange(0, ii) =~= doc.take(ii));
    assert(doc.subrange(ii, doc.len() as int) =~= doc.skip(ii));
    decode_utf8_encode_utf8(doc.take(ii));
    decode_utf8_encode_utf8(doc.skip(ii));
    let pre = decode_utf8(doc.take(ii));
    let post = decode_utf8(doc.skip(ii));
    lemma_encode_concat(pre, v.running);
    lemma_encode_concat(pre + v.running, post);
    assert(insert_at(doc, ii) == ii);
    lemma_flushed_document(v);
}

/// The cursor and the insertion index name one position of the document,
/// laid out without wrapping: the cursor stands on a line of the document,
/// no further right than its end, and the insertion index is the offset of
/// that position.
pub open spec fn cursor_at_insert_index(v: EditorView) -> bool {
    let d = v.document();
    let c = v.cursor;
    &&& c.y < lines(d).len()
    &&& c.x <= line_width_at(d, c.y as int)
    &&& v.insert_index == offset_of_position(d, c.x as int, c.y as int, v.printable_width, false)
}

/// A left move keeps the cursor on the insertion index.
proof fn lemma_left_keeps_insert_index(v: EditorView)
    requires
        v.well_formed(),
        v.running.len() == 0,
        !v.line_wrap,
        v.line_offset == 0,
        cursor_at_insert_index(v),
    ensures
        cursor_at_insert_index(cursor_left(v)),
        cursor_left(v).document() == v.document(),
{
    let d = v.document();
    let w = v.printable_width;
    let ii = v.insert_index as int;
    let x = v.cursor.x as int;
    let y = v.cursor.y as int;
    assert(v.flushed() == v);
    assert(d.len() <= isize::MAX);
    crate::text::lemma_lines_count_bound(d);
    position_of_offset_of_position(d, x, y, w);
    assert(d.take(0) =~= Seq::<u8>::empty());
    if x > 0 {
        lemma_cursor_after_step(d, ii - 1, w, false);
        lemma_offset_of_reached_position(d, ii - 1, w);
    } else if y > 0 {
        lemma_offset_of_reached_position(d, ii - 1, w);
        lemma_cursor_after_bounds(d.take(ii - 1), w, false);
    } else if ii > 0 {
        lemma_cursor_after_increases(d, 0, ii, w, false);
    }
}

/// A right move keeps the cursor on the insertion index.
proof fn lemma_right_keeps_insert_index(v: EditorView)
    requires
        v.well_formed(),
        v.running.len() == 0,
        !v.line_wrap,
        v.line_offset == 0,
        cursor_at_insert_index(v),
    ensures
        cursor_at_insert_index(cursor_right(v)),
        cursor_right(v).document() == v.document(),
{
    let d = v.document();
    let w = v.printable_width;
    let ii = v.insert_index as int;
    let x = v.cursor.x as int;
    let y = v.cursor.y as int;
    assert(v.flushed() == v);
    assert(d.len() <= isize::MAX);
    crate::text::lemma_lines_count_bound(d);
    position_of_offset_of_position(d, x, y, w);
    assert(d.take(0) =~= Seq::<u8>::empty());
    if x == line_width_at(d, y) {
        if ii + 1 < d.len() {
            lemma_offset_of_reached_position(d, ii + 1, w);
            lemma_cursor_after_bounds(d.take(ii + 1), w, false);
        }
    } else {
        position_of_offset_of_position(d, x + 1, y, w);
        let k = offset_of_position(d, x + 1, y, w, false);
        lemma_cursor_after_bounds(d.take(k), w, false);
        if k < ii {
            lemma_cursor_after_increases(d, k, ii, w, false);
        }
        lemma_cursor_after_step(d, ii, w, false);
        if k > ii + 1 {
            lemma_cursor_after_increases(d, ii + 1, k, w, false);
        }
        lemma_offset_of_reached_position(d, ii + 1, w);
        assert(cursor_after(d.take(ii + 1), w, false) == (x + 1, y));
    }
}

/// Up and down moves land on a line of the document, with the insertion
/// index at the new position.
proof fn lemma_vertical_keeps_insert_index(v: EditorView)
    requires
        v.well_formed(),
        v.running.len() == 0,
        !v.line_wrap,
        v.line_offset == 0,
        cursor_at_insert_index(v),
    ensures
        cursor_at_insert_index(cursor_up(v)),
        cursor_at_insert_index(cursor_down(v)),
        cursor_up(v).document() == v.document(),
        cursor_down(v).document() == v.document(),
{
    let d = v.document();
    let w = v.printable_width;
    let ii = v.insert_index as int;
    let x = v.cursor.x as int;
    let y = v.cursor.y as int;
    assert(v.flushed() == v);
    assert(d.len() <= isize::MAX);
    crate::text::lemma_lines_count_bound(d);
    position_of_offset_of_position(d, x, y, w);
    assert(d.take(0) =~= Seq::<u8>::empty());
    if y < lines(d).len() - 1 {
        let below = line_width_at(d, y + 1);
        position_of_offset_of_position(d, below, y + 1, w);
        lemma_cursor_after_bounds(d.take(offset_of_position(d, below, y + 1, w, false)), w, false);
        lemma_offset_of_position(d, x, y + 1, w, false, 0);
    }
    if y > 0 {
        let above = line_width_at(d, y - 1);
        position_of_offset_of_position(d, above, y - 1, w);
        lemma_cursor_after_bounds(d.take(offset_of_position(d, above, y - 1, w, false)), w, false);
        lemma_offset_of_position(d, x, y - 1, w, false, 0);
    }
}

/// With nothing pending, no wrapping and no line offset, every cursor move
/// keeps the cursor and the insertion index on one position of the
/// document, and leaves the document as it was.
pub proof fn cursor_moves_keep_insert_index(v: EditorView)
    requires
        v.well_formed(),
        v.running.len() == 0,
        !v.line_wrap,
        v.line_offset == 0,
        cursor_at_insert_index(v),
    ensures
        cursor_at_insert_index(cursor_left(v)),
        cursor_at_insert_index(cursor_right(v)),
        cursor_at_insert_index(cursor_up(v)),
        cursor_at_insert_index(cursor_down(v)),
        cursor_left(v).document() == v.document(),
        cursor_right(v).document() == v.document(),
        cursor_up(v).document() == v.document(),
        cursor_down(v).document() == v.document(),
{
    lemma_left_keeps_insert_index(v);
    lemma_right_keeps_insert_index(v);
    lemma_vertical_keeps_insert_index(v);
}

} // verus!
