//! Run-time tests of the conditions under which the editor operations can
//! run, for callers that cannot prove them.

use vstd::prelude::*;
use vstd::utf8::*;
use crate::editor::{
    can_move_cursor_down, can_move_cursor_left, can_move_cursor_right, can_move_cursor_up, can_process_text_input,
    can_render_editor, can_update_editor_state, lemma_bytes_empty, lemma_flushed_document, page_bounds,
    page_text, typing_index, EditorState, EditorView, Event, KeyCode,
};
use crate::format::push_char;
use crate::piece_table::{
    lemma_prefix_len_mono, lemma_valid_pieces_in_bounds, piece_valid_for, prefix_len, read_table,
    table_length_is_text_length, Buffer,
};
use crate::text::{
    bytes_of, fits_in_memory, get_number_of_lines, get_offset_of_position, get_position_of_offset,
    get_width_of_line, string_from_bytes, wraps_cleanly,
};
use crate::utf8_facts::{
    lemma_encode_concat, lemma_valid_between, lemma_valid_prefix_boundary,
};

verus! {

/// `a + b` fits in memory, computed without overflow.
fn sum_fits(a: usize, b: usize) -> (ok: bool)
    ensures
        ok == fits_in_memory((a + b) as nat),
{
    let limit: usize = isize::MAX as usize;
    b <= limit && a <= limit - b
}

impl EditorState {
    /// Whether the state is well formed: every piece can be read from its
    /// buffer and the text fits in memory.
    pub fn is_well_formed(&self) -> (ok: bool)
        ensures
            ok == self.well_formed(),
    {
        let ghost v = self@;
        let ghost ob = bytes_of(self.original_buffer@);
        let ghost ab = bytes_of(self.add_buffer@);
        let pt = &self.piece_table;
        let n = pt.which.len();
        if pt.start.len() != n || pt.end.len() != n {
            return false;
        }
        let limit: usize = isize::MAX as usize;
        let mut total: usize = 0;
        let mut i: usize = 0;
        while i < n
            invariant
                v == self@,
                ob == bytes_of(v.original),
                ab == bytes_of(v.add),
                self.piece_table.well_shaped(),
                n == v.pieces.len(),
                limit == isize::MAX,
                i <= n,
                forall|j: int| 0 <= j < i ==> piece_valid_for(#[trigger] v.pieces[j], ob, ab),
                total == prefix_len(v.pieces, i as int),
                total <= limit,
            decreases n - i,
        {
            let buffer: &str = match self.piece_table.which[i] {
                Buffer::Add => self.add_buffer.as_str(),
                Buffer::Original => self.original_buffer.as_str(),
            };
            let s = self.piece_table.start[i];
            let e = self.piece_table.end[i];
            proof {
                assert(v.pieces[i as int] == (self.piece_table.which@[i as int], s as int, e as int));
                assert(crate::piece_table::buffer_of(v.pieces[i as int], ob, ab) == encode_utf8(buffer@));
            }
            if !(s <= e && e <= buffer.as_bytes().len() && buffer.is_char_boundary(s) && buffer.is_char_boundary(e)) {
                return false;
            }
            if e - s > limit - total {
                proof {
                    if self.well_formed() {
                        assert forall|j: int| 0 <= j < n implies 0 <= (#[trigger] v.pieces[j]).1 <= v.pieces[j].2 by {
                            assert(piece_valid_for(v.pieces[j], ob, ab));
                        }
                        lemma_valid_pieces_in_bounds(v.pieces, ob, ab);
                        lemma_prefix_len_mono(v.pieces, i + 1, n as int);
                        table_length_is_text_length(v.pieces, ob, ab);
                    }
                }
                return false;
            }
            total = total + (e - s);
            i += 1;
        }
        proof {
            lemma_valid_pieces_in_bounds(v.pieces, ob, ab);
            table_length_is_text_length(v.pieces, ob, ab);
        }
        let add_len = self.add_buffer.as_str().as_bytes().len();
        let running_len = self.running_buffer.as_str().as_bytes().len();
        if !sum_fits(add_len, running_len) {
            return false;
        }
        running_len <= (limit - total) / 2
    }

    /// Whether the pending text can be shown at the insertion index: the
    /// index, a byte offset, lies within the document and between characters.
    pub fn can_refresh_display_buffer(&self) -> (ok: bool)
        requires
            self.well_formed(),
        ensures
            ok == is_char_boundary(self@.document(), self.insert_index as int),
    {
        let document = read_table(&self.piece_table, &self.original_buffer, &self.add_buffer);
        document.as_str().is_char_boundary(self.insert_index)
    }

    /// The document with the pending text committed at the insertion index.
    fn flushed_document(&self) -> (d: String)
        requires
            self.well_formed(),
            self@.can_flush(),
        ensures
            bytes_of(d@) == self@.flushed().document(),
    {
        let ghost v = self@;
        proof {
            lemma_flushed_document(v);
            lemma_bytes_empty(v.running);
        }
        let document = read_table(&self.piece_table, &self.original_buffer, &self.add_buffer);
        if self.running_buffer.as_str().as_bytes().len() == 0 {
            proof {
                assert(v.document().take(v.document().len() as int) =~= v.document());
                assert(v.pending() =~= Seq::<u8>::empty());
                assert(v.flushed().document() =~= v.document());
            }
            return document;
        }
        let len = document.as_str().as_bytes().len();
        let at = if self.insert_index < len { self.insert_index } else { len };
        let (before, after) = document.as_str().split_at(at);
        let mut d = String::from_str(before);
        d.append(self.running_buffer.as_str());
        d.append(after);
        proof {
            lemma_encode_concat(before@, self.running_buffer@);
            lemma_encode_concat(before@ + self.running_buffer@, after@);
            assert(bytes_of(d@) =~= v.document().take(at as int) + (v.pending() + v.document().skip(at as int)));
        }
        d
    }

    /// Whether the pending text can be committed at the insertion index.
    fn check_flush(&self) -> (ok: bool)
        requires
            self.well_formed(),
        ensures
            ok == self@.can_flush(),
    {
        proof {
            lemma_bytes_empty(self@.running);
        }
        if self.running_buffer.as_str().as_bytes().len() == 0 {
            return true;
        }
        let document = read_table(&self.piece_table, &self.original_buffer, &self.add_buffer);
        let len = document.as_str().as_bytes().len();
        let at = if self.insert_index < len { self.insert_index } else { len };
        document.as_str().is_char_boundary(at)
    }

    /// Whether the cursor can move left.
    pub fn check_move_cursor_left(&self) -> (ok: bool)
        requires
            self.well_formed(),
        ensures
            ok == can_move_cursor_left(self@),
    {
        let ghost v = self@;
        if !self.check_flush() {
            return false;
        }
        proof {
            lemma_bytes_empty(v.running);
            lemma_flushed_document(v);
        }
        let running_len = self.running_buffer.as_str().as_bytes().len();
        let mut index = self.insert_index;
        if running_len > 0 {
            if running_len > usize::MAX - index {
                return false;
            }
            index = index + running_len;
        }
        if index > 0 {
            index = index - 1;
        }
        if self.cursor_state.x == 0 && self.cursor_state.y > 0 {
            let d = self.flushed_document();
            let (_, y) = get_position_of_offset(&d, index, self.printable_width, self.line_wrap);
            y >= self.line_offset
        } else {
            true
        }
    }

    /// Whether the cursor can move right.
    pub fn check_move_cursor_right(&self) -> (ok: bool)
        requires
            self.well_formed(),
        ensures
            ok == can_move_cursor_right(self@),
    {
        let ghost v = self@;
        if !self.check_flush() {
            return false;
        }
        proof {
            lemma_bytes_empty(v.running);
            lemma_flushed_document(v);
        }
        let d = self.flushed_document();
        let d_len = d.as_str().as_bytes().len();
        let running_len = self.running_buffer.as_str().as_bytes().len();
        let mut index = self.insert_index;
        if running_len > 0 && index < d_len + running_len {
            index = index + running_len;
        }
        let y = self.cursor_state.y;
        if y > usize::MAX - self.line_offset {
            return false;
        }
        let row = y + self.line_offset;
        if d_len > 0 && row == usize::MAX {
            return false;
        }
        if index == usize::MAX {
            return false;
        }
        let width = get_width_of_line(&d, row);
        if self.cursor_state.x != width {
            self.cursor_state.x < usize::MAX
        } else if index + 1 < d_len {
            let (_, py) = get_position_of_offset(&d, index + 1, self.printable_width, self.line_wrap);
            py >= self.line_offset
        } else {
            true
        }
    }

    /// Whether the cursor can move down.
    pub fn check_move_cursor_down(&self) -> (ok: bool)
        requires
            self.well_formed(),
        ensures
            ok == can_move_cursor_down(self@),
    {
        self.check_flush() && self.cursor_state.y <= usize::MAX - self.line_offset
    }

    /// Whether the cursor can move up.
    pub fn check_move_cursor_up(&self) -> (ok: bool)
        requires
            self.well_formed(),
        ensures
            ok == can_move_cursor_up(self@),
    {
        let ghost v = self@;
        if !self.check_flush() {
            return false;
        }
        let y = self.cursor_state.y;
        if y > usize::MAX - self.line_offset {
            return false;
        }
        if y + self.line_offset > 0 {
            if y == 0 {
                return false;
            }
            proof {
                lemma_flushed_document(v);
            }
            let d = self.flushed_document();
            d.as_str().as_bytes().len() == 0 || y < usize::MAX
        } else {
            true
        }
    }

    /// Whether key `c` can be typed.
    pub fn check_process_text_input(&self, c: KeyCode) -> (ok: bool)
        requires
            self.well_formed(),
        ensures
            ok == can_process_text_input(self@, c),
    {
        let ghost v = self@;
        proof {
            lemma_bytes_empty(v.running);
            table_length_is_text_length(v.pieces, bytes_of(v.original), bytes_of(v.add));
        }
        let running_len = self.running_buffer.as_str().as_bytes().len();
        let document = read_table(&self.piece_table, &self.original_buffer, &self.add_buffer);
        let doc_len = document.as_str().as_bytes().len();
        let index = if running_len == 0 {
            if self.cursor_state.y > usize::MAX - self.line_offset {
                return false;
            }
            get_offset_of_position(
                &document,
                self.cursor_state.x,
                self.cursor_state.y + self.line_offset,
                self.printable_width,
                self.line_wrap,
            )
        } else {
            self.insert_index
        };
        assert(index == typing_index(v));
        let add_len = self.add_buffer.as_str().as_bytes().len();
        let at = if index < doc_len { index } else { doc_len };
        match c {
            KeyCode::Char(ch) => {
                let mut text = self.running_buffer.clone();
                push_char(&mut text, ch);
                let t = text.as_str().as_bytes().len();
                if ch == ' ' {
                    document.as_str().is_char_boundary(at) && sum_fits(add_len, t) && sum_fits(doc_len, t)
                        && self.cursor_state.x < usize::MAX
                } else {
                    sum_fits(add_len, t) && t <= usize::MAX / 2 && sum_fits(doc_len, 2 * t)
                        && self.cursor_state.x < usize::MAX && self.cursor_state.desired_x < usize::MAX
                }
            },
            KeyCode::Enter => {
                let mut text = self.running_buffer.clone();
                push_char(&mut text, '\n');
                let t = text.as_str().as_bytes().len();
                document.as_str().is_char_boundary(at) && sum_fits(add_len, t) && sum_fits(doc_len, t)
                    && index <= usize::MAX - t && self.cursor_state.y < usize::MAX
            },
            _ => true,
        }
    }

    /// Whether `event` can be handled.
    pub fn check_update_editor_state(&self, event: Event) -> (ok: bool)
        requires
            self.well_formed(),
        ensures
            ok == can_update_editor_state(self@, event),
    {
        match event {
            Event::Key(k) => {
                let control = crate::editor::KeyModifiers { shift: false, control: true, alt: false };
                let alt = crate::editor::KeyModifiers { shift: false, control: false, alt: true };
                if k.code == KeyCode::Char('h') && k.modifiers == control {
                    true
                } else if k.code == KeyCode::Char('k') && k.modifiers == alt {
                    true
                } else if k.code == KeyCode::Char('q') && k.modifiers == control {
                    true
                } else {
                    match k.code {
                        KeyCode::Left => self.check_move_cursor_left(),
                        KeyCode::Right => self.check_move_cursor_right(),
                        KeyCode::Up => self.check_move_cursor_up(),
                        KeyCode::Down => self.check_move_cursor_down(),
                        _ => self.check_process_text_input(k.code),
                    }
                }
            },
            Event::Other => true,
        }
    }

    /// Whether the screen can be rendered.
    pub fn check_render_editor(&self) -> (ok: bool)
        ensures
            ok == can_render_editor(self@),
    {
        let ghost v = self@;
        let ghost d = bytes_of(v.display);
        let display = &self.display_buffer;
        let len = display.as_str().as_bytes().len();
        let limit: usize = isize::MAX as usize;
        if len > limit {
            return false;
        }
        if self.line_offset > usize::MAX - self.printable_height {
            return false;
        }
        if self.line_offset > get_number_of_lines(display) {
            return true;
        }
        let start = get_offset_of_position(display, 0, self.line_offset, self.printable_width, self.line_wrap);
        let end = get_offset_of_position(display, 0, self.line_offset + self.printable_height, self.printable_width, self.line_wrap);
        assert((start as int, end as int) == page_bounds(v));
        if end > len || start > end {
            return false;
        }
        let clean = start == end || (display.as_str().is_char_boundary(start) && display.as_str().is_char_boundary(end));
        proof {
            encode_utf8_valid_utf8(v.display);
            let st = start as int;
            let en = end as int;
            let page = page_text(v);
            if st == en {
                assert(page =~= Seq::<u8>::empty());
            } else {
                if is_char_boundary(d, st) && is_char_boundary(d, en) {
                    lemma_valid_between(d, st, en);
                }
                if valid_utf8(page) {
                    is_char_boundary_iff_not_is_continuation_byte(page, 0);
                    is_char_boundary_iff_not_is_continuation_byte(d, st);
                    valid_utf8_split(d, st);
                    let suffix = d.subrange(st, d.len() as int);
                    assert(page =~= suffix.take(en - st));
                    lemma_valid_prefix_boundary(suffix, en - st);
                    if en == d.len() {
                        is_char_boundary_start_end_of_seq(d);
                    } else {
                        is_char_boundary_iff_not_is_continuation_byte(suffix, en - st);
                        is_char_boundary_iff_not_is_continuation_byte(d, en);
                    }
                }
            }
        }
        if !clean {
            return false;
        }
        if !self.line_wrap {
            return true;
        }
        if self.printable_width == 0 {
            return false;
        }
        let bytes = display.as_str().as_bytes();
        let page = string_from_bytes(bytes, start, end);
        wraps_cleanly(&page, self.printable_width)
    }
}

} // verus!
