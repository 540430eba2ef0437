//! Layout of UTF-8 text, measured in bytes: lines, soft wrapping and the
//! correspondence between byte offsets and on-screen cursor positions.

use vstd::prelude::*;
use vstd::utf8::*;
use crate::utf8_facts::{lemma_lines_valid, lemma_valid_between, lemma_valid_prefix_boundary};

verus! {

/// The byte value of a line break.
pub const NEWLINE: u8 = 10;

/// The UTF-8 bytes of a piece of text.
pub open spec fn bytes_of(s: Seq<char>) -> Seq<u8> {
    encode_utf8(s)
}

/// The lines of a byte sequence: the pieces between line breaks, in order.
/// There is always one more line than there are line breaks.
pub open spec fn lines(b: Seq<u8>) -> Seq<Seq<u8>>
    decreases b.len(),
{
    if b.len() == 0 {
        seq![Seq::<u8>::empty()]
    } else if b.last() == NEWLINE {
        lines(b.drop_last()).push(Seq::<u8>::empty())
    } else {
        let ls = lines(b.drop_last());
        ls.update(ls.len() - 1, ls.last().push(b.last()))
    }
}

/// A text has at least one line.
pub proof fn lemma_lines_nonempty(b: Seq<u8>)
    ensures
        lines(b).len() >= 1,
    decreases b.len(),
{
    if b.len() > 0 {
        lemma_lines_nonempty(b.drop_last());
    }
}

/// A text has at most one line more than it has bytes.
pub proof fn lemma_lines_count_bound(b: Seq<u8>)
    ensures
        1 <= lines(b).len() <= b.len() + 1,
    decreases b.len(),
{
    if b.len() > 0 {
        lemma_lines_count_bound(b.drop_last());
    }
}

/// Lines that are complete in a prefix of a text are lines of the whole text.
pub proof fn lemma_lines_prefix(b: Seq<u8>, m: int, j: int)
    requires
        0 <= m <= b.len(),
    ensures
        lines(b.take(m)).len() <= lines(b).len(),
        0 <= j < lines(b.take(m)).len() - 1 ==> lines(b)[j] == lines(b.take(m))[j],
    decreases b.len(),
{
    lemma_lines_nonempty(b);
    if m == b.len() {
        assert(b.take(m) =~= b);
    } else {
        let d = b.drop_last();
        assert(d.take(m) =~= b.take(m));
        lemma_lines_prefix(d, m, j);
        lemma_lines_nonempty(d);
    }
}

/// How `lines` grows when one more byte is read.
pub proof fn lemma_lines_step(b: Seq<u8>, i: int)
    requires
        0 <= i < b.len(),
    ensures
        b[i] == NEWLINE ==> lines(b.take(i + 1)) == lines(b.take(i)).push(Seq::<u8>::empty()),
        b[i] != NEWLINE ==> lines(b.take(i + 1)) == lines(b.take(i)).update(
            lines(b.take(i)).len() - 1,
            lines(b.take(i)).last().push(b[i]),
        ),
{
    let t = b.take(i + 1);
    assert(t.drop_last() =~= b.take(i));
    assert(t.last() == b[i]);
}

/// Line breaks add up over concatenation: `a + b` has as many line breaks
/// as `a` and `b` together, so it has one line fewer than their lines added.
pub proof fn line_breaks_add_up(a: Seq<u8>, b: Seq<u8>)
    ensures
        lines(a + b).len() - 1 == (lines(a).len() - 1) + (lines(b).len() - 1),
    decreases b.len(),
{
    if b.len() == 0 {
        assert(a + b =~= a);
    } else {
        let ab = a + b;
        assert(ab.drop_last() =~= a + b.drop_last());
        assert(ab.last() == b.last());
        line_breaks_add_up(a, b.drop_last());
        lemma_lines_nonempty(b.drop_last());
        lemma_lines_nonempty(ab.drop_last());
    }
}

/// The number of line breaks in `message`, which is one less than its number of lines.
pub fn get_number_of_lines(message: &String) -> (num_lines: usize)
    ensures
        num_lines == lines(bytes_of(message@)).len() - 1,
{
    let bytes = message.as_str().as_bytes();
    let n = bytes.len();
    let ghost b = bytes_of(message@);
    let mut num_lines: usize = 0;
    let mut i: usize = 0;
    while i < n
        invariant
            n == b.len(),
            bytes@ == b,
            i <= n,
            num_lines <= i,
            num_lines == lines(b.take(i as int)).len() - 1,
        decreases n - i,
    {
        proof {
            lemma_lines_step(b, i as int);
            lemma_lines_nonempty(b.take(i as int));
        }
        if bytes[i] == NEWLINE {
            num_lines += 1;
        }
        i += 1;
    }
    proof {
        assert(b.take(n as int) =~= b);
    }
    num_lines
}

/// The width in bytes of line `pos_y` of `message`; past the last line, the
/// width of the last line.
pub fn get_width_of_line(message: &String, pos_y: usize) -> (width: usize)
    requires
        bytes_of(message@).len() == 0 || pos_y < usize::MAX,
    ensures
        width == line_width_at(bytes_of(message@), pos_y as int),
{
    let bytes = message.as_str().as_bytes();
    let n = bytes.len();
    let ghost b = bytes_of(message@);
    let mut x: usize = 0;
    let mut y: usize = 0;
    let mut i: usize = 0;
    while i < n
        invariant
            b == bytes_of(message@),
            n == b.len(),
            bytes@ == b,
            i <= n,
            x <= i,
            y <= pos_y,
            y == lines(b.take(i as int)).len() - 1,
            x == lines(b.take(i as int)).last().len(),
        decreases n - i,
    {
        proof {
            lemma_lines_step(b, i as int);
            lemma_lines_nonempty(b.take(i as int));
        }
        if bytes[i] == NEWLINE {
            if y == pos_y {
                proof {
                    let ghost m = i + 1;
                    lemma_lines_prefix(b, m as int, y as int);
                    assert(lines(b.take(m as int)).len() == y + 2);
                    assert(lines(b.take(m as int))[y as int] == lines(b.take(i as int)).last());
                }
                return x;
            }
            y += 1;
            x = 0;
        } else {
            x += 1;
        }
        i += 1;
    }
    proof {
        assert(b.take(n as int) =~= b);
    }
    x
}


/// Text that fits in memory: no allocation exceeds `isize::MAX` bytes.
pub open spec fn fits_in_memory(len: nat) -> bool {
    len <= isize::MAX
}

/// Soft wrapping: with `line_wrap`, a cursor that has reached column
/// `line_width` continues at the start of the next row.
pub open spec fn wrap_at(p: (int, int), line_width: usize, line_wrap: bool) -> (int, int) {
    if line_wrap && p.0 == line_width {
        (0, p.1 + 1)
    } else {
        p
    }
}

/// The cursor position `(column, row)` after reading one more byte from `p`.
pub open spec fn step(p: (int, int), byte: u8, line_width: usize, line_wrap: bool) -> (int, int) {
    let q = wrap_at(p, line_width, line_wrap);
    if byte == NEWLINE {
        (0, q.1 + 1)
    } else {
        (q.0 + 1, q.1)
    }
}

/// The cursor position `(column, row)` reached after laying out all of `b`,
/// starting at `(0, 0)`.
pub open spec fn cursor_after(b: Seq<u8>, line_width: usize, line_wrap: bool) -> (int, int)
    decreases b.len(),
{
    if b.len() == 0 {
        (0, 0)
    } else {
        step(cursor_after(b.drop_last(), line_width, line_wrap), b.last(), line_width, line_wrap)
    }
}

/// The on-screen position of the byte at `offset` of `b` (or of the end of
/// the text when `offset` is its length); past the end, the position reached
/// after the whole text, without wrapping.
pub open spec fn position_of_offset(b: Seq<u8>, offset: int, line_width: usize, line_wrap: bool) -> (int, int) {
    if offset <= b.len() {
        wrap_at(cursor_after(b.take(offset), line_width, line_wrap), line_width, line_wrap)
    } else {
        cursor_after(b, line_width, line_wrap)
    }
}

/// The first offset at or after `i` whose layout reaches `(pos_x, pos_y)`,
/// or the length of the text when no offset before the end does.
pub open spec fn first_offset_at(b: Seq<u8>, pos_x: int, pos_y: int, line_width: usize, line_wrap: bool, i: int) -> int
    decreases b.len() - i,
{
    if i >= b.len() {
        b.len() as int
    } else if cursor_after(b.take(i), line_width, line_wrap) == (pos_x, pos_y) {
        i
    } else {
        first_offset_at(b, pos_x, pos_y, line_width, line_wrap, i + 1)
    }
}

/// With wrapping, the last line of the text is longer than a row, so that
/// the text ends on a row that it reached by wrapping.
pub open spec fn last_line_wraps(b: Seq<u8>, line_width: usize, line_wrap: bool) -> bool {
    line_wrap && lines(b).last().len() > line_width
}

/// The offset of the position `(pos_x, pos_y)`: the first offset whose
/// layout reaches it. When no offset before the end reaches it, the length
/// of the text; except when the text ends on a wrapped row, where a
/// position on a row up to the last gives the offset of the last byte, and
/// a position on a row past the last gives the offset of the byte before
/// it.
pub open spec fn offset_of_position(b: Seq<u8>, pos_x: int, pos_y: int, line_width: usize, line_wrap: bool) -> int {
    let f = first_offset_at(b, pos_x, pos_y, line_width, line_wrap, 0);
    if f == b.len() && last_line_wraps(b, line_width, line_wrap) {
        if pos_y <= cursor_after(b, line_width, line_wrap).1 {
            b.len() - 1
        } else if b.len() >= 2 {
            b.len() - 2
        } else {
            0
        }
    } else {
        f
    }
}

/// The offset of a position lies in the text; it is the first offset that
/// reaches the position unless none before the end does and the text ends
/// on a wrapped row.
pub proof fn lemma_offset_of_position_bounds(b: Seq<u8>, pos_x: int, pos_y: int, line_width: usize, line_wrap: bool)
    ensures
        0 <= offset_of_position(b, pos_x, pos_y, line_width, line_wrap) <= b.len(),
        offset_of_position(b, pos_x, pos_y, line_width, line_wrap) == first_offset_at(b, pos_x, pos_y, line_width, line_wrap, 0)
            || (first_offset_at(b, pos_x, pos_y, line_width, line_wrap, 0) == b.len() && last_line_wraps(b, line_width, line_wrap)),
        !last_line_wraps(b, line_width, line_wrap)
            ==> offset_of_position(b, pos_x, pos_y, line_width, line_wrap) == first_offset_at(b, pos_x, pos_y, line_width, line_wrap, 0),
{
    lemma_offset_of_position(b, pos_x, pos_y, line_width, line_wrap, 0);
    lemma_cursor_after_unwrapped(b, line_width);
    lemma_cursor_after_bounds(b, line_width, false);
}

/// What `offset_of_position` finds: no earlier offset reaches the position,
/// and the offset found, unless it is the end, does.
pub proof fn lemma_offset_of_position(b: Seq<u8>, pos_x: int, pos_y: int, line_width: usize, line_wrap: bool, i: int)
    requires
        0 <= i <= b.len(),
    ensures
        i <= first_offset_at(b, pos_x, pos_y, line_width, line_wrap, i) <= b.len(),
        forall|m: int| i <= m < first_offset_at(b, pos_x, pos_y, line_width, line_wrap, i)
            ==> #[trigger] cursor_after(b.take(m), line_width, line_wrap) != (pos_x, pos_y),
        first_offset_at(b, pos_x, pos_y, line_width, line_wrap, i) < b.len()
            ==> cursor_after(b.take(first_offset_at(b, pos_x, pos_y, line_width, line_wrap, i)), line_width, line_wrap) == (pos_x, pos_y),
    decreases b.len() - i,
{
    if i < b.len() && cursor_after(b.take(i), line_width, line_wrap) != (pos_x, pos_y) {
        lemma_offset_of_position(b, pos_x, pos_y, line_width, line_wrap, i + 1);
    }
}

/// The width in bytes of line `y` of `b`, or of its last line when `y` is
/// past the end.
pub open spec fn line_width_at(b: Seq<u8>, y: int) -> int {
    let ls = lines(b);
    ls[if y < ls.len() - 1 { y } else { ls.len() - 1 }].len() as int
}

/// Reading one more byte of a prefix is one `step`.
pub proof fn lemma_cursor_after_step(b: Seq<u8>, i: int, line_width: usize, line_wrap: bool)
    requires
        0 <= i < b.len(),
    ensures
        cursor_after(b.take(i + 1), line_width, line_wrap) == step(
            cursor_after(b.take(i), line_width, line_wrap),
            b[i],
            line_width,
            line_wrap,
        ),
{
    let t = b.take(i + 1);
    assert(t.drop_last() =~= b.take(i));
}

/// Columns never exceed the bytes read, and rows never exceed twice that.
pub proof fn lemma_cursor_after_bounds(b: Seq<u8>, line_width: usize, line_wrap: bool)
    ensures
        0 <= cursor_after(b, line_width, line_wrap).0 <= b.len(),
        0 <= cursor_after(b, line_width, line_wrap).1 <= 2 * b.len(),
    decreases b.len(),
{
    if b.len() > 0 {
        lemma_cursor_after_bounds(b.drop_last(), line_width, line_wrap);
    }
}

/// The `(column, row)` of the cursor at byte `offset` of `message`, laid out
/// in rows of `line_width` columns when `line_wrap` is set.
pub fn get_position_of_offset(message: &String, offset: usize, line_width: usize, line_wrap: bool) -> (pos: (usize, usize))
    requires
        fits_in_memory(bytes_of(message@).len()),
    ensures
        (pos.0 as int, pos.1 as int) == position_of_offset(bytes_of(message@), offset as int, line_width, line_wrap),
{
    let bytes = message.as_str().as_bytes();
    let n = bytes.len();
    let ghost b = bytes_of(message@);
    let mut x: usize = 0;
    let mut y: usize = 0;
    let mut i: usize = 0;
    while i < n
        invariant
            b == bytes_of(message@),
            n == b.len(),
            fits_in_memory(n as nat),
            bytes@ == b,
            i <= n,
            i <= offset,
            (x as int, y as int) == cursor_after(b.take(i as int), line_width, line_wrap),
            x <= i,
            y <= 2 * i,
        decreases n - i,
    {
        proof {
            lemma_cursor_after_step(b, i as int, line_width, line_wrap);
        }
        if line_wrap && x == line_width {
            y += 1;
            x = 0;
        }
        if i == offset {
            return (x, y);
        }
        if bytes[i] == NEWLINE {
            y += 1;
            x = 0;
        } else {
            x += 1;
        }
        i += 1;
    }
    proof {
        assert(b.take(n as int) =~= b);
    }
    if line_wrap && offset == n && x == line_width {
        x = 0;
        y += 1;
    }
    (x, y)
}

/// The byte offset of `message` at which the cursor stands at column `pos_x`
/// of row `pos_y`: the first offset whose layout reaches that position. When
/// none before the end does, the length of the text, unless the text ends on
/// a wrapped row: then the offset of its last byte for a row up to the last,
/// and of the byte before it for a row past the last, as `offset_of_position`
/// says.
pub fn get_offset_of_position(message: &String, pos_x: usize, pos_y: usize, line_width: usize, line_wrap: bool) -> (offset: usize)
    requires
        fits_in_memory(bytes_of(message@).len()),
    ensures
        offset == offset_of_position(bytes_of(message@), pos_x as int, pos_y as int, line_width, line_wrap),
{
    let bytes = message.as_str().as_bytes();
    let n = bytes.len();
    let ghost b = bytes_of(message@);
    let mut x: usize = 0;
    let mut y: usize = 0;
    let mut line_len: usize = 0;
    let mut current_offset: usize = 0;
    proof {
        lemma_offset_of_position_bounds(b, pos_x as int, pos_y as int, line_width, line_wrap);
        assert(b.take(0) =~= Seq::<u8>::empty());
    }
    while current_offset < n
        invariant
            b == bytes_of(message@),
            n == b.len(),
            fits_in_memory(n as nat),
            bytes@ == b,
            current_offset <= n,
            (x as int, y as int) == cursor_after(b.take(current_offset as int), line_width, line_wrap),
            x <= current_offset,
            y <= 2 * current_offset,
            line_len <= current_offset,
            line_len == lines(b.take(current_offset as int)).last().len(),
            first_offset_at(b, pos_x as int, pos_y as int, line_width, line_wrap, 0)
                == first_offset_at(b, pos_x as int, pos_y as int, line_width, line_wrap, current_offset as int),
        decreases n - current_offset,
    {
        if y == pos_y && x == pos_x {
            return current_offset;
        }
        proof {
            lemma_cursor_after_step(b, current_offset as int, line_width, line_wrap);
            lemma_lines_step(b, current_offset as int);
            lemma_lines_nonempty(b.take(current_offset as int));
        }
        if line_wrap && x == line_width {
            y += 1;
            x = 0;
        }
        if bytes[current_offset] == NEWLINE {
            y += 1;
            x = 0;
            line_len = 0;
        } else {
            x += 1;
            line_len += 1;
        }
        current_offset += 1;
    }
    proof {
        assert(b.take(n as int) =~= b);
    }
    if line_wrap && line_len > line_width {
        if pos_y <= y {
            n - 1
        } else if n >= 2 {
            n - 2
        } else {
            0
        }
    } else {
        current_offset
    }
}


/// Position `p` comes before position `q` on screen: an earlier row, or the
/// same row and an earlier column.
pub open spec fn before_on_screen(p: (int, int), q: (int, int)) -> bool {
    p.1 < q.1 || (p.1 == q.1 && p.0 < q.0)
}

/// Every byte moves the cursor forward on screen.
pub proof fn lemma_cursor_after_increases(b: Seq<u8>, m: int, n: int, line_width: usize, line_wrap: bool)
    requires
        0 <= m < n <= b.len(),
    ensures
        before_on_screen(cursor_after(b.take(m), line_width, line_wrap), cursor_after(b.take(n), line_width, line_wrap)),
    decreases n - m,
{
    lemma_cursor_after_step(b, n - 1, line_width, line_wrap);
    if m < n - 1 {
        lemma_cursor_after_increases(b, m, n - 1, line_width, line_wrap);
    }
}

/// The offset of the position of an offset is that offset: laying out the
/// text up to byte `k` and searching for the position reached finds `k`
/// again. This holds for every offset up to the end of the text, except
/// where soft wrapping moves the position of byte `k` to the start of the
/// next row, before the end, and except for the end of a text that ends on
/// a wrapped row.
pub proof fn offset_of_position_of_offset(b: Seq<u8>, k: int, line_width: usize, line_wrap: bool)
    requires
        0 <= k <= b.len(),
        line_wrap ==> k == b.len() || cursor_after(b.take(k), line_width, line_wrap).0 != line_width,
        !(k == b.len() && last_line_wraps(b, line_width, line_wrap)),
    ensures
        ({
            let p = position_of_offset(b, k, line_width, line_wrap);
            offset_of_position(b, p.0, p.1, line_width, line_wrap) == k
        }),
{
    let p = position_of_offset(b, k, line_width, line_wrap);
    let r = first_offset_at(b, p.0, p.1, line_width, line_wrap, 0);
    lemma_offset_of_position(b, p.0, p.1, line_width, line_wrap, 0);
    assert(b.take(b.len() as int) =~= b);
    if r < k {
        lemma_cursor_after_increases(b, r, k, line_width, line_wrap);
    } else if r > k {
        if k < b.len() {
            assert(cursor_after(b.take(k), line_width, line_wrap) == p);
        } else {
            lemma_cursor_after_increases(b, r, k, line_width, line_wrap);
        }
    }
}

/// Without wrapping, the cursor after a text stands at the end of its last
/// line: the column is that line's width and the row is the number of line
/// breaks.
pub proof fn lemma_cursor_after_unwrapped(b: Seq<u8>, line_width: usize)
    ensures
        cursor_after(b, line_width, false) == (lines(b).last().len() as int, lines(b).len() - 1),
    decreases b.len(),
{
    lemma_lines_nonempty(b);
    if b.len() > 0 {
        lemma_cursor_after_unwrapped(b.drop_last(), line_width);
        lemma_lines_nonempty(b.drop_last());
    }
}

/// The last line of a prefix is no longer than the line of the whole text
/// that it begins.
proof fn lemma_prefix_last_line(b: Seq<u8>, m: int)
    requires
        0 <= m <= b.len(),
    ensures
        lines(b.take(m)).len() <= lines(b).len(),
        lines(b.take(m)).last().len() <= lines(b)[lines(b.take(m)).len() - 1].len(),
    decreases b.len(),
{
    lemma_lines_nonempty(b.take(m));
    lemma_lines_nonempty(b);
    if m == b.len() {
        assert(b.take(m) =~= b);
    } else {
        let d = b.drop_last();
        assert(d.take(m) =~= b.take(m));
        lemma_prefix_last_line(d, m);
        lemma_lines_nonempty(d);
    }
}

/// Without wrapping, every position on a line of the text, up to the end of
/// the line, is reached by laying out some prefix of the text.
proof fn lemma_position_reached(b: Seq<u8>, x: int, y: int, line_width: usize) -> (k: int)
    requires
        0 <= y < lines(b).len(),
        0 <= x <= lines(b)[y].len(),
    ensures
        0 <= k <= b.len(),
        cursor_after(b.take(k), line_width, false) == (x, y),
    decreases b.len(),
{
    lemma_cursor_after_unwrapped(b, line_width);
    lemma_lines_nonempty(b);
    if (x, y) == cursor_after(b, line_width, false) {
        assert(b.take(b.len() as int) =~= b);
        b.len() as int
    } else {
        let d = b.drop_last();
        lemma_lines_nonempty(d);
        let k = lemma_position_reached(d, x, y, line_width);
        assert(d.take(k) =~= b.take(k));
        k
    }
}

/// No line is longer than the text.
pub proof fn lemma_line_width_bound(b: Seq<u8>, y: int)
    requires
        0 <= y,
    ensures
        0 <= line_width_at(b, y) <= b.len(),
{
    lemma_lines_nonempty(b);
    let ls = lines(b);
    let j = if y < ls.len() - 1 { y } else { ls.len() - 1 };
    let k = lemma_position_reached(b, ls[j].len() as int, j, 0);
    lemma_cursor_after_bounds(b.take(k), 0, false);
}

/// Without wrapping, the position of the offset of a position on the text
/// is that position: for a row of the text and a column up to the width of
/// that row, the offset found lies in the text and lays out to that very
/// position.
pub proof fn position_of_offset_of_position(b: Seq<u8>, x: int, y: int, line_width: usize)
    requires
        0 <= y < lines(b).len(),
        0 <= x <= line_width_at(b, y),
    ensures
        ({
            let k = offset_of_position(b, x, y, line_width, false);
            &&& 0 <= k <= b.len()
            &&& cursor_after(b.take(k), line_width, false) == (x, y)
            &&& position_of_offset(b, k, line_width, false) == (x, y)
        }),
{
    let kr = lemma_position_reached(b, x, y, line_width);
    lemma_offset_of_position(b, x, y, line_width, false, 0);
    let k = offset_of_position(b, x, y, line_width, false);
    if k == b.len() && kr < b.len() {
        assert(cursor_after(b.take(kr), line_width, false) != (x, y));
    }
}

/// Without wrapping, a prefix of the text lays out to a position on the text,
/// and the offset of that position is the length of the prefix.
pub proof fn lemma_offset_of_reached_position(b: Seq<u8>, k: int, line_width: usize)
    requires
        0 <= k <= b.len(),
    ensures
        ({
            let p = cursor_after(b.take(k), line_width, false);
            &&& 0 <= p.1 < lines(b).len()
            &&& 0 <= p.0 <= line_width_at(b, p.1)
            &&& offset_of_position(b, p.0, p.1, line_width, false) == k
        }),
{
    let p = cursor_after(b.take(k), line_width, false);
    lemma_cursor_after_unwrapped(b.take(k), line_width);
    lemma_prefix_last_line(b, k);
    lemma_lines_nonempty(b.take(k));
    lemma_offset_of_position(b, p.0, p.1, line_width, false, 0);
    let r = offset_of_position(b, p.0, p.1, line_width, false);
    if r < k {
        lemma_cursor_after_increases(b, r, k, line_width, false);
    }
}

/// Every piece of a line cut for wrapping is at most `width` bytes.
pub proof fn lemma_chunks_fit(s: Seq<u8>, width: nat)
    ensures
        forall|k: int| 0 <= k < chunks(s, width).len() ==> (#[trigger] chunks(s, width)[k]).len() <= width,
    decreases s.len(),
{
    if width > 0 && s.len() > width {
        lemma_chunks_fit(s.skip(width as int), width);
        let c = chunks(s, width);
        assert forall|k: int| 0 <= k < c.len() implies (#[trigger] c[k]).len() <= width by {
            if k > 0 {
                assert(c[k] == chunks(s.skip(width as int), width)[k - 1]);
            }
        }
    }
}

/// With wrapping, every screen row of a sequence of lines fits the width.
pub proof fn lemma_rows_fit(ls: Seq<Seq<u8>>, line_width: usize)
    requires
        line_width > 0,
    ensures
        forall|r: int| 0 <= r < rows_of(ls, line_width, true).len() ==> (#[trigger] rows_of(ls, line_width, true)[r]).len() <= line_width,
    decreases ls.len(),
{
    if ls.len() > 0 {
        lemma_rows_fit(ls.drop_last(), line_width);
        lemma_chunks_fit(ls.last(), line_width as nat);
        let a = rows_of(ls.drop_last(), line_width, true);
        let l = line_rows(ls.last(), line_width, true);
        assert forall|r: int| 0 <= r < (a + l).len() implies (#[trigger] (a + l)[r]).len() <= line_width by {
            if r >= a.len() {
                assert((a + l)[r] == l[r - a.len()]);
            }
        }
    }
}

/// The screen never shows more rows than it has, and with wrapping no row
/// is wider than the screen.
pub proof fn screen_rows_fit_screen(b: Seq<u8>, screen_height: usize, line_width: usize, line_wrap: bool)
    requires
        line_wrap ==> line_width > 0,
    ensures
        screen_rows(b, screen_height, line_width, line_wrap).len() <= screen_height,
        line_wrap ==> forall|r: int| 0 <= r < screen_rows(b, screen_height, line_width, line_wrap).len()
            ==> (#[trigger] screen_rows(b, screen_height, line_width, line_wrap)[r]).len() <= line_width,
{
    if line_wrap {
        lemma_rows_fit(lines(b), line_width);
    }
}

/// The pieces of `s` of `width` bytes each, from the front; the last piece
/// holds what is left.
pub open spec fn chunks(s: Seq<u8>, width: nat) -> Seq<Seq<u8>>
    decreases s.len(),
{
    if width == 0 || s.len() == 0 {
        seq![]
    } else if s.len() <= width {
        seq![s]
    } else {
        seq![s.take(width as int)] + chunks(s.skip(width as int), width)
    }
}

/// The screen rows that one line of text occupies: the line itself (an
/// empty line is one empty row), or its pieces of `line_width` bytes when
/// wrapping a line that is not empty.
pub open spec fn line_rows(line: Seq<u8>, line_width: usize, line_wrap: bool) -> Seq<Seq<u8>> {
    if line_wrap && line.len() > 0 {
        chunks(line, line_width as nat)
    } else {
        seq![line]
    }
}

/// The screen rows of a sequence of lines, in order.
pub open spec fn rows_of(ls: Seq<Seq<u8>>, line_width: usize, line_wrap: bool) -> Seq<Seq<u8>>
    decreases ls.len(),
{
    if ls.len() == 0 {
        seq![]
    } else {
        rows_of(ls.drop_last(), line_width, line_wrap) + line_rows(ls.last(), line_width, line_wrap)
    }
}

/// Rows joined by line breaks.
pub open spec fn join_lines(rows: Seq<Seq<u8>>) -> Seq<u8>
    decreases rows.len(),
{
    if rows.len() == 0 {
        seq![]
    } else if rows.len() == 1 {
        rows[0]
    } else {
        join_lines(rows.drop_last()) + seq![NEWLINE] + rows.last()
    }
}

/// The rows of `b` that fit on a screen of `screen_height` rows.
pub open spec fn screen_rows(b: Seq<u8>, screen_height: usize, line_width: usize, line_wrap: bool) -> Seq<Seq<u8>> {
    let rows = rows_of(lines(b), line_width, line_wrap);
    if rows.len() > screen_height {
        rows.take(screen_height as int)
    } else {
        rows
    }
}

/// Joining the lines of a text by line breaks gives the text back.
proof fn lemma_join_lines_of(b: Seq<u8>)
    ensures
        join_lines(lines(b)) == b,
    decreases b.len(),
{
    if b.len() > 0 {
        let d = b.drop_last();
        let ls = lines(d);
        lemma_join_lines_of(d);
        lemma_lines_nonempty(d);
        if b.last() == NEWLINE {
            let l2 = ls.push(Seq::<u8>::empty());
            assert(l2.drop_last() =~= ls);
            assert(join_lines(l2) =~= d + seq![NEWLINE]);
        } else {
            let l2 = ls.update(ls.len() - 1, ls.last().push(b.last()));
            if ls.len() == 1 {
                assert(join_lines(l2) =~= ls.last().push(b.last()));
                assert(d =~= ls[0]);
            } else {
                assert(l2.drop_last() =~= ls.drop_last());
                assert(join_lines(l2) =~= join_lines(ls).push(b.last()));
            }
        }
        assert(d.push(b.last()) =~= b);
    }
}

/// Without wrapping, every line is one row.
proof fn lemma_rows_unwrapped(ls: Seq<Seq<u8>>, line_width: usize)
    ensures
        rows_of(ls, line_width, false) == ls,
    decreases ls.len(),
{
    if ls.len() > 0 {
        lemma_rows_unwrapped(ls.drop_last(), line_width);
        assert(ls.drop_last().push(ls.last()) =~= ls);
    }
}

/// Without wrapping, a text with no more lines than the screen has rows is
/// shown as it is: it is split at its line breaks and joined back.
pub proof fn split_without_wrapping_keeps_text(b: Seq<u8>, screen_height: usize, line_width: usize)
    requires
        lines(b).len() <= screen_height,
    ensures
        join_lines(screen_rows(b, screen_height, line_width, false)) == b,
{
    lemma_rows_unwrapped(lines(b), line_width);
    lemma_join_lines_of(b);
}

/// Cutting every line of `b` into pieces of `line_width` bytes never cuts a
/// character in two.
pub open spec fn wraps_on_char_boundaries(b: Seq<u8>, line_width: usize) -> bool {
    forall|j: int, k: int|
        0 <= j < lines(b).len() && 0 <= k < chunks(lines(b)[j], line_width as nat).len()
            ==> valid_utf8(#[trigger] chunks(lines(b)[j], line_width as nat)[k])
}

/// Every piece of `line` cut for wrapping is valid UTF-8.
pub open spec fn line_wraps_cleanly(line: Seq<u8>, line_width: usize) -> bool {
    forall|k: int| 0 <= k < chunks(line, line_width as nat).len() ==> valid_utf8(#[trigger] chunks(line, line_width as nat)[k])
}

/// Whether cutting the line `bytes[s..e]` into pieces of `line_width` bytes
/// cuts no character in two.
fn check_line_wraps(bytes: &[u8], s: usize, e: usize, line_width: usize) -> (ok: bool)
    requires
        s <= e <= bytes@.len(),
        valid_utf8(bytes@.subrange(s as int, e as int)),
        line_width > 0,
    ensures
        ok == line_wraps_cleanly(bytes@.subrange(s as int, e as int), line_width),
{
    let ghost line = bytes@.subrange(s as int, e as int);
    let ghost w = line_width as nat;
    let ghost mut done: Seq<Seq<u8>> = seq![];
    let mut p = s;
    while p < e
        invariant
            s <= p <= e <= bytes@.len(),
            line == bytes@.subrange(s as int, e as int),
            w == line_width as nat,
            line_width > 0,
            valid_utf8(bytes@.subrange(p as int, e as int)),
            chunks(line, w) == done + chunks(bytes@.subrange(p as int, e as int), w),
            forall|k: int| 0 <= k < done.len() ==> valid_utf8(#[trigger] done[k]),
        decreases e - p,
    {
        let ghost rest = bytes@.subrange(p as int, e as int);
        let m = if e - p <= line_width { e - p } else { line_width };
        let ghost c = rest.take(m as int);
        let ghost tail = bytes@.subrange((p + m) as int, e as int);
        proof {
            if rest.len() <= line_width {
                assert(c =~= rest);
                assert(tail =~= Seq::<u8>::empty());
                assert(chunks(tail, w) =~= Seq::<Seq<u8>>::empty());
                assert(chunks(rest, w) =~= seq![c] + chunks(tail, w));
            } else {
                assert(rest.skip(line_width as int) =~= tail);
                assert(chunks(rest, w) == seq![c] + chunks(tail, w));
            }
            assert(chunks(line, w)[done.len() as int] == c);
        }
        if p + m < e {
            let x = bytes[p + m];
            if 0x80 <= x && x <= 0xbf {
                proof {
                    vstd::utf8::is_char_boundary_iff_not_is_continuation_byte(rest, m as int);
                    if valid_utf8(c) {
                        lemma_valid_prefix_boundary(rest, m as int);
                    }
                }
                return false;
            }
            proof {
                vstd::utf8::is_char_boundary_iff_not_is_continuation_byte(rest, m as int);
            }
        } else {
            proof {
                is_char_boundary_start_end_of_seq(rest);
            }
        }
        proof {
            is_char_boundary_start_end_of_seq(rest);
            lemma_valid_between(rest, 0, m as int);
            assert(rest.subrange(0, m as int) =~= c);
            valid_utf8_split(rest, m as int);
            assert(rest.subrange(m as int, rest.len() as int) =~= tail);
            assert(done + chunks(rest, w) =~= done.push(c) + chunks(tail, w));
            done = done.push(c);
        }
        p = p + m;
    }
    proof {
        assert(bytes@.subrange(e as int, e as int) =~= Seq::<u8>::empty());
        assert(chunks(line, w) =~= done);
    }
    true
}

/// Whether cutting every line of `text` into pieces of `line_width` bytes
/// cuts no character in two, so that the text can be wrapped.
pub fn wraps_cleanly(text: &String, line_width: usize) -> (ok: bool)
    requires
        line_width > 0,
    ensures
        ok == wraps_on_char_boundaries(bytes_of(text@), line_width),
{
    let bytes = text.as_str().as_bytes();
    let n = bytes.len();
    let ghost b = bytes_of(text@);
    proof {
        encode_utf8_valid_utf8(text@);
        lemma_lines_valid(b);
        assert(b.take(0) =~= Seq::<u8>::empty());
    }
    let mut start: usize = 0;
    let mut i: usize = 0;
    while i < n
        invariant
            b == bytes_of(text@),
            bytes@ == b,
            n == b.len(),
            line_width > 0,
            forall|j: int| 0 <= j < lines(b).len() ==> valid_utf8(#[trigger] lines(b)[j]),
            start <= i <= n,
            lines(b.take(i as int)).last() == b.subrange(start as int, i as int),
            forall|j: int| 0 <= j < lines(b.take(i as int)).len() - 1 ==> line_wraps_cleanly(#[trigger] lines(b)[j], line_width),
        decreases n - i,
    {
        let ghost li = lines(b.take(i as int));
        proof {
            lemma_lines_step(b, i as int);
            lemma_lines_nonempty(b.take(i as int));
        }
        if bytes[i] == NEWLINE {
            let ghost y = li.len() - 1;
            proof {
                lemma_lines_prefix(b, i + 1, y);
                assert(lines(b.take(i + 1))[y] == li.last());
                assert(lines(b)[y] == bytes@.subrange(start as int, i as int));
                lemma_lines_nonempty(b);
            }
            if !check_line_wraps(bytes, start, i, line_width) {
                return false;
            }
            start = i + 1;
        } else {
            proof {
                let li2 = lines(b.take(i + 1));
                assert(li2.len() == li.len());
            }
        }
        i += 1;
    }
    proof {
        assert(b.take(n as int) =~= b);
        lemma_lines_nonempty(b);
    }
    let last_ok = check_line_wraps(bytes, start, n, line_width);
    proof {
        let y = lines(b).len() - 1;
        assert(lines(b)[y] == bytes@.subrange(start as int, n as int));
        if last_ok {
            assert forall|j: int, k: int| 0 <= j < lines(b).len() && 0 <= k < chunks(lines(b)[j], line_width as nat).len()
                implies valid_utf8(#[trigger] chunks(lines(b)[j], line_width as nat)[k]) by {
                assert(line_wraps_cleanly(lines(b)[j], line_width));
            }
        }
    }
    last_ok
}

/// `String::from_utf8`: bytes that are valid UTF-8 become the string that they encode.
#[verifier::external_body]
fn string_from_utf8(bytes: Vec<u8>) -> (s: String)
    requires
        valid_utf8(bytes@),
    ensures
        s@ == decode_utf8(bytes@),
{
    String::from_utf8(bytes).unwrap()
}

/// The string whose UTF-8 bytes are `bytes[s..e]`.
pub fn string_from_bytes(bytes: &[u8], s: usize, e: usize) -> (text: String)
    requires
        s <= e <= bytes@.len(),
        valid_utf8(bytes@.subrange(s as int, e as int)),
    ensures
        bytes_of(text@) == bytes@.subrange(s as int, e as int),
{
    let mut v: Vec<u8> = Vec::new();
    let mut k = s;
    while k < e
        invariant
            s <= k <= e <= bytes@.len(),
            v@ == bytes@.subrange(s as int, k as int),
        decreases e - k,
    {
        v.push(bytes[k]);
        k += 1;
        proof {
            assert(v@ =~= bytes@.subrange(s as int, k as int));
        }
    }
    proof {
        decode_utf8_encode_utf8(v@);
    }
    string_from_utf8(v)
}

/// A line break on its own is valid UTF-8.
proof fn lemma_newline_valid()
    ensures
        valid_utf8(seq![NEWLINE]),
{
    let s = seq![NEWLINE];
    assert(pop_first_scalar(s) =~= Seq::<u8>::empty());
    reveal_with_fuel(valid_utf8, 2);
}

/// Joining one more row.
proof fn lemma_join_push(all: Seq<Seq<u8>>, row: Seq<u8>)
    ensures
        all.len() == 0 ==> join_lines(all.push(row)) == row,
        all.len() > 0 ==> join_lines(all.push(row)) == join_lines(all) + seq![NEWLINE] + row,
{
    let a = all.push(row);
    assert(a.drop_last() =~= all);
    if all.len() == 0 {
        assert(a[0] == row);
    }
}

/// Appends one row to the screen text unless the screen is full.
fn emit_row(out: &mut Vec<u8>, emitted: &mut usize, screen_height: usize, bytes: &[u8], s: usize, e: usize, Ghost(all): Ghost<Seq<Seq<u8>>>)
    requires
        s <= e <= bytes@.len(),
        valid_utf8(bytes@.subrange(s as int, e as int)),
        *old(emitted) == (if all.len() > screen_height { screen_height as int } else { all.len() as int }),
        old(out)@ == join_lines(all.take(*old(emitted) as int)),
        valid_utf8(old(out)@),
    ensures
        ({
            let all2 = all.push(bytes@.subrange(s as int, e as int));
            &&& *final(emitted) == (if all2.len() > screen_height { screen_height as int } else { all2.len() as int })
            &&& final(out)@ == join_lines(all2.take(*final(emitted) as int))
            &&& valid_utf8(final(out)@)
        }),
{
    let ghost row = bytes@.subrange(s as int, e as int);
    let ghost all2 = all.push(row);
    if *emitted < screen_height {
        proof {
            assert(all.take(*emitted as int) =~= all);
            assert(all2.take(*emitted as int + 1) =~= all2);
            lemma_join_push(all, row);
            lemma_newline_valid();
        }
        let ghost out0 = out@;
        if *emitted > 0 {
            out.push(NEWLINE);
            proof {
                valid_utf8_concat(out0, seq![NEWLINE]);
                assert(out@ =~= out0 + seq![NEWLINE]);
            }
        }
        let ghost out1 = out@;
        let mut k = s;
        while k < e
            invariant
                s <= k <= e <= bytes@.len(),
                out@ == out1 + bytes@.subrange(s as int, k as int),
            decreases e - k,
        {
            out.push(bytes[k]);
            k += 1;
            proof {
                assert(out@ =~= out1 + bytes@.subrange(s as int, k as int));
            }
        }
        proof {
            valid_utf8_concat(out1, row);
            if *old(emitted) == 0 {
                assert(out1 =~= Seq::<u8>::empty());
                assert(out@ =~= row);
            }
        }
        *emitted = *emitted + 1;
    } else {
        proof {
            assert(all2.take(*emitted as int) =~= all.take(*emitted as int));
        }
    }
}

/// Appends the screen rows of the line `bytes[s..e]`.
fn emit_line_rows(out: &mut Vec<u8>, emitted: &mut usize, screen_height: usize, bytes: &[u8], s: usize, e: usize, line_width: usize, line_wrap: bool, Ghost(all): Ghost<Seq<Seq<u8>>>) -> (all2: Ghost<Seq<Seq<u8>>>)
    requires
        s <= e <= bytes@.len(),
        valid_utf8(bytes@.subrange(s as int, e as int)),
        line_wrap ==> line_width > 0,
        line_wrap ==> forall|k: int| 0 <= k < chunks(bytes@.subrange(s as int, e as int), line_width as nat).len()
            ==> valid_utf8(#[trigger] chunks(bytes@.subrange(s as int, e as int), line_width as nat)[k]),
        *old(emitted) == (if all.len() > screen_height { screen_height as int } else { all.len() as int }),
        old(out)@ == join_lines(all.take(*old(emitted) as int)),
        valid_utf8(old(out)@),
    ensures
        all2@ == all + line_rows(bytes@.subrange(s as int, e as int), line_width, line_wrap),
        *final(emitted) == (if all2@.len() > screen_height { screen_height as int } else { all2@.len() as int }),
        final(out)@ == join_lines(all2@.take(*final(emitted) as int)),
        valid_utf8(final(out)@),
{
    let ghost line = bytes@.subrange(s as int, e as int);
    if s == e {
        proof {
            assert(line =~= Seq::<u8>::empty());
            assert(bytes@.subrange(s as int, s as int) =~= line);
        }
        emit_row(out, emitted, screen_height, bytes, s, s, Ghost(all));
        let ghost a1 = all.push(bytes@.subrange(s as int, s as int));
        proof {
            assert(a1 =~= all + line_rows(line, line_width, line_wrap));
        }
        return Ghost(a1);
    }
    if !line_wrap {
        emit_row(out, emitted, screen_height, bytes, s, e, Ghost(all));
        let ghost a1 = all.push(line);
        proof {
            assert(a1 =~= all + line_rows(line, line_width, line_wrap));
        }
        return Ghost(a1);
    }
    let ghost mut cur = all;
    let mut p = s;
    while p < e
        invariant
            s <= p <= e <= bytes@.len(),
            line == bytes@.subrange(s as int, e as int),
            line_width > 0,
            forall|k: int| 0 <= k < chunks(line, line_width as nat).len()
                ==> valid_utf8(#[trigger] chunks(line, line_width as nat)[k]),
            all + chunks(line, line_width as nat) == cur + chunks(bytes@.subrange(p as int, e as int), line_width as nat),
            cur.len() >= all.len(),
            *emitted == (if cur.len() > screen_height { screen_height as int } else { cur.len() as int }),
            out@ == join_lines(cur.take(*emitted as int)),
            valid_utf8(out@),
        decreases e - p,
    {
        let q = if e - p <= line_width { e } else { p + line_width };
        let ghost rest = bytes@.subrange(p as int, e as int);
        let ghost row = bytes@.subrange(p as int, q as int);
        let ghost tail = bytes@.subrange(q as int, e as int);
        proof {
            if rest.len() <= line_width {
                assert(row =~= rest);
                assert(chunks(rest, line_width as nat) == seq![rest]);
                assert(tail =~= Seq::<u8>::empty());
                assert(chunks(tail, line_width as nat) =~= Seq::<Seq<u8>>::empty());
                assert(chunks(rest, line_width as nat) =~= seq![row] + chunks(tail, line_width as nat));
            } else {
                assert(rest.take(line_width as int) =~= row);
                assert(rest.skip(line_width as int) =~= tail);
                assert(chunks(rest, line_width as nat) == seq![row] + chunks(tail, line_width as nat));
            }
            let idx = cur.len() - all.len();
            let lhs = all + chunks(line, line_width as nat);
            let rhs = cur + chunks(rest, line_width as nat);
            assert(rhs[cur.len() as int] == row);
            assert(lhs.len() == rhs.len());
            assert(0 <= idx < chunks(line, line_width as nat).len());
            assert(lhs[cur.len() as int] == chunks(line, line_width as nat)[idx]);
            assert(valid_utf8(chunks(line, line_width as nat)[idx]));
            assert(valid_utf8(row));
        }
        emit_row(out, emitted, screen_height, bytes, p, q, Ghost(cur));
        proof {
            assert(cur + chunks(rest, line_width as nat) =~= cur.push(row) + chunks(tail, line_width as nat));
            cur = cur.push(row);
        }
        p = q;
    }
    proof {
        assert(bytes@.subrange(e as int, e as int) =~= Seq::<u8>::empty());
        assert(cur =~= all + line_rows(line, line_width, line_wrap));
    }
    Ghost(cur)
}

/// The text shown on a screen of `screen_height` rows: the lines of
/// `input_text`, each cut into rows of `line_width` bytes when `line_wrap` is
/// set, joined by line breaks and cut off after `screen_height` rows.
pub fn split_lines_wrapped(input_text: String, screen_height: usize, line_width: usize, line_wrap: bool) -> (screen: String)
    requires
        line_wrap ==> line_width > 0,
        line_wrap ==> wraps_on_char_boundaries(bytes_of(input_text@), line_width),
    ensures
        bytes_of(screen@) == join_lines(screen_rows(bytes_of(input_text@), screen_height, line_width, line_wrap)),
{
    let bytes = input_text.as_str().as_bytes();
    let n = bytes.len();
    let ghost b = bytes_of(input_text@);
    proof {
        encode_utf8_valid_utf8(input_text@);
        lemma_lines_valid(b);
        assert(b.take(0) =~= Seq::<u8>::empty());
        assert(Seq::<Seq<u8>>::empty().take(0) =~= Seq::<Seq<u8>>::empty());
    }
    let mut out: Vec<u8> = Vec::new();
    let mut emitted: usize = 0;
    let ghost mut all: Seq<Seq<u8>> = seq![];
    let mut start: usize = 0;
    let mut i: usize = 0;
    while i < n
        invariant
            b == bytes_of(input_text@),
            bytes@ == b,
            n == b.len(),
            valid_utf8(b),
            forall|j: int| 0 <= j < lines(b).len() ==> valid_utf8(#[trigger] lines(b)[j]),
            line_wrap ==> line_width > 0,
            line_wrap ==> wraps_on_char_boundaries(b, line_width),
            start <= i <= n,
            lines(b.take(i as int)).last() == b.subrange(start as int, i as int),
            all == rows_of(lines(b.take(i as int)).drop_last(), line_width, line_wrap),
            emitted == (if all.len() > screen_height { screen_height as int } else { all.len() as int }),
            out@ == join_lines(all.take(emitted as int)),
            valid_utf8(out@),
        decreases n - i,
    {
        let ghost li = lines(b.take(i as int));
        proof {
            lemma_lines_step(b, i as int);
            lemma_lines_nonempty(b.take(i as int));
        }
        if bytes[i] == NEWLINE {
            proof {
                let y = li.len() - 1;
                lemma_lines_prefix(b, i + 1, y);
                assert(lines(b.take(i + 1))[y] == li.last());
                assert(lines(b)[y] == bytes@.subrange(start as int, i as int));
                if line_wrap {
                    assert(forall|k: int| 0 <= k < chunks(lines(b)[y], line_width as nat).len()
                        ==> valid_utf8(#[trigger] chunks(lines(b)[y], line_width as nat)[k]));
                }
            }
            let Ghost(a2) = emit_line_rows(&mut out, &mut emitted, screen_height, bytes, start, i, line_width, line_wrap, Ghost(all));
            proof {
                let li2 = lines(b.take(i + 1));
                assert(li2.drop_last() =~= li);
                assert(li =~= li.drop_last().push(li.last()));
                assert(rows_of(li, line_width, line_wrap) == rows_of(li.drop_last(), line_width, line_wrap) + line_rows(li.last(), line_width, line_wrap));
                all = a2;
                assert(li2.last() =~= b.subrange((i + 1) as int, (i + 1) as int));
            }
            start = i + 1;
        } else {
            proof {
                let li2 = lines(b.take(i + 1));
                assert(li2.drop_last() =~= li.drop_last());
                assert(li2.last() =~= b.subrange(start as int, (i + 1) as int));
            }
        }
        i += 1;
    }
    proof {
        assert(b.take(n as int) =~= b);
        lemma_lines_nonempty(b);
        let y = lines(b).len() - 1;
        assert(lines(b)[y] == bytes@.subrange(start as int, n as int));
        if line_wrap {
            assert(forall|k: int| 0 <= k < chunks(lines(b)[y], line_width as nat).len()
                ==> valid_utf8(#[trigger] chunks(lines(b)[y], line_width as nat)[k]));
        }
    }
    let Ghost(a2) = emit_line_rows(&mut out, &mut emitted, screen_height, bytes, start, n, line_width, line_wrap, Ghost(all));
    proof {
        let ls = lines(b);
        assert(ls =~= ls.drop_last().push(ls.last()));
        assert(a2 == rows_of(ls, line_width, line_wrap));
        if a2.len() <= screen_height {
            assert(a2.take(a2.len() as int) =~= a2);
        }
        decode_utf8_encode_utf8(out@);
    }
    string_from_utf8(out)
}


/// `insert` placed before character `pos` of `original` (a position counted
/// in characters, not bytes).
pub fn insert_string(original: &String, insert: &String, pos: usize) -> (result: String)
    requires
        pos <= original@.len(),
    ensures
        result@ == original@.take(pos as int) + insert@ + original@.skip(pos as int),
{
    let s = original.as_str();
    let len = s.unicode_len();
    let mut result = String::from_str(s.substring_char(0, pos));
    result.append(insert.as_str());
    result.append(s.substring_char(pos, len));
    proof {
        assert(original@.subrange(0, pos as int) =~= original@.take(pos as int));
        assert(original@.subrange(pos as int, len as int) =~= original@.skip(pos as int));
    }
    result
}

} // verus!
