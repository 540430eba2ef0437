//! The piece table: the document is a sequence of pieces, each a byte range
//! of the read-only original buffer or of the append-only add buffer.

use vstd::prelude::*;
use vstd::utf8::*;
use vstd::seq_lib::lemma_flatten_concat;
use crate::text::{bytes_of, fits_in_memory};
use crate::format::{decimal, push_decimal};
use crate::utf8_facts::{
    lemma_boundary_concat_left, lemma_boundary_concat_right, lemma_boundary_in_prefix, lemma_encode_concat,
    lemma_flatten_valid, lemma_valid_between,
};

verus! {

/// The buffer that a piece reads from.
#[derive(Debug, Clone, Copy, PartialEq, Eq, Structural)]
pub enum Buffer {
    Add,
    Original,
}

/// The piece table itself: piece `i` is the byte range
/// `start[i]..end[i]` of buffer `which[i]`.
#[derive(Debug, Clone)]
pub struct PieceTable {
    pub which: Vec<Buffer>,
    pub start: Vec<usize>,
    pub end: Vec<usize>,
}

/// The name of a buffer, as it is displayed.
pub open spec fn buffer_name(b: Buffer) -> Seq<char> {
    match b {
        Buffer::Add => "Add"@,
        Buffer::Original => "Original"@,
    }
}

impl Buffer {
    /// The name of the buffer: `Add` or `Original`.
    pub fn to_display_string(&self) -> (name: String)
        ensures
            name@ == buffer_name(*self),
    {
        match self {
            Buffer::Add => String::from_str("Add"),
            Buffer::Original => String::from_str("Original"),
        }
    }
}

/// A piece as a mathematical value: buffer, start and end.
pub type Piece = (Buffer, int, int);

impl View for PieceTable {
    type V = Seq<Piece>;

    open spec fn view(&self) -> Seq<Piece> {
        Seq::new(self.which@.len(), |i: int| (self.which@[i], self.start@[i] as int, self.end@[i] as int))
    }
}

impl PieceTable {
    /// The three columns have one entry per piece.
    pub open spec fn well_shaped(&self) -> bool {
        self.which@.len() == self.start@.len() && self.which@.len() == self.end@.len()
    }

    /// Well shaped, and no piece ends before it starts.
    pub open spec fn well_formed(&self) -> bool {
        &&& self.well_shaped()
        &&& ordered(self@)
    }

    /// Well formed, and every piece lies inside its buffer and begins and
    /// ends between characters, so that it can be read.
    pub open spec fn valid_for(&self, original: Seq<u8>, add: Seq<u8>) -> bool {
        &&& self.well_shaped()
        &&& pieces_valid_for(self@, original, add)
    }
}

/// One line of the table's listing: `buffer | start | end`.
pub open spec fn piece_row(p: Piece) -> Seq<char> {
    buffer_name(p.0) + " | "@ + decimal(p.1 as nat) + " | "@ + decimal(p.2 as nat) + "\n"@
}

/// The listing of the first `m` pieces, one line each.
pub open spec fn table_listing(v: Seq<Piece>, m: int) -> Seq<char>
    decreases m,
{
    if m <= 0 {
        Seq::empty()
    } else {
        table_listing(v, m - 1) + piece_row(v[m - 1])
    }
}

impl PieceTable {
    /// The table listed one piece per line, as `buffer | start | end`.
    pub fn to_display_string(&self) -> (listing: String)
        requires
            self.well_shaped(),
        ensures
            listing@ == table_listing(self@, self@.len() as int),
    {
        let mut result = String::new();
        let n = self.which.len();
        let mut i: usize = 0;
        while i < n
            invariant
                self.well_shaped(),
                n == self@.len(),
                i <= n,
                result@ == table_listing(self@, i as int),
            decreases n - i,
        {
            let ghost before = result@;
            result.append(self.which[i].to_display_string().as_str());
            result.append(" | ");
            push_decimal(&mut result, self.start[i]);
            result.append(" | ");
            push_decimal(&mut result, self.end[i]);
            result.append("\n");
            proof {
                let p = self@[i as int];
                assert(p == (self.which@[i as int], self.start@[i as int] as int, self.end@[i as int] as int));
                assert(result@ =~= before + piece_row(p));
            }
            i += 1;
        }
        result
    }
}

/// No piece ends before it starts.
pub open spec fn ordered(v: Seq<Piece>) -> bool {
    forall|i: int| 0 <= i < v.len() ==> 0 <= (#[trigger] v[i]).1 <= v[i].2
}

/// The buffer that a piece reads from.
pub open spec fn buffer_of(p: Piece, original: Seq<u8>, add: Seq<u8>) -> Seq<u8> {
    match p.0 {
        Buffer::Add => add,
        Buffer::Original => original,
    }
}

/// Every piece lies inside its buffer and begins and ends between characters.
pub open spec fn pieces_valid_for(v: Seq<Piece>, original: Seq<u8>, add: Seq<u8>) -> bool {
    forall|i: int| 0 <= i < v.len() ==> piece_valid_for(#[trigger] v[i], original, add)
}

pub open spec fn piece_valid_for(p: Piece, original: Seq<u8>, add: Seq<u8>) -> bool {
    let b = buffer_of(p, original, add);
    &&& 0 <= p.1 <= p.2 <= b.len()
    &&& is_char_boundary(b, p.1)
    &&& is_char_boundary(b, p.2)
}

/// Every piece lies inside its buffer.
pub open spec fn pieces_in_bounds(v: Seq<Piece>, original_len: int, add_len: int) -> bool {
    forall|i: int|
        0 <= i < v.len() ==> 0 <= (#[trigger] v[i]).1 <= v[i].2 <= (match v[i].0 {
            Buffer::Add => add_len,
            Buffer::Original => original_len,
        })
}

/// The bytes of one piece.
pub open spec fn piece_bytes(p: Piece, original: Seq<u8>, add: Seq<u8>) -> Seq<u8> {
    buffer_of(p, original, add).subrange(p.1, p.2)
}

/// The bytes of each piece, in order.
pub open spec fn piece_texts(v: Seq<Piece>, original: Seq<u8>, add: Seq<u8>) -> Seq<Seq<u8>> {
    Seq::new(v.len(), |i: int| piece_bytes(v[i], original, add))
}

/// The document that a piece table describes: its pieces, one after another.
pub open spec fn table_text(v: Seq<Piece>, original: Seq<u8>, add: Seq<u8>) -> Seq<u8> {
    piece_texts(v, original, add).flatten()
}

/// The number of bytes in the first `m` pieces.
pub open spec fn prefix_len(v: Seq<Piece>, m: int) -> int
    decreases m,
{
    if m <= 0 {
        0
    } else {
        prefix_len(v, m - 1) + (v[m - 1].2 - v[m - 1].1)
    }
}

/// The length in bytes of the document.
pub open spec fn total_len(v: Seq<Piece>) -> int {
    prefix_len(v, v.len() as int)
}

/// Piece `i` is where text inserted at byte `k` goes: the document reaches
/// `k` exactly where the piece begins, or inside the piece.
pub open spec fn stops_at(v: Seq<Piece>, k: int, i: int) -> bool {
    prefix_len(v, i) == k || prefix_len(v, i + 1) > k
}

/// The first piece at or after `i` where text inserted at byte `k` goes, or
/// the number of pieces when there is none.
pub open spec fn find_piece(v: Seq<Piece>, k: int, i: int) -> int
    decreases v.len() - i,
{
    if i >= v.len() {
        v.len() as int
    } else if stops_at(v, k, i) {
        i
    } else {
        find_piece(v, k, i + 1)
    }
}

/// The table after `t` bytes, stored at `a` in the add buffer, are inserted
/// at byte `k` of the document: a new add piece goes at the end when `k` is
/// past every piece, before the piece that begins at `k`, or between the two
/// halves of the piece that `k` falls inside.
pub open spec fn table_after_insert(v: Seq<Piece>, k: int, a: int, t: int) -> Seq<Piece> {
    let j = find_piece(v, k, 0);
    let added: Piece = (Buffer::Add, a, a + t);
    if j >= v.len() {
        v.push(added)
    } else if prefix_len(v, j) == k {
        v.insert(j, added)
    } else {
        let off = k - prefix_len(v, j);
        let p = v[j];
        v.update(j, (p.0, p.1, p.1 + off)).insert(j + 1, added).insert(j + 2, (p.0, p.1 + off, p.2))
    }
}

/// With no piece ending before it starts, prefix lengths grow with the prefix.
pub proof fn lemma_prefix_len_mono(v: Seq<Piece>, m: int, n: int)
    requires
        ordered(v),
        0 <= m <= n <= v.len(),
    ensures
        0 <= prefix_len(v, m) <= prefix_len(v, n),
    decreases n,
{
    if n > m {
        lemma_prefix_len_mono(v, m, n - 1);
        assert(0 <= v[n - 1].1 <= v[n - 1].2);
    } else if m > 0 {
        lemma_prefix_len_mono(v, m - 1, m - 1);
        assert(0 <= v[m - 1].1 <= v[m - 1].2);
    }
}

/// The search for the insertion piece, one piece at a time.
proof fn lemma_find_piece_step(v: Seq<Piece>, k: int, i: int)
    requires
        0 <= i < v.len(),
    ensures
        stops_at(v, k, i) ==> find_piece(v, k, i) == i,
        !stops_at(v, k, i) ==> find_piece(v, k, i) == find_piece(v, k, i + 1),
{
}

/// What the search for the insertion piece finds.
pub proof fn lemma_find_piece(v: Seq<Piece>, k: int, i: int)
    requires
        0 <= i <= v.len(),
    ensures
        i <= find_piece(v, k, i) <= v.len(),
        find_piece(v, k, i) < v.len() ==> stops_at(v, k, find_piece(v, k, i)),
        forall|m: int| i <= m < find_piece(v, k, i) ==> !#[trigger] stops_at(v, k, m),
    decreases v.len() - i,
{
    if i < v.len() && !stops_at(v, k, i) {
        lemma_find_piece(v, k, i + 1);
    }
}

/// Insert `text` at byte `insert_index` of the document that `piece_table`
/// describes over `add_buffer`: the text is appended to the add buffer and a
/// piece for it is placed as `table_after_insert` says.
pub fn insert_table(add_buffer: String, piece_table: PieceTable, insertion_text: &String, insert_index: usize) -> (res: (String, PieceTable))
    requires
        piece_table.well_formed(),
        total_len(piece_table@) <= usize::MAX,
        fits_in_memory(bytes_of(add_buffer@).len() + bytes_of(insertion_text@).len()),
    ensures
        res.0@ == add_buffer@ + insertion_text@,
        res.1.well_shaped(),
        res.1@ == table_after_insert(
            piece_table@,
            insert_index as int,
            bytes_of(add_buffer@).len() as int,
            bytes_of(insertion_text@).len() as int,
        ),
        res.1@.len() == piece_table@.len() + (if falls_inside(piece_table@, insert_index as int) { 2int } else { 1int }),
        total_len(res.1@) == total_len(piece_table@) + bytes_of(insertion_text@).len(),
        forall|original_len: int|
            pieces_in_bounds(piece_table@, original_len, bytes_of(add_buffer@).len() as int) ==> pieces_in_bounds(
                res.1@,
                original_len,
                bytes_of(res.0@).len() as int,
            ),
        forall|original: Seq<u8>|
            pieces_in_bounds(piece_table@, original.len() as int, bytes_of(add_buffer@).len() as int) ==> table_text(
                piece_table@,
                original,
                bytes_of(res.0@),
            ) == table_text(piece_table@, original, bytes_of(add_buffer@)),
{
    let mut add_buffer = add_buffer;
    let mut piece_table = piece_table;
    let ghost old_table = piece_table@;
    let ghost v = piece_table@;
    let ghost k = insert_index as int;
    let mut found: bool = false;
    let mut entry_num: usize = 0;
    let mut current_index: usize = 0;
    let n = piece_table.which.len();
    let mut i: usize = 0;
    while i < n
        invariant_except_break
            !found,
        invariant
            piece_table@ == v,
            piece_table.well_formed(),
            n == v.len(),
            total_len(v) <= usize::MAX,
            k == insert_index,
            i <= n,
            current_index == prefix_len(v, i as int),
            find_piece(v, k, 0) == find_piece(v, k, i as int),
        ensures
            found ==> entry_num < n && entry_num == find_piece(v, k, 0) && current_index == prefix_len(v, entry_num as int),
            !found ==> find_piece(v, k, 0) == n && current_index == total_len(v),
        decreases n - i,
    {
        proof {
            lemma_prefix_len_mono(v, i + 1, n as int);
            lemma_find_piece_step(v, k, i as int);
            assert(v[i as int] == (piece_table.which@[i as int], piece_table.start@[i as int] as int, piece_table.end@[i as int] as int));
        }
        if current_index == insert_index {
            entry_num = i;
            found = true;
            break;
        }
        let piece_len = piece_table.end[i] - piece_table.start[i];
        if current_index + piece_len > insert_index {
            entry_num = i;
            found = true;
            break;
        }
        current_index += piece_len;
        i += 1;
    }
    let add_len = add_buffer.as_str().len();
    let text_len = insertion_text.as_str().len();
    if !found {
        piece_table.which.push(Buffer::Add);
        piece_table.start.push(add_len);
        piece_table.end.push(add_len + text_len);
        proof {
            assert(piece_table@ =~= v.push((Buffer::Add, add_len as int, add_len + text_len)));
        }
    } else if current_index == insert_index {
        piece_table.which.insert(entry_num, Buffer::Add);
        piece_table.start.insert(entry_num, add_len);
        piece_table.end.insert(entry_num, add_len + text_len);
        proof {
            assert(piece_table@ =~= v.insert(entry_num as int, (Buffer::Add, add_len as int, add_len + text_len)));
        }
    } else {
        let old_start = piece_table.start[entry_num];
        let old_end = piece_table.end[entry_num];
        let old_which = piece_table.which[entry_num];
        proof {
            let j = entry_num as int;
            lemma_prefix_len_mono(v, j + 1, n as int);
            assert(v[j] == (old_which, old_start as int, old_end as int));
            lemma_find_piece(v, k, 0);
            if j > 0 {
                assert(!stops_at(v, k, j - 1));
            }
            assert(prefix_len(v, j) <= k);
            assert(stops_at(v, k, j));
        }
        let split = old_start + (insert_index - current_index);
        piece_table.end.set(entry_num, split);
        piece_table.which.insert(entry_num + 1, Buffer::Add);
        piece_table.start.insert(entry_num + 1, add_len);
        piece_table.end.insert(entry_num + 1, add_len + text_len);
        let grown = piece_table.which.len();
        assert(grown == n + 1);
        piece_table.which.insert(entry_num + 2, old_which);
        piece_table.start.insert(entry_num + 2, split);
        piece_table.end.insert(entry_num + 2, old_end);
        proof {
            let j = entry_num as int;
            let expected = v.update(j, (old_which, old_start as int, split as int)).insert(
                j + 1,
                (Buffer::Add, add_len as int, add_len + text_len),
            ).insert(j + 2, (old_which, split as int, old_end as int));
            assert(piece_table@ =~= expected);
        }
    }
    proof {
        lemma_insert_table_facts(old_table, bytes_of(add_buffer@), bytes_of(insertion_text@), insert_index as int);
        lemma_encode_concat(add_buffer@, insertion_text@);
    }
    add_buffer.append(insertion_text.as_str());
    (add_buffer, piece_table)
}

/// What an insertion does to a table, for every original buffer: the piece
/// count, the total length, the bounds of the pieces, and the text that the
/// old table reads over the grown add buffer.
proof fn lemma_insert_table_facts(v: Seq<Piece>, a: Seq<u8>, t: Seq<u8>, k: int)
    requires
        ordered(v),
        0 <= k,
    ensures
        ({
            let v2 = table_after_insert(v, k, a.len() as int, t.len() as int);
            &&& v2.len() == v.len() + (if falls_inside(v, k) { 2int } else { 1int })
            &&& total_len(v2) == total_len(v) + t.len()
            &&& forall|original_len: int|
                pieces_in_bounds(v, original_len, a.len() as int) ==> pieces_in_bounds(v2, original_len, (a.len() + t.len()) as int)
            &&& forall|original: Seq<u8>|
                pieces_in_bounds(v, original.len() as int, a.len() as int) ==> table_text(v, original, a + t) == table_text(v, original, a)
        }),
{
    let v2 = table_after_insert(v, k, a.len() as int, t.len() as int);
    insert_table_shape(v, 0, a.len() as int, t.len() as int, k);
    assert forall|original_len: int| pieces_in_bounds(v, original_len, a.len() as int) implies pieces_in_bounds(
        v2,
        original_len,
        (a.len() + t.len()) as int,
    ) by {
        insert_table_shape(v, original_len, a.len() as int, t.len() as int, k);
    }
    assert forall|original: Seq<u8>| pieces_in_bounds(v, original.len() as int, a.len() as int) implies table_text(
        v,
        original,
        a + t,
    ) == table_text(v, original, a) by {
        earlier_table_reads_same_text(v, original, a, t);
    }
}


/// The bytes of the first `m` pieces add up to `prefix_len(v, m)`.
pub proof fn lemma_piece_texts_len(v: Seq<Piece>, original: Seq<u8>, add: Seq<u8>, m: int)
    requires
        pieces_in_bounds(v, original.len() as int, add.len() as int),
        0 <= m <= v.len(),
    ensures
        piece_texts(v, original, add).take(m).flatten().len() == prefix_len(v, m),
    decreases m,
{
    let ts = piece_texts(v, original, add);
    if m == 0 {
        assert(ts.take(0) =~= Seq::<Seq<u8>>::empty());
    } else {
        lemma_piece_texts_len(v, original, add, m - 1);
        assert(ts.take(m) =~= ts.take(m - 1).push(ts[m - 1]));
        ts.take(m - 1).lemma_flatten_push(ts[m - 1]);
        assert(0 <= v[m - 1].1 <= v[m - 1].2);
    }
}

/// The length of a table is the length of the document it describes.
pub proof fn table_length_is_text_length(v: Seq<Piece>, original: Seq<u8>, add: Seq<u8>)
    requires
        pieces_in_bounds(v, original.len() as int, add.len() as int),
    ensures
        total_len(v) == table_text(v, original, add).len(),
{
    lemma_piece_texts_len(v, original, add, v.len() as int);
    assert(piece_texts(v, original, add).take(v.len() as int) =~= piece_texts(v, original, add));
}

/// The document, as read so far: the first `m` pieces.
proof fn lemma_take_flatten_step(ts: Seq<Seq<u8>>, m: int)
    requires
        0 <= m < ts.len(),
    ensures
        ts.take(m + 1).flatten() == ts.take(m).flatten() + ts[m],
{
    assert(ts.take(m + 1) =~= ts.take(m).push(ts[m]));
    ts.take(m).lemma_flatten_push(ts[m]);
}

/// The document that the table describes over the two buffers.
pub fn read_table(piece_table: &PieceTable, original_buffer: &String, add_buffer: &String) -> (message: String)
    requires
        piece_table.valid_for(bytes_of(original_buffer@), bytes_of(add_buffer@)),
    ensures
        bytes_of(message@) == table_text(piece_table@, bytes_of(original_buffer@), bytes_of(add_buffer@)),
{
    let ghost v = piece_table@;
    let ghost ob = bytes_of(original_buffer@);
    let ghost ab = bytes_of(add_buffer@);
    let ghost ts = piece_texts(v, ob, ab);
    proof {
        encode_utf8_valid_utf8(original_buffer@);
        encode_utf8_valid_utf8(add_buffer@);
        assert(ts.take(0) =~= Seq::<Seq<u8>>::empty());
    }
    let mut message = String::new();
    let n = piece_table.which.len();
    let mut i: usize = 0;
    while i < n
        invariant
            v == piece_table@,
            ob == bytes_of(original_buffer@),
            ab == bytes_of(add_buffer@),
            ts == piece_texts(v, ob, ab),
            valid_utf8(ob),
            valid_utf8(ab),
            piece_table.valid_for(ob, ab),
            n == v.len(),
            i <= n,
            bytes_of(message@) == ts.take(i as int).flatten(),
        decreases n - i,
    {
        let buffer: &str = match piece_table.which[i] {
            Buffer::Add => add_buffer.as_str(),
            Buffer::Original => original_buffer.as_str(),
        };
        let s = piece_table.start[i];
        let e = piece_table.end[i];
        let ghost bb = buffer_of(v[i as int], ob, ab);
        proof {
            assert(v[i as int] == (piece_table.which@[i as int], s as int, e as int));
            assert(piece_valid_for(v[i as int], ob, ab));
            assert(bb == encode_utf8(buffer@));
            lemma_boundary_in_prefix(bb, e as int, s as int);
        }
        let (before_end, _) = buffer.split_at(e);
        let (_, piece) = before_end.split_at(s);
        proof {
            assert(encode_utf8(piece@) =~= bb.subrange(s as int, e as int));
            lemma_encode_concat(message@, piece@);
            lemma_take_flatten_step(ts, i as int);
        }
        message.append(piece);
        i += 1;
    }
    proof {
        assert(ts.take(n as int) =~= ts);
    }
    message
}

/// The length in bytes of the document that the table describes.
pub fn _get_table_length(piece_table: &PieceTable) -> (table_length: usize)
    requires
        piece_table.well_formed(),
        total_len(piece_table@) <= usize::MAX,
    ensures
        table_length == total_len(piece_table@),
{
    let ghost v = piece_table@;
    let n = piece_table.which.len();
    let mut table_length: usize = 0;
    let mut i: usize = 0;
    while i < n
        invariant
            v == piece_table@,
            piece_table.well_formed(),
            total_len(v) <= usize::MAX,
            n == v.len(),
            i <= n,
            table_length == prefix_len(v, i as int),
        decreases n - i,
    {
        proof {
            lemma_prefix_len_mono(v, i + 1, n as int);
            assert(v[i as int] == (piece_table.which@[i as int], piece_table.start@[i as int] as int, piece_table.end@[i as int] as int));
        }
        table_length += piece_table.end[i] - piece_table.start[i];
        i += 1;
    }
    table_length
}

/// Deleting text is not supported yet: the table comes back unchanged.
pub fn _delete_text(piece_table: PieceTable, delete_start: usize, delete_end: usize) -> (res: PieceTable)
    ensures
        res == piece_table,
{
    piece_table
}


/// A sequence of pieces read as the ones before `j`, then piece `j`, then the rest.
proof fn lemma_flatten_around(ts: Seq<Seq<u8>>, j: int)
    requires
        0 <= j < ts.len(),
    ensures
        ts.flatten() == ts.take(j).flatten() + (ts[j] + ts.skip(j + 1).flatten()),
        ts.flatten() == ts.take(j).flatten() + ts.skip(j).flatten(),
{
    assert(ts.take(j) + ts.skip(j) =~= ts);
    lemma_flatten_concat(ts.take(j), ts.skip(j));
    let r = ts.skip(j);
    assert(r.drop_first() =~= ts.skip(j + 1));
    assert(r.first() == ts[j]);
}

/// Three pieces in the middle of a table, read in order.
proof fn lemma_flatten_three(pre: Seq<Seq<u8>>, x: Seq<u8>, y: Seq<u8>, z: Seq<u8>, post: Seq<Seq<u8>>)
    ensures
        (pre + (seq![x, y, z] + post)).flatten() == pre.flatten() + (x + (y + (z + post.flatten()))),
{
    lemma_flatten_concat(pre, seq![x, y, z] + post);
    let m = seq![x, y, z] + post;
    let m1 = seq![y, z] + post;
    let m2 = seq![z] + post;
    assert(m.drop_first() =~= m1);
    assert(m1.drop_first() =~= m2);
    assert(m2.drop_first() =~= post);
    assert(m2.flatten() == z + post.flatten());
    assert(m1.flatten() == y + m2.flatten());
    assert(m.flatten() == x + m1.flatten());
}

/// One piece in the middle of a table, read in order.
proof fn lemma_flatten_one(pre: Seq<Seq<u8>>, x: Seq<u8>, post: Seq<Seq<u8>>)
    ensures
        (pre + (seq![x] + post)).flatten() == pre.flatten() + (x + post.flatten()),
{
    lemma_flatten_concat(pre, seq![x] + post);
    let m = seq![x] + post;
    assert(m.drop_first() =~= post);
}

/// Inserting into the piece table inserts into the document: after `text` is
/// appended to the add buffer and placed by `table_after_insert`, the table
/// reads as the old document with `text` at byte `k`, or at its end when `k`
/// is past the end.
pub proof fn insert_table_inserts_text(v: Seq<Piece>, original: Seq<u8>, add: Seq<u8>, text: Seq<u8>, k: int)
    requires
        pieces_in_bounds(v, original.len() as int, add.len() as int),
        0 <= k,
    ensures
        ({
            let doc = table_text(v, original, add);
            let at = if k < doc.len() { k } else { doc.len() as int };
            table_text(table_after_insert(v, k, add.len() as int, text.len() as int), original, add + text)
                == doc.take(at) + (text + doc.skip(at))
        }),
{
    let n = v.len() as int;
    let a2 = add + text;
    let ts = piece_texts(v, original, add);
    let doc = ts.flatten();
    let v2 = table_after_insert(v, k, add.len() as int, text.len() as int);
    let ts2 = piece_texts(v2, original, a2);
    let added: Piece = (Buffer::Add, add.len() as int, (add.len() + text.len()) as int);
    assert(piece_bytes(added, original, a2) =~= text);
    assert forall|i: int| 0 <= i < n implies #[trigger] piece_bytes(v[i], original, a2) == ts[i] by {
        if v[i].0 == Buffer::Add {
            assert(a2.subrange(v[i].1, v[i].2) =~= add.subrange(v[i].1, v[i].2));
        }
    }
    lemma_piece_texts_len(v, original, add, n);
    assert(ts.take(n) =~= ts);
    assert(doc.len() == total_len(v));
    lemma_find_piece(v, k, 0);
    let j = find_piece(v, k, 0);
    if j >= n {
        if n > 0 {
            assert(!stops_at(v, k, n - 1));
        }
        assert(ts2 =~= ts.push(text));
        ts.lemma_flatten_push(text);
        assert(doc.take(doc.len() as int) =~= doc);
        assert(doc.skip(doc.len() as int) =~= Seq::<u8>::empty());
        assert(doc.take(doc.len() as int) + (text + doc.skip(doc.len() as int)) =~= doc + text);
    } else {
        lemma_piece_texts_len(v, original, add, j);
        lemma_prefix_len_mono(v, j, n);
        lemma_flatten_around(ts, j);
        let pre = ts.take(j);
        assert(pre.flatten().len() == prefix_len(v, j));
        if prefix_len(v, j) == k {
            assert(ts2 =~= pre + (seq![text] + ts.skip(j)));
            lemma_flatten_one(pre, text, ts.skip(j));
            assert(doc.take(k) =~= pre.flatten());
            assert(doc.skip(k) =~= ts.skip(j).flatten());
        } else {
            if j > 0 {
                assert(!stops_at(v, k, j - 1));
            }
            let p = v[j];
            let off = k - prefix_len(v, j);
            lemma_prefix_len_mono(v, j + 1, n);
            assert(0 < off < p.2 - p.1);
            let pj = ts[j];
            let p1 = piece_bytes((p.0, p.1, p.1 + off), original, a2);
            let p2 = piece_bytes((p.0, p.1 + off, p.2), original, a2);
            assert(p1 =~= pj.take(off));
            assert(p2 =~= pj.skip(off));
            assert(ts2 =~= pre + (seq![p1, text, p2] + ts.skip(j + 1)));
            lemma_flatten_three(pre, p1, text, p2, ts.skip(j + 1));
            let rest = ts.skip(j + 1).flatten();
            assert(doc =~= pre.flatten() + (pj + rest));
            assert(doc.take(k) =~= pre.flatten() + p1);
            assert(doc.skip(k) =~= p2 + rest);
            assert(doc.take(k) + (text + doc.skip(k)) =~= pre.flatten() + (p1 + (text + (p2 + rest))));
        }
    }
}


/// The document that a valid table describes over valid buffers is valid UTF-8.
pub proof fn lemma_table_text_valid(v: Seq<Piece>, original: Seq<u8>, add: Seq<u8>)
    requires
        pieces_valid_for(v, original, add),
        valid_utf8(original),
        valid_utf8(add),
    ensures
        valid_utf8(table_text(v, original, add)),
{
    let ts = piece_texts(v, original, add);
    assert forall|i: int| 0 <= i < ts.len() implies valid_utf8(#[trigger] ts[i]) by {
        assert(piece_valid_for(v[i], original, add));
        lemma_valid_between(buffer_of(v[i], original, add), v[i].1, v[i].2);
    }
    lemma_flatten_valid(ts);
}

/// Inserting valid text between two characters of the document keeps every
/// piece readable: pieces stay inside their buffers and begin and end
/// between characters.
pub proof fn insert_table_keeps_pieces_valid(v: Seq<Piece>, original: Seq<u8>, add: Seq<u8>, text: Seq<u8>, k: int)
    requires
        pieces_valid_for(v, original, add),
        valid_utf8(original),
        valid_utf8(add),
        valid_utf8(text),
        0 <= k,
        ({
            let doc = table_text(v, original, add);
            is_char_boundary(doc, if k < doc.len() { k } else { doc.len() as int })
        }),
    ensures
        pieces_valid_for(table_after_insert(v, k, add.len() as int, text.len() as int), original, add + text),
{
    let n = v.len() as int;
    let a2 = add + text;
    let ts = piece_texts(v, original, add);
    let doc = ts.flatten();
    let v2 = table_after_insert(v, k, add.len() as int, text.len() as int);
    let added: Piece = (Buffer::Add, add.len() as int, (add.len() + text.len()) as int);
    vstd::utf8::valid_utf8_concat(add, text);
    assert forall|i: int| 0 <= i < n implies #[trigger] piece_valid_for(v[i], original, a2) by {
        assert(piece_valid_for(v[i], original, add));
        if v[i].0 == Buffer::Add {
            lemma_boundary_concat_left(add, text, v[i].1);
            lemma_boundary_concat_left(add, text, v[i].2);
        }
    }
    is_char_boundary_start_end_of_seq(text);
    lemma_boundary_concat_right(add, text, 0);
    lemma_boundary_concat_right(add, text, text.len() as int);
    assert(piece_valid_for(added, original, a2));
    lemma_find_piece(v, k, 0);
    let j = find_piece(v, k, 0);
    if j >= n {
        assert(v2 =~= v.push(added));
        assert forall|i: int| 0 <= i < v2.len() implies piece_valid_for(#[trigger] v2[i], original, a2) by {
            if i < n {
                assert(v2[i] == v[i]);
            }
        }
    } else if prefix_len(v, j) == k {
        assert forall|i: int| 0 <= i < v2.len() implies piece_valid_for(#[trigger] v2[i], original, a2) by {
            if i < j {
                assert(v2[i] == v[i]);
            } else if i > j {
                assert(v2[i] == v[i - 1]);
            }
        }
    } else {
        if j > 0 {
            assert(!stops_at(v, k, j - 1));
        }
        let p = v[j];
        let off = k - prefix_len(v, j);
        lemma_prefix_len_mono(v, j + 1, n);
        lemma_prefix_len_mono(v, j, n);
        lemma_piece_texts_len(v, original, add, j);
        lemma_piece_texts_len(v, original, add, n);
        assert(ts.take(n) =~= ts);
        lemma_flatten_around(ts, j);
        let pre = ts.take(j);
        let pj = ts[j];
        let buf = buffer_of(p, original, add);
        assert(piece_valid_for(p, original, add));
        assert(pj =~= buf.subrange(p.1, p.2));
        assert(doc =~= pre.flatten() + (pj + ts.skip(j + 1).flatten()));
        assert(doc[k] == pj[off]);
        assert(pj[off] == buf[p.1 + off]);
        lemma_table_text_valid(v, original, add);
        vstd::utf8::is_char_boundary_iff_not_is_continuation_byte(doc, k);
        vstd::utf8::is_char_boundary_iff_not_is_continuation_byte(buf, p.1 + off);
        assert(k < doc.len());
        assert(is_char_boundary(doc, k));
        assert(valid_utf8(buf));
        assert(is_char_boundary(buf, p.1 + off));
        assert(buffer_of(p, original, a2) == buf || p.0 == Buffer::Add);
        if p.0 == Buffer::Add {
            lemma_boundary_concat_left(add, text, p.1 + off);
            lemma_boundary_concat_left(add, text, p.1);
            lemma_boundary_concat_left(add, text, p.2);
            assert(is_char_boundary(a2, p.1 + off));
        }
        let q1: Piece = (p.0, p.1, p.1 + off);
        let q2: Piece = (p.0, p.1 + off, p.2);
        assert(piece_valid_for(q1, original, a2));
        assert(piece_valid_for(q2, original, a2));
        assert forall|i: int| 0 <= i < v2.len() implies piece_valid_for(#[trigger] v2[i], original, a2) by {
            if i < j {
                assert(v2[i] == v[i]);
            } else if i == j {
                assert(v2[i] == q1);
            } else if i == j + 1 {
                assert(v2[i] == added);
            } else if i == j + 2 {
                assert(v2[i] == q2);
            } else {
                assert(v2[i] == v[i - 2]);
            }
        }
    }
}


/// Pieces that can be read from their buffers lie inside them.
pub proof fn lemma_valid_pieces_in_bounds(v: Seq<Piece>, original: Seq<u8>, add: Seq<u8>)
    requires
        pieces_valid_for(v, original, add),
    ensures
        pieces_in_bounds(v, original.len() as int, add.len() as int),
        ordered(v),
{
    assert forall|i: int| 0 <= i < v.len() implies 0 <= (#[trigger] v[i]).1 <= v[i].2 <= (match v[i].0 {
        Buffer::Add => add.len() as int,
        Buffer::Original => original.len() as int,
    }) by {
        assert(piece_valid_for(v[i], original, add));
    }
}

/// The add buffer is only ever appended to, so a table reads the same text
/// over a grown add buffer as over the one it was made with: every earlier
/// version of the document can still be read back.
pub proof fn earlier_table_reads_same_text(v: Seq<Piece>, original: Seq<u8>, add: Seq<u8>, more: Seq<u8>)
    requires
        pieces_in_bounds(v, original.len() as int, add.len() as int),
    ensures
        table_text(v, original, add + more) == table_text(v, original, add),
{
    let a2 = add + more;
    assert forall|i: int| 0 <= i < v.len() implies #[trigger] piece_bytes(v[i], original, a2) == piece_bytes(v[i], original, add) by {
        if v[i].0 == Buffer::Add {
            assert(a2.subrange(v[i].1, v[i].2) =~= add.subrange(v[i].1, v[i].2));
        }
    }
    assert(piece_texts(v, original, a2) =~= piece_texts(v, original, add));
}

/// Byte `k` of the document falls strictly inside some piece.
pub open spec fn falls_inside(v: Seq<Piece>, k: int) -> bool {
    exists|i: int| 0 <= i < v.len() && #[trigger] prefix_len(v, i) < k && k < prefix_len(v, i + 1)
}

/// The shape of the table after an insertion: one piece more, or two when
/// the insertion point falls strictly inside a piece (which is split); every
/// piece stays inside its buffer, the new text now counting in the add
/// buffer; and the table grows by the length of the text.
pub proof fn insert_table_shape(v: Seq<Piece>, original_len: int, add_len: int, t: int, k: int)
    requires
        ordered(v),
        0 <= add_len,
        0 <= k,
        0 <= t,
    ensures
        ({
            let v2 = table_after_insert(v, k, add_len, t);
            &&& v2.len() == v.len() + (if falls_inside(v, k) { 2int } else { 1int })
            &&& pieces_in_bounds(v, original_len, add_len) ==> pieces_in_bounds(v2, original_len, add_len + t)
            &&& total_len(v2) == total_len(v) + t
        }),
{
    let n = v.len() as int;
    let v2 = table_after_insert(v, k, add_len, t);
    let added: Piece = (Buffer::Add, add_len, add_len + t);
    lemma_find_piece(v, k, 0);
    let j = find_piece(v, k, 0);
    if j >= n {
        assert(v2 =~= v.push(added));
        assert(!falls_inside(v, k)) by {
            assert forall|i: int| 0 <= i < n implies !(#[trigger] prefix_len(v, i) < k && k < prefix_len(v, i + 1)) by {
                assert(!stops_at(v, k, i));
            }
        }
        lemma_prefix_len_push(v, added);
    } else if prefix_len(v, j) == k {
        assert(v2 =~= v.insert(j, added));
        assert(!falls_inside(v, k)) by {
            assert forall|i: int| 0 <= i < n implies !(#[trigger] prefix_len(v, i) < k && k < prefix_len(v, i + 1)) by {
                if i < j {
                    assert(!stops_at(v, k, i));
                } else {
                    lemma_prefix_len_mono(v, j, i);
                }
            }
        }
        lemma_prefix_len_insert(v, j, added);
    } else {
        if j > 0 {
            assert(!stops_at(v, k, j - 1));
        } else {
            assert(prefix_len(v, 0) == 0);
        }
        assert(prefix_len(v, j) < k && k < prefix_len(v, j + 1));
        assert(falls_inside(v, k));
        let p = v[j];
        let off = k - prefix_len(v, j);
        assert(0 < off < p.2 - p.1);
        let q1: Piece = (p.0, p.1, p.1 + off);
        let q2: Piece = (p.0, p.1 + off, p.2);
        let w1 = v.update(j, q1);
        let w2 = w1.insert(j + 1, added);
        assert(v2 == w2.insert(j + 2, q2));
        lemma_prefix_len_update(v, j, q1);
        lemma_prefix_len_insert(w1, j + 1, added);
        lemma_prefix_len_insert(w2, j + 2, q2);
        assert(w2[j + 1] == added);
        assert(w1[j] == q1);
    }
    if pieces_in_bounds(v, original_len, add_len) {
        assert forall|i: int| 0 <= i < v2.len() implies 0 <= (#[trigger] v2[i]).1 <= v2[i].2 <= (match v2[i].0 {
            Buffer::Add => add_len + t,
            Buffer::Original => original_len,
        }) by {
            if j >= n {
                if i < n {
                    assert(v2[i] == v[i]);
                }
            } else if prefix_len(v, j) == k {
                if i < j {
                    assert(v2[i] == v[i]);
                } else if i > j {
                    assert(v2[i] == v[i - 1]);
                }
            } else {
                let p = v[j];
                if i < j {
                    assert(v2[i] == v[i]);
                } else if i > j + 2 {
                    assert(v2[i] == v[i - 2]);
                } else {
                    let off = k - prefix_len(v, j);
                    assert(0 <= p.1 <= p.2);
                    assert(0 < off < p.2 - p.1) by {
                        if j > 0 {
                            assert(!stops_at(v, k, j - 1));
                        }
                    }
                    if i == j {
                        assert(v2[i] == (p.0, p.1, p.1 + off));
                    } else if i == j + 1 {
                        assert(v2[i] == added);
                    } else {
                        assert(v2[i] == (p.0, p.1 + off, p.2));
                    }
                }
            }
        }
    }
}

/// The length of the first `m` pieces when one more piece is appended.
proof fn lemma_prefix_len_push(v: Seq<Piece>, p: Piece)
    ensures
        total_len(v.push(p)) == total_len(v) + (p.2 - p.1),
{
    lemma_prefix_len_same(v, v.push(p), v.len() as int);
}

/// Prefix lengths only depend on the pieces they cover.
proof fn lemma_prefix_len_same(v: Seq<Piece>, w: Seq<Piece>, m: int)
    requires
        0 <= m <= v.len(),
        m <= w.len(),
        forall|i: int| 0 <= i < m ==> v[i] == w[i],
    ensures
        prefix_len(v, m) == prefix_len(w, m),
    decreases m,
{
    if m > 0 {
        lemma_prefix_len_same(v, w, m - 1);
    }
}

/// A piece inserted at position `j` adds its length to the total.
proof fn lemma_prefix_len_insert(v: Seq<Piece>, j: int, p: Piece)
    requires
        0 <= j <= v.len(),
    ensures
        total_len(v.insert(j, p)) == total_len(v) + (p.2 - p.1),
    decreases v.len() - j,
{
    let w = v.insert(j, p);
    if j == v.len() {
        assert(w =~= v.push(p));
        lemma_prefix_len_push(v, p);
    } else {
        // The last piece is the same; strip it and recurse.
        let vd = v.drop_last();
        let wd = w.drop_last();
        assert(wd =~= vd.insert(j, p));
        lemma_prefix_len_insert(vd, j, p);
        lemma_prefix_len_same(vd, v, vd.len() as int);
        lemma_prefix_len_same(wd, w, wd.len() as int);
        assert(w.last() == v.last());
    }
}

/// Replacing a piece changes the total by the change in its length.
proof fn lemma_prefix_len_update(v: Seq<Piece>, j: int, p: Piece)
    requires
        0 <= j < v.len(),
    ensures
        total_len(v.update(j, p)) == total_len(v) - (v[j].2 - v[j].1) + (p.2 - p.1),
    decreases v.len() - j,
{
    let w = v.update(j, p);
    if j == v.len() - 1 {
        lemma_prefix_len_same(v, w, j);
    } else {
        let vd = v.drop_last();
        let wd = w.drop_last();
        assert(wd =~= vd.update(j, p));
        lemma_prefix_len_update(vd, j, p);
        lemma_prefix_len_same(vd, v, vd.len() as int);
        lemma_prefix_len_same(wd, w, wd.len() as int);
    }
}

} // verus!
