//! The document buffer: a piece table.
//!
//! The text is never stored as one run of bytes. It is the concatenation of
//! pieces, each a stretch of one of two backing stores: the original bytes,
//! which are never changed, and the added bytes, which only grow at their end.
//! An edit changes the list of pieces and nothing else.

use crate::text::{
    apply_edits, clamp_offset, delete_range, insert_at, lemma_apply_edit_len,
    lemma_newline_count_prefix, lemma_newline_count_push, lemma_run_length_is, line_bytes,
    line_count, line_length, line_offset, line_start, newline_count, offset_of, Edit, NEWLINE,
};
use vstd::prelude::*;

verus! {

/// The backing store that a piece reads from.
#[derive(Clone, Copy, Debug)]
enum Buffer {
    Original,
    Add,
}

/// A stretch of one backing store, taken verbatim into the text.
#[derive(Clone, Copy, Debug)]
pub struct Piece {
    buffer: Buffer,
    start_idx: usize,
    len: usize,
}

/// A place in the text, given as a piece and an offset into that piece.
#[derive(Clone, Copy, Debug)]
pub struct PieceIndex {
    pub in_table: usize,
    pub in_piece: usize,
}

/// A text held as pieces of the bytes it was opened with and of the bytes
/// added since.
pub struct PieceTable<'a> {
    original: &'a [u8],
    add: Vec<u8>,
    table: Vec<Piece>,
}

impl Piece {
    /// The number of bytes of the piece.
    pub closed spec fn spec_len(&self) -> nat {
        self.len as nat
    }

    /// The offset of the first byte of the piece in its backing store.
    pub closed spec fn spec_start(&self) -> nat {
        self.start_idx as nat
    }

    /// Whether the piece reads from the added bytes.
    pub closed spec fn spec_is_added(&self) -> bool {
        self.buffer is Add
    }

    /// The backing store of the piece, out of the two given.
    pub open spec fn source(self, original: Seq<u8>, add: Seq<u8>) -> Seq<u8> {
        if self.spec_is_added() {
            add
        } else {
            original
        }
    }

    /// The piece is not empty and lies inside its backing store.
    pub open spec fn within(self, original: Seq<u8>, add: Seq<u8>) -> bool {
        &&& self.spec_len() > 0
        &&& self.spec_start() + self.spec_len() <= self.source(original, add).len()
    }

    /// The bytes that the piece stands for.
    pub open spec fn bytes(self, original: Seq<u8>, add: Seq<u8>) -> Seq<u8> {
        self.source(original, add).subrange(
            self.spec_start() as int,
            (self.spec_start() + self.spec_len()) as int,
        )
    }

    /// The piece that stands for the first `k` bytes of this one.
    pub closed spec fn head(self, k: nat) -> Piece {
        Piece { buffer: self.buffer, start_idx: self.start_idx, len: k as usize }
    }

    /// The piece that stands for this one without its first `k` bytes.
    pub closed spec fn tail(self, k: nat) -> Piece {
        Piece {
            buffer: self.buffer,
            start_idx: (self.start_idx + k) as usize,
            len: (self.len - k) as usize,
        }
    }

    /// The piece that stands for the one added byte at offset `start` of the
    /// added bytes.
    pub closed spec fn added_byte(start: nat) -> Piece {
        Piece { buffer: Buffer::Add, start_idx: start as usize, len: 1 }
    }

    /// A piece cut after its first `k` bytes falls into a head of `k` bytes
    /// and a tail of the rest, both in the backing store of the piece, the
    /// tail beginning where the head ends. Cut before its first byte or after
    /// its last, it is its own tail or head.
    pub proof fn lemma_cut(self, k: nat)
        requires
            k <= self.spec_len(),
            self.spec_start() + self.spec_len() <= usize::MAX,
        ensures
            self.head(k).spec_is_added() == self.spec_is_added(),
            self.head(k).spec_start() == self.spec_start(),
            self.head(k).spec_len() == k,
            self.tail(k).spec_is_added() == self.spec_is_added(),
            self.tail(k).spec_start() == self.spec_start() + k,
            self.tail(k).spec_len() == self.spec_len() - k,
            self.head(self.spec_len()) == self,
            self.tail(0) == self,
    {
    }

    /// The piece of an added byte is one byte of the added bytes.
    pub proof fn lemma_added_byte(start: nat)
        requires
            start <= usize::MAX,
        ensures
            Piece::added_byte(start).spec_is_added(),
            Piece::added_byte(start).spec_start() == start,
            Piece::added_byte(start).spec_len() == 1,
    {
    }

    /// The piece is a stretch of `whole`.
    pub open spec fn part_of(self, whole: Piece) -> bool {
        &&& self.spec_is_added() == whole.spec_is_added()
        &&& whole.spec_start() <= self.spec_start()
        &&& self.spec_start() + self.spec_len() <= whole.spec_start() + whole.spec_len()
    }

    /// The two pieces share no byte of a backing store.
    pub open spec fn apart(self, other: Piece) -> bool {
        ||| self.spec_is_added() != other.spec_is_added()
        ||| self.spec_start() + self.spec_len() <= other.spec_start()
        ||| other.spec_start() + other.spec_len() <= self.spec_start()
    }

    /// The number of bytes of the piece.
    pub fn len(&self) -> (n: usize)
        ensures
            n == self.spec_len(),
    {
        self.len
    }

    /// The offset of the first byte of the piece in its backing store.
    pub fn start(&self) -> (n: usize)
        ensures
            n == self.spec_start(),
    {
        self.start_idx
    }

    /// Whether the piece reads from the added bytes rather than the original.
    #[verifier::when_used_as_spec(spec_is_added)]
    pub fn is_added(&self) -> (b: bool)
        ensures
            b == self.spec_is_added(),
    {
        match self.buffer {
            Buffer::Add => true,
            Buffer::Original => false,
        }
    }
}

/// The sum of the lengths of `pieces`.
pub open spec fn sum_of_lengths(pieces: Seq<Piece>) -> nat
    decreases pieces.len(),
{
    if pieces.len() == 0 {
        0
    } else {
        sum_of_lengths(pieces.drop_last()) + pieces.last().spec_len()
    }
}

/// The bytes of `pieces`, one piece after the other.
pub open spec fn content(pieces: Seq<Piece>, original: Seq<u8>, add: Seq<u8>) -> Seq<u8>
    decreases pieces.len(),
{
    if pieces.len() == 0 {
        Seq::empty()
    } else {
        content(pieces.drop_last(), original, add) + pieces.last().bytes(original, add)
    }
}

/// Every piece of `pieces` is non-empty and lies inside its backing store.
pub open spec fn all_within(pieces: Seq<Piece>, original: Seq<u8>, add: Seq<u8>) -> bool {
    forall|i: int| 0 <= i < pieces.len() ==> (#[trigger] pieces[i]).within(original, add)
}

/// No two pieces of `pieces` share a byte of a backing store.
pub open spec fn all_apart(pieces: Seq<Piece>) -> bool {
    forall|i: int, j: int|
        #![trigger pieces[i], pieces[j]]
        0 <= i < j < pieces.len() ==> pieces[i].apart(pieces[j])
}

/// The content of two lists of pieces, one after the other, is the content of
/// the first followed by that of the second.
pub proof fn lemma_content_add(p: Seq<Piece>, q: Seq<Piece>, original: Seq<u8>, add: Seq<u8>)
    ensures
        content(p + q, original, add) == content(p, original, add) + content(q, original, add),
    decreases q.len(),
{
    if q.len() == 0 {
        assert(p + q =~= p);
        assert(content(p, original, add) + content(q, original, add) =~= content(
            p,
            original,
            add,
        ));
    } else {
        lemma_content_add(p, q.drop_last(), original, add);
        assert((p + q).drop_last() =~= p + q.drop_last());
        assert(content(p + q, original, add) =~= content(p, original, add) + content(
            q,
            original,
            add,
        ));
    }
}

/// The content of a single piece is its bytes.
pub proof fn lemma_content_one(piece: Piece, original: Seq<u8>, add: Seq<u8>)
    ensures
        content(seq![piece], original, add) == piece.bytes(original, add),
{
    reveal_with_fuel(content, 2);
    assert(seq![piece].drop_last() =~= Seq::<Piece>::empty());
    assert(content(seq![piece], original, add) =~= piece.bytes(original, add));
}

/// The content of pieces that lie inside their stores is as long as the
/// pieces together.
pub proof fn lemma_content_len(pieces: Seq<Piece>, original: Seq<u8>, add: Seq<u8>)
    requires
        all_within(pieces, original, add),
    ensures
        content(pieces, original, add).len() == sum_of_lengths(pieces),
    decreases pieces.len(),
{
    if pieces.len() > 0 {
        lemma_content_len(pieces.drop_last(), original, add);
    }
}

/// The content falls into that of the first `i` pieces and that of the rest.
pub proof fn lemma_content_split(pieces: Seq<Piece>, i: int, original: Seq<u8>, add: Seq<u8>)
    requires
        0 <= i <= pieces.len(),
    ensures
        content(pieces, original, add) == content(pieces.take(i), original, add) + content(
            pieces.skip(i),
            original,
            add,
        ),
{
    assert(pieces =~= pieces.take(i) + pieces.skip(i));
    lemma_content_add(pieces.take(i), pieces.skip(i), original, add);
}

/// Bytes appended to the added store change no piece that was inside it.
pub proof fn lemma_content_grown(
    pieces: Seq<Piece>,
    original: Seq<u8>,
    add: Seq<u8>,
    grown: Seq<u8>,
)
    requires
        all_within(pieces, original, add),
        add.len() <= grown.len(),
        grown.take(add.len() as int) == add,
    ensures
        all_within(pieces, original, grown),
        content(pieces, original, grown) == content(pieces, original, add),
    decreases pieces.len(),
{
    if pieces.len() > 0 {
        lemma_content_grown(pieces.drop_last(), original, add, grown);
        let last = pieces.last();
        assert(last.within(original, add));
        assert(last.bytes(original, grown) =~= last.bytes(original, add)) by {
            if last.spec_is_added() {
                assert forall|k: int| 0 <= k < add.len() implies grown[k] == add[k] by {
                    assert(grown.take(add.len() as int)[k] == grown[k]);
                }
            }
        }
    }
}

/// What a deletion of the bytes of the text from offset `from` up to offset
/// `to` leaves of a piece that stands at offset `pos` of the text: the part of
/// it that lies before the range and the part of it that lies behind the
/// range, as far as there is any.
pub open spec fn kept_of(piece: Piece, pos: nat, from: nat, to: nat) -> Seq<Piece> {
    let end = pos + piece.spec_len();
    let head = if pos < from {
        seq![
            piece.head(
                if end < from {
                    piece.spec_len()
                } else {
                    (from - pos) as nat
                },
            ),
        ]
    } else {
        Seq::empty()
    };
    let tail = if end > to {
        seq![
            piece.tail(
                if pos < to {
                    (to - pos) as nat
                } else {
                    0
                },
            ),
        ]
    } else {
        Seq::empty()
    };
    head + tail
}

/// What a deletion of the bytes of the text from offset `from` up to offset
/// `to` leaves of `pieces`: what it leaves of each, in order. A piece outside
/// the range stays as it is, a piece inside it goes, a piece that reaches
/// into it is cut short, and a piece that spans it is cut in two.
pub open spec fn kept_pieces(pieces: Seq<Piece>, from: nat, to: nat) -> Seq<Piece>
    decreases pieces.len(),
{
    if pieces.len() == 0 {
        Seq::empty()
    } else {
        kept_pieces(pieces.drop_last(), from, to) + kept_of(
            pieces.last(),
            sum_of_lengths(pieces.drop_last()),
            from,
            to,
        )
    }
}

/// The pieces that a deletion from offset `from` up to offset `to` leaves:
/// all of them as they are where the range is empty.
pub open spec fn without_range(pieces: Seq<Piece>, from: nat, to: nat) -> Seq<Piece> {
    if from >= to {
        pieces
    } else {
        kept_pieces(pieces, from, to)
    }
}

impl<'a> View for PieceTable<'a> {
    type V = Seq<u8>;

    /// The text that the table stands for: the bytes of its pieces, one
    /// piece after the other.
    open spec fn view(&self) -> Seq<u8> {
        content(self.descriptors(), self.original_bytes(), self.added_bytes())
    }
}

impl<'a> PieceTable<'a> {
    /// The pieces of the table, in the order of the text.
    pub closed spec fn descriptors(&self) -> Seq<Piece> {
        self.table@
    }

    /// The bytes that the table was opened with.
    pub closed spec fn original_bytes(&self) -> Seq<u8> {
        self.original@
    }

    /// The bytes added since the table was opened.
    pub closed spec fn added_bytes(&self) -> Seq<u8> {
        self.add@
    }

    /// The offset in the text at which piece `n` begins.
    pub open spec fn piece_offset(&self, n: int) -> nat {
        sum_of_lengths(self.descriptors().take(n))
    }

    /// `after` is what the insertion of one byte at offset `at` makes of the
    /// pieces of the table: the piece of the new byte, which is put at the
    /// end of the added bytes, stands between two pieces where `at` is the
    /// boundary between them, and else between the two halves of the piece
    /// that `at` falls into.
    pub open spec fn grown_by_one(&self, after: Seq<Piece>, at: nat) -> bool {
        let before = self.descriptors();
        let fresh = Piece::added_byte(self.added_bytes().len());
        exists|i: int|
            0 <= i <= before.len() && {
                ||| #[trigger] self.piece_offset(i) == at && after == before.insert(i, fresh)
                ||| {
                    let k = (at - self.piece_offset(i)) as nat;
                    &&& i < before.len()
                    &&& self.piece_offset(i) < at < self.piece_offset(i) + before[i].spec_len()
                    &&& after == before.update(i, before[i].head(k)).insert(
                        i + 1,
                        before[i].tail(k),
                    ).insert(i + 1, fresh)
                }
            }
    }

    /// The table is well formed: every piece is non-empty and lies inside its
    /// backing store, no two pieces overlap, the backing stores are such as
    /// the machine can hold, and the text is short enough to count its lines.
    pub open spec fn wf(&self) -> bool {
        &&& all_within(self.descriptors(), self.original_bytes(), self.added_bytes())
        &&& all_apart(self.descriptors())
        &&& self.original_bytes().len() <= usize::MAX
        &&& self.added_bytes().len() <= usize::MAX
        &&& sum_of_lengths(self.descriptors()) < usize::MAX
    }

    /// Whatever pieces the insertion of the byte `c` at offset `at` makes of
    /// the pieces of a table, they stand for the text with `c` put in at `at`,
    /// they are one byte longer together, and they lie in the backing stores
    /// as they are once `c` is added, no two overlapping.
    pub proof fn lemma_grown_by_one(&self, after: Seq<Piece>, at: nat, c: u8)
        requires
            self.wf(),
            at <= self@.len(),
            self.grown_by_one(after, at),
        ensures
            content(after, self.original_bytes(), self.added_bytes().push(c)) == insert_at(
                self@,
                at,
                c,
            ),
            sum_of_lengths(after) == sum_of_lengths(self.descriptors()) + 1,
            sum_of_lengths(after) == content(
                after,
                self.original_bytes(),
                self.added_bytes().push(c),
            ).len(),
            all_within(after, self.original_bytes(), self.added_bytes().push(c)),
            all_apart(after),
    {
        let before = self.table@;
        let grown = self.add@.push(c);
        let fresh = Piece::added_byte(self.add@.len());
        assert(grown.take(self.add@.len() as int) =~= self.add@);
        lemma_content_grown(before, self.original@, self.add@, grown);
        lemma_content_len(before, self.original@, self.add@);
        assert(fresh.bytes(self.original@, grown) =~= seq![c]);
        assert forall|k: int| 0 <= k < before.len() implies (#[trigger] before[k]).apart(
            fresh,
        ) by {
            assert(before[k].within(self.original@, self.add@));
        }
        let i = choose|i: int|
            0 <= i <= before.len() && {
                ||| #[trigger] self.piece_offset(i) == at && after == before.insert(i, fresh)
                ||| {
                    let k = (at - self.piece_offset(i)) as nat;
                    &&& i < before.len()
                    &&& self.piece_offset(i) < at < self.piece_offset(i) + before[i].spec_len()
                    &&& after == before.update(i, before[i].head(k)).insert(
                        i + 1,
                        before[i].tail(k),
                    ).insert(i + 1, fresh)
                }
            };
        if self.piece_offset(i) == at && after == before.insert(i, fresh) {
            lemma_insert_between(before, i, fresh, c, self.original@, grown);
        } else {
            let k = (at - self.piece_offset(i)) as nat;
            assert(before[i].within(self.original@, grown));
            lemma_insert_inside(
                before,
                i,
                before[i].head(k),
                fresh,
                before[i].tail(k),
                c,
                self.original@,
                grown,
            );
        }
        lemma_content_len(after, self.original@, grown);
    }

    /// What a deletion of the bytes from offset `from` up to offset `to`
    /// leaves of the pieces of a table stands for the text without those
    /// bytes, is as long together as that text, and lies in the backing
    /// stores, no two pieces overlapping.
    pub proof fn lemma_without_range(&self, from: nat, to: nat)
        requires
            self.wf(),
            from <= to <= self@.len(),
        ensures
            content(
                without_range(self.descriptors(), from, to),
                self.original_bytes(),
                self.added_bytes(),
            ) == self@.subrange(0, from as int) + self@.subrange(to as int, self@.len() as int),
            sum_of_lengths(without_range(self.descriptors(), from, to)) == self@.len() - (to
                - from),
            all_within(
                without_range(self.descriptors(), from, to),
                self.original_bytes(),
                self.added_bytes(),
            ),
            all_apart(without_range(self.descriptors(), from, to)),
    {
        let pieces = self.table@;
        lemma_content_len(pieces, self.original@, self.add@);
        if from == to {
            assert(self@.subrange(0, from as int) + self@.subrange(to as int, self@.len() as int)
                =~= self@);
        } else {
            lemma_kept_pieces(
                pieces,
                pieces.len() as int,
                self@,
                from,
                to,
                self.original@,
                self.add@,
            );
            assert(pieces.take(pieces.len() as int) =~= pieces);
            lemma_content_len(kept_pieces(pieces, from, to), self.original@, self.add@);
        }
    }

    /// A table that holds `original`: in one piece, or in none if `original`
    /// is empty. Nothing is added yet.
    pub fn new(original: &'a [u8]) -> (table: Self)
        requires
            original@.len() < usize::MAX,
        ensures
            table.wf(),
            table@ == original@,
            table.original_bytes() == original@,
            table.added_bytes().len() == 0,
            table.descriptors().len() == if original@.len() == 0 {
                0nat
            } else {
                1nat
            },
            original@.len() > 0 ==> {
                &&& !table.descriptors()[0].spec_is_added()
                &&& table.descriptors()[0].spec_start() == 0
                &&& table.descriptors()[0].spec_len() == original@.len()
            },
    {
        let mut table: Vec<Piece> = Vec::with_capacity(20);
        if original.len() > 0 {
            let whole = Piece { buffer: Buffer::Original, start_idx: 0, len: original.len() };
            table.push(whole);
            proof {
                assert(table@ =~= seq![whole]);
                lemma_content_one(whole, original@, Seq::<u8>::empty());
                assert(whole.bytes(original@, Seq::<u8>::empty()) =~= original@);
                lemma_content_len(table@, original@, Seq::<u8>::empty());
            }
        }
        Self { original, add: Vec::with_capacity(250), table }
    }

    /// The pieces of the table, in the order of the text.
    pub fn pieces(&self) -> (pieces: &Vec<Piece>)
        ensures
            pieces@ == self.descriptors(),
    {
        &self.table
    }

    /// The length of the text in bytes.
    pub fn length(&self) -> (n: usize)
        requires
            self.wf(),
        ensures
            n == self@.len(),
            n == sum_of_lengths(self.descriptors()),
            n < usize::MAX,
    {
        let mut total: usize = 0;
        let mut i: usize = 0;
        proof {
            lemma_content_len(self.table@, self.original@, self.add@);
        }
        while i < self.table.len()
            invariant
                i <= self.table@.len(),
                total == sum_of_lengths(self.table@.take(i as int)),
                total <= sum_of_lengths(self.table@) < usize::MAX,
            decreases self.table@.len() - i,
        {
            proof {
                lemma_sum_prefix(self.table@, i as int);
            }
            total = total + self.table[i].len;
            i = i + 1;
        }
        assert(self.table@.take(i as int) =~= self.table@);
        total
    }

    /// `at` names a byte of the text: a piece of the table and an offset
    /// inside that piece.
    pub open spec fn holds(&self, at: PieceIndex) -> bool {
        &&& at.in_table < self.descriptors().len()
        &&& at.in_piece < self.descriptors()[at.in_table as int].spec_len()
    }

    /// `at` is the place behind the last byte of the text.
    pub open spec fn at_end(&self, at: PieceIndex) -> bool {
        &&& at.in_table == self.descriptors().len()
        &&& at.in_piece == 0
    }

    /// The offset in the text that `at` names.
    pub open spec fn position(&self, at: PieceIndex) -> nat {
        self.piece_offset(at.in_table as int) + at.in_piece as nat
    }

    /// The byte of a backing store that `at` names.
    pub open spec fn stored(&self, at: PieceIndex) -> u8 {
        let piece = self.descriptors()[at.in_table as int];
        piece.source(self.original_bytes(), self.added_bytes())[piece.spec_start()
            + at.in_piece]
    }

    /// In a well-formed table the text is as long as its pieces together, and
    /// each piece stands in it at the offset where the pieces before it end:
    /// the byte of the text at the place that a piece index names is the byte
    /// of the backing store that it names.
    pub proof fn lemma_pieces_make_text(&self)
        requires
            self.wf(),
        ensures
            self@.len() == sum_of_lengths(self.descriptors()),
            self@.len() < usize::MAX,
            self.piece_offset(self.descriptors().len() as int) == self@.len(),
            forall|at: PieceIndex| #[trigger]
                self.holds(at) ==> self.position(at) < self@.len() && self@[self.position(
                    at,
                ) as int] == self.stored(at),
    {
        lemma_content_len(self.table@, self.original@, self.add@);
        assert(self.table@.take(self.table@.len() as int) =~= self.table@);
        assert forall|at: PieceIndex| #[trigger] self.holds(at) implies self.position(at)
            < self@.len() && self@[self.position(at) as int] == self.stored(at) by {
            lemma_piece_in_text(self.table@, at.in_table as int, self.original@, self.add@);
            let piece = self.table@[at.in_table as int];
            let offset = sum_of_lengths(self.table@.take(at.in_table as int)) as int;
            assert(self@.subrange(offset, offset + piece.spec_len())[at.in_piece as int]
                == self@[offset + at.in_piece]);
        }
    }

    /// The byte of the text that `at` names.
    fn byte_at(&self, at: PieceIndex) -> (byte: u8)
        requires
            self.wf(),
            self.holds(at),
        ensures
            self.position(at) < self@.len(),
            byte == self@[self.position(at) as int],
    {
        proof {
            self.lemma_pieces_make_text();
            assert(self.table@[at.in_table as int].within(self.original@, self.add@));
            assert(self.original@.len() == self.original.len());
            assert(self.add@.len() == self.add.len());
        }
        let piece = self.table[at.in_table];
        match piece.buffer {
            Buffer::Original => self.original[piece.start_idx + at.in_piece],
            Buffer::Add => self.add[piece.start_idx + at.in_piece],
        }
    }

    /// The place one byte after `at`.
    fn advance(&self, at: PieceIndex) -> (next: PieceIndex)
        requires
            self.wf(),
            self.holds(at),
        ensures
            self.holds(next) || self.at_end(next),
            self.position(next) == self.position(at) + 1,
    {
        proof {
            lemma_sum_prefix(self.table@, at.in_table as int);
        }
        assert(at.in_table < self.table.len());
        if at.in_piece + 1 < self.table[at.in_table].len {
            PieceIndex { in_table: at.in_table, in_piece: at.in_piece + 1 }
        } else {
            PieceIndex { in_table: at.in_table + 1, in_piece: 0 }
        }
    }

    /// The place of the first byte of the text, or its end if it is empty.
    fn first(&self) -> (at: PieceIndex)
        requires
            self.wf(),
        ensures
            self.holds(at) || self.at_end(at),
            self.position(at) == 0,
    {
        assert(self.table@.take(0) =~= Seq::<Piece>::empty());
        PieceIndex { in_table: 0, in_piece: 0 }
    }

    /// The place of offset `offset`: the piece that holds that byte and the
    /// offset inside it, or the end of the text.
    fn seek(&self, offset: usize) -> (at: PieceIndex)
        requires
            self.wf(),
            offset <= self@.len(),
        ensures
            self.holds(at) || self.at_end(at),
            self.position(at) == offset,
    {
        let mut start: usize = 0;
        let mut i: usize = 0;
        proof {
            self.lemma_pieces_make_text();
            assert(self.table@.take(0) =~= Seq::<Piece>::empty());
        }
        while i < self.table.len()
            invariant
                self.wf(),
                i <= self.table@.len(),
                start == sum_of_lengths(self.table@.take(i as int)),
                start <= offset <= self@.len(),
                self@.len() == sum_of_lengths(self.table@),
            decreases self.table@.len() - i,
        {
            proof {
                lemma_sum_prefix(self.table@, i as int);
            }
            let length = self.table[i].len;
            if offset - start < length {
                return PieceIndex { in_table: i, in_piece: offset - start };
            }
            start = start + length;
            i = i + 1;
        }
        proof {
            assert(self.table@.take(i as int) =~= self.table@);
        }
        PieceIndex { in_table: i, in_piece: 0 }
    }

    /// Finds the byte at offset `idx`: the piece that holds it and its offset
    /// inside that piece. There is none if `idx` lies beyond the text.
    pub fn locate(&self, idx: usize) -> (found: Option<PieceIndex>)
        requires
            self.wf(),
        ensures
            found is Some <==> idx < self@.len(),
            found matches Some(at) ==> self.holds(at) && self.position(at) == idx,
    {
        if idx >= self.length() {
            return None;
        }
        let at = self.seek(idx);
        proof {
            self.lemma_pieces_make_text();
        }
        Some(at)
    }

    /// Finds the piece that holds the byte at offset `idx`. There is none if
    /// `idx` lies beyond the text.
    pub fn find_piece_at(&self, idx: usize) -> (found: Option<usize>)
        requires
            self.wf(),
        ensures
            found is Some <==> idx < self@.len(),
            found matches Some(n) ==> n < self.descriptors().len() && self.piece_offset(n as int)
                <= idx < self.piece_offset(n as int) + self.descriptors()[n as int].spec_len(),
    {
        match self.locate(idx) {
            Some(at) => Some(at.in_table),
            None => None,
        }
    }

    /// Puts `c` into the text at offset `idx`, or at its end if `idx` lies
    /// beyond it. The byte goes to the end of the added bytes, and one new
    /// piece names it: between two pieces where `idx` is a boundary, else
    /// between the two halves of the piece that `idx` falls into.
    pub fn insert(&mut self, idx: usize, c: u8)
        requires
            old(self).wf(),
            old(self)@.len() + 1 < usize::MAX,
        ensures
            final(self).wf(),
            final(self)@ == insert_at(old(self)@, idx as nat, c),
            final(self).original_bytes() == old(self).original_bytes(),
            final(self).added_bytes() == old(self).added_bytes().push(c),
            old(self).grown_by_one(final(self).descriptors(), clamp_offset(old(self)@, idx as nat)),
    {
        let length = self.length();
        let offset = if idx > length {
            length
        } else {
            idx
        };
        let at = self.seek(offset);
        let start = self.add.len();
        let ghost before = self.table@;
        let ghost stale = self.add@;
        self.add.push(c);
        let fresh = Piece { buffer: Buffer::Add, start_idx: start, len: 1 };
        proof {
            assert(self.add@.take(stale.len() as int) =~= stale);
            lemma_content_grown(before, self.original@, stale, self.add@);
            assert(fresh.bytes(self.original@, self.add@) =~= seq![c]);
            assert forall|k: int| 0 <= k < before.len() implies (#[trigger] before[k]).apart(
                fresh,
            ) by {
                assert(before[k].within(self.original@, stale));
            }
        }
        if at.in_piece == 0 {
            self.table.insert(at.in_table, fresh);
            proof {
                lemma_insert_between(
                    before,
                    at.in_table as int,
                    fresh,
                    c,
                    self.original@,
                    self.add@,
                );
                assert(old(self).piece_offset(at.in_table as int) == offset);
            }
        } else {
            let whole = self.table[at.in_table];
            proof {
                assert(whole.within(self.original@, self.add@));
                assert(self.original@.len() == self.original.len());
                assert(self.add@.len() == self.add.len());
            }
            let left = Piece { buffer: whole.buffer, start_idx: whole.start_idx, len: at.in_piece };
            let right = Piece {
                buffer: whole.buffer,
                start_idx: whole.start_idx + at.in_piece,
                len: whole.len - at.in_piece,
            };
            assert(at.in_table < self.table.len());
            self.table[at.in_table] = left;
            self.table.insert(at.in_table + 1, right);
            self.table.insert(at.in_table + 1, fresh);
            proof {
                lemma_insert_inside(
                    before,
                    at.in_table as int,
                    left,
                    fresh,
                    right,
                    c,
                    self.original@,
                    self.add@,
                );
                assert(old(self).piece_offset(at.in_table as int) + at.in_piece == offset);
                assert(left == whole.head(at.in_piece as nat));
                assert(right == whole.tail(at.in_piece as nat));
            }
        }
        proof {
            lemma_content_len(self.table@, self.original@, self.add@);
            assert(self.original@.len() == self.original.len());
            assert(self.add@.len() == self.add.len());
        }
    }

    /// Takes `count` bytes out of the text from offset `idx` on; what of that
    /// range lies beyond the text is ignored. Pieces inside the range are
    /// dropped, pieces that reach into it are cut short, and a piece that
    /// spans it is cut in two. No byte of either backing store changes.
    pub fn delete(&mut self, idx: usize, count: usize)
        requires
            old(self).wf(),
        ensures
            final(self).wf(),
            final(self)@ == delete_range(old(self)@, idx as nat, count as nat),
            final(self).original_bytes() == old(self).original_bytes(),
            final(self).added_bytes() == old(self).added_bytes(),
            count == 0 || idx >= old(self)@.len() ==> final(self).descriptors() == old(
                self,
            ).descriptors(),
            final(self).descriptors() == without_range(
                old(self).descriptors(),
                clamp_offset(old(self)@, idx as nat),
                clamp_offset(old(self)@, (idx + count) as nat),
            ),
    {
        let length = self.length();
        let from = if idx > length {
            length
        } else {
            idx
        };
        let to = if count > length - from {
            length
        } else {
            from + count
        };
        let ghost text = self@;
        if from == to {
            assert(text.subrange(0, from as int) + text.subrange(to as int, text.len() as int)
                =~= text);
            return ;
        }
        let mut kept: Vec<Piece> = Vec::new();
        let mut pos: usize = 0;
        let mut i: usize = 0;
        proof {
            self.lemma_pieces_make_text();
            assert(self.table@.take(0) =~= Seq::<Piece>::empty());
            assert(kept_text(text, from as int, to as int, 0) =~= Seq::<u8>::empty());
        }
        while i < self.table.len()
            invariant
                self.wf(),
                text == self@,
                text.len() == sum_of_lengths(self.table@),
                from < to <= text.len(),
                i <= self.table@.len(),
                pos == sum_of_lengths(self.table@.take(i as int)),
                pos <= text.len(),
                all_within(kept@, self.original@, self.add@),
                all_apart(kept@),
                kept@ == kept_pieces(self.table@.take(i as int), from as nat, to as nat),
                forall|k: int, j: int|
                    #![trigger kept@[k], self.table@[j]]
                    0 <= k < kept@.len() && i <= j < self.table@.len() ==> kept@[k].apart(
                        self.table@[j],
                    ),
                content(kept@, self.original@, self.add@) == kept_text(
                    text,
                    from as int,
                    to as int,
                    pos as int,
                ),
            decreases self.table@.len() - i,
        {
            let piece = self.table[i];
            proof {
                lemma_sum_prefix(self.table@, i as int);
                assert(piece.within(self.original@, self.add@));
                assert(self.original@.len() == self.original.len());
                assert(self.add@.len() == self.add.len());
            }
            let end = pos + piece.len;
            let ghost so_far = kept@;
            if pos < from {
                let stop = if end < from {
                    end
                } else {
                    from
                };
                kept.push(
                    Piece { buffer: piece.buffer, start_idx: piece.start_idx, len: stop - pos },
                );
            }
            if end > to {
                let skip = if pos < to {
                    to - pos
                } else {
                    0
                };
                kept.push(
                    Piece {
                        buffer: piece.buffer,
                        start_idx: piece.start_idx + skip,
                        len: piece.len - skip,
                    },
                );
            }
            proof {
                assert(kept@ =~= so_far + kept_of(piece, pos as nat, from as nat, to as nat));
                lemma_delete_step(
                    self.table@,
                    i as int,
                    so_far,
                    text,
                    from as nat,
                    to as nat,
                    self.original@,
                    self.add@,
                );
            }
            pos = end;
            i = i + 1;
        }
        proof {
            assert(self.table@.take(i as int) =~= self.table@);
            lemma_content_len(kept@, self.original@, self.add@);
        }
        self.table = kept;
    }

    /// The number of lines of the text: one more than it has newlines.
    pub fn line_count(&self) -> (n: usize)
        requires
            self.wf(),
        ensures
            n == line_count(self@),
            n >= 1,
    {
        let mut newlines: usize = 0;
        let mut at = self.first();
        proof {
            self.lemma_pieces_make_text();
            assert(self@.take(0) =~= Seq::<u8>::empty());
        }
        while at.in_table < self.table.len()
            invariant
                self.wf(),
                self.holds(at) || self.at_end(at),
                self.position(at) <= self@.len() < usize::MAX,
                newlines == newline_count(self@.take(self.position(at) as int)),
                newlines <= self.position(at),
            decreases self@.len() - self.position(at),
        {
            let byte = self.byte_at(at);
            proof {
                let pos = self.position(at) as int;
                assert(self@.take(pos + 1) =~= self@.take(pos).push(self@[pos]));
                lemma_newline_count_push(self@.take(pos), self@[pos]);
            }
            if byte == NEWLINE {
                newlines = newlines + 1;
            }
            at = self.advance(at);
        }
        proof {
            self.lemma_pieces_make_text();
            assert(self@.take(self@.len() as int) =~= self@);
        }
        newlines + 1
    }

    /// The offset at which 1-based line `line` begins, and the number of
    /// bytes it has before its newline. A line number outside the text names
    /// the nearest line of the text.
    pub fn line_span(&self, line: usize) -> (span: (usize, usize))
        requires
            self.wf(),
        ensures
            span.0 == line_offset(self@, line as nat),
            span.1 == line_length(self@, line as nat),
            span.0 + span.1 <= self@.len(),
    {
        let target: usize = if line < 1 {
            0
        } else {
            line - 1
        };
        let mut index: usize = 0;
        let mut start: usize = 0;
        let mut pos: usize = 0;
        let mut at = self.first();
        proof {
            self.lemma_pieces_make_text();
            assert(self@.take(0) =~= Seq::<u8>::empty());
        }
        while at.in_table < self.table.len()
            invariant
                self.wf(),
                self.holds(at) || self.at_end(at),
                pos == self.position(at),
                start <= pos <= self@.len() < usize::MAX,
                index <= target,
                target == if line < 1 {
                    0
                } else {
                    line - 1
                },
                start == line_start(self@, index as nat),
                index == newline_count(self@.take(pos as int)),
                forall|k: int| start <= k < pos ==> self@[k] != NEWLINE,
            decreases self@.len() - pos,
        {
            let byte = self.byte_at(at);
            proof {
                assert(self@.take(pos + 1) =~= self@.take(pos as int).push(self@[pos as int]));
                lemma_newline_count_push(self@.take(pos as int), self@[pos as int]);
            }
            if byte == NEWLINE {
                proof {
                    lemma_run_length_is(self@, start as int, pos as int);
                }
                if index == target {
                    proof {
                        lemma_newline_count_prefix(self@, pos + 1);
                    }
                    return (start, pos - start);
                }
                index = index + 1;
                start = pos + 1;
            }
            at = self.advance(at);
            pos = pos + 1;
        }
        proof {
            self.lemma_pieces_make_text();
            assert(self@.take(self@.len() as int) =~= self@);
            lemma_run_length_is(self@, start as int, pos as int);
        }
        (start, pos - start)
    }

    /// The number of bytes of 1-based line `line`, without its newline. A
    /// line number outside the text names the nearest line of the text.
    pub fn line_length(&self, line: usize) -> (n: usize)
        requires
            self.wf(),
        ensures
            n == line_length(self@, line as nat),
    {
        self.line_span(line).1
    }

    /// The offset of the byte at 1-based line `line` and 1-based column
    /// `column`. A line number outside the text names the nearest line; a
    /// column outside the line names the nearest place of that line, its
    /// newline or the end of the text being the last.
    pub fn offset_of(&self, line: usize, column: usize) -> (offset: usize)
        requires
            self.wf(),
        ensures
            offset == offset_of(self@, line as nat, column as nat),
            offset <= self@.len(),
    {
        let (start, length) = self.line_span(line);
        proof {
            self.lemma_pieces_make_text();
        }
        let within = if column < 1 {
            0
        } else if column - 1 > length {
            length
        } else {
            column - 1
        };
        start + within
    }

    /// The bytes of 1-based line `line`, without its newline. A line number
    /// outside the text names the nearest line of the text.
    pub fn line(&self, line: usize) -> (bytes: Vec<u8>)
        requires
            self.wf(),
        ensures
            bytes@ == line_bytes(self@, line as nat),
    {
        let (start, length) = self.line_span(line);
        let mut bytes: Vec<u8> = Vec::new();
        let mut at = self.seek(start);
        let mut pos: usize = start;
        proof {
            self.lemma_pieces_make_text();
            assert(self@.subrange(start as int, start as int) =~= Seq::<u8>::empty());
        }
        while pos < start + length
            invariant
                self.wf(),
                self.holds(at) || self.at_end(at),
                pos == self.position(at),
                start <= pos <= start + length <= self@.len() < usize::MAX,
                self.at_end(at) ==> pos == self@.len(),
                bytes@ == self@.subrange(start as int, pos as int),
            decreases start + length - pos,
        {
            let byte = self.byte_at(at);
            proof {
                assert(self@.subrange(start as int, pos + 1) =~= self@.subrange(
                    start as int,
                    pos as int,
                ).push(self@[pos as int]));
            }
            bytes.push(byte);
            at = self.advance(at);
            pos = pos + 1;
            proof {
                self.lemma_pieces_make_text();
            }
        }
        bytes
    }

    /// Makes `edits` one after the other. The text is then what the same
    /// edits make of a flat run of bytes.
    pub fn apply(&mut self, edits: &[Edit])
        requires
            old(self).wf(),
            old(self)@.len() + edits@.len() < usize::MAX,
        ensures
            final(self).wf(),
            final(self)@ == apply_edits(old(self)@, edits@),
            final(self).original_bytes() == old(self).original_bytes(),
            old(self).added_bytes().is_prefix_of(final(self).added_bytes()),
    {
        let mut i: usize = 0;
        proof {
            assert(edits@.take(0) =~= Seq::<Edit>::empty());
        }
        while i < edits.len()
            invariant
                self.wf(),
                i <= edits@.len(),
                self@.len() + (edits@.len() - i) < usize::MAX,
                self@ == apply_edits(old(self)@, edits@.take(i as int)),
                self.original_bytes() == old(self).original_bytes(),
                old(self).added_bytes().is_prefix_of(self.added_bytes()),
            decreases edits@.len() - i,
        {
            let edit = edits[i];
            proof {
                assert(edits@.take(i + 1).drop_last() =~= edits@.take(i as int));
                lemma_apply_edit_len(self@, edit);
            }
            match edit {
                Edit::Insert { offset, byte } => self.insert(offset, byte),
                Edit::Delete { offset, count } => self.delete(offset, count),
            }
            i = i + 1;
        }
        proof {
            assert(edits@.take(i as int) =~= edits@);
        }
    }

    /// The whole text as one run of bytes.
    pub fn materialize(&self) -> (bytes: Vec<u8>)
        requires
            self.wf(),
        ensures
            bytes@ == self@,
    {
        let mut bytes: Vec<u8> = Vec::new();
        let mut at = self.first();
        proof {
            self.lemma_pieces_make_text();
        }
        while at.in_table < self.table.len()
            invariant
                self.wf(),
                self.holds(at) || self.at_end(at),
                self.position(at) <= self@.len(),
                bytes@ == self@.take(self.position(at) as int),
            decreases self@.len() - self.position(at),
        {
            let byte = self.byte_at(at);
            proof {
                let pos = self.position(at) as int;
                assert(self@.take(pos + 1) =~= self@.take(pos).push(self@[pos]));
            }
            bytes.push(byte);
            at = self.advance(at);
        }
        proof {
            self.lemma_pieces_make_text();
            assert(self@.take(self@.len() as int) =~= self@);
        }
        bytes
    }
}

/// Piece `i` stands in the content at the offset where the pieces before it
/// end.
pub proof fn lemma_piece_in_text(pieces: Seq<Piece>, i: int, original: Seq<u8>, add: Seq<u8>)
    requires
        all_within(pieces, original, add),
        0 <= i < pieces.len(),
    ensures
        sum_of_lengths(pieces.take(i)) + pieces[i].spec_len() <= content(
            pieces,
            original,
            add,
        ).len(),
        content(pieces, original, add).subrange(
            sum_of_lengths(pieces.take(i)) as int,
            (sum_of_lengths(pieces.take(i)) + pieces[i].spec_len()) as int,
        ) == pieces[i].bytes(original, add),
{
    let head = pieces.take(i);
    let tail = pieces.skip(i + 1);
    assert(pieces =~= head + seq![pieces[i]] + tail);
    lemma_content_add(head + seq![pieces[i]], tail, original, add);
    lemma_content_add(head, seq![pieces[i]], original, add);
    lemma_content_one(pieces[i], original, add);
    lemma_content_len(head, original, add);
    let before = content(head, original, add);
    let here = pieces[i].bytes(original, add);
    let after = content(tail, original, add);
    assert((before + here + after).subrange(
        before.len() as int,
        (before.len() + here.len()) as int,
    ) =~= here);
}

/// The lengths of the first `i + 1` pieces are those of the first `i` and of
/// piece `i`, and no prefix is longer than the whole.
pub proof fn lemma_sum_prefix(pieces: Seq<Piece>, i: int)
    requires
        0 <= i < pieces.len(),
    ensures
        sum_of_lengths(pieces.take(i + 1)) == sum_of_lengths(pieces.take(i)) + pieces[i].spec_len(),
        sum_of_lengths(pieces.take(i + 1)) <= sum_of_lengths(pieces),
    decreases pieces.len() - i,
{
    assert(pieces.take(i + 1).drop_last() =~= pieces.take(i));
    if i + 1 < pieces.len() {
        lemma_sum_prefix(pieces, i + 1);
    } else {
        assert(pieces.take(i + 1) =~= pieces);
    }
}

/// A one-byte piece put in before piece `i` puts its byte into the content at
/// the offset where the pieces before `i` end.
proof fn lemma_insert_between(
    pieces: Seq<Piece>,
    i: int,
    fresh: Piece,
    c: u8,
    original: Seq<u8>,
    add: Seq<u8>,
)
    requires
        all_within(pieces, original, add),
        all_apart(pieces),
        0 <= i <= pieces.len(),
        fresh.within(original, add),
        fresh.bytes(original, add) == seq![c],
        forall|k: int| 0 <= k < pieces.len() ==> (#[trigger] pieces[k]).apart(fresh),
    ensures
        all_within(pieces.insert(i, fresh), original, add),
        all_apart(pieces.insert(i, fresh)),
        content(pieces.insert(i, fresh), original, add) == content(pieces, original, add).insert(
            sum_of_lengths(pieces.take(i)) as int,
            c,
        ),
{
    let head = pieces.take(i);
    let tail = pieces.skip(i);
    assert(pieces.insert(i, fresh) =~= head + seq![fresh] + tail);
    lemma_content_add(head + seq![fresh], tail, original, add);
    lemma_content_add(head, seq![fresh], original, add);
    lemma_content_one(fresh, original, add);
    lemma_content_split(pieces, i, original, add);
    lemma_content_len(head, original, add);
    let before = content(head, original, add);
    let after = content(tail, original, add);
    assert(before + seq![c] + after =~= (before + after).insert(before.len() as int, c));
    let changed = pieces.insert(i, fresh);
    assert forall|a: int, b: int| 0 <= a < b < changed.len() implies changed[a].apart(
        changed[b],
    ) by {
        let from_a = if a < i {
            a
        } else {
            a - 1
        };
        let from_b = if b < i {
            b
        } else {
            b - 1
        };
        if a == i {
            assert(pieces[from_b].apart(fresh));
        } else if b == i {
            assert(pieces[from_a].apart(fresh));
        } else {
            assert(pieces[from_a].apart(pieces[from_b]));
        }
    }
}

/// The content of pieces in which the three pieces `left`, `fresh` and
/// `right` stand for piece `i` is the content of the pieces before `i`, the
/// bytes of the three, and the content of the pieces behind `i`.
proof fn lemma_three_for_one(
    pieces: Seq<Piece>,
    i: int,
    left: Piece,
    fresh: Piece,
    right: Piece,
    original: Seq<u8>,
    add: Seq<u8>,
)
    requires
        0 <= i < pieces.len(),
    ensures
        content(pieces.update(i, left).insert(i + 1, right).insert(i + 1, fresh), original, add)
            == content(pieces.take(i), original, add) + left.bytes(original, add) + fresh.bytes(
            original,
            add,
        ) + right.bytes(original, add) + content(pieces.skip(i + 1), original, add),
        content(pieces, original, add) == content(pieces.take(i), original, add)
            + pieces[i].bytes(original, add) + content(pieces.skip(i + 1), original, add),
{
    let head = pieces.take(i);
    let tail = pieces.skip(i + 1);
    let whole = pieces[i];
    let changed = pieces.update(i, left).insert(i + 1, right).insert(i + 1, fresh);
    assert(changed =~= head + seq![left] + seq![fresh] + seq![right] + tail);
    assert(pieces =~= head + seq![whole] + tail);
    lemma_content_add(head + seq![left] + seq![fresh] + seq![right], tail, original, add);
    lemma_content_add(head + seq![left] + seq![fresh], seq![right], original, add);
    lemma_content_add(head + seq![left], seq![fresh], original, add);
    lemma_content_add(head, seq![left], original, add);
    lemma_content_add(head + seq![whole], tail, original, add);
    lemma_content_add(head, seq![whole], original, add);
    lemma_content_one(left, original, add);
    lemma_content_one(fresh, original, add);
    lemma_content_one(right, original, add);
    lemma_content_one(whole, original, add);
}

/// Two parts of piece `i` that do not overlap, with a piece between them that
/// overlaps no piece, put in the place of piece `i`, give pieces of which no
/// two overlap.
proof fn lemma_three_apart(pieces: Seq<Piece>, i: int, left: Piece, fresh: Piece, right: Piece)
    requires
        all_apart(pieces),
        0 <= i < pieces.len(),
        left.part_of(pieces[i]),
        right.part_of(pieces[i]),
        left.apart(right),
        forall|k: int| 0 <= k < pieces.len() ==> (#[trigger] pieces[k]).apart(fresh),
    ensures
        all_apart(pieces.update(i, left).insert(i + 1, right).insert(i + 1, fresh)),
{
    let changed = pieces.update(i, left).insert(i + 1, right).insert(i + 1, fresh);
    assert forall|a: int, b: int| 0 <= a < b < changed.len() implies changed[a].apart(
        changed[b],
    ) by {
        let from_a = if a <= i {
            a
        } else if a <= i + 2 {
            i
        } else {
            a - 2
        };
        let from_b = if b <= i {
            b
        } else if b <= i + 2 {
            i
        } else {
            b - 2
        };
        assert(pieces[from_a].apart(fresh));
        assert(pieces[from_b].apart(fresh));
        if from_a < from_b {
            assert(pieces[from_a].apart(pieces[from_b]));
        }
    }
}

/// Piece `i` cut in two with a one-byte piece between the halves puts that
/// byte into the content at the place of the cut.
proof fn lemma_insert_inside(
    pieces: Seq<Piece>,
    i: int,
    left: Piece,
    fresh: Piece,
    right: Piece,
    c: u8,
    original: Seq<u8>,
    add: Seq<u8>,
)
    requires
        all_within(pieces, original, add),
        all_apart(pieces),
        forall|k: int| 0 <= k < pieces.len() ==> (#[trigger] pieces[k]).apart(fresh),
        0 <= i < pieces.len(),
        0 < left.len < pieces[i].len,
        left.buffer == pieces[i].buffer,
        left.start_idx == pieces[i].start_idx,
        right.buffer == pieces[i].buffer,
        right.start_idx == pieces[i].start_idx + left.len,
        right.len == pieces[i].len - left.len,
        fresh.within(original, add),
        fresh.bytes(original, add) == seq![c],
    ensures
        all_within(
            pieces.update(i, left).insert(i + 1, right).insert(i + 1, fresh),
            original,
            add,
        ),
        all_apart(pieces.update(i, left).insert(i + 1, right).insert(i + 1, fresh)),
        content(pieces.update(i, left).insert(i + 1, right).insert(i + 1, fresh), original, add)
            == content(pieces, original, add).insert(
            sum_of_lengths(pieces.take(i)) + left.len,
            c,
        ),
{
    let whole = pieces[i];
    assert(whole.within(original, add));
    lemma_three_for_one(pieces, i, left, fresh, right, original, add);
    lemma_three_apart(pieces, i, left, fresh, right);
    lemma_three_within(pieces, i, left, fresh, right, original, add);
    lemma_content_len(pieces.take(i), original, add);
    let first = left.bytes(original, add);
    let second = right.bytes(original, add);
    assert(whole.bytes(original, add) =~= first + second);
    lemma_byte_between(
        content(pieces.take(i), original, add),
        first,
        second,
        content(pieces.skip(i + 1), original, add),
        c,
    );
}

/// Three pieces that lie in their stores, put in the place of piece `i` of
/// pieces that lie in their stores, give pieces that lie in their stores.
proof fn lemma_three_within(
    pieces: Seq<Piece>,
    i: int,
    left: Piece,
    fresh: Piece,
    right: Piece,
    original: Seq<u8>,
    add: Seq<u8>,
)
    requires
        all_within(pieces, original, add),
        0 <= i < pieces.len(),
        left.within(original, add),
        fresh.within(original, add),
        right.within(original, add),
    ensures
        all_within(
            pieces.update(i, left).insert(i + 1, right).insert(i + 1, fresh),
            original,
            add,
        ),
{
    let changed = pieces.update(i, left).insert(i + 1, right).insert(i + 1, fresh);
    assert forall|k: int| 0 <= k < changed.len() implies (#[trigger] changed[k]).within(
        original,
        add,
    ) by {
        if k < i {
            assert(changed[k] == pieces[k]);
        } else if k > i + 2 {
            assert(changed[k] == pieces[k - 2]);
        }
    }
}

/// A byte put between two runs of bytes is put into the run that they make
/// together, at the place where the first ends.
proof fn lemma_byte_between(
    before: Seq<u8>,
    first: Seq<u8>,
    second: Seq<u8>,
    after: Seq<u8>,
    c: u8,
)
    ensures
        before + first + seq![c] + second + after == (before + (first + second) + after).insert(
            (before.len() + first.len()) as int,
            c,
        ),
{
    assert(before + first + seq![c] + second + after =~= (before + (first + second)
        + after).insert((before.len() + first.len()) as int, c));
}

/// What a deletion of the bytes from `from` up to `to` keeps of the first
/// `upto` bytes of `text`.
pub open spec fn kept_text(text: Seq<u8>, from: int, to: int, upto: int) -> Seq<u8> {
    text.subrange(
        0,
        if upto < from {
            upto
        } else {
            from
        },
    ) + text.subrange(
        to,
        if upto < to {
            to
        } else {
            upto
        },
    )
}

/// What is kept of the first `end` bytes is what is kept of the first `pos`
/// bytes, then what of the bytes from `pos` to `end` lies before the deleted
/// range, then what of them lies behind it.
proof fn lemma_keep_step(text: Seq<u8>, from: int, to: int, pos: int, end: int)
    requires
        0 <= from <= to <= text.len(),
        0 <= pos <= end <= text.len(),
    ensures
        kept_text(text, from, to, end) == kept_text(text, from, to, pos) + (if pos < from {
            text.subrange(
                pos,
                if end < from {
                    end
                } else {
                    from
                },
            )
        } else {
            Seq::<u8>::empty()
        }) + (if end > to {
            text.subrange(
                if pos < to {
                    to
                } else {
                    pos
                },
                end,
            )
        } else {
            Seq::<u8>::empty()
        }),
{
    let head = if pos < from {
        text.subrange(
            pos,
            if end < from {
                end
            } else {
                from
            },
        )
    } else {
        Seq::<u8>::empty()
    };
    let tail = if end > to {
        text.subrange(
            if pos < to {
                to
            } else {
                pos
            },
            end,
        )
    } else {
        Seq::<u8>::empty()
    };
    assert(kept_text(text, from, to, end) =~= kept_text(text, from, to, pos) + head + tail);
}

/// A stretch of a piece is a piece, and its bytes are the same stretch of the
/// bytes that the whole piece has in the text.
proof fn lemma_part_of_piece(
    whole: Piece,
    part: Piece,
    skip: int,
    text: Seq<u8>,
    pos: int,
    original: Seq<u8>,
    add: Seq<u8>,
)
    requires
        whole.within(original, add),
        0 <= pos,
        pos + whole.len <= text.len(),
        text.subrange(pos, pos + whole.len) == whole.bytes(original, add),
        part.buffer == whole.buffer,
        0 <= skip,
        part.start_idx == whole.start_idx + skip,
        0 < part.len,
        skip + part.len <= whole.len,
    ensures
        part.within(original, add),
        part.bytes(original, add) == text.subrange(pos + skip, pos + skip + part.len),
{
    let stretch = text.subrange(pos, pos + whole.len);
    assert(part.bytes(original, add) =~= stretch.subrange(skip, skip + part.len));
    assert(stretch.subrange(skip, skip + part.len) =~= text.subrange(
        pos + skip,
        pos + skip + part.len,
    ));
}

/// What a deletion leaves of a piece are parts of that piece that lie in its
/// store and do not overlap, and they stand for what the deletion leaves of
/// the bytes that the piece has in the text.
proof fn lemma_kept_of(
    piece: Piece,
    pos: nat,
    from: nat,
    to: nat,
    text: Seq<u8>,
    original: Seq<u8>,
    add: Seq<u8>,
)
    requires
        piece.within(original, add),
        original.len() <= usize::MAX,
        add.len() <= usize::MAX,
        from < to <= text.len(),
        pos + piece.spec_len() <= text.len(),
        text.subrange(pos as int, (pos + piece.spec_len()) as int) == piece.bytes(original, add),
    ensures
        all_within(kept_of(piece, pos, from, to), original, add),
        all_apart(kept_of(piece, pos, from, to)),
        forall|k: int|
            0 <= k < kept_of(piece, pos, from, to).len() ==> (#[trigger] kept_of(
                piece,
                pos,
                from,
                to,
            )[k]).part_of(piece),
        kept_text(text, from as int, to as int, pos as int) + content(
            kept_of(piece, pos, from, to),
            original,
            add,
        ) == kept_text(text, from as int, to as int, (pos + piece.spec_len()) as int),
{
    let end = pos + piece.spec_len();
    let part = kept_of(piece, pos, from, to);
    let head = piece.head(
        if end < from {
            piece.spec_len()
        } else {
            (from - pos) as nat
        },
    );
    let skip = if pos < to {
        (to - pos) as nat
    } else {
        0
    };
    let tail = piece.tail(skip);
    lemma_keep_step(text, from as int, to as int, pos as int, end as int);
    if pos < from {
        lemma_part_of_piece(piece, head, 0, text, pos as int, original, add);
        lemma_content_one(head, original, add);
    }
    if end > to {
        lemma_part_of_piece(piece, tail, skip as int, text, pos as int, original, add);
        lemma_content_one(tail, original, add);
    }
    if pos < from && end > to {
        assert(part =~= seq![head] + seq![tail]);
        lemma_content_add(seq![head], seq![tail], original, add);
    } else if pos < from {
        assert(part =~= seq![head]);
    } else if end > to {
        assert(part =~= seq![tail]);
    } else {
        assert(part =~= Seq::<Piece>::empty());
    }
    assert(kept_text(text, from as int, to as int, pos as int) + content(part, original, add)
        =~= kept_text(text, from as int, to as int, end as int));
}

/// Parts of piece `i`, put behind pieces that overlap neither each other nor
/// a piece from `i` on, give pieces that overlap neither each other nor a
/// piece behind `i`.
proof fn lemma_keep_apart(pieces: Seq<Piece>, i: int, kept: Seq<Piece>, part: Seq<Piece>)
    requires
        all_apart(pieces),
        0 <= i < pieces.len(),
        all_apart(kept),
        all_apart(part),
        forall|k: int| 0 <= k < part.len() ==> (#[trigger] part[k]).part_of(pieces[i]),
        forall|k: int, j: int|
            #![trigger kept[k], pieces[j]]
            0 <= k < kept.len() && i <= j < pieces.len() ==> kept[k].apart(pieces[j]),
    ensures
        all_apart(kept + part),
        forall|k: int, j: int|
            #![trigger (kept + part)[k], pieces[j]]
            0 <= k < (kept + part).len() && i + 1 <= j < pieces.len() ==> (kept + part)[k].apart(
                pieces[j],
            ),
{
    let next = kept + part;
    assert forall|a: int, b: int| 0 <= a < b < next.len() implies next[a].apart(next[b]) by {
        if b < kept.len() {
            assert(kept[a].apart(kept[b]));
        } else if a < kept.len() {
            assert(kept[a].apart(pieces[i]));
            assert(part[b - kept.len()].part_of(pieces[i]));
        } else {
            assert(part[a - kept.len()].apart(part[b - kept.len()]));
        }
    }
    assert forall|k: int, j: int|
        0 <= k < next.len() && i + 1 <= j < pieces.len() implies next[k].apart(pieces[j]) by {
        if k < kept.len() {
            assert(kept[k].apart(pieces[j]));
        } else {
            assert(part[k - kept.len()].part_of(pieces[i]));
            assert(pieces[i].apart(pieces[j]));
        }
    }
}

/// One step of a deletion: what it leaves of the first `i + 1` pieces is what
/// it leaves of the first `i` and of piece `i`. These pieces lie in their
/// stores, overlap neither each other nor a piece that is still to come, and
/// stand for what the deletion leaves of the text that the first `i + 1`
/// pieces stand for.
proof fn lemma_delete_step(
    pieces: Seq<Piece>,
    i: int,
    kept: Seq<Piece>,
    text: Seq<u8>,
    from: nat,
    to: nat,
    original: Seq<u8>,
    add: Seq<u8>,
)
    requires
        all_within(pieces, original, add),
        all_apart(pieces),
        text == content(pieces, original, add),
        original.len() <= usize::MAX,
        add.len() <= usize::MAX,
        from < to <= text.len(),
        0 <= i < pieces.len(),
        kept == kept_pieces(pieces.take(i), from, to),
        all_within(kept, original, add),
        all_apart(kept),
        forall|k: int, j: int|
            #![trigger kept[k], pieces[j]]
            0 <= k < kept.len() && i <= j < pieces.len() ==> kept[k].apart(pieces[j]),
        content(kept, original, add) == kept_text(
            text,
            from as int,
            to as int,
            sum_of_lengths(pieces.take(i)) as int,
        ),
    ensures
        kept_pieces(pieces.take(i + 1), from, to) == kept + kept_of(
            pieces[i],
            sum_of_lengths(pieces.take(i)),
            from,
            to,
        ),
        all_within(kept_pieces(pieces.take(i + 1), from, to), original, add),
        all_apart(kept_pieces(pieces.take(i + 1), from, to)),
        forall|k: int, j: int|
            #![trigger kept_pieces(pieces.take(i + 1), from, to)[k], pieces[j]]
            0 <= k < kept_pieces(pieces.take(i + 1), from, to).len() && i + 1 <= j < pieces.len()
                ==> kept_pieces(pieces.take(i + 1), from, to)[k].apart(pieces[j]),
        content(kept_pieces(pieces.take(i + 1), from, to), original, add) == kept_text(
            text,
            from as int,
            to as int,
            sum_of_lengths(pieces.take(i + 1)) as int,
        ),
{
    let pos = sum_of_lengths(pieces.take(i));
    let part = kept_of(pieces[i], pos, from, to);
    assert(pieces.take(i + 1).drop_last() =~= pieces.take(i));
    assert(kept_pieces(pieces.take(i + 1), from, to) == kept + part);
    lemma_sum_prefix(pieces, i);
    lemma_piece_in_text(pieces, i, original, add);
    assert(pieces[i].within(original, add));
    lemma_kept_of(pieces[i], pos, from, to, text, original, add);
    lemma_keep_apart(pieces, i, kept, part);
    lemma_content_add(kept, part, original, add);
    assert forall|k: int| 0 <= k < (kept + part).len() implies (#[trigger] (kept + part)[k]).within(
        original,
        add,
    ) by {
        if k >= kept.len() {
            assert(part[k - kept.len()].within(original, add));
        } else {
            assert(kept[k].within(original, add));
        }
    }
}

/// What a deletion leaves of the first `i` pieces lies in the stores, overlaps
/// neither itself nor a piece from `i` on, and stands for what the deletion
/// leaves of the text that the first `i` pieces stand for.
proof fn lemma_kept_pieces(
    pieces: Seq<Piece>,
    i: int,
    text: Seq<u8>,
    from: nat,
    to: nat,
    original: Seq<u8>,
    add: Seq<u8>,
)
    requires
        all_within(pieces, original, add),
        all_apart(pieces),
        text == content(pieces, original, add),
        original.len() <= usize::MAX,
        add.len() <= usize::MAX,
        from < to <= text.len(),
        0 <= i <= pieces.len(),
    ensures
        all_within(kept_pieces(pieces.take(i), from, to), original, add),
        all_apart(kept_pieces(pieces.take(i), from, to)),
        forall|k: int, j: int|
            #![trigger kept_pieces(pieces.take(i), from, to)[k], pieces[j]]
            0 <= k < kept_pieces(pieces.take(i), from, to).len() && i <= j < pieces.len()
                ==> kept_pieces(pieces.take(i), from, to)[k].apart(pieces[j]),
        content(kept_pieces(pieces.take(i), from, to), original, add) == kept_text(
            text,
            from as int,
            to as int,
            sum_of_lengths(pieces.take(i)) as int,
        ),
    decreases i,
{
    if i == 0 {
        assert(pieces.take(0) =~= Seq::<Piece>::empty());
        assert(kept_text(text, from as int, to as int, 0) =~= Seq::<u8>::empty());
    } else {
        lemma_kept_pieces(pieces, i - 1, text, from, to, original, add);
        lemma_delete_step(
            pieces,
            i - 1,
            kept_pieces(pieces.take(i - 1), from, to),
            text,
            from,
            to,
            original,
            add,
        );
    }
}

} // verus!
