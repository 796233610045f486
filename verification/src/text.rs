//! The flat model of a document: a sequence of bytes in which the newline
//! byte is the only byte with structure.
//!
//! Everything the buffer and the edit session promise is stated over the
//! functions of this module. Lines and columns are 1-based, offsets are
//! 0-based, and every function is total: an address outside the text is
//! clamped to the nearest valid one.

use vstd::prelude::*;

verus! {

/// The line terminator.
pub const NEWLINE: u8 = 10;

/// How many newline bytes `s` holds.
pub open spec fn newline_count(s: Seq<u8>) -> nat
    decreases s.len(),
{
    if s.len() == 0 {
        0
    } else {
        newline_count(s.drop_last()) + if s.last() == NEWLINE {
            1nat
        } else {
            0nat
        }
    }
}

/// The number of lines of `s`: every newline ends one line and opens the
/// next, so the empty text has one line and a text that ends in a newline has
/// an empty last line.
pub open spec fn line_count(s: Seq<u8>) -> nat {
    newline_count(s) + 1
}

/// How many bytes follow offset `from` before the next newline or the end of
/// the text.
pub open spec fn run_length(s: Seq<u8>, from: int) -> nat
    decreases s.len() - from,
{
    if from < 0 || from >= s.len() || s[from] == NEWLINE {
        0
    } else {
        1 + run_length(s, from + 1)
    }
}

/// The offset at which the line with 0-based index `index` begins, found by
/// walking the line boundaries from the start of the text. It is meaningful
/// for `index <= newline_count(s)`.
pub open spec fn line_start(s: Seq<u8>, index: nat) -> nat
    decreases index,
{
    if index == 0 {
        0
    } else {
        let previous = line_start(s, (index - 1) as nat);
        previous + run_length(s, previous as int) + 1
    }
}

/// The 1-based line number nearest to `line` that names a line of `s`.
pub open spec fn clamp_line(s: Seq<u8>, line: nat) -> nat {
    if line < 1 {
        1
    } else if line > line_count(s) {
        line_count(s)
    } else {
        line
    }
}

/// The offset of the first byte of 1-based line `line`, clamped.
pub open spec fn line_offset(s: Seq<u8>, line: nat) -> nat {
    line_start(s, (clamp_line(s, line) - 1) as nat)
}

/// The number of bytes of 1-based line `line`, clamped, without its newline.
pub open spec fn line_length(s: Seq<u8>, line: nat) -> nat {
    run_length(s, line_offset(s, line) as int)
}

/// The bytes of 1-based line `line`, clamped, without its newline.
pub open spec fn line_bytes(s: Seq<u8>, line: nat) -> Seq<u8> {
    s.subrange(
        line_offset(s, line) as int,
        (line_offset(s, line) + line_length(s, line)) as int,
    )
}

/// The offset that the 1-based pair (`line`, `column`) addresses. The line is
/// clamped into the text; the column is clamped so that the offset stays
/// within the line, from its first byte up to its newline or the end of the
/// text.
pub open spec fn offset_of(s: Seq<u8>, line: nat, column: nat) -> nat {
    let length = line_length(s, line);
    let within = if column < 1 {
        0
    } else if column - 1 > length {
        length
    } else {
        (column - 1) as nat
    };
    line_offset(s, line) + within
}

/// The cursor row nearest to `line`. Rows run from 1 to `line_count(s) - 1`:
/// the last line is no cursor row. A text without a newline leaves that range
/// empty, and the row is then 1.
pub open spec fn sync_line(s: Seq<u8>, line: nat) -> nat {
    if line < 1 || line_count(s) < 2 {
        1
    } else if line > line_count(s) - 1 {
        (line_count(s) - 1) as nat
    } else {
        line
    }
}

/// The cursor column nearest to `column` on line `line`. Columns run from 1
/// to the length of the line; on an empty line the column is 1.
pub open spec fn sync_column(s: Seq<u8>, line: nat, column: nat) -> nat {
    let length = line_length(s, line);
    if column < 1 || length < 1 {
        1
    } else if column > length {
        length
    } else {
        column
    }
}

/// The offset nearest to `offset` that lies in `s` or at its end.
pub open spec fn clamp_offset(s: Seq<u8>, offset: nat) -> nat {
    if offset > s.len() {
        s.len()
    } else {
        offset
    }
}

/// `s` with `byte` put in at `offset`, or at the end if `offset` lies beyond it.
pub open spec fn insert_at(s: Seq<u8>, offset: nat, byte: u8) -> Seq<u8> {
    s.insert(clamp_offset(s, offset) as int, byte)
}

/// `s` without the `count` bytes from `offset` on; the range is cut off at the
/// end of the text.
pub open spec fn delete_range(s: Seq<u8>, offset: nat, count: nat) -> Seq<u8> {
    s.subrange(0, clamp_offset(s, offset) as int) + s.subrange(
        clamp_offset(s, offset + count) as int,
        s.len() as int,
    )
}

/// Appending one byte adds one newline exactly if the byte is one.
pub proof fn lemma_newline_count_push(s: Seq<u8>, byte: u8)
    ensures
        newline_count(s.push(byte)) == newline_count(s) + if byte == NEWLINE {
            1nat
        } else {
            0nat
        },
{
    assert(s.push(byte).drop_last() =~= s);
}

/// The newlines of a concatenation are those of its parts.
pub proof fn lemma_newline_count_add(a: Seq<u8>, b: Seq<u8>)
    ensures
        newline_count(a + b) == newline_count(a) + newline_count(b),
    decreases b.len(),
{
    if b.len() == 0 {
        assert(a + b =~= a);
    } else {
        lemma_newline_count_add(a, b.drop_last());
        assert((a + b).drop_last() =~= a + b.drop_last());
    }
}

/// A prefix of a text has no more newlines than the text.
pub proof fn lemma_newline_count_prefix(s: Seq<u8>, n: int)
    requires
        0 <= n <= s.len(),
    ensures
        newline_count(s.take(n)) <= newline_count(s),
{
    assert(s =~= s.take(n) + s.skip(n));
    lemma_newline_count_add(s.take(n), s.skip(n));
}

/// A text has no more newlines than bytes.
pub proof fn lemma_newline_count_bound(s: Seq<u8>)
    ensures
        newline_count(s) <= s.len(),
    decreases s.len(),
{
    if s.len() > 0 {
        lemma_newline_count_bound(s.drop_last());
    }
}

/// A stretch of text without a newline adds none to the count of a prefix.
pub proof fn lemma_newline_count_run(s: Seq<u8>, from: int, to: int)
    requires
        0 <= from <= to <= s.len(),
        forall|k: int| from <= k < to ==> s[k] != NEWLINE,
    ensures
        newline_count(s.take(to)) == newline_count(s.take(from)),
    decreases to - from,
{
    if from < to {
        lemma_newline_count_run(s, from, to - 1);
        assert(s.take(to) =~= s.take(to - 1).push(s[to - 1]));
        lemma_newline_count_push(s.take(to - 1), s[to - 1]);
    }
}

/// A run stays inside the text, holds no newline, and stops at a newline or
/// at the end of the text.
pub proof fn lemma_run_length_stops(s: Seq<u8>, from: int)
    requires
        0 <= from <= s.len(),
    ensures
        from + run_length(s, from) <= s.len(),
        forall|k: int| from <= k < from + run_length(s, from) ==> s[k] != NEWLINE,
        from + run_length(s, from) < s.len() ==> s[from + run_length(s, from)] == NEWLINE,
    decreases s.len() - from,
{
    if from < s.len() && s[from] != NEWLINE {
        lemma_run_length_stops(s, from + 1);
    }
}

/// The run from `from` ends at `end` if no newline lies between them and
/// `end` is a newline or the end of the text.
pub proof fn lemma_run_length_is(s: Seq<u8>, from: int, end: int)
    requires
        0 <= from <= end <= s.len(),
        forall|k: int| from <= k < end ==> s[k] != NEWLINE,
        end == s.len() || s[end] == NEWLINE,
    ensures
        run_length(s, from) == end - from,
    decreases end - from,
{
    if from < end {
        lemma_run_length_is(s, from + 1, end);
    }
}

/// The run from `start` ends inside the text, with as many newlines before
/// its end as before its start. Where it ends at a newline, the text has one
/// newline more up to and with that byte; where it ends with the text, the
/// text has no newline more.
pub proof fn lemma_run_length_newlines(s: Seq<u8>, start: int)
    requires
        0 <= start <= s.len(),
    ensures
        start + run_length(s, start) <= s.len(),
        newline_count(s.take(start + run_length(s, start))) == newline_count(s.take(start)),
        start + run_length(s, start) < s.len() ==> {
            &&& s[start + run_length(s, start)] == NEWLINE
            &&& newline_count(s.take(start + run_length(s, start) + 1)) == newline_count(
                s.take(start),
            ) + 1
            &&& newline_count(s) >= newline_count(s.take(start)) + 1
        },
        start + run_length(s, start) == s.len() ==> newline_count(s) == newline_count(
            s.take(start),
        ),
{
    let end = start + run_length(s, start);
    lemma_run_length_stops(s, start);
    lemma_newline_count_run(s, start, end);
    if end < s.len() {
        assert(s.take(end + 1) =~= s.take(end).push(s[end]));
        lemma_newline_count_push(s.take(end), s[end]);
        lemma_newline_count_prefix(s, end + 1);
    } else {
        assert(s.take(end) =~= s);
    }
}

/// Every line that the text has begins inside it, after exactly as many
/// newlines as lines precede it, and ends at the end of the text exactly if
/// it is the last one.
pub proof fn lemma_line_start_in_text(s: Seq<u8>, index: nat)
    requires
        index <= newline_count(s),
    ensures
        line_start(s, index) + run_length(s, line_start(s, index) as int) <= s.len(),
        newline_count(s.take(line_start(s, index) as int)) == index,
        newline_count(
            s.take((line_start(s, index) + run_length(s, line_start(s, index) as int)) as int),
        ) == index,
        index == newline_count(s) <==> line_start(s, index) + run_length(
            s,
            line_start(s, index) as int,
        ) == s.len(),
    decreases index,
{
    if index == 0 {
        assert(s.take(0) =~= Seq::<u8>::empty());
    } else {
        lemma_line_start_in_text(s, (index - 1) as nat);
        lemma_run_length_newlines(s, line_start(s, (index - 1) as nat) as int);
    }
    lemma_run_length_newlines(s, line_start(s, index) as int);
}

/// The address of a position, clamped, lies inside the text.
pub proof fn lemma_offset_of_in_text(s: Seq<u8>, line: nat, column: nat)
    ensures
        line_offset(s, line) <= offset_of(s, line, column) <= line_offset(s, line) + line_length(
            s,
            line,
        ) <= s.len(),
{
    lemma_line_start_in_text(s, (clamp_line(s, line) - 1) as nat);
}

/// One change to a text.
#[derive(Clone, Copy, Debug)]
pub enum Edit {
    /// Put `byte` in at `offset`.
    Insert { offset: usize, byte: u8 },
    /// Take `count` bytes out from `offset` on.
    Delete { offset: usize, count: usize },
}

/// `s` after `edit`.
pub open spec fn apply_edit(s: Seq<u8>, edit: Edit) -> Seq<u8> {
    match edit {
        Edit::Insert { offset, byte } => insert_at(s, offset as nat, byte),
        Edit::Delete { offset, count } => delete_range(s, offset as nat, count as nat),
    }
}

/// `s` after `edits`, made one after the other.
pub open spec fn apply_edits(s: Seq<u8>, edits: Seq<Edit>) -> Seq<u8>
    decreases edits.len(),
{
    if edits.len() == 0 {
        s
    } else {
        apply_edit(apply_edits(s, edits.drop_last()), edits.last())
    }
}

/// An edit makes a text longer by one byte at most.
pub proof fn lemma_apply_edit_len(s: Seq<u8>, edit: Edit)
    ensures
        apply_edit(s, edit).len() <= s.len() + 1,
{
}

/// Deleting no bytes leaves the text as it is, whatever the offset.
pub proof fn lemma_delete_nothing(s: Seq<u8>, offset: nat)
    ensures
        delete_range(s, offset, 0) == s,
{
    assert(delete_range(s, offset, 0) =~= s);
}

/// A byte put in changes no line that begins at or before it: such a line
/// begins where it began.
pub proof fn lemma_line_start_stable(s: Seq<u8>, t: Seq<u8>, offset: int, index: nat)
    requires
        0 <= offset <= s.len(),
        offset <= t.len(),
        forall|k: int| 0 <= k < offset ==> t[k] == s[k],
        index <= newline_count(s),
        line_start(s, index) <= offset,
    ensures
        line_start(t, index) == line_start(s, index),
    decreases index,
{
    if index > 0 {
        let before = (index - 1) as nat;
        let previous = line_start(s, before) as int;
        let stop = previous + run_length(s, previous);
        lemma_line_start_in_text(s, before);
        lemma_run_length_stops(s, previous);
        lemma_line_start_stable(s, t, offset, before);
        lemma_run_length_is(t, previous, stop);
    }
}

/// A byte other than a newline, put in at the place that a line and a column
/// address, makes that line one byte longer and leaves the number of lines
/// as it was.
pub proof fn lemma_insert_grows_line(s: Seq<u8>, line: nat, column: nat, byte: u8)
    requires
        byte != NEWLINE,
    ensures
        line_count(insert_at(s, offset_of(s, line, column), byte)) == line_count(s),
        line_offset(insert_at(s, offset_of(s, line, column), byte), line) == line_offset(s, line),
        line_length(insert_at(s, offset_of(s, line, column), byte), line) == line_length(s, line)
            + 1,
{
    let offset = offset_of(s, line, column) as int;
    let index = (clamp_line(s, line) - 1) as nat;
    let start = line_start(s, index) as int;
    let stop = start + run_length(s, start);
    lemma_offset_of_in_text(s, line, column);
    lemma_line_start_in_text(s, index);
    lemma_run_length_stops(s, start);
    let t = s.insert(offset, byte);
    assert(t == insert_at(s, offset as nat, byte));
    assert(t =~= s.take(offset) + seq![byte] + s.skip(offset));
    assert(s =~= s.take(offset) + s.skip(offset));
    lemma_newline_count_add(s.take(offset) + seq![byte], s.skip(offset));
    lemma_newline_count_add(s.take(offset), seq![byte]);
    lemma_newline_count_add(s.take(offset), s.skip(offset));
    lemma_newline_count_push(Seq::<u8>::empty(), byte);
    assert(Seq::<u8>::empty().push(byte) =~= seq![byte]);
    assert(newline_count(t) == newline_count(s));
    lemma_line_start_stable(s, t, offset, index);
    assert forall|k: int| start <= k < stop + 1 implies t[k] != NEWLINE by {
        if k < offset {
            assert(t[k] == s[k]);
        } else if k > offset {
            assert(t[k] == s[k - 1]);
        }
    }
    if stop < s.len() {
        assert(t[stop + 1] == s[stop]);
    }
    lemma_run_length_is(t, start, stop + 1);
}

} // verus!
