//! Where things stand on the screen: the text behind its gutter, the numbers
//! in the gutter, and the places on the status line. Nothing here draws; a
//! renderer asks these functions what to draw and where.

use crate::text::NEWLINE;
use vstd::prelude::*;

verus! {

/// The width of the gutter that holds the line numbers, in columns.
pub const GUTTER: usize = 4;

/// The byte that the gutter is filled with.
pub const BLANK: u8 = 0x20;

/// The byte that sends the terminal back to its first column.
pub const CARRIAGE_RETURN: u8 = 0x0d;

/// The blank gutter before one line.
pub open spec fn blank_gutter() -> Seq<u8> {
    seq![BLANK, BLANK, BLANK, BLANK]
}

/// What the byte `byte` of the text is shown as: itself, but a newline as the
/// step to the start of the next row of the terminal and the gutter of that
/// row.
pub open spec fn shown_byte(byte: u8) -> Seq<u8> {
    if byte == NEWLINE {
        seq![NEWLINE, CARRIAGE_RETURN] + blank_gutter()
    } else {
        seq![byte]
    }
}

/// What `text` is shown as: each of its lines behind a blank gutter.
pub open spec fn shown(text: Seq<u8>) -> Seq<u8>
    decreases text.len(),
{
    if text.len() == 0 {
        blank_gutter()
    } else {
        shown(text.drop_last()) + shown_byte(text.last())
    }
}

/// The number shown beside the line on row `row` while the cursor is on line
/// `cursor_line`: the line's own number on the cursor's row, and on every
/// other row its distance from the cursor's row.
pub open spec fn number_beside(row: nat, cursor_line: nat) -> nat {
    if row == cursor_line {
        row
    } else if row > cursor_line {
        (row - cursor_line) as nat
    } else {
        (cursor_line - row) as nat
    }
}

/// The column at which a number of `width` digits starts in the gutter. The
/// number of the cursor's row stands at the left edge; the others end at the
/// right edge of the gutter, or start at its left edge if they are too wide.
pub open spec fn number_column(on_cursor_row: bool, width: nat) -> nat {
    if on_cursor_row || width > GUTTER {
        0
    } else {
        (GUTTER - width) as nat
    }
}

/// The column at which a text of `width` columns starts so that its middle
/// is the middle of a screen of `columns` columns, or 0 if it is too wide.
pub open spec fn centred_column(columns: nat, width: nat) -> nat {
    if columns / 2 > width / 2 {
        (columns / 2 - width / 2) as nat
    } else {
        0
    }
}

/// The column at which a text of `width` columns starts so that two columns
/// stay free behind it on a screen of `columns` columns, or 0 if it is too
/// wide.
pub open spec fn flush_right_column(columns: nat, width: nat) -> nat {
    if columns > width + 2 {
        (columns - width - 2) as nat
    } else {
        0
    }
}

/// The number shown beside row `row` while the cursor is on line
/// `cursor_line`.
pub fn gutter_number(row: usize, cursor_line: usize) -> (number: usize)
    ensures
        number == number_beside(row as nat, cursor_line as nat),
{
    if row == cursor_line {
        row
    } else if row > cursor_line {
        row - cursor_line
    } else {
        cursor_line - row
    }
}

/// The column at which the number of row `row` starts in the gutter, given
/// the number of its digits.
pub fn gutter_column(row: usize, cursor_line: usize, width: usize) -> (column: usize)
    ensures
        column == number_column(row == cursor_line, width as nat),
{
    if row == cursor_line || width > GUTTER {
        0
    } else {
        GUTTER - width
    }
}

/// The column at which the command being spelled starts on the status line.
pub fn command_column(columns: u16, width: usize) -> (column: u16)
    ensures
        column == centred_column(columns as nat, width as nat),
{
    let half = columns / 2;
    if half as usize > width / 2 {
        half - (width / 2) as u16
    } else {
        0
    }
}

/// The column at which the position of the cursor starts on the status line.
pub fn position_column(columns: u16, width: usize) -> (column: u16)
    ensures
        column == flush_right_column(columns as nat, width as nat),
{
    if columns as usize >= 2 && columns as usize - 2 > width {
        columns - 2 - width as u16
    } else {
        0
    }
}

/// The bytes that show `text` on a terminal in raw mode, each line behind a
/// blank gutter.
pub fn shown_text(text: &[u8]) -> (bytes: Vec<u8>)
    ensures
        bytes@ == shown(text@),
{
    let mut bytes: Vec<u8> = Vec::new();
    let mut column: usize = 0;
    while column < GUTTER
        invariant
            column <= GUTTER,
            bytes@ == blank_gutter().take(column as int),
        decreases GUTTER - column,
    {
        bytes.push(BLANK);
        column = column + 1;
        assert(bytes@ =~= blank_gutter().take(column as int));
    }
    assert(bytes@ =~= blank_gutter());
    let mut i: usize = 0;
    assert(text@.take(0) =~= Seq::<u8>::empty());
    while i < text.len()
        invariant
            i <= text@.len(),
            bytes@ == shown(text@.take(i as int)),
        decreases text@.len() - i,
    {
        let ghost so_far = bytes@;
        let byte = text[i];
        if byte == NEWLINE {
            bytes.push(NEWLINE);
            bytes.push(CARRIAGE_RETURN);
            bytes.push(BLANK);
            bytes.push(BLANK);
            bytes.push(BLANK);
            bytes.push(BLANK);
        } else {
            bytes.push(byte);
        }
        proof {
            assert(text@.take(i + 1).drop_last() =~= text@.take(i as int));
            assert(bytes@ =~= so_far + shown_byte(byte));
        }
        i = i + 1;
    }
    assert(text@.take(i as int) =~= text@);
    bytes
}

} // verus!
