//! The edit session: the modal state machine that turns keystrokes, one byte
//! at a time, into changes of the document and movements of the cursor.
//!
//! The session is stated twice. `transition` is the state machine itself, a
//! function from a state and a byte to the next state and what is to be done
//! outside. `Editor` is the session that runs: it holds the document in a
//! piece table, and each of its methods says which state of the machine it
//! leaves behind.

use crate::piece_table::PieceTable;
use crate::text::{
    delete_range, insert_at, lemma_insert_grows_line, lemma_newline_count_bound,
    lemma_offset_of_in_text, line_count, line_length, line_offset, offset_of, sync_column,
    sync_line, NEWLINE,
};
use vstd::prelude::*;

verus! {

/// The key that leaves a mode.
pub const ESCAPE: u8 = 0x1b;

/// The key that ends a line or a command.
pub const RETURN: u8 = 0x0d;

/// The first of the two keys that rub out.
pub const BACKSPACE: u8 = 0x08;

/// The second of the two keys that rub out.
pub const DELETE: u8 = 0x7f;

/// The key that indents.
pub const TAB: u8 = 0x09;

/// The byte that an indentation is made of, and the first printable byte.
pub const SPACE: u8 = 0x20;

/// The last printable byte, `~`.
pub const TILDE: u8 = 0x7e;

/// The digit `0`.
pub const ZERO: u8 = 0x30;

/// The digit `9`.
pub const NINE: u8 = 0x39;

/// The key `:`, which begins a command.
pub const KEY_COMMAND: u8 = 0x3a;

/// The key `i`, which goes to insert mode.
pub const KEY_INSERT: u8 = 0x69;

/// The key `h`, which moves the cursor left.
pub const KEY_LEFT: u8 = 0x68;

/// The key `l`, which moves the cursor right.
pub const KEY_RIGHT: u8 = 0x6c;

/// The key `j`, which moves the cursor down.
pub const KEY_DOWN: u8 = 0x6a;

/// The key `k`, which moves the cursor up.
pub const KEY_UP: u8 = 0x6b;

/// The key `x`, which takes out the byte under the cursor.
pub const KEY_REMOVE: u8 = 0x78;

/// The command `q`, which ends the session.
pub const COMMAND_QUIT: u8 = 0x71;

/// The command `w`, which saves the text.
pub const COMMAND_WRITE: u8 = 0x77;

/// An operator that waits for the motion it is to be applied to.
#[derive(Clone, Copy, Debug, PartialEq, Eq)]
pub enum ComposableCommand {
    Delete,
    Yank,
    Change,
}

/// How the next byte is read.
#[derive(Clone, Copy, Debug, PartialEq, Eq)]
pub enum Mode {
    /// Bytes are commands.
    Normal,
    /// Bytes spell a command that the return key runs.
    NormalCommandBuffer,
    /// An operator waits for its motion.
    NormalComposing(ComposableCommand),
    /// Bytes go into the text.
    Insert,
}

/// A movement of the cursor, with the number of times it is made.
#[derive(Clone, Copy, Debug, PartialEq, Eq)]
pub enum Motion {
    Word(usize),
    BackWord(usize),
    Forward(char, usize),
    EOL,
    Chars(usize),
}

/// A place in the text: a 1-based line and a 1-based column of that line.
#[derive(Clone, Copy, Debug, PartialEq, Eq)]
pub struct Cursor {
    pub line: usize,
    pub column: usize,
}

/// What is to be done outside the session after a byte.
#[derive(Clone, Copy, Debug, PartialEq, Eq)]
pub enum Action {
    /// Nothing: read the next byte.
    Continue,
    /// Write the whole text to where it is kept.
    Save,
    /// End the session.
    Quit,
}

/// A state of the edit session.
pub struct EditorState {
    /// The text of the document.
    pub text: Seq<u8>,
    /// How the next byte is read.
    pub mode: Mode,
    /// The command spelled so far.
    pub command: Seq<u8>,
    /// The digits typed before a command, which say how often it is made.
    pub prefix: Seq<u8>,
    /// The line of the cursor.
    pub line: nat,
    /// The column of the cursor.
    pub column: nat,
}

/// `byte` is a decimal digit.
pub open spec fn is_digit(byte: u8) -> bool {
    ZERO <= byte <= NINE
}

/// `byte` is a printable character.
pub open spec fn is_printable(byte: u8) -> bool {
    SPACE <= byte <= TILDE
}

/// The number that `digits` spell in decimal.
pub open spec fn decimal(digits: Seq<u8>) -> nat
    decreases digits.len(),
{
    if digits.len() == 0 {
        0
    } else {
        decimal(digits.drop_last()) * 10 + (digits.last() - ZERO) as nat
    }
}

/// How often the next command is made: as often as the digits before it say,
/// and once if there are none.
pub open spec fn pending_count(prefix: Seq<u8>) -> nat {
    if prefix.len() == 0 {
        1
    } else {
        decimal(prefix)
    }
}

/// `a - b`, or 0 where `b` is the greater.
pub open spec fn minus(a: nat, b: nat) -> nat {
    if a > b {
        (a - b) as nat
    } else {
        0
    }
}

/// What the command spelled by `command` asks for.
pub open spec fn command_action(command: Seq<u8>) -> Action {
    if command == seq![COMMAND_QUIT] {
        Action::Quit
    } else if command == seq![COMMAND_WRITE] {
        Action::Save
    } else {
        Action::Continue
    }
}

/// `text` with four spaces put in at `offset`.
pub open spec fn indent(text: Seq<u8>, offset: nat) -> Seq<u8> {
    let one = insert_at(text, offset, SPACE);
    let two = insert_at(one, offset, SPACE);
    let three = insert_at(two, offset, SPACE);
    insert_at(three, offset, SPACE)
}

/// By how many bytes `byte` can make the text longer in mode `mode`.
pub open spec fn growth(mode: Mode, byte: u8) -> nat {
    if mode != Mode::Insert || byte == ESCAPE || byte == BACKSPACE || byte == DELETE {
        0
    } else if byte == TAB {
        4
    } else {
        1
    }
}

/// The cursor at `line` and `column` is on a cursor row of `text` and on a
/// column of that row.
#[verifier::opaque]
pub open spec fn cursor_synced(text: Seq<u8>, line: nat, column: nat) -> bool {
    &&& line == sync_line(text, line)
    &&& column == sync_column(text, line, column)
}

/// `prefix` holds digits only.
pub open spec fn digits_only(prefix: Seq<u8>) -> bool {
    forall|i: int| 0 <= i < prefix.len() ==> is_digit(#[trigger] prefix[i])
}

impl EditorState {
    /// The state of a session that has just opened `text`.
    pub open spec fn initial(text: Seq<u8>) -> EditorState {
        EditorState {
            text,
            mode: Mode::Normal,
            command: Seq::empty(),
            prefix: Seq::empty(),
            line: 1,
            column: 1,
        }
    }

    /// The cursor is on a cursor row of the text and on a column of that row.
    pub open spec fn synced(self) -> bool {
        cursor_synced(self.text, self.line, self.column)
    }

    /// The cursor is synced and the prefix holds digits only.
    pub open spec fn valid(self) -> bool {
        &&& self.synced()
        &&& digits_only(self.prefix)
    }

    /// The offset in the text that the cursor addresses.
    pub open spec fn offset(self) -> nat {
        offset_of(self.text, self.line, self.column)
    }

    /// The state with the cursor sent to `line` and `column` and synced there:
    /// first the line against the text, then the column against that line.
    #[verifier::opaque]
    pub open spec fn place(self, line: nat, column: nat) -> EditorState {
        let row = sync_line(self.text, line);
        EditorState { line: row, column: sync_column(self.text, row, column), ..self }
    }

    /// The state with `text` for its text and the cursor synced against it.
    pub open spec fn with_text(self, text: Seq<u8>) -> EditorState {
        EditorState { text, ..self }.place(self.line, self.column)
    }

    /// The state after `count` bytes were taken out at the cursor, but none
    /// beyond the end of its line.
    #[verifier::opaque]
    pub open spec fn removed(self, count: nat) -> EditorState {
        let end = line_offset(self.text, self.line) + line_length(self.text, self.line);
        let rest = minus(end, self.offset());
        let taken = if count < rest {
            count
        } else {
            rest
        };
        self.with_text(delete_range(self.text, self.offset(), taken))
    }

    /// The state after `byte` in insert mode. Escape goes back to normal
    /// mode. A return or a newline breaks the line at the cursor, which goes
    /// to the start of the next line. A backspace or a delete takes out the
    /// byte before the cursor, which goes one column to the left. A tab puts
    /// in four spaces, and any other byte goes in as it is; the cursor goes
    /// as many columns to the right.
    #[verifier::opaque]
    pub open spec fn typed(self, byte: u8) -> EditorState {
        if byte == ESCAPE {
            EditorState { mode: Mode::Normal, ..self }
        } else if byte == RETURN || byte == NEWLINE {
            EditorState { text: insert_at(self.text, self.offset(), NEWLINE), ..self }.place(
                self.line + 1,
                1,
            )
        } else if byte == BACKSPACE || byte == DELETE {
            EditorState {
                text: if self.offset() > 0 {
                    delete_range(self.text, (self.offset() - 1) as nat, 1)
                } else {
                    self.text
                },
                ..self
            }.place(self.line, minus(self.column, 1))
        } else if byte == TAB {
            EditorState { text: indent(self.text, self.offset()), ..self }.place(
                self.line,
                self.column + 4,
            )
        } else {
            EditorState { text: insert_at(self.text, self.offset(), byte), ..self }.place(
                self.line,
                self.column + 1,
            )
        }
    }

    /// The state after `byte` in normal mode. A digit goes to the prefix. Any
    /// other byte empties the prefix and is made as often as the prefix said:
    /// `:` begins a command, `i` goes to insert mode, `h`, `l`, `j` and `k`
    /// move the cursor left, right, down and up, `x` takes out bytes at the
    /// cursor, and every other byte does nothing more.
    #[verifier::opaque]
    pub open spec fn commanded(self, byte: u8) -> EditorState {
        if is_digit(byte) {
            EditorState { prefix: self.prefix.push(byte), ..self }
        } else {
            let count = pending_count(self.prefix);
            let cleared = EditorState { prefix: Seq::empty(), ..self };
            if byte == KEY_COMMAND {
                EditorState { mode: Mode::NormalCommandBuffer, command: Seq::empty(), ..cleared }
            } else if byte == KEY_INSERT {
                EditorState { mode: Mode::Insert, ..cleared }
            } else if byte == KEY_LEFT {
                cleared.place(self.line, minus(self.column, count))
            } else if byte == KEY_RIGHT {
                cleared.place(self.line, self.column + count)
            } else if byte == KEY_DOWN {
                cleared.place(self.line + count, self.column)
            } else if byte == KEY_UP {
                cleared.place(minus(self.line, count), self.column)
            } else if byte == KEY_REMOVE {
                cleared.removed(count)
            } else {
                cleared
            }
        }
    }

    /// The state after `byte` while a command is spelled, and what the
    /// command asks for if `byte` runs it. A return runs the command and an
    /// escape gives it up; both go back to normal mode with no command left.
    /// A backspace or a delete takes the last byte of the command, a
    /// printable byte is added to it, and every other byte does nothing.
    #[verifier::opaque]
    pub open spec fn spelled(self, byte: u8) -> (EditorState, Action) {
        if byte == RETURN {
            (
                EditorState { mode: Mode::Normal, command: Seq::empty(), ..self },
                command_action(self.command),
            )
        } else if byte == ESCAPE {
            (EditorState { mode: Mode::Normal, command: Seq::empty(), ..self }, Action::Continue)
        } else if byte == BACKSPACE || byte == DELETE {
            (
                EditorState {
                    command: if self.command.len() > 0 {
                        self.command.drop_last()
                    } else {
                        self.command
                    },
                    ..self
                },
                Action::Continue,
            )
        } else if is_printable(byte) {
            (EditorState { command: self.command.push(byte), ..self }, Action::Continue)
        } else {
            (self, Action::Continue)
        }
    }
}

/// The edit session as a state machine: the state after `byte`, and what is
/// to be done outside. Every byte has an effect in every mode, if only none:
/// while an operator waits for its motion, no byte changes anything.
#[verifier::opaque]
pub open spec fn transition(state: EditorState, byte: u8) -> (EditorState, Action) {
    match state.mode {
        Mode::Normal => (state.commanded(byte), Action::Continue),
        Mode::NormalCommandBuffer => state.spelled(byte),
        Mode::NormalComposing(_) => (state, Action::Continue),
        Mode::Insert => (state.typed(byte), Action::Continue),
    }
}

/// Wherever the cursor is sent, it ends on a cursor row, at a column of that
/// row, and nothing but the cursor changes.
pub proof fn lemma_place_synced(state: EditorState, line: nat, column: nat)
    ensures
        state.place(line, column).synced(),
        state.place(line, column) == (EditorState {
            line: state.place(line, column).line,
            column: state.place(line, column).column,
            ..state
        }),
{
    reveal(EditorState::place);
    reveal(cursor_synced);
}

/// A synced cursor is on line 1 or below and on column 1 or beyond. Where the
/// text has a line break, its line is not the last line, and else it is line
/// 1; where its line has a byte, its column is on a byte of the line, and
/// else it is column 1.
pub proof fn lemma_synced_in_range(state: EditorState)
    requires
        state.synced(),
    ensures
        1 <= state.line,
        1 <= state.column,
        line_count(state.text) >= 2 ==> state.line <= line_count(state.text) - 1,
        line_count(state.text) < 2 ==> state.line == 1,
        line_length(state.text, state.line) >= 1 ==> state.column <= line_length(
            state.text,
            state.line,
        ),
        line_length(state.text, state.line) < 1 ==> state.column == 1,
{
    reveal(cursor_synced);
}

/// A byte in normal mode leaves a valid state valid and makes the text no
/// longer.
proof fn lemma_commanded(state: EditorState, byte: u8)
    ensures
        state.valid() ==> state.commanded(byte).valid(),
        state.commanded(byte).text.len() <= state.text.len(),
{
    reveal(EditorState::commanded);
    let count = pending_count(state.prefix);
    let cleared = EditorState { prefix: Seq::empty(), ..state };
    if is_digit(byte) {
    } else if byte == KEY_LEFT {
        lemma_place_synced(cleared, state.line, minus(state.column, count));
    } else if byte == KEY_RIGHT {
        lemma_place_synced(cleared, state.line, state.column + count);
    } else if byte == KEY_DOWN {
        lemma_place_synced(cleared, state.line + count, state.column);
    } else if byte == KEY_UP {
        lemma_place_synced(cleared, minus(state.line, count), state.column);
    } else if byte == KEY_REMOVE {
        reveal(EditorState::removed);
        let end = line_offset(state.text, state.line) + line_length(state.text, state.line);
        let rest = minus(end, state.offset());
        let taken = if count < rest {
            count
        } else {
            rest
        };
        let text = delete_range(state.text, state.offset(), taken);
        lemma_place_synced(EditorState { text, ..cleared }, state.line, state.column);
        assert(text.len() <= state.text.len());
    }
}

/// A byte in insert mode leaves a valid state valid and makes the text no
/// longer than `growth` says.
proof fn lemma_typed(state: EditorState, byte: u8)
    ensures
        state.valid() ==> state.typed(byte).valid(),
        state.typed(byte).text.len() <= state.text.len() + growth(Mode::Insert, byte),
{
    reveal(EditorState::typed);
    let offset = state.offset();
    if byte == ESCAPE {
    } else if byte == RETURN || byte == NEWLINE {
        let text = insert_at(state.text, offset, NEWLINE);
        lemma_place_synced(EditorState { text, ..state }, state.line + 1, 1);
        assert(text.len() == state.text.len() + 1);
    } else if byte == BACKSPACE || byte == DELETE {
        let text = if offset > 0 {
            delete_range(state.text, (offset - 1) as nat, 1)
        } else {
            state.text
        };
        lemma_place_synced(EditorState { text, ..state }, state.line, minus(state.column, 1));
        assert(text.len() <= state.text.len());
    } else if byte == TAB {
        let one = insert_at(state.text, offset, SPACE);
        let two = insert_at(one, offset, SPACE);
        let three = insert_at(two, offset, SPACE);
        let text = insert_at(three, offset, SPACE);
        lemma_place_synced(EditorState { text, ..state }, state.line, state.column + 4);
        assert(text.len() == state.text.len() + 4);
    } else {
        let text = insert_at(state.text, offset, byte);
        lemma_place_synced(EditorState { text, ..state }, state.line, state.column + 1);
        assert(text.len() == state.text.len() + 1);
    }
}

/// `byte` is none of the keys of insert mode: it is typed as it is.
pub open spec fn is_plain(byte: u8) -> bool {
    &&& byte != ESCAPE
    &&& byte != RETURN
    &&& byte != NEWLINE
    &&& byte != BACKSPACE
    &&& byte != DELETE
    &&& byte != TAB
}

/// A byte that is none of the keys of insert mode goes into the text as it
/// is, before the byte that the cursor is on. The text and the cursor's line
/// are one byte longer for it, there are as many lines as before, the cursor
/// stays on its line, and where that line had a byte the cursor is one
/// column further to the right.
pub proof fn lemma_typed_plain(state: EditorState, byte: u8)
    requires
        state.synced(),
        is_plain(byte),
    ensures
        state.typed(byte).text == insert_at(state.text, state.offset(), byte),
        state.typed(byte).text.len() == state.text.len() + 1,
        state.typed(byte).mode == state.mode,
        line_count(state.typed(byte).text) == line_count(state.text),
        line_length(state.typed(byte).text, state.line) == line_length(state.text, state.line)
            + 1,
        state.typed(byte).line == state.line,
        line_length(state.text, state.line) >= 1 ==> state.typed(byte).column == state.column
            + 1,
{
    reveal(EditorState::typed);
    reveal(EditorState::place);
    reveal(cursor_synced);
    lemma_insert_grows_line(state.text, state.line, state.column, byte);
    lemma_offset_of_in_text(state.text, state.line, state.column);
}

/// No byte takes the session out of its valid states: after every byte the
/// cursor is synced against the text as the byte left it.
pub proof fn lemma_transition_valid(state: EditorState, byte: u8)
    requires
        state.valid(),
    ensures
        transition(state, byte).0.valid(),
{
    reveal(transition);
    match state.mode {
        Mode::Normal => lemma_commanded(state, byte),
        Mode::NormalCommandBuffer => {
            reveal(EditorState::spelled);
        },
        Mode::NormalComposing(_) => {},
        Mode::Insert => lemma_typed(state, byte),
    }
}

/// After every byte the cursor is in range: on line 1 or below and on column
/// 1 or beyond; not on the last line, where the text has a line break; and on
/// a byte of its line, where that line has one. This holds whatever the byte
/// did to the text, also where it took away the line that the cursor was on.
pub proof fn lemma_cursor_stays_in_range(state: EditorState, byte: u8)
    requires
        state.valid(),
    ensures
        1 <= transition(state, byte).0.line,
        1 <= transition(state, byte).0.column,
        line_count(transition(state, byte).0.text) >= 2 ==> transition(state, byte).0.line
            <= line_count(transition(state, byte).0.text) - 1,
        line_length(transition(state, byte).0.text, transition(state, byte).0.line) >= 1
            ==> transition(state, byte).0.column <= line_length(
            transition(state, byte).0.text,
            transition(state, byte).0.line,
        ),
{
    lemma_transition_valid(state, byte);
    lemma_synced_in_range(transition(state, byte).0);
}

/// A byte makes the text no longer than `growth` says.
pub proof fn lemma_transition_growth(state: EditorState, byte: u8)
    ensures
        transition(state, byte).0.text.len() <= state.text.len() + growth(state.mode, byte),
{
    reveal(transition);
    match state.mode {
        Mode::Normal => lemma_commanded(state, byte),
        Mode::NormalCommandBuffer => {
            reveal(EditorState::spelled);
        },
        Mode::NormalComposing(_) => {},
        Mode::Insert => lemma_typed(state, byte),
    }
}

/// The greatest number that the machine counts to, or `n` if that is less.
pub open spec fn saturated(n: nat) -> nat {
    if n > usize::MAX {
        usize::MAX as nat
    } else {
        n
    }
}

/// The session with the bytes of `input` given to it one after the other, up
/// to and with the first byte that asks for something to be done outside:
/// the state it is left in, what is asked for, and how many bytes were read.
pub open spec fn transitions(state: EditorState, input: Seq<u8>) -> (EditorState, Action, nat)
    decreases input.len(),
{
    if input.len() == 0 {
        (state, Action::Continue, 0)
    } else {
        let (next, action) = transition(state, input[0]);
        if action != Action::Continue {
            (next, action, 1)
        } else {
            let rest = transitions(next, input.skip(1));
            (rest.0, rest.1, rest.2 + 1)
        }
    }
}

/// What `outcome` is for a session that had read `read` bytes before.
pub open spec fn resumed(outcome: (EditorState, Action, nat), read: nat) -> (
    EditorState,
    Action,
    nat,
) {
    (outcome.0, outcome.1, outcome.2 + read)
}

/// A session that is given bytes takes the first and, unless that byte asks
/// for something to be done outside, goes on with the rest.
pub proof fn lemma_transitions_unfold(state: EditorState, input: Seq<u8>)
    requires
        input.len() > 0,
    ensures
        transitions(state, input) == if transition(state, input[0]).1 != Action::Continue {
            (transition(state, input[0]).0, transition(state, input[0]).1, 1nat)
        } else {
            resumed(transitions(transition(state, input[0]).0, input.skip(1)), 1)
        },
{
}

/// A cursor sent beyond what the machine counts to ends where it ends when
/// sent as far as the machine counts.
proof fn lemma_place_saturated(state: EditorState, line: nat, column: nat)
    requires
        state.text.len() < usize::MAX,
    ensures
        state.place(saturated(line), saturated(column)) == state.place(line, column),
{
    reveal(EditorState::place);
    lemma_newline_count_bound(state.text);
    let row = sync_line(state.text, line);
    assert(row == sync_line(state.text, saturated(line)));
    lemma_offset_of_in_text(state.text, row, 1);
}

/// Taking out more bytes than the machine counts takes out as many as taking
/// out as many as it counts: the rest of the line.
proof fn lemma_removed_saturated(state: EditorState, count: nat)
    requires
        state.text.len() < usize::MAX,
    ensures
        state.removed(saturated(count)) == state.removed(count),
{
    reveal(EditorState::removed);
    lemma_offset_of_in_text(state.text, state.line, state.column);
}

/// The number that digits spell grows tenfold with every digit.
proof fn lemma_decimal_push(digits: Seq<u8>, digit: u8)
    ensures
        decimal(digits.push(digit)) == decimal(digits) * 10 + (digit - ZERO) as nat,
{
    assert(digits.push(digit).drop_last() =~= digits);
}

impl Mode {
    /// The name under which the mode is shown: `INSERT` in insert mode and
    /// `NORMAL` in every other.
    pub fn label(&self) -> (name: &'static str)
        ensures
            name@ == if *self is Insert {
                "INSERT"@
            } else {
                "NORMAL"@
            },
    {
        match self {
            Mode::Insert => "INSERT",
            _ => "NORMAL",
        }
    }
}

/// An edit session on a document.
pub struct Editor<'a> {
    mode: Mode,
    command_buffer: Vec<u8>,
    internal: PieceTable<'a>,
    cursor: Cursor,
    num_buf: Vec<u8>,
}

impl<'a> View for Editor<'a> {
    type V = EditorState;

    /// The state of the machine that the session is in.
    closed spec fn view(&self) -> EditorState {
        EditorState {
            text: self.internal@,
            mode: self.mode,
            command: self.command_buffer@,
            prefix: self.num_buf@,
            line: self.cursor.line as nat,
            column: self.cursor.column as nat,
        }
    }
}

impl<'a> Editor<'a> {
    /// The document is well formed and the prefix holds digits only; the
    /// cursor may be out of place.
    spec fn inv(&self) -> bool {
        &&& self.internal.wf()
        &&& digits_only(self.num_buf@)
    }

    /// The session is well formed: its document is, and its state is valid.
    pub closed spec fn wf(&self) -> bool {
        &&& self.internal.wf()
        &&& self@.valid()
    }

    /// A well-formed session is in a valid state, with a text short enough
    /// to count its lines.
    pub proof fn lemma_wf_valid(&self)
        requires
            self.wf(),
        ensures
            self@.valid(),
            self@.text.len() < usize::MAX,
    {
        self.internal.lemma_pieces_make_text();
    }

    /// A session on the document `content`, in normal mode, with the cursor
    /// on the first column of the first line.
    pub fn new(content: &'a [u8]) -> (editor: Self)
        requires
            content@.len() < usize::MAX,
        ensures
            editor.wf(),
            editor@ == EditorState::initial(content@),
    {
        proof {
            reveal(cursor_synced);
        }
        Self {
            mode: Mode::Normal,
            command_buffer: Vec::with_capacity(100),
            internal: PieceTable::new(content),
            cursor: Cursor { line: 1, column: 1 },
            num_buf: Vec::with_capacity(5),
        }
    }

    /// How the next byte is read.
    pub fn mode(&self) -> (mode: Mode)
        ensures
            mode == self@.mode,
    {
        self.mode
    }

    /// Where the cursor is.
    pub fn cursor(&self) -> (cursor: Cursor)
        ensures
            cursor.line == self@.line,
            cursor.column == self@.column,
    {
        self.cursor
    }

    /// The document of the session.
    pub fn document(&self) -> (document: &PieceTable<'a>)
        ensures
            document@ == self@.text,
            self.wf() ==> document.wf(),
    {
        &self.internal
    }

    /// The command spelled so far.
    pub fn command_buffer(&self) -> (command: &Vec<u8>)
        ensures
            command@ == self@.command,
    {
        &self.command_buffer
    }

    /// The digits typed before the next command.
    pub fn num_buf(&self) -> (prefix: &Vec<u8>)
        ensures
            prefix@ == self@.prefix,
    {
        &self.num_buf
    }

    /// Puts the session into mode `mode`; nothing else changes.
    pub fn set_mode(&mut self, mode: Mode)
        requires
            old(self).wf(),
        ensures
            final(self).wf(),
            final(self)@ == (EditorState { mode, ..old(self)@ }),
    {
        self.mode = mode;
    }

    /// Sends the cursor to `line` and `column` and syncs it there: the line is
    /// clamped to the cursor rows of the text, then the column to the columns
    /// of that line.
    fn sync_cursor(&mut self, line: usize, column: usize)
        requires
            old(self).inv(),
        ensures
            final(self).wf(),
            final(self)@ == old(self)@.place(line as nat, column as nat),
    {
        let lines = self.internal.line_count();
        let row = if line < 1 || lines < 2 {
            1
        } else if line > lines - 1 {
            lines - 1
        } else {
            line
        };
        let length = self.internal.line_length(row);
        let at = if column < 1 || length < 1 {
            1
        } else if column > length {
            length
        } else {
            column
        };
        self.cursor = Cursor { line: row, column: at };
        proof {
            reveal(EditorState::place);
            lemma_place_synced(old(self)@, line as nat, column as nat);
        }
    }

    /// Sends the cursor to `line` and `column`, or as near to them as the
    /// text allows.
    pub fn move_to(&mut self, line: usize, column: usize)
        requires
            old(self).wf(),
        ensures
            final(self).wf(),
            final(self)@ == old(self)@.place(line as nat, column as nat),
    {
        self.sync_cursor(line, column);
    }

    /// Moves the cursor `amt` columns to the left, or to the first column.
    pub fn cursor_left(&mut self, amt: usize)
        requires
            old(self).wf(),
        ensures
            final(self).wf(),
            final(self)@ == old(self)@.place(
                old(self)@.line,
                minus(old(self)@.column, amt as nat),
            ),
    {
        let column = if amt >= self.cursor.column {
            0
        } else {
            self.cursor.column - amt
        };
        self.sync_cursor(self.cursor.line, column);
    }

    /// Moves the cursor `amt` columns to the right, or to the last column of
    /// its line.
    pub fn cursor_right(&mut self, amt: usize)
        requires
            old(self).wf(),
        ensures
            final(self).wf(),
            final(self)@ == old(self)@.place(old(self)@.line, old(self)@.column + amt as nat),
    {
        let column = if amt > usize::MAX - self.cursor.column {
            usize::MAX
        } else {
            self.cursor.column + amt
        };
        proof {
            self.internal.lemma_pieces_make_text();
            lemma_place_saturated(self@, self@.line, self@.column + amt as nat);
        }
        self.sync_cursor(self.cursor.line, column);
    }

    /// Moves the cursor `amt` lines up, or to the first line.
    pub fn cursor_up(&mut self, amt: usize)
        requires
            old(self).wf(),
        ensures
            final(self).wf(),
            final(self)@ == old(self)@.place(
                minus(old(self)@.line, amt as nat),
                old(self)@.column,
            ),
    {
        let line = if amt >= self.cursor.line {
            0
        } else {
            self.cursor.line - amt
        };
        self.sync_cursor(line, self.cursor.column);
    }

    /// Moves the cursor `amt` lines down, or to the last cursor row.
    pub fn cursor_down(&mut self, amt: usize)
        requires
            old(self).wf(),
        ensures
            final(self).wf(),
            final(self)@ == old(self)@.place(old(self)@.line + amt as nat, old(self)@.column),
    {
        let line = if amt > usize::MAX - self.cursor.line {
            usize::MAX
        } else {
            self.cursor.line + amt
        };
        proof {
            self.internal.lemma_pieces_make_text();
            lemma_place_saturated(self@, self@.line + amt as nat, self@.column);
        }
        self.sync_cursor(line, self.cursor.column);
    }

    /// The number of lines of the document.
    pub fn n_lines(&self) -> (n: usize)
        requires
            self.wf(),
        ensures
            n == line_count(self@.text),
    {
        self.internal.line_count()
    }

    /// The length of the line that the cursor is on.
    pub fn length_at_cursor(&self) -> (n: usize)
        requires
            self.wf(),
        ensures
            n == line_length(self@.text, self@.line),
    {
        self.internal.line_length(self.cursor.line)
    }

    /// The offset in the document that the cursor addresses.
    pub fn idx_at_cursor(&self) -> (offset: usize)
        requires
            self.wf(),
        ensures
            offset == self@.offset(),
            offset <= self@.text.len(),
    {
        self.internal.offset_of(self.cursor.line, self.cursor.column)
    }

    /// How often the next command is made, as far as the machine counts.
    pub fn pending_count(&self) -> (count: usize)
        requires
            self.wf(),
        ensures
            count == saturated(pending_count(self@.prefix)),
    {
        if self.num_buf.len() == 0 {
            return 1;
        }
        let mut count: usize = 0;
        let mut i: usize = 0;
        proof {
            assert(self.num_buf@.take(0) =~= Seq::<u8>::empty());
        }
        while i < self.num_buf.len()
            invariant
                i <= self.num_buf@.len(),
                count == saturated(decimal(self.num_buf@.take(i as int))),
                digits_only(self.num_buf@),
            decreases self.num_buf@.len() - i,
        {
            proof {
                assert(is_digit(self.num_buf@[i as int]));
                assert(self.num_buf@.take(i + 1) =~= self.num_buf@.take(i as int).push(
                    self.num_buf@[i as int],
                ));
                lemma_decimal_push(self.num_buf@.take(i as int), self.num_buf@[i as int]);
            }
            let digit = self.num_buf[i] - ZERO;
            count = if count > (usize::MAX - digit as usize) / 10 {
                usize::MAX
            } else {
                count * 10 + digit as usize
            };
            i = i + 1;
        }
        proof {
            assert(self.num_buf@.take(i as int) =~= self.num_buf@);
        }
        count
    }

    /// Takes `amt` bytes out of the document at the cursor, but none beyond
    /// the end of the cursor's line.
    pub fn remove(&mut self, amt: usize)
        requires
            old(self).wf(),
        ensures
            final(self).wf(),
            final(self)@ == old(self)@.removed(amt as nat),
    {
        let (start, length) = self.internal.line_span(self.cursor.line);
        let offset = self.internal.offset_of(self.cursor.line, self.cursor.column);
        proof {
            reveal(EditorState::removed);
            self.internal.lemma_pieces_make_text();
            lemma_offset_of_in_text(self@.text, self@.line, self@.column);
        }
        let rest = start + length - offset;
        let taken = if amt < rest {
            amt
        } else {
            rest
        };
        self.internal.delete(offset, taken);
        self.sync_cursor(self.cursor.line, self.cursor.column);
    }

    /// Types `byte` at the cursor, as in insert mode: an escape goes to
    /// normal mode, a return or a newline breaks the line, a backspace or a
    /// delete rubs out the byte before the cursor, a tab puts in four spaces,
    /// and any other byte goes into the text as it is.
    pub fn insert_at_cursor(&mut self, byte: u8)
        requires
            old(self).wf(),
            old(self)@.text.len() + growth(Mode::Insert, byte) < usize::MAX,
        ensures
            final(self).wf(),
            final(self)@ == old(self)@.typed(byte),
    {
        let offset = self.internal.offset_of(self.cursor.line, self.cursor.column);
        let line = self.cursor.line;
        let column = self.cursor.column;
        proof {
            reveal(EditorState::typed);
            self.internal.lemma_pieces_make_text();
            lemma_newline_count_bound(self@.text);
            lemma_synced_in_range(self@);
            lemma_offset_of_in_text(self@.text, line as nat, column as nat);
        }
        if byte == ESCAPE {
            self.mode = Mode::Normal;
        } else if byte == RETURN || byte == NEWLINE {
            self.internal.insert(offset, NEWLINE);
            self.sync_cursor(line + 1, 1);
        } else if byte == BACKSPACE || byte == DELETE {
            if offset > 0 {
                self.internal.delete(offset - 1, 1);
            }
            self.sync_cursor(line, column - 1);
        } else if byte == TAB {
            self.internal.insert(offset, SPACE);
            self.internal.insert(offset, SPACE);
            self.internal.insert(offset, SPACE);
            self.internal.insert(offset, SPACE);
            self.sync_cursor(line, column + 4);
        } else {
            self.internal.insert(offset, byte);
            self.sync_cursor(line, column + 1);
        }
    }

    /// Drops the command spelled so far and goes back to normal mode.
    pub fn clear_command_buffer(&mut self)
        requires
            old(self).wf(),
        ensures
            final(self).wf(),
            final(self)@ == (EditorState {
                mode: Mode::Normal,
                command: Seq::empty(),
                ..old(self)@
            }),
    {
        self.mode = Mode::Normal;
        self.command_buffer.clear();
    }

    /// Gives up the command spelled so far and goes back to normal mode.
    pub fn cancel_command_buffer(&mut self)
        requires
            old(self).wf(),
        ensures
            final(self).wf(),
            final(self)@ == (EditorState {
                mode: Mode::Normal,
                command: Seq::empty(),
                ..old(self)@
            }),
    {
        self.clear_command_buffer();
    }

    /// Runs the command spelled so far and goes back to normal mode: `q`
    /// asks to end the session, `w` asks to save the text, and anything else
    /// is dropped.
    pub fn execute_command_buffer(&mut self) -> (action: Action)
        requires
            old(self).wf(),
        ensures
            final(self).wf(),
            action == command_action(old(self)@.command),
            final(self)@ == (EditorState {
                mode: Mode::Normal,
                command: Seq::empty(),
                ..old(self)@
            }),
    {
        let action = if self.command_buffer.len() != 1 {
            Action::Continue
        } else if self.command_buffer[0] == COMMAND_QUIT {
            Action::Quit
        } else if self.command_buffer[0] == COMMAND_WRITE {
            Action::Save
        } else {
            Action::Continue
        };
        proof {
            let command = self.command_buffer@;
            assert(seq![COMMAND_QUIT].len() == 1 && seq![COMMAND_QUIT][0] == COMMAND_QUIT);
            assert(seq![COMMAND_WRITE].len() == 1 && seq![COMMAND_WRITE][0] == COMMAND_WRITE);
            if command.len() == 1 && command[0] == COMMAND_QUIT {
                assert(command =~= seq![COMMAND_QUIT]);
            }
            if command.len() == 1 && command[0] == COMMAND_WRITE {
                assert(command =~= seq![COMMAND_WRITE]);
            }
        }
        self.clear_command_buffer();
        action
    }

    /// A byte in normal mode: a digit goes to the prefix, and any other byte
    /// is the command that the prefix counts.
    fn command_key(&mut self, byte: u8)
        requires
            old(self).wf(),
        ensures
            final(self).wf(),
            final(self)@ == old(self)@.commanded(byte),
    {
        proof {
            reveal(EditorState::commanded);
        }
        if ZERO <= byte && byte <= NINE {
            self.num_buf.push(byte);
            return ;
        }
        let amt = self.pending_count();
        self.num_buf.clear();
        proof {
            self.internal.lemma_pieces_make_text();
            let count = pending_count(old(self)@.prefix);
            lemma_place_saturated(self@, self@.line, self@.column + count);
            lemma_place_saturated(self@, self@.line + count, self@.column);
            lemma_place_saturated(self@, self@.line, self@.column + amt as nat);
            lemma_place_saturated(self@, self@.line + amt as nat, self@.column);
            lemma_removed_saturated(self@, count);
            assert(self@ == (EditorState { prefix: Seq::empty(), ..old(self)@ }));
        }
        if byte == KEY_COMMAND {
            self.mode = Mode::NormalCommandBuffer;
            self.command_buffer.clear();
        } else if byte == KEY_INSERT {
            self.mode = Mode::Insert;
        } else if byte == KEY_LEFT {
            self.cursor_left(amt);
        } else if byte == KEY_RIGHT {
            self.cursor_right(amt);
        } else if byte == KEY_DOWN {
            self.cursor_down(amt);
        } else if byte == KEY_UP {
            self.cursor_up(amt);
        } else if byte == KEY_REMOVE {
            self.remove(amt);
        }
    }

    /// A byte while a command is spelled.
    fn spell_key(&mut self, byte: u8) -> (action: Action)
        requires
            old(self).wf(),
        ensures
            final(self).wf(),
            (final(self)@, action) == old(self)@.spelled(byte),
    {
        proof {
            reveal(EditorState::spelled);
        }
        if byte == RETURN {
            self.execute_command_buffer()
        } else if byte == ESCAPE {
            self.cancel_command_buffer();
            Action::Continue
        } else if byte == BACKSPACE || byte == DELETE {
            self.command_buffer.pop();
            Action::Continue
        } else if SPACE <= byte && byte <= TILDE {
            self.command_buffer.push(byte);
            Action::Continue
        } else {
            Action::Continue
        }
    }

    /// Gives the session one byte of input. The session goes to the state
    /// that the state machine names, and says what is to be done outside.
    pub fn step(&mut self, byte: u8) -> (action: Action)
        requires
            old(self).wf(),
            old(self)@.text.len() + growth(old(self)@.mode, byte) < usize::MAX,
        ensures
            final(self).wf(),
            (final(self)@, action) == transition(old(self)@, byte),
    {
        proof {
            reveal(transition);
        }
        match self.mode {
            Mode::Normal => {
                self.command_key(byte);
                Action::Continue
            },
            Mode::NormalCommandBuffer => self.spell_key(byte),
            Mode::NormalComposing(_) => Action::Continue,
            Mode::Insert => {
                self.insert_at_cursor(byte);
                Action::Continue
            },
        }
    }

    /// Gives the session the bytes of `input` one after the other, up to and
    /// with the first byte that asks for something to be done outside. It
    /// says what is asked for, and how many bytes it has read.
    pub fn run(&mut self, input: &[u8]) -> (outcome: (Action, usize))
        requires
            old(self).wf(),
            old(self)@.text.len() + 4 * input@.len() < usize::MAX,
        ensures
            final(self).wf(),
            (final(self)@, outcome.0, outcome.1 as nat) == transitions(old(self)@, input@),
    {
        let mut i: usize = 0;
        proof {
            assert(input@.skip(0) =~= input@);
        }
        while i < input.len()
            invariant
                self.wf(),
                i <= input@.len(),
                self@.text.len() + 4 * (input@.len() - i) < usize::MAX,
                transitions(old(self)@, input@) == resumed(
                    transitions(self@, input@.skip(i as int)),
                    i as nat,
                ),
            decreases input@.len() - i,
        {
            let ghost before = self@;
            proof {
                lemma_transitions_unfold(before, input@.skip(i as int));
                assert(input@.skip(i as int).skip(1) =~= input@.skip(i + 1));
                lemma_transition_growth(before, input@[i as int]);
            }
            let action = self.step(input[i]);
            i = i + 1;
            match action {
                Action::Continue => {},
                _ => {
                    return (action, i);
                },
            }
        }
        (Action::Continue, i)
    }
}

} // verus!
