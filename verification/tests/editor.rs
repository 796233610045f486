use editor_core::editor::{
    Action, ComposableCommand, Cursor, Editor, Mode, Motion, BACKSPACE, DELETE, ESCAPE, RETURN,
    TAB,
};

fn document_text(editor: &Editor) -> String {
    String::from_utf8(editor.document().materialize()).unwrap()
}

fn at(line: usize, column: usize) -> Cursor {
    Cursor { line, column }
}

fn feed(editor: &mut Editor, keys: &[u8]) {
    for key in keys {
        assert_eq!(editor.step(*key), Action::Continue);
    }
}

#[test]
fn a_new_session_is_in_normal_mode_at_the_start() {
    let editor = Editor::new(b"ab\ncd");
    assert_eq!(editor.mode(), Mode::Normal);
    assert_eq!(editor.cursor(), at(1, 1));
    assert_eq!(document_text(&editor), "ab\ncd");
    assert!(editor.command_buffer().is_empty());
    assert!(editor.num_buf().is_empty());
}

#[test]
fn l_moves_right_and_x_deletes_under_the_cursor() {
    let mut editor = Editor::new(b"ab\ncd");
    assert_eq!(editor.cursor(), at(1, 1));
    assert_eq!(editor.step(b'l'), Action::Continue);
    assert_eq!(editor.cursor(), at(1, 2));
    assert_eq!(editor.step(b'x'), Action::Continue);
    assert_eq!(document_text(&editor), "a\ncd");
    assert_eq!(editor.cursor(), at(1, 1));
}

#[test]
fn typed_byte_goes_before_the_cursor_column() {
    let mut editor = Editor::new(b"ab");
    assert_eq!(editor.cursor(), at(1, 1));
    assert_eq!(editor.step(b'i'), Action::Continue);
    assert_eq!(editor.mode(), Mode::Insert);
    assert_eq!(editor.step(b'Z'), Action::Continue);
    assert_eq!(editor.step(ESCAPE), Action::Continue);
    assert_eq!(document_text(&editor), "Zab");
    assert_eq!(editor.mode(), Mode::Normal);
    assert_eq!(editor.cursor(), at(1, 2));
}

#[test]
fn w_asks_for_one_save_of_the_whole_text() {
    let mut editor = Editor::new(b"ab\ncd");
    feed(&mut editor, b"ix");
    assert_eq!(editor.step(ESCAPE), Action::Continue);
    let mut saves: Vec<Vec<u8>> = Vec::new();
    for key in [b':', b'w', RETURN] {
        if editor.step(key) == Action::Save {
            saves.push(editor.document().materialize());
        }
    }
    assert_eq!(saves, vec![b"xab\ncd".to_vec()]);
    assert_eq!(editor.mode(), Mode::Normal);
    assert!(editor.command_buffer().is_empty());
}

#[test]
fn a_count_moves_the_cursor_in_one_motion() {
    let mut editor = Editor::new(b"abcdef\n");
    assert_eq!(editor.step(b'3'), Action::Continue);
    assert_eq!(editor.num_buf(), &b"3".to_vec());
    assert_eq!(editor.cursor(), at(1, 1));
    assert_eq!(editor.step(b'l'), Action::Continue);
    assert_eq!(editor.cursor(), at(1, 4));
    assert!(editor.num_buf().is_empty());
}

#[test]
fn digits_pile_up_until_a_command_comes() {
    let mut editor = Editor::new(b"abcdefghijklmnopqrstuvwxyz\n");
    feed(&mut editor, b"12");
    assert_eq!(editor.num_buf(), &b"12".to_vec());
    assert_eq!(editor.pending_count(), 12);
    feed(&mut editor, b"l");
    assert_eq!(editor.cursor(), at(1, 13));
    assert_eq!(editor.pending_count(), 1);
    feed(&mut editor, b"07h");
    assert_eq!(editor.cursor(), at(1, 6));
}

#[test]
fn a_count_of_nothing_moves_nothing() {
    let mut editor = Editor::new(b"abcdef\n");
    feed(&mut editor, b"2l0l");
    assert_eq!(editor.cursor(), at(1, 3));
    feed(&mut editor, b"0x");
    assert_eq!(document_text(&editor), "abcdef\n");
}

#[test]
fn a_count_beyond_the_machine_is_as_far_as_it_goes() {
    let mut editor = Editor::new(b"abcdef\nxy\n");
    feed(&mut editor, b"99999999999999999999999999999999999999");
    assert_eq!(editor.pending_count(), usize::MAX);
    feed(&mut editor, b"l");
    assert_eq!(editor.cursor(), at(1, 6));
    feed(&mut editor, b"99999999999999999999999999999999999999j");
    assert_eq!(editor.cursor(), at(2, 2));
    feed(&mut editor, b"99999999999999999999999999999999999999h");
    assert_eq!(editor.cursor(), at(2, 1));
    feed(&mut editor, b"99999999999999999999999999999999999999k");
    assert_eq!(editor.cursor(), at(1, 1));
}

#[test]
fn a_key_that_is_no_command_clears_the_count() {
    let mut editor = Editor::new(b"abcdef\n");
    feed(&mut editor, b"4?");
    assert!(editor.num_buf().is_empty());
    assert_eq!(editor.cursor(), at(1, 1));
    assert_eq!(document_text(&editor), "abcdef\n");
    feed(&mut editor, b"l");
    assert_eq!(editor.cursor(), at(1, 2));
}

#[test]
fn the_cursor_stays_on_the_text() {
    let mut editor = Editor::new(b"abc\nde\n\nfghi\n");
    feed(&mut editor, b"9l");
    assert_eq!(editor.cursor(), at(1, 3));
    feed(&mut editor, b"j");
    assert_eq!(editor.cursor(), at(2, 2));
    feed(&mut editor, b"j");
    assert_eq!(editor.cursor(), at(3, 1));
    feed(&mut editor, b"j");
    assert_eq!(editor.cursor(), at(4, 1));
    feed(&mut editor, b"j");
    assert_eq!(editor.cursor(), at(4, 1));
    feed(&mut editor, b"3l5k");
    assert_eq!(editor.cursor(), at(1, 3));
    feed(&mut editor, b"7h");
    assert_eq!(editor.cursor(), at(1, 1));
}

#[test]
fn the_cursor_is_in_range_after_every_key() {
    let keys = b"3ljjxxhk9l2xjjjj5x:q\x1bi\rab\x7f\x08\t\x1b4k7lxxxxxxxxxj9xk9x";
    let mut editor = Editor::new(b"abc\nde\n\nfghi\n");
    for key in keys.iter() {
        editor.step(*key);
        let cursor = editor.cursor();
        let lines = editor.n_lines();
        assert!(cursor.line >= 1);
        assert!(cursor.column >= 1);
        if lines >= 2 {
            assert!(cursor.line <= lines - 1);
        } else {
            assert_eq!(cursor.line, 1);
        }
        let length = editor.length_at_cursor();
        if length >= 1 {
            assert!(cursor.column <= length);
        } else {
            assert_eq!(cursor.column, 1);
        }
    }
}

#[test]
fn the_cursor_follows_when_its_line_goes() {
    let mut editor = Editor::new(b"ab\ncdef\n");
    feed(&mut editor, b"j3l");
    assert_eq!(editor.cursor(), at(2, 4));
    feed(&mut editor, b"i");
    editor.move_to(2, 1);
    feed(&mut editor, &[DELETE]);
    assert_eq!(document_text(&editor), "abcdef\n");
    assert_eq!(editor.cursor(), at(1, 1));
}

#[test]
fn a_text_without_a_line_break_has_one_cursor_row() {
    let mut editor = Editor::new(b"ab");
    feed(&mut editor, b"5j");
    assert_eq!(editor.cursor(), at(1, 1));
    feed(&mut editor, b"l");
    assert_eq!(editor.cursor(), at(1, 2));
    let mut empty = Editor::new(b"");
    feed(&mut empty, b"jl");
    assert_eq!(empty.cursor(), at(1, 1));
}

#[test]
fn x_stops_at_the_end_of_the_line() {
    let mut editor = Editor::new(b"abcd\nef\n");
    feed(&mut editor, b"2l9x");
    assert_eq!(document_text(&editor), "ab\nef\n");
    assert_eq!(editor.cursor(), at(1, 2));
    feed(&mut editor, b"xx");
    assert_eq!(document_text(&editor), "\nef\n");
    assert_eq!(editor.cursor(), at(1, 1));
    feed(&mut editor, b"x");
    assert_eq!(document_text(&editor), "\nef\n");
}

#[test]
fn x_takes_as_many_bytes_as_the_count_says() {
    let mut editor = Editor::new(b"abcdef\n");
    feed(&mut editor, b"l3x");
    assert_eq!(document_text(&editor), "aef\n");
    assert_eq!(editor.cursor(), at(1, 2));
    assert_eq!(editor.idx_at_cursor(), 1);
}

#[test]
fn return_breaks_the_line() {
    let mut editor = Editor::new(b"abcd\n");
    feed(&mut editor, b"2li\r");
    assert_eq!(document_text(&editor), "ab\ncd\n");
    assert_eq!(editor.cursor(), at(2, 1));
    assert_eq!(editor.mode(), Mode::Insert);
    feed(&mut editor, b"\n");
    assert_eq!(document_text(&editor), "ab\n\ncd\n");
    assert_eq!(editor.cursor(), at(3, 1));
}

#[test]
fn backspace_rubs_out_the_byte_before_the_cursor() {
    let mut editor = Editor::new(b"abcd\n");
    feed(&mut editor, b"2li");
    assert_eq!(editor.cursor(), at(1, 3));
    feed(&mut editor, &[BACKSPACE]);
    assert_eq!(document_text(&editor), "acd\n");
    assert_eq!(editor.cursor(), at(1, 2));
    feed(&mut editor, &[DELETE]);
    assert_eq!(document_text(&editor), "cd\n");
    assert_eq!(editor.cursor(), at(1, 1));
    feed(&mut editor, &[DELETE]);
    assert_eq!(document_text(&editor), "cd\n");
    assert_eq!(editor.cursor(), at(1, 1));
}

#[test]
fn tab_puts_in_four_spaces() {
    let mut editor = Editor::new(b"abcd\n");
    feed(&mut editor, b"li");
    feed(&mut editor, &[TAB]);
    assert_eq!(document_text(&editor), "a    bcd\n");
    assert_eq!(editor.cursor(), at(1, 6));
    feed(&mut editor, &[TAB]);
    assert_eq!(document_text(&editor), "a        bcd\n");
    assert_eq!(editor.cursor(), at(1, 10));
}

#[test]
fn a_vertical_tab_is_typed_as_it_is() {
    let mut editor = Editor::new(b"ab\n");
    feed(&mut editor, b"i");
    feed(&mut editor, &[0x0b]);
    assert_eq!(editor.document().materialize(), b"\x0bab\n".to_vec());
    assert_eq!(editor.document().length(), 4);
    assert_eq!(editor.cursor(), at(1, 2));
    assert_eq!(editor.mode(), Mode::Insert);
}

#[test]
fn any_other_byte_is_typed_as_it_is() {
    let mut editor = Editor::new(b"ab\n");
    feed(&mut editor, b"i:q3h");
    assert_eq!(document_text(&editor), ":q3hab\n");
    assert_eq!(editor.cursor(), at(1, 5));
    feed(&mut editor, &[0x01, 0xff]);
    assert_eq!(editor.document().materialize(), b":q3h\x01\xffab\n".to_vec());
    assert_eq!(editor.mode(), Mode::Insert);
}

#[test]
fn typing_on_an_empty_line_keeps_the_cursor_on_it() {
    let mut editor = Editor::new(b"");
    feed(&mut editor, b"ia");
    assert_eq!(document_text(&editor), "a");
    assert_eq!(editor.cursor(), at(1, 1));
}

#[test]
fn q_asks_to_quit() {
    let mut editor = Editor::new(b"ab");
    feed(&mut editor, b":q");
    assert_eq!(editor.mode(), Mode::NormalCommandBuffer);
    assert_eq!(editor.command_buffer(), &b"q".to_vec());
    assert_eq!(editor.step(RETURN), Action::Quit);
    assert_eq!(editor.mode(), Mode::Normal);
}

#[test]
fn an_unknown_command_is_dropped() {
    let mut editor = Editor::new(b"ab");
    for command in [&b"wq"[..], b"Q", b"W", b" w", b"", b"x"] {
        feed(&mut editor, b":");
        feed(&mut editor, command);
        assert_eq!(editor.step(RETURN), Action::Continue);
        assert_eq!(editor.mode(), Mode::Normal);
        assert!(editor.command_buffer().is_empty());
        assert_eq!(document_text(&editor), "ab");
    }
}

#[test]
fn escape_gives_a_command_up() {
    let mut editor = Editor::new(b"ab");
    feed(&mut editor, b":w");
    assert_eq!(editor.step(ESCAPE), Action::Continue);
    assert_eq!(editor.mode(), Mode::Normal);
    assert!(editor.command_buffer().is_empty());
    assert_eq!(editor.step(RETURN), Action::Continue);
}

#[test]
fn backspace_takes_the_last_byte_of_a_command() {
    let mut editor = Editor::new(b"ab");
    feed(&mut editor, b":wq");
    feed(&mut editor, &[DELETE]);
    assert_eq!(editor.command_buffer(), &b"w".to_vec());
    feed(&mut editor, &[BACKSPACE, BACKSPACE]);
    assert!(editor.command_buffer().is_empty());
    assert_eq!(editor.mode(), Mode::NormalCommandBuffer);
    feed(&mut editor, b"w");
    assert_eq!(editor.step(RETURN), Action::Save);
}

#[test]
fn a_command_takes_printable_bytes_only() {
    let mut editor = Editor::new(b"ab");
    feed(&mut editor, b":");
    feed(&mut editor, &[0x01, b'w', 0x0a, 0x09, 0xc3, 0x1f, 0x80]);
    assert_eq!(editor.command_buffer(), &b"w".to_vec());
    feed(&mut editor, b" ~");
    assert_eq!(editor.command_buffer(), &b"w ~".to_vec());
}

#[test]
fn a_colon_starts_a_new_command() {
    let mut editor = Editor::new(b"ab");
    feed(&mut editor, b":ab");
    editor.set_mode(Mode::Normal);
    assert_eq!(editor.command_buffer(), &b"ab".to_vec());
    feed(&mut editor, b":");
    assert!(editor.command_buffer().is_empty());
    assert_eq!(editor.mode(), Mode::NormalCommandBuffer);
}

#[test]
fn a_waiting_operator_takes_no_byte() {
    for operator in [ComposableCommand::Delete, ComposableCommand::Yank, ComposableCommand::Change]
    {
        let mut editor = Editor::new(b"abc\ndef\n");
        feed(&mut editor, b"jl2");
        editor.set_mode(Mode::NormalComposing(operator));
        for key in 0..=255u8 {
            assert_eq!(editor.step(key), Action::Continue);
            assert_eq!(editor.mode(), Mode::NormalComposing(operator));
            assert_eq!(editor.cursor(), at(2, 2));
            assert_eq!(document_text(&editor), "abc\ndef\n");
            assert_eq!(editor.num_buf(), &b"2".to_vec());
        }
    }
}

#[test]
fn run_reads_up_to_the_first_action() {
    let mut editor = Editor::new(b"ab\n");
    assert_eq!(editor.run(b"iX\x1b:w\rllx:q\r"), (Action::Save, 6));
    assert_eq!(document_text(&editor), "Xab\n");
    assert_eq!(editor.run(b"llx:q\rix"), (Action::Quit, 6));
    assert_eq!(document_text(&editor), "Xa\n");
    assert_eq!(editor.cursor(), at(1, 2));
    assert_eq!(editor.run(b"ix"), (Action::Continue, 2));
    assert_eq!(document_text(&editor), "Xxa\n");
    assert_eq!(editor.run(b""), (Action::Continue, 0));
}

#[test]
fn run_does_what_the_steps_do() {
    let keys = b"3l2xji\tq\r\x7f\x1bk:nothing\r9999l";
    let mut stepped = Editor::new(b"abcdef\nghi\n");
    for key in keys.iter() {
        stepped.step(*key);
    }
    let mut ran = Editor::new(b"abcdef\nghi\n");
    assert_eq!(ran.run(keys), (Action::Continue, keys.len()));
    assert_eq!(document_text(&ran), document_text(&stepped));
    assert_eq!(ran.cursor(), stepped.cursor());
    assert_eq!(ran.mode(), stepped.mode());
}

#[test]
fn cursor_moves_are_clamped() {
    let mut editor = Editor::new(b"abc\nde\n");
    editor.cursor_right(1);
    assert_eq!(editor.cursor(), at(1, 2));
    editor.cursor_right(usize::MAX);
    assert_eq!(editor.cursor(), at(1, 3));
    editor.cursor_down(1);
    assert_eq!(editor.cursor(), at(2, 2));
    editor.cursor_down(usize::MAX);
    assert_eq!(editor.cursor(), at(2, 2));
    editor.cursor_left(1);
    assert_eq!(editor.cursor(), at(2, 1));
    editor.cursor_left(usize::MAX);
    assert_eq!(editor.cursor(), at(2, 1));
    editor.cursor_up(usize::MAX);
    assert_eq!(editor.cursor(), at(1, 1));
    editor.move_to(0, 0);
    assert_eq!(editor.cursor(), at(1, 1));
    editor.move_to(2, 2);
    assert_eq!(editor.cursor(), at(2, 2));
    editor.move_to(3, 1);
    assert_eq!(editor.cursor(), at(2, 1));
    editor.move_to(usize::MAX, usize::MAX);
    assert_eq!(editor.cursor(), at(2, 2));
}

#[test]
fn the_cursor_names_an_offset_and_a_line() {
    let mut editor = Editor::new(b"abc\nde\n");
    editor.move_to(2, 2);
    assert_eq!(editor.idx_at_cursor(), 5);
    assert_eq!(editor.length_at_cursor(), 2);
    assert_eq!(editor.n_lines(), 3);
}

#[test]
fn remove_takes_bytes_at_the_cursor() {
    let mut editor = Editor::new(b"abc\nde\n");
    editor.move_to(1, 2);
    editor.remove(1);
    assert_eq!(document_text(&editor), "ac\nde\n");
    editor.remove(usize::MAX);
    assert_eq!(document_text(&editor), "a\nde\n");
    assert_eq!(editor.cursor(), at(1, 1));
    editor.remove(0);
    assert_eq!(document_text(&editor), "a\nde\n");
}

#[test]
fn insert_at_cursor_types_one_byte() {
    let mut editor = Editor::new(b"abc\n");
    editor.move_to(1, 3);
    editor.insert_at_cursor(b'-');
    assert_eq!(document_text(&editor), "ab-c\n");
    assert_eq!(editor.cursor(), at(1, 4));
    assert_eq!(editor.mode(), Mode::Normal);
    editor.set_mode(Mode::Insert);
    editor.insert_at_cursor(ESCAPE);
    assert_eq!(document_text(&editor), "ab-c\n");
    assert_eq!(editor.cursor(), at(1, 4));
    assert_eq!(editor.mode(), Mode::Normal);
}

#[test]
fn commands_are_run_and_cleared() {
    let mut editor = Editor::new(b"abc\n");
    feed(&mut editor, b":w");
    assert_eq!(editor.execute_command_buffer(), Action::Save);
    assert_eq!(editor.mode(), Mode::Normal);
    assert!(editor.command_buffer().is_empty());
    feed(&mut editor, b":q");
    editor.cancel_command_buffer();
    assert_eq!(editor.mode(), Mode::Normal);
    assert!(editor.command_buffer().is_empty());
    feed(&mut editor, b":q");
    editor.clear_command_buffer();
    assert_eq!(editor.execute_command_buffer(), Action::Continue);
}

#[test]
fn modes_are_shown_as_normal_or_insert() {
    assert_eq!(Mode::Normal.label(), "NORMAL");
    assert_eq!(Mode::NormalCommandBuffer.label(), "NORMAL");
    assert_eq!(Mode::NormalComposing(ComposableCommand::Delete).label(), "NORMAL");
    assert_eq!(Mode::NormalComposing(ComposableCommand::Yank).label(), "NORMAL");
    assert_eq!(Mode::NormalComposing(ComposableCommand::Change).label(), "NORMAL");
    assert_eq!(Mode::Insert.label(), "INSERT");
}

#[test]
fn a_motion_holds_its_count() {
    assert_eq!(Motion::Chars(3), Motion::Chars(3));
    assert_ne!(Motion::Word(1), Motion::BackWord(1));
    assert_ne!(Motion::Forward('x', 2), Motion::Forward('y', 2));
    assert_eq!(Motion::EOL, Motion::EOL);
}
