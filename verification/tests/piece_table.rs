use editor_core::piece_table::{PieceIndex, PieceTable};
use editor_core::text::Edit;

fn text_of(table: &PieceTable) -> String {
    String::from_utf8(table.materialize()).unwrap()
}

fn piece_sum(table: &PieceTable) -> usize {
    table.pieces().iter().map(|piece| piece.len()).sum()
}

#[test]
fn new_table_holds_the_original() {
    let table = PieceTable::new(b"ab\ncd");
    assert_eq!(table.materialize(), b"ab\ncd".to_vec());
    assert_eq!(table.length(), 5);
    assert_eq!(table.pieces().len(), 1);
    assert!(!table.pieces()[0].is_added());
    assert_eq!(table.pieces()[0].start(), 0);
    assert_eq!(table.pieces()[0].len(), 5);
}

#[test]
fn new_table_of_nothing_is_empty() {
    let table = PieceTable::new(b"");
    assert_eq!(table.materialize(), Vec::<u8>::new());
    assert_eq!(table.length(), 0);
    assert_eq!(table.line_count(), 1);
    assert_eq!(table.pieces().len(), 0);
    assert_eq!(table.find_piece_at(0), None);
}

#[test]
fn insert_at_the_start() {
    let mut table = PieceTable::new(b"ab");
    table.insert(0, b'Z');
    assert_eq!(text_of(&table), "Zab");
    assert_eq!(table.pieces().len(), 2);
    assert!(table.pieces()[0].is_added());
}

#[test]
fn insert_at_the_end() {
    let mut table = PieceTable::new(b"ab");
    table.insert(2, b'Z');
    assert_eq!(text_of(&table), "abZ");
    assert_eq!(table.pieces().len(), 2);
    assert!(table.pieces()[1].is_added());
}

#[test]
fn insert_beyond_the_end_goes_to_the_end() {
    let mut table = PieceTable::new(b"ab");
    table.insert(usize::MAX, b'Z');
    assert_eq!(text_of(&table), "abZ");
}

#[test]
fn insert_inside_a_piece_splits_it() {
    let mut table = PieceTable::new(b"abcd");
    table.insert(1, b'Z');
    assert_eq!(text_of(&table), "aZbcd");
    let pieces = table.pieces();
    assert_eq!(pieces.len(), 3);
    assert_eq!((pieces[0].is_added(), pieces[0].start(), pieces[0].len()), (false, 0, 1));
    assert_eq!((pieces[1].is_added(), pieces[1].start(), pieces[1].len()), (true, 0, 1));
    assert_eq!((pieces[2].is_added(), pieces[2].start(), pieces[2].len()), (false, 1, 3));
}

#[test]
fn insert_on_a_boundary_splits_nothing() {
    let mut table = PieceTable::new(b"abcd");
    table.insert(2, b'X');
    assert_eq!(table.pieces().len(), 3);
    table.insert(2, b'Y');
    assert_eq!(text_of(&table), "abYXcd");
    assert_eq!(table.pieces().len(), 4);
    table.insert(4, b'W');
    assert_eq!(text_of(&table), "abYXWcd");
    assert_eq!(table.pieces().len(), 5);
}

#[test]
fn insert_into_an_empty_table() {
    let mut table = PieceTable::new(b"");
    table.insert(0, b'a');
    table.insert(1, b'c');
    table.insert(1, b'b');
    assert_eq!(text_of(&table), "abc");
    assert_eq!(table.length(), 3);
}

#[test]
fn delete_inside_one_piece() {
    let mut table = PieceTable::new(b"abcdef");
    table.delete(2, 2);
    assert_eq!(text_of(&table), "abef");
    assert_eq!(table.pieces().len(), 2);
    assert_eq!(table.length(), 4);
}

#[test]
fn delete_across_pieces() {
    let mut table = PieceTable::new(b"abcdef");
    table.insert(3, b'X');
    table.insert(4, b'Y');
    assert_eq!(text_of(&table), "abcXYdef");
    table.delete(2, 4);
    assert_eq!(text_of(&table), "abef");
    assert_eq!(table.pieces().len(), 2);
}

#[test]
fn delete_of_nothing_changes_nothing() {
    let mut table = PieceTable::new(b"abcdef");
    table.insert(3, b'X');
    let before: Vec<(bool, usize, usize)> =
        table.pieces().iter().map(|p| (p.is_added(), p.start(), p.len())).collect();
    for offset in [0usize, 1, 3, 4, 7, 8, 100, usize::MAX] {
        table.delete(offset, 0);
        assert_eq!(text_of(&table), "abcXdef");
        assert_eq!(table.length(), 7);
        let after: Vec<(bool, usize, usize)> =
            table.pieces().iter().map(|p| (p.is_added(), p.start(), p.len())).collect();
        assert_eq!(before, after);
    }
}

#[test]
fn delete_is_cut_off_at_the_end() {
    let mut table = PieceTable::new(b"abcdef");
    table.delete(4, usize::MAX);
    assert_eq!(text_of(&table), "abcd");
    table.delete(9, 3);
    assert_eq!(text_of(&table), "abcd");
    table.delete(usize::MAX, usize::MAX);
    assert_eq!(text_of(&table), "abcd");
}

#[test]
fn delete_of_everything_leaves_no_piece() {
    let mut table = PieceTable::new(b"abc");
    table.insert(1, b'X');
    table.delete(0, 4);
    assert_eq!(text_of(&table), "");
    assert_eq!(table.length(), 0);
    assert_eq!(table.pieces().len(), 0);
    table.insert(0, b'q');
    assert_eq!(text_of(&table), "q");
}

#[test]
fn delete_of_a_whole_piece_drops_it() {
    let mut table = PieceTable::new(b"ab");
    table.insert(1, b'X');
    assert_eq!(table.pieces().len(), 3);
    table.delete(1, 1);
    assert_eq!(text_of(&table), "ab");
    assert_eq!(table.pieces().len(), 2);
}

#[test]
fn length_is_the_sum_of_the_pieces() {
    let mut table = PieceTable::new(b"hello\nworld\n");
    assert_eq!(table.length(), piece_sum(&table));
    table.insert(5, b'!');
    assert_eq!(table.length(), 13);
    assert_eq!(table.length(), piece_sum(&table));
    assert_eq!(table.length(), table.materialize().len());
    table.delete(0, 3);
    assert_eq!(table.length(), 10);
    assert_eq!(table.length(), piece_sum(&table));
    assert_eq!(table.length(), table.materialize().len());
    table.delete(4, 100);
    assert_eq!(table.length(), 4);
    assert_eq!(table.length(), piece_sum(&table));
    assert_eq!(table.length(), table.materialize().len());
}

#[test]
fn no_piece_is_empty() {
    let mut table = PieceTable::new(b"abcdef");
    table.insert(3, b'X');
    table.delete(3, 1);
    table.delete(0, 1);
    table.delete(4, 1);
    assert_eq!(text_of(&table), "bcde");
    for piece in table.pieces().iter() {
        assert!(piece.len() > 0);
    }
}

#[test]
fn edits_match_a_flat_run_of_bytes() {
    let original = b"one\ntwo\nthree\n".to_vec();
    let mut table = PieceTable::new(&original);
    let mut flat = original.clone();
    let mut seed: u64 = 0x2545_f491_4f6c_dd1d;
    for round in 0..400 {
        seed = seed.wrapping_mul(6364136223846793005).wrapping_add(1442695040888963407);
        let offset = ((seed >> 33) as usize) % (flat.len() + 3);
        let count = ((seed >> 13) as usize) % 4;
        let byte = b'a' + ((seed >> 5) % 26) as u8;
        if round % 3 == 2 {
            table.delete(offset, count);
            let from = offset.min(flat.len());
            let to = (offset + count).min(flat.len());
            flat.drain(from..to);
        } else {
            table.insert(offset, byte);
            flat.insert(offset.min(flat.len()), byte);
        }
        assert_eq!(table.materialize(), flat);
        assert_eq!(table.length(), flat.len());
        assert_eq!(table.length(), piece_sum(&table));
    }
}

#[test]
fn apply_makes_the_edits_in_order() {
    let mut table = PieceTable::new(b"abc");
    let edits = [
        Edit::Insert { offset: 1, byte: b'X' },
        Edit::Delete { offset: 0, count: 1 },
        Edit::Insert { offset: 9, byte: b'Y' },
        Edit::Delete { offset: 2, count: 0 },
    ];
    table.apply(&edits);
    assert_eq!(text_of(&table), "XbcY");
    table.apply(&[]);
    assert_eq!(text_of(&table), "XbcY");
}

#[test]
fn line_count_is_one_more_than_the_newlines() {
    assert_eq!(PieceTable::new(b"").line_count(), 1);
    assert_eq!(PieceTable::new(b"ab").line_count(), 1);
    assert_eq!(PieceTable::new(b"ab\n").line_count(), 2);
    assert_eq!(PieceTable::new(b"ab\ncd").line_count(), 2);
    assert_eq!(PieceTable::new(b"ab\ncd\n").line_count(), 3);
    assert_eq!(PieceTable::new(b"\n\n").line_count(), 3);
}

#[test]
fn line_count_follows_an_edit() {
    let mut table = PieceTable::new(b"abcd");
    table.insert(2, b'\n');
    assert_eq!(table.line_count(), 2);
    table.insert(0, b'\n');
    assert_eq!(table.line_count(), 3);
    table.delete(0, 1);
    assert_eq!(table.line_count(), 2);
    table.delete(2, 1);
    assert_eq!(table.line_count(), 1);
}

#[test]
fn line_length_leaves_the_newline_out() {
    let table = PieceTable::new(b"ab\n\ncdef");
    assert_eq!(table.line_length(1), 2);
    assert_eq!(table.line_length(2), 0);
    assert_eq!(table.line_length(3), 4);
}

#[test]
fn line_length_of_a_line_outside_is_that_of_the_nearest() {
    let table = PieceTable::new(b"ab\n\ncdef");
    assert_eq!(table.line_length(0), 2);
    assert_eq!(table.line_length(4), 4);
    assert_eq!(table.line_length(usize::MAX), 4);
    assert_eq!(PieceTable::new(b"").line_length(1), 0);
    assert_eq!(PieceTable::new(b"ab\n").line_length(2), 0);
}

#[test]
fn line_span_gives_start_and_length() {
    let table = PieceTable::new(b"ab\n\ncdef");
    assert_eq!(table.line_span(1), (0, 2));
    assert_eq!(table.line_span(2), (3, 0));
    assert_eq!(table.line_span(3), (4, 4));
    assert_eq!(table.line_span(0), (0, 2));
    assert_eq!(table.line_span(9), (4, 4));
}

#[test]
fn line_gives_the_bytes_of_a_line() {
    let mut table = PieceTable::new(b"ab\ncdef\n");
    table.insert(5, b'X');
    assert_eq!(table.line(1), b"ab".to_vec());
    assert_eq!(table.line(2), b"cdXef".to_vec());
    assert_eq!(table.line(3), b"".to_vec());
    assert_eq!(table.line(0), b"ab".to_vec());
    assert_eq!(table.line(17), b"".to_vec());
}

#[test]
fn offset_of_walks_the_lines() {
    let table = PieceTable::new(b"ab\ncd");
    assert_eq!(table.offset_of(1, 1), 0);
    assert_eq!(table.offset_of(1, 2), 1);
    assert_eq!(table.offset_of(2, 1), 3);
    assert_eq!(table.offset_of(2, 2), 4);
}

#[test]
fn offset_of_clamps_what_is_out_of_range() {
    let table = PieceTable::new(b"ab\ncd");
    assert_eq!(table.offset_of(0, 0), 0);
    assert_eq!(table.offset_of(1, 3), 2);
    assert_eq!(table.offset_of(1, 9), 2);
    assert_eq!(table.offset_of(2, 3), 5);
    assert_eq!(table.offset_of(9, 9), 5);
    assert_eq!(table.offset_of(usize::MAX, usize::MAX), 5);
    assert_eq!(table.offset_of(3, 1), 3);
    assert_eq!(PieceTable::new(b"").offset_of(4, 4), 0);
}

#[test]
fn offset_of_reads_across_pieces() {
    let mut table = PieceTable::new(b"abcd");
    table.insert(2, b'\n');
    table.insert(0, b'\n');
    assert_eq!(text_of(&table), "\nab\ncd");
    assert_eq!(table.offset_of(1, 1), 0);
    assert_eq!(table.offset_of(2, 2), 2);
    assert_eq!(table.offset_of(3, 2), 5);
}

#[test]
fn a_byte_put_in_makes_its_line_one_longer() {
    let original = b"ab\n\ncdef\n";
    for line in 0..6usize {
        for column in 0..7usize {
            let mut table = PieceTable::new(original);
            let lines = table.line_count();
            let before = table.line_length(line);
            let offset = table.offset_of(line, column);
            table.insert(offset, b'!');
            assert_eq!(table.line_length(line), before + 1);
            assert_eq!(table.line_count(), lines);
        }
    }
}

#[test]
fn a_newline_put_in_cuts_its_line() {
    let mut table = PieceTable::new(b"abcd\n");
    let offset = table.offset_of(1, 3);
    table.insert(offset, b'\n');
    assert_eq!(table.line_length(1), 2);
    assert_eq!(table.line_length(2), 2);
    assert_eq!(table.line_count(), 3);
}

#[test]
fn find_piece_at_names_the_piece_of_a_byte() {
    let mut table = PieceTable::new(b"abcd");
    table.insert(2, b'X');
    assert_eq!(table.find_piece_at(0), Some(0));
    assert_eq!(table.find_piece_at(1), Some(0));
    assert_eq!(table.find_piece_at(2), Some(1));
    assert_eq!(table.find_piece_at(3), Some(2));
    assert_eq!(table.find_piece_at(4), Some(2));
    assert_eq!(table.find_piece_at(5), None);
    assert_eq!(table.find_piece_at(usize::MAX), None);
}

#[test]
fn locate_names_the_piece_and_the_place_in_it() {
    let mut table = PieceTable::new(b"abcd");
    table.insert(2, b'X');
    let at: PieceIndex = table.locate(4).unwrap();
    assert_eq!((at.in_table, at.in_piece), (2, 1));
    let at: PieceIndex = table.locate(2).unwrap();
    assert_eq!((at.in_table, at.in_piece), (1, 0));
    assert!(table.locate(5).is_none());
}

#[test]
fn added_bytes_are_read_where_they_were_put() {
    let mut table = PieceTable::new(b"");
    table.insert(0, b'a');
    table.insert(0, b'b');
    table.insert(0, b'c');
    assert_eq!(text_of(&table), "cba");
    let starts: Vec<usize> = table.pieces().iter().map(|p| p.start()).collect();
    assert_eq!(starts, vec![2, 1, 0]);
    table.delete(1, 1);
    let starts: Vec<usize> = table.pieces().iter().map(|p| p.start()).collect();
    assert_eq!(starts, vec![2, 0]);
    table.insert(1, b'd');
    assert_eq!(text_of(&table), "cda");
    let starts: Vec<usize> = table.pieces().iter().map(|p| p.start()).collect();
    assert_eq!(starts, vec![2, 3, 0]);
}
