use byt::lines::{lines_of, Line};
use byt::piece::{Piece, SourceFile};
use byt::piece_file::{PieceFile, SeekFrom};
use byt::render::{Point, TermMode};

fn content(file: &mut PieceFile) -> String {
    let n = file.len();
    file.read_at(0, n)
}

fn spans(file: &PieceFile) -> Vec<(SourceFile, u64, u64)> {
    file.pieces()
        .iter()
        .map(|p| (p.file, p.file_offset, p.length))
        .collect()
}

fn splice_insert(s: &mut String, text: &str, at: usize) {
    s.insert_str(at, text);
}

fn splice_delete(s: &mut String, at: usize, n: usize) {
    s.replace_range(at..at + n, "");
}

#[test]
fn edits_agree_with_string_splicing() {
    let mut file = PieceFile::empty();
    let mut reference = String::new();
    let inserts: [(&str, usize); 6] = [
        ("hello", 0),
        (" world", 5),
        ("big ", 6),
        ("!", 15),
        (">> ", 0),
        ("--", 9),
    ];
    for (text, at) in inserts.iter() {
        file.insert(text, *at as u64);
        splice_insert(&mut reference, text, *at);
        assert_eq!(content(&mut file), reference);
    }
    let deletes: [(usize, usize); 4] = [(0, 3), (4, 5), (2, 1), (0, 1)];
    for (at, n) in deletes.iter() {
        file.delete(*at as u64, *n as u64);
        splice_delete(&mut reference, *at, *n);
        assert_eq!(content(&mut file), reference);
        assert_eq!(file.len() as usize, reference.len());
    }
}

#[test]
fn undo_restores_pieces_after_split_insert() {
    let mut file = PieceFile::empty();
    file.insert("abcdef", 0);
    file.insert("XY", 6);
    let before = spans(&file);
    file.insert("123", 3);
    assert_eq!(file.pieces().len(), 4);
    file.undo();
    assert_eq!(spans(&file), before);
    assert_eq!(content(&mut file), "abcdefXY");
    file.redo();
    assert_eq!(content(&mut file), "abc123defXY");
    assert_eq!(file.len(), 11);
}

#[test]
fn undo_restores_pieces_after_multi_piece_delete() {
    let mut file = PieceFile::empty();
    file.insert("cc", 0);
    file.insert("bb", 0);
    file.insert("aa", 0);
    let before = spans(&file);
    file.delete(1, 4);
    assert_eq!(content(&mut file), "ac");
    file.undo();
    assert_eq!(spans(&file), before);
    assert_eq!(content(&mut file), "aabbcc");
    file.redo();
    assert_eq!(content(&mut file), "ac");
    assert_eq!(file.len(), 2);
}

#[test]
fn delete_at_the_tail_of_a_piece_then_undo() {
    let mut file = PieceFile::empty();
    file.insert("bar", 0);
    file.insert("foo", 0);
    let before = spans(&file);
    file.delete(1, 2);
    assert_eq!(content(&mut file), "fbar");
    file.undo();
    assert_eq!(spans(&file), before);
    assert_eq!(content(&mut file), "foobar");
}

#[test]
fn a_new_edit_after_undo_drops_redo() {
    let mut file = PieceFile::empty();
    file.insert("abc", 0);
    file.insert("X", 1);
    file.undo();
    file.insert("Y", 3);
    assert_eq!(content(&mut file), "abcY");
    file.redo();
    assert_eq!(content(&mut file), "abcY");
    assert_eq!(file.actions().len(), 2);
}

#[test]
fn undo_and_redo_on_a_fresh_buffer_change_nothing() {
    let mut file = PieceFile::empty();
    file.undo();
    assert_eq!(file.len(), 0);
    file.redo();
    assert_eq!(file.len(), 0);
    assert_eq!(file.pieces().len(), 0);
    assert_eq!(file.actions().len(), 0);
}

#[test]
fn redo_with_nothing_undone_changes_nothing() {
    let mut file = PieceFile::empty();
    file.insert("abc", 0);
    file.redo();
    assert_eq!(content(&mut file), "abc");
    assert_eq!(file.actions().len(), 1);
}

#[test]
fn boundary_inserts_add_one_piece() {
    let mut file = PieceFile::empty();
    file.insert("middle", 0);
    let before = spans(&file);
    file.insert("<", 0);
    assert_eq!(file.pieces().len(), before.len() + 1);
    assert_eq!(spans(&file)[1..].to_vec(), before);
    let before = spans(&file);
    let end = file.len();
    file.insert(">", end);
    assert_eq!(file.pieces().len(), before.len() + 1);
    assert_eq!(spans(&file)[..before.len()].to_vec(), before);
    assert_eq!(content(&mut file), "<middle>");
    assert!(!file.actions()[1].merge_down);
    assert!(!file.actions()[1].merge_up);
    assert_eq!(file.pieces()[2].logical_offset, 7);
    assert_eq!(file.pieces()[2].file_offset, 7);
}

#[test]
fn scenario_two_inserts_at_start() {
    let mut file = PieceFile::empty();
    file.insert("foo", 0);
    file.insert("bar", 0);
    assert_eq!(file.len(), 6);
    assert_eq!(file.read_at(0, 6), "barfoo");
    assert_eq!(file.pieces().len(), 2);
}

#[test]
fn scenario_insert_inside_piece() {
    let mut file = PieceFile::empty();
    file.insert("aa", 0);
    file.insert("b", 1);
    assert_eq!(file.len(), 3);
    assert_eq!(file.read_at(0, 3), "aba");
    assert_eq!(file.pieces().len(), 3);
    assert!(file.actions()[1].merge_down);
    assert!(file.actions()[1].merge_up);
}

#[test]
fn scenario_delete_inside_piece() {
    let mut file = PieceFile::empty();
    file.insert("foo", 0);
    file.delete(1, 1);
    assert_eq!(file.read_at(0, 2), "fo");
    assert_eq!(file.len(), 2);
    assert_eq!(file.pieces().len(), 2);
    let action = &file.actions()[1];
    assert_eq!(action.pieces.len(), 1);
    assert_eq!(action.pieces[0].length, 1);
    assert_eq!(action.pieces[0].file_offset, 1);
}

#[test]
fn scenario_delete_across_two_pieces() {
    let mut file = PieceFile::empty();
    file.insert("bar", 0);
    file.insert("foo", 0);
    assert_eq!(file.read_at(0, 6), "foobar");
    file.delete(2, 2);
    assert_eq!(file.read_at(0, 4), "foar");
    assert_eq!(file.len(), 4);
    assert_eq!(file.actions()[2].pieces.len(), 2);
}

#[test]
fn scenario_delete_undo_redo() {
    let mut file = PieceFile::empty();
    file.insert("foobar", 0);
    file.delete(2, 4);
    assert_eq!(file.read_at(0, 2), "fo");
    assert_eq!(file.len(), 2);
    file.undo();
    assert_eq!(file.read_at(0, 6), "foobar");
    assert_eq!(file.len(), 6);
    file.redo();
    assert_eq!(file.read_at(0, 2), "fo");
    assert_eq!(file.len(), 2);
}

#[test]
fn delete_across_many_pieces_records_fragments_last_first() {
    let mut file = PieceFile::empty();
    file.insert("dd", 0);
    file.insert("cc", 0);
    file.insert("bb", 0);
    file.insert("aa", 0);
    file.delete(1, 6);
    assert_eq!(content(&mut file), "ad");
    let action = &file.actions()[4];
    let lengths: Vec<u64> = action.pieces.iter().map(|p| p.length).collect();
    assert_eq!(lengths, vec![1, 2, 2, 1]);
    assert!(action.pieces.iter().all(|p| p.logical_offset == 1));
    assert!(action.merge_down);
    assert!(action.merge_up);
}

#[test]
fn zero_delete_changes_nothing() {
    let mut file = PieceFile::empty();
    file.insert("abc", 0);
    file.delete(2, 0);
    assert_eq!(file.actions().len(), 1);
    assert_eq!(file.pieces().len(), 1);
    assert_eq!(content(&mut file), "abc");
}

#[test]
fn an_empty_insert_is_recorded_and_undone_alone() {
    let mut file = PieceFile::empty();
    file.insert("abc", 0);
    file.insert("", 1);
    assert_eq!(file.actions().len(), 2);
    assert_eq!(file.actions()[1].length, 0);
    assert_eq!(file.pieces().len(), 1);
    file.undo();
    assert_eq!(content(&mut file), "abc");
    assert_eq!(file.pieces().len(), 1);
    file.redo();
    assert_eq!(content(&mut file), "abc");
    file.undo();
    file.undo();
    assert_eq!(content(&mut file), "");
}

#[test]
fn read_stops_before_a_split_character() {
    let mut file = PieceFile::empty();
    file.insert("aé", 0);
    assert_eq!(file.len(), 3);
    assert_eq!(file.read_at(0, 2), "a");
    assert_eq!(file.read_at(0, 3), "aé");
    assert_eq!(file.read_at(0, 0), "");
}

#[test]
fn read_stops_at_the_end_of_the_document() {
    let mut file = PieceFile::empty();
    file.insert("abc", 0);
    assert_eq!(file.read_at(1, 100), "bc");
    assert_eq!(file.read_at(10, 5), "");
}

#[test]
fn read_does_not_move_the_cursor() {
    let mut file = PieceFile::empty();
    file.insert("abcdef", 0);
    assert_eq!(file.seek(SeekFrom::Start(2)), 2);
    assert_eq!(file.read(2), "cd");
    assert_eq!(file.read(2), "cd");
}

#[test]
fn seek_from_each_origin() {
    let mut file = PieceFile::empty();
    file.insert("abcdef", 0);
    assert_eq!(file.seek(SeekFrom::End(-2)), 4);
    assert_eq!(file.read(10), "ef");
    assert_eq!(file.seek(SeekFrom::Current(-3)), 1);
    assert_eq!(file.read(1), "b");
    assert_eq!(file.seek(SeekFrom::Current(2)), 3);
    assert_eq!(file.read(1), "d");
    assert_eq!(file.seek(SeekFrom::End(-6)), 0);
    assert_eq!(file.seek(SeekFrom::End(3)), 9);
    assert_eq!(file.read(3), "");
}

#[test]
fn original_bytes_are_read_and_edited() {
    let mut file = PieceFile::with_original(b"hello world".to_vec());
    assert!(!file.is_empty());
    assert_eq!(file.len(), 11);
    assert_eq!(file.pieces().len(), 1);
    assert_eq!(file.pieces()[0].file, SourceFile::Original);
    file.insert("big ", 6);
    assert_eq!(content(&mut file), "hello big world");
    file.delete(0, 6);
    assert_eq!(content(&mut file), "big world");
    file.undo();
    file.undo();
    assert_eq!(content(&mut file), "hello world");
    assert_eq!(file.pieces().len(), 1);
}

#[test]
fn empty_original_file_is_still_a_file() {
    let file = PieceFile::with_original(Vec::new());
    assert!(!file.is_empty());
    assert_eq!(file.len(), 0);
    assert!(PieceFile::empty().is_empty());
}

#[test]
fn logical_offsets_are_converted_to_store_offsets() {
    let p = Piece { file: SourceFile::Append, file_offset: 10, length: 5, logical_offset: 3 };
    assert_eq!(p.logical_to_file(3), 10);
    assert_eq!(p.logical_to_file(6), 13);
}

#[test]
fn no_line_is_made_up_after_a_last_line_without_newline() {
    let file_bytes = b"foo\nbar".to_vec();
    let mut file = PieceFile::with_original(file_bytes);
    let text = content(&mut file);
    let lines = lines_of(text.as_bytes());
    assert_eq!(lines.len(), 2);
    assert_eq!(lines[1], Line { number: 2, offset: 4, content_length: 3, line_ending_length: 0 });
}

#[test]
fn a_trailing_newline_ends_with_an_empty_line() {
    let lines = lines_of(b"foo\r\nbar\n");
    assert_eq!(lines.len(), 3);
    assert_eq!(lines[0], Line { number: 1, offset: 0, content_length: 3, line_ending_length: 2 });
    assert_eq!(lines[1], Line { number: 2, offset: 5, content_length: 3, line_ending_length: 1 });
    assert_eq!(lines[2], Line { number: 3, offset: 9, content_length: 0, line_ending_length: 0 });
}

#[test]
fn empty_text_has_one_empty_line() {
    let lines = lines_of(b"");
    assert_eq!(lines.len(), 1);
    assert_eq!(lines[0].len(), 0);
    assert_eq!(lines[0].number(), 1);
}

#[test]
fn line_accessors() {
    let lines = lines_of(b"ab\ncd");
    let first = lines[0];
    assert_eq!(first.start(), 0);
    assert_eq!(first.content_end(), 2);
    assert_eq!(first.end(), 3);
    assert_eq!(first.end_size(), 1);
    assert_eq!(first.len(), 3);
    assert!(first.contains(2));
    assert!(!first.contains(3));
    assert!(lines[1].contains(3));
}

#[test]
fn render_values() {
    let p = Point { row: 2, col: 10 };
    assert_eq!(p, Point { row: 2, col: 10 });
    assert_ne!(TermMode::Raw, TermMode::Cooked);
}
