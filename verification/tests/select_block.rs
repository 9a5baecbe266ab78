use amp::input::Key;
use amp::modes::{BlockInsertMode, BlockInsertType, Position};
use amp::select_block::{
    apply_and_exit, backspace, block_append, block_insert, block_text, change, copy_and_delete,
    delete_block_content, insert_char, insert_tab, switch_to_select_block_mode,
};

const TEXT: &str = "abcdef\nxy\n0123456\n";

fn pos(line: usize, offset: usize) -> Position {
    Position { line, offset }
}

#[test]
fn block_text_takes_the_columns_of_each_line() {
    assert_eq!(block_text(TEXT, pos(0, 1), pos(2, 4)), "bcde\ny\n1234");
    assert_eq!(block_text(TEXT, pos(2, 4), pos(0, 1)), "bcde\ny\n1234");
    assert_eq!(block_text(TEXT, pos(1, 5), pos(1, 2)), "");
    assert_eq!(block_text(TEXT, pos(2, 0), pos(5, 2)), "012\n\n\n");
    assert_eq!(block_text("abcde\nfghij\n", pos(0, 1), pos(1, 3)), "bcd\nghi");
}

#[test]
fn deleting_a_block_goes_bottom_up() {
    let d = delete_block_content(TEXT, pos(0, 1), pos(2, 4));
    let spans: Vec<(Position, Position)> =
        d.ranges.iter().map(|r| (r.start_position(), r.end_position())).collect();
    assert_eq!(
        spans,
        vec![(pos(2, 1), pos(2, 5)), (pos(1, 1), pos(1, 2)), (pos(0, 1), pos(0, 5))]
    );
    assert_eq!(d.cursor, pos(0, 1));
    let d = delete_block_content(TEXT, pos(0, 3), pos(1, 5));
    assert_eq!(d.ranges.len(), 1);
}

#[test]
fn block_insert_pads_a_short_first_line() {
    let select = switch_to_select_block_mode(pos(1, 4));
    let start = block_insert(TEXT, &select, pos(2, 5));
    assert_eq!(start.cursor, pos(1, 4));
    assert_eq!(start.padding, 2);
    assert_eq!(start.mode.insert_type, BlockInsertType::Insert);
    let start = block_append(TEXT, &select, pos(0, 2));
    assert_eq!(start.cursor, pos(0, 5));
    assert_eq!(start.padding, 0);
    assert_eq!(start.mode.end_line, 1);
}

#[test]
fn typing_is_recorded_and_taken_back() {
    let mut mode = BlockInsertMode::new();
    assert!(!backspace(&mut mode));
    insert_char(&mut mode, Some(Key::Char('a')));
    insert_char(&mut mode, Some(Key::Enter));
    insert_tab(&mut mode);
    assert_eq!(mode.typed_text, "a\t");
    assert!(backspace(&mut mode));
    assert_eq!(mode.typed_text, "a");
}

#[test]
fn finishing_fills_the_other_lines() {
    let mut mode = BlockInsertMode::new();
    mode.reset(pos(0, 4), pos(2, 4), BlockInsertType::Insert);
    assert_eq!(apply_and_exit(&mode, TEXT), Vec::<(usize, usize)>::new());
    insert_char(&mut mode, Some(Key::Char('z')));
    assert_eq!(apply_and_exit(&mode, TEXT), vec![(1, 2), (2, 0)]);
}

#[test]
fn copy_and_change() {
    let (text, deletion) = copy_and_delete(TEXT, pos(0, 0), pos(1, 1));
    assert_eq!(text, "ab\nxy");
    assert_eq!(deletion.ranges.len(), 2);
    let (_, _, mode) = change(TEXT, pos(2, 3), pos(0, 1));
    assert_eq!((mode.start_line, mode.end_line, mode.insert_column), (0, 2, 1));
    assert_eq!(mode.insert_type, BlockInsertType::Insert);
}
