use amp::cursor::{move_to_first_word_of_line, CursorError};
use amp::modes::Position;
use amp::view::{page_down, page_up};

fn at(line: usize, offset: usize) -> Position {
    Position { line, offset }
}

#[test]
fn paging_down_stops_at_the_last_line() {
    assert_eq!(page_down(at(3, 4), 12, 100), at(13, 4));
    assert_eq!(page_down(at(95, 1), 12, 100), at(99, 1));
    assert_eq!(page_down(at(0, 0), 1, 100), at(0, 0));
    assert_eq!(page_down(at(0, 0), 12, 0), at(0, 0));
    assert_eq!(page_down(at(usize::MAX - 1, 0), 12, usize::MAX), at(usize::MAX - 1, 0));
}

#[test]
fn paging_up_stops_at_the_first_line() {
    assert_eq!(page_up(at(30, 2), 12), at(20, 2));
    assert_eq!(page_up(at(5, 2), 12), at(0, 2));
    assert_eq!(page_up(at(5, 2), 0), at(5, 2));
}

#[test]
fn first_word_of_a_line() {
    assert_eq!(move_to_first_word_of_line("    let x = 1;"), Ok(4));
    assert_eq!(move_to_first_word_of_line("\t\u{a0}y"), Ok(2));
    assert_eq!(move_to_first_word_of_line("word"), Ok(0));
    assert_eq!(move_to_first_word_of_line("  \t "), Err(CursorError::BlankLine));
    assert_eq!(move_to_first_word_of_line(""), Err(CursorError::BlankLine));
}

#[test]
fn move_to_first_word_of_line_works() {
    // The cursor sits at the end of "    amp"; the first word starts at offset 4.
    let cursor = Position { line: 0, offset: 7 };
    let offset = move_to_first_word_of_line("    amp").unwrap();
    assert_eq!(Position { line: cursor.line, offset }, Position { line: 0, offset: 4 });
}
