use amp::rg::{next_result, prev_result, result_location, search_under_cursor, RgError};

const RESULTS: &str = "Searching for: foo\n\nsrc/a.rs\n10:5:foo bar\n12:1:foo\n\nsrc/b.rs\n3:foo\n";

#[test]
fn next_result_skips_headings_and_wraps() {
    assert_eq!(next_result(RESULTS, 3), Ok(4));
    assert_eq!(next_result(RESULTS, 4), Ok(7));
    assert_eq!(next_result(RESULTS, 7), Ok(3));
}

#[test]
fn prev_result_wraps_to_the_last_result() {
    assert_eq!(prev_result(RESULTS, 3), Ok(7));
    assert_eq!(prev_result(RESULTS, 7), Ok(4));
}

#[test]
fn navigation_without_results_stays_put() {
    assert_eq!(next_result("a\nb\n", 1), Ok(1));
    assert_eq!(next_result("", 0), Err(RgError::EmptyBuffer));
}

#[test]
fn result_location_reads_heading_line_and_column() {
    let loc = result_location(RESULTS, 3).ok().unwrap();
    assert_eq!((loc.file.as_str(), loc.line, loc.column), ("src/a.rs", 9, 4));
    let loc = result_location(RESULTS, 7).ok().unwrap();
    assert_eq!((loc.file.as_str(), loc.line, loc.column), ("src/b.rs", 2, 0));
}

#[test]
fn result_location_errors() {
    assert_eq!(result_location(RESULTS, 0).err(), Some(RgError::NotAResultLine));
    assert_eq!(result_location(RESULTS, 1).err(), Some(RgError::NotAResultLine));
    assert_eq!(result_location(RESULTS, 2).err(), Some(RgError::Unparsable));
    assert_eq!(result_location(RESULTS, 100).err(), Some(RgError::NoLine));
    assert_eq!(result_location("abc:def\n", 0).err(), Some(RgError::BadLineNumber));
    assert_eq!(result_location("10:1:x\n", 0).err(), Some(RgError::NoFilePath));
}

#[test]
fn search_takes_the_word_under_or_before_the_cursor() {
    assert_eq!(search_under_cursor("let foo_bar = 1;", 0, 6), Ok("foo_bar".to_string()));
    assert_eq!(search_under_cursor("let foo_bar = 1;", 0, 11), Ok("foo_bar".to_string()));
    assert_eq!(search_under_cursor("a  b", 0, 2), Err(RgError::NoWordUnderCursor));
    assert_eq!(search_under_cursor("abc", 0, 3), Err(RgError::NoWordUnderCursor));
    assert_eq!(search_under_cursor("abc", 1, 0), Err(RgError::NoWordUnderCursor));
}

#[test]
fn next_then_previous_returns_to_the_result() {
    for start in [3, 4, 7] {
        let n = next_result(RESULTS, start).unwrap();
        assert_eq!(prev_result(RESULTS, n), Ok(start));
    }
    let single = "src/a.rs\n1:x\n";
    assert_eq!(next_result(single, 1), Ok(1));
    assert_eq!(prev_result(single, 1), Ok(1));
}
