use amp::brackets::{
    bracket_pair, delete_around_function, find_enclosing_brace_pair, find_matching_bracket,
    find_signature_start, is_bracket, match_bracket, BracketError,
};
use amp::modes::Position;

const CODE: &str = "fn main() {\n    let x = (a[1] + b);\n}\n";

fn pos(line: usize, offset: usize) -> Position {
    Position { line, offset }
}

#[test]
fn bracket_pairs() {
    assert_eq!(bracket_pair('('), Some(('(', ')', true)));
    assert_eq!(bracket_pair(']'), Some(('[', ']', false)));
    assert_eq!(bracket_pair('x'), None);
    assert!(is_bracket('}'));
    assert!(!is_bracket('<'));
}

#[test]
fn matching_bracket_forward_and_back() {
    assert_eq!(find_matching_bracket(CODE, 0, 0), Some(pos(0, 8)));
    assert_eq!(find_matching_bracket(CODE, 0, 9), Some(pos(2, 0)));
    assert_eq!(find_matching_bracket(CODE, 2, 0), Some(pos(0, 10)));
    assert_eq!(find_matching_bracket(CODE, 1, 12), Some(pos(1, 21)));
    assert_eq!(find_matching_bracket(CODE, 1, 13), Some(pos(1, 16)));
    assert_eq!(find_matching_bracket(CODE, 1, 22), None);
}

#[test]
fn unbalanced_bracket_has_no_partner() {
    assert_eq!(find_matching_bracket("(a", 0, 0), None);
    assert_eq!(match_bracket("(a", 0, 0), Err(BracketError::NoMatchingBracket));
    assert_eq!(match_bracket(CODE, 0, 0), Ok(pos(0, 8)));
}

#[test]
fn enclosing_braces() {
    assert_eq!(find_enclosing_brace_pair(CODE, 1, 5), Some((pos(0, 10), pos(2, 0))));
    assert_eq!(find_enclosing_brace_pair(CODE, 0, 5), None);
    assert_eq!(find_enclosing_brace_pair(CODE, 9, 0), None);
}

#[test]
fn innermost_braces_win() {
    let code = "a {\n  b {\n    c\n  }\n}\n";
    assert_eq!(find_enclosing_brace_pair(code, 2, 2), Some((pos(1, 4), pos(3, 2))));
}

#[test]
fn signature_start_stops_at_blank_close_or_attribute() {
    assert_eq!(find_signature_start("#[test]\nfn a()\n{\n}\n", 2), 1);
    assert_eq!(find_signature_start("}\n\nfn b(\n  x: u8,\n) {\n", 4), 2);
    assert_eq!(find_signature_start("fn c() {\n}\n", 0), 0);
}

#[test]
fn delete_around_function_covers_signature_to_closing_line() {
    let r = delete_around_function(CODE, 1, 5).ok().unwrap();
    assert_eq!(r.start_position(), pos(0, 0));
    assert_eq!(r.end_position(), pos(2, 1));
    assert_eq!(delete_around_function(CODE, 0, 2), Err(BracketError::NoEnclosingFunction));
}
