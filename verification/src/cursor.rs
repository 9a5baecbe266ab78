//! Cursor movements that depend on the text of a line.
use vstd::prelude::*;
use crate::text::{is_white, is_whitespace, to_chars};

verus! {

/// Why the cursor could not move.
#[derive(Debug, Clone, Copy, PartialEq, Eq, Structural)]
pub enum CursorError {
    /// The line holds white space only.
    BlankLine,
}

/// Whether the first `n` characters of `line` are all white space.
pub open spec fn blank_upto(line: Seq<char>, n: int) -> bool {
    forall|i: int| 0 <= i < n ==> #[trigger] is_white(line[i])
}

/// The offset of the first character of `line` that is not white space: where the
/// cursor goes on the line's first word. An error for a blank line.
pub fn move_to_first_word_of_line(line: &str) -> (r: Result<usize, CursorError>)
    ensures
        match r {
            Ok(k) => k < line@.len() && !is_white(line@[k as int]) && blank_upto(line@, k as int),
            Err(e) => e == CursorError::BlankLine && blank_upto(line@, line@.len() as int),
        },
{
    let s = to_chars(line);
    let mut i: usize = 0;
    while i < s.len()
        invariant
            s@ == line@,
            i <= s@.len(),
            blank_upto(line@, i as int),
        decreases s@.len() - i,
    {
        if !is_whitespace(s[i]) {
            return Ok(i);
        }
        i = i + 1;
    }
    Err(CursorError::BlankLine)
}

} // verus!
