//! Paging: where the cursor is asked to move when the view pages up or down. Two lines
//! of the view's height are kept for the status line and the prompt.
use vstd::prelude::*;
use crate::modes::Position;

verus! {

/// The lines one page moves: the view's height less two, and at least none.
pub open spec fn page_size(height: usize) -> int {
    if height >= 2 { height - 2 } else { 0 }
}

/// Where paging down asks the cursor to go: one page further down, at most the last
/// line of a buffer of `line_count` lines, keeping the offset.
pub fn page_down(cursor: Position, height: usize, line_count: usize) -> (r: Position)
    ensures
        r.offset == cursor.offset,
        r.line == ({
            let last: int = if line_count >= 1 { line_count - 1 } else { 0 };
            let down: int = if cursor.line + page_size(height) <= usize::MAX {
                cursor.line + page_size(height)
            } else {
                usize::MAX as int
            };
            if down <= last { down } else { last }
        }),
{
    let page = height.saturating_sub(2);
    let max_line = line_count.saturating_sub(1);
    let down = cursor.line.saturating_add(page);
    let target = if down <= max_line { down } else { max_line };
    Position { line: target, offset: cursor.offset }
}

/// Where paging up asks the cursor to go: one page further up, at most to the first
/// line, keeping the offset.
pub fn page_up(cursor: Position, height: usize) -> (r: Position)
    ensures
        r.offset == cursor.offset,
        r.line == (if cursor.line >= page_size(height) { cursor.line - page_size(height) } else { 0 }),
{
    let page = height.saturating_sub(2);
    Position { line: cursor.line.saturating_sub(page), offset: cursor.offset }
}

} // verus!
