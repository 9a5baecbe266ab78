//! Editing a rectangle of text: copying it, deleting it, and typing into every line of
//! it at once.
use vstd::prelude::*;
use crate::input::Key;
use crate::modes::{BlockInsertMode, BlockInsertType, Position, Range, SelectBlockMode};
use crate::text::{push_chars, spec_lines, str_lines, string_from_chars, string_pop, string_push, sub_chars, to_chars};

verus! {

/// The rectangle between two corners: first and last line, left and right column.
pub open spec fn corners(a: Position, c: Position) -> (usize, usize, usize, usize) {
    (
        if a.line <= c.line { a.line } else { c.line },
        if a.line <= c.line { c.line } else { a.line },
        if a.offset <= c.offset { a.offset } else { c.offset },
        if a.offset <= c.offset { c.offset } else { a.offset },
    )
}

/// The number of characters of line `i`; 0 past the end.
pub open spec fn line_len(ls: Seq<Seq<char>>, i: int) -> nat {
    if 0 <= i < ls.len() {
        ls[i].len()
    } else {
        0
    }
}

/// The characters of line `i` from column `lo` up to, not including, column `hi`, as far
/// as the line goes.
pub open spec fn row_piece(ls: Seq<Seq<char>>, i: int, lo: int, hi: int) -> Seq<char> {
    if 0 <= i < ls.len() {
        let n = ls[i].len() as int;
        let start = if lo < n { lo } else { n };
        let end = if hi < n { hi } else { n };
        if start < end {
            ls[i].subrange(start, end)
        } else {
            Seq::empty()
        }
    } else {
        Seq::empty()
    }
}

/// The rectangle's text from line `i` to line `last`, lines apart by line breaks.
pub open spec fn block_rows(ls: Seq<Seq<char>>, i: int, last: int, lo: int, hi: int) -> Seq<char>
    decreases last + 1 - i,
{
    if i > last {
        Seq::empty()
    } else {
        row_piece(ls, i, lo, hi) + (if i < last { seq!['\n'] } else { Seq::empty() }) + block_rows(
            ls,
            i + 1,
            last,
            lo,
            hi,
        )
    }
}

fn line_chars(lines: &Vec<&str>, i: usize) -> (r: Vec<char>)
    ensures
        r@ == if i < lines@.len() { lines@[i as int]@ } else { Seq::<char>::empty() },
{
    if i < lines.len() {
        to_chars(lines[i])
    } else {
        Vec::new()
    }
}

/// The text of the rectangle between `anchor` and `cursor`, both its left and its right
/// column included, one line of it per buffer line.
pub fn block_text(data: &str, anchor: Position, cursor: Position) -> (r: String)
    requires
        anchor.line < usize::MAX,
        cursor.line < usize::MAX,
    ensures
        ({
            let (first, last, lo, hi) = corners(anchor, cursor);
            r@ == block_rows(spec_lines(data@), first as int, last as int, lo as int, hi + 1)
        }),
{
    let lines = str_lines(data);
    let ghost ls = spec_lines(data@);
    let first = if anchor.line <= cursor.line { anchor.line } else { cursor.line };
    let last = if anchor.line <= cursor.line { cursor.line } else { anchor.line };
    let lo = if anchor.offset <= cursor.offset { anchor.offset } else { cursor.offset };
    let hi = if anchor.offset <= cursor.offset { cursor.offset } else { anchor.offset };
    let mut out: Vec<char> = Vec::new();
    let mut i = first;
    while i <= last
        invariant
            first <= i <= last + 1,
            last < usize::MAX,
            lines@.map_values(|l: &str| l@) == ls,
            ls == spec_lines(data@),
            out@ + block_rows(ls, i as int, last as int, lo as int, hi + 1) == block_rows(
                ls,
                first as int,
                last as int,
                lo as int,
                hi + 1,
            ),
        decreases last + 1 - i,
    {
        let chars = line_chars(&lines, i);
        assert(i < ls.len() ==> chars@ == ls[i as int]);
        let n = chars.len();
        let start = if lo < n { lo } else { n };
        let end = if hi < n { hi + 1 } else { n };
        let ghost before = out@;
        if start < end {
            let piece = sub_chars(&chars, start, end);
            push_chars(&mut out, &piece);
        }
        if i < last {
            out.push('\n');
        }
        proof {
            let rest = block_rows(ls, i + 1, last as int, lo as int, hi + 1);
            assert(out@ == before + row_piece(ls, i as int, lo as int, hi + 1) + (if i < last { seq!['\n'] } else { Seq::<char>::empty() }));
            assert(before + block_rows(ls, i as int, last as int, lo as int, hi + 1) =~= out@ + rest);
        }
        i = i + 1;
    }
    assert(block_rows(ls, i as int, last as int, lo as int, hi + 1) == Seq::<char>::empty());
    assert(out@ + Seq::<char>::empty() =~= out@);
    string_from_chars(out)
}

/// The stretches the rectangle covers, from line `i` up to line `first`: on each line
/// longer than `lo`, from `lo` up to `hi` (not included) or the line's end.
pub open spec fn deletion_spans(ls: Seq<Seq<char>>, i: int, first: int, lo: int, hi: int) -> Seq<(Position, Position)>
    decreases i + 1 - first,
{
    if i < first {
        Seq::empty()
    } else {
        let n = line_len(ls, i) as int;
        (if n <= lo {
            Seq::empty()
        } else {
            seq![(Position { line: i as usize, offset: lo as usize }, Position { line: i as usize, offset: (if hi < n { hi } else { n }) as usize })]
        }) + deletion_spans(ls, i - 1, first, lo, hi)
    }
}

/// What deleting a rectangle does: the ranges to delete, bottom line first, and where
/// the cursor goes (the rectangle's top left corner).
pub struct BlockDeletion {
    pub ranges: Vec<Range>,
    pub cursor: Position,
    pub first_line: usize,
    pub last_line: usize,
    pub left_column: usize,
}

/// The deletion of the rectangle between `anchor` and `cursor`.
pub fn delete_block_content(data: &str, anchor: Position, cursor: Position) -> (r: BlockDeletion)
    ensures
        ({
            let (first, last, lo, hi) = corners(anchor, cursor);
            &&& r.ranges@.map_values(|x: Range| (x.start(), x.end())) == deletion_spans(
                spec_lines(data@),
                last as int,
                first as int,
                lo as int,
                hi + 1,
            )
            &&& r.cursor == Position { line: first, offset: lo }
            &&& r.first_line == first
            &&& r.last_line == last
            &&& r.left_column == lo
        }),
{
    let lines = str_lines(data);
    let ghost ls = spec_lines(data@);
    let first = if anchor.line <= cursor.line { anchor.line } else { cursor.line };
    let last = if anchor.line <= cursor.line { cursor.line } else { anchor.line };
    let lo = if anchor.offset <= cursor.offset { anchor.offset } else { cursor.offset };
    let hi = if anchor.offset <= cursor.offset { cursor.offset } else { anchor.offset };
    let mut ranges: Vec<Range> = Vec::new();
    let mut i = last;
    let mut done = false;
    while !done
        invariant
            first <= i <= last,
            lines@.map_values(|l: &str| l@) == ls,
            ls == spec_lines(data@),
            lo <= hi,
            !done ==> ranges@.map_values(|x: Range| (x.start(), x.end())) + deletion_spans(ls, i as int, first as int, lo as int, hi + 1)
                == deletion_spans(ls, last as int, first as int, lo as int, hi + 1),
            done ==> ranges@.map_values(|x: Range| (x.start(), x.end())) == deletion_spans(ls, last as int, first as int, lo as int, hi + 1),
        decreases (i - first) * 2 + if done { 0int } else { 1int },
    {
        let chars = line_chars(&lines, i);
        assert(i < ls.len() ==> chars@ == ls[i as int]);
        let n = chars.len();
        let ghost before = ranges@.map_values(|x: Range| (x.start(), x.end()));
        if n > lo {
            let end = if hi < n { hi + 1 } else { n };
            let r = Range::new(Position { line: i, offset: lo }, Position { line: i, offset: end });
            ranges.push(r);
            assert(ranges@.map_values(|x: Range| (x.start(), x.end())) =~= before.push((r.start(), r.end())));
        } else {
            assert(ranges@.map_values(|x: Range| (x.start(), x.end())) =~= before);
        }
        proof {
            let rest = deletion_spans(ls, i - 1, first as int, lo as int, hi + 1);
            let now = ranges@.map_values(|x: Range| (x.start(), x.end()));
            assert(before + deletion_spans(ls, i as int, first as int, lo as int, hi + 1) =~= now + rest);
        }
        if i == first {
            done = true;
            proof {
                assert(deletion_spans(ls, i - 1, first as int, lo as int, hi + 1) == Seq::<(Position, Position)>::empty());
                let now = ranges@.map_values(|x: Range| (x.start(), x.end()));
                assert(now + Seq::<(Position, Position)>::empty() =~= now);
            }
        } else {
            i = i - 1;
        }
    }
    BlockDeletion { ranges, cursor: Position { line: first, offset: lo }, first_line: first, last_line: last, left_column: lo }
}

/// The spaces that bring a line of `len` characters out to column `col`.
pub open spec fn padding(len: nat, col: int) -> nat {
    if len < col {
        (col - len) as nat
    } else {
        0
    }
}

/// Starting to type into a rectangle: the insert mode, the cursor position, and the
/// spaces to add at the end of the first line before the cursor can stand there.
pub struct BlockInsertStart {
    pub mode: BlockInsertMode,
    pub cursor: Position,
    pub padding: usize,
}

/// Block select mode, anchored at the cursor.
pub fn switch_to_select_block_mode(cursor: Position) -> (m: SelectBlockMode)
    ensures
        m.anchor == cursor,
{
    SelectBlockMode::new(cursor)
}

/// Starts typing into the rectangle between the selection's anchor and the cursor:
/// before its left column, or after its right column when appending.
pub fn enter_block_insert(data: &str, select: &SelectBlockMode, cursor: Position, insert_type: BlockInsertType) -> (r: BlockInsertStart)
    requires
        insert_type == BlockInsertType::Append ==> select.anchor.offset < usize::MAX && cursor.offset < usize::MAX,
    ensures
        ({
            let (first, last, lo, hi) = corners(select.anchor, cursor);
            let col = match insert_type {
                BlockInsertType::Insert => lo as int,
                BlockInsertType::Append => hi + 1,
            };
            let ls = spec_lines(data@);
            &&& r.mode.start_line == first
            &&& r.mode.end_line == last
            &&& r.mode.left_column == lo
            &&& r.mode.right_column == hi
            &&& r.mode.insert_column == col
            &&& r.mode.insert_type == insert_type
            &&& r.mode.typed_text@.len() == 0
            &&& r.cursor == Position { line: first, offset: col as usize }
            &&& r.padding == if first < ls.len() { padding(ls[first as int].len(), col) } else { 0 }
        }),
{
    let mut mode = BlockInsertMode::new();
    mode.reset(select.anchor, cursor, insert_type);
    let first = mode.start_line;
    let col = mode.insert_column;
    let lines = str_lines(data);
    let pad: usize = if first < lines.len() {
        let n = to_chars(lines[first]).len();
        if n < col {
            col - n
        } else {
            0
        }
    } else {
        0
    };
    BlockInsertStart { mode, cursor: Position { line: first, offset: col }, padding: pad }
}

/// Starts typing before the rectangle's left column.
pub fn block_insert(data: &str, select: &SelectBlockMode, cursor: Position) -> (r: BlockInsertStart)
    ensures
        ({
            let (first, last, lo, hi) = corners(select.anchor, cursor);
            let ls = spec_lines(data@);
            &&& r.mode.start_line == first
            &&& r.mode.end_line == last
            &&& r.mode.left_column == lo
            &&& r.mode.right_column == hi
            &&& r.mode.insert_column == lo
            &&& r.mode.insert_type == BlockInsertType::Insert
            &&& r.mode.typed_text@.len() == 0
            &&& r.cursor == Position { line: first, offset: lo }
            &&& r.padding == if first < ls.len() { padding(ls[first as int].len(), lo as int) } else { 0 }
        }),
{
    enter_block_insert(data, select, cursor, BlockInsertType::Insert)
}

/// Starts typing after the rectangle's right column.
pub fn block_append(data: &str, select: &SelectBlockMode, cursor: Position) -> (r: BlockInsertStart)
    requires
        select.anchor.offset < usize::MAX,
        cursor.offset < usize::MAX,
    ensures
        ({
            let (first, last, lo, hi) = corners(select.anchor, cursor);
            let ls = spec_lines(data@);
            &&& r.mode.start_line == first
            &&& r.mode.end_line == last
            &&& r.mode.left_column == lo
            &&& r.mode.right_column == hi
            &&& r.mode.insert_column == hi + 1
            &&& r.mode.insert_type == BlockInsertType::Append
            &&& r.mode.typed_text@.len() == 0
            &&& r.cursor == Position { line: first, offset: (hi + 1) as usize }
            &&& r.padding == if first < ls.len() { padding(ls[first as int].len(), hi + 1) } else { 0 }
        }),
{
    enter_block_insert(data, select, cursor, BlockInsertType::Append)
}

/// The fields of a block insert that typing leaves alone.
pub open spec fn same_block(a: BlockInsertMode, b: BlockInsertMode) -> bool {
    &&& a.start_line == b.start_line
    &&& a.end_line == b.end_line
    &&& a.left_column == b.left_column
    &&& a.right_column == b.right_column
    &&& a.insert_column == b.insert_column
    &&& a.insert_type == b.insert_type
}

/// Records a typed character (the buffer gets it from the caller).
pub fn insert_char(mode: &mut BlockInsertMode, key: Option<Key>)
    ensures
        same_block(*final(mode), *old(mode)),
        final(mode).typed_text@ == match key {
            Some(Key::Char(c)) => old(mode).typed_text@.push(c),
            _ => old(mode).typed_text@,
        },
{
    match key {
        Some(Key::Char(c)) => string_push(&mut mode.typed_text, c),
        _ => {},
    }
}

/// Records a tab (the buffer gets it from the caller).
pub fn insert_tab(mode: &mut BlockInsertMode)
    ensures
        same_block(*final(mode), *old(mode)),
        final(mode).typed_text@ == old(mode).typed_text@.push('\t'),
{
    string_push(&mut mode.typed_text, '\t');
}

/// Takes back the last typed character; `false`, with nothing changed, when nothing was
/// typed, so the caller leaves the buffer alone too.
pub fn backspace(mode: &mut BlockInsertMode) -> (r: bool)
    ensures
        same_block(*final(mode), *old(mode)),
        r == (old(mode).typed_text@.len() > 0),
        final(mode).typed_text@ == if r { old(mode).typed_text@.drop_last() } else { old(mode).typed_text@ },
{
    match string_pop(&mut mode.typed_text) {
        Some(_) => true,
        None => false,
    }
}

/// For lines `i` to `last`: each line and the spaces it needs to reach column `col`.
pub open spec fn fill_plan(ls: Seq<Seq<char>>, i: int, last: int, col: int) -> Seq<(usize, usize)>
    decreases last + 1 - i,
{
    if i > last {
        Seq::empty()
    } else {
        seq![(i as usize, padding(line_len(ls, i), col) as usize)] + fill_plan(ls, i + 1, last, col)
    }
}

/// Finishing a block insert: the other lines of the rectangle that get the typed text,
/// each with the spaces it needs first; nothing when nothing was typed or the rectangle
/// has one line.
pub fn apply_and_exit(mode: &BlockInsertMode, data: &str) -> (r: Vec<(usize, usize)>)
    requires
        mode.end_line < usize::MAX,
    ensures
        r@ == if mode.typed_text@.len() > 0 && mode.start_line < mode.end_line {
            fill_plan(spec_lines(data@), mode.start_line + 1, mode.end_line as int, mode.insert_column as int)
        } else {
            Seq::empty()
        },
{
    let mut plan: Vec<(usize, usize)> = Vec::new();
    if to_chars(mode.typed_text.as_str()).len() == 0 || mode.start_line >= mode.end_line {
        return plan;
    }
    let lines = str_lines(data);
    let ghost ls = spec_lines(data@);
    let last = mode.end_line;
    let col = mode.insert_column;
    let mut i = mode.start_line + 1;
    while i <= last
        invariant
            mode.start_line + 1 <= i <= last + 1,
            last == mode.end_line,
            last < usize::MAX,
            col == mode.insert_column,
            lines@.map_values(|l: &str| l@) == ls,
            ls == spec_lines(data@),
            plan@ + fill_plan(ls, i as int, last as int, col as int) == fill_plan(ls, mode.start_line + 1, last as int, col as int),
        decreases last + 1 - i,
    {
        let chars = line_chars(&lines, i);
        assert(i < ls.len() ==> chars@ == ls[i as int]);
        let n = chars.len();
        let pad: usize = if n < col { col - n } else { 0 };
        let ghost before = plan@;
        plan.push((i, pad));
        assert(before + fill_plan(ls, i as int, last as int, col as int) =~= plan@ + fill_plan(ls, i + 1, last as int, col as int));
        i = i + 1;
    }
    assert(plan@ + Seq::<(usize, usize)>::empty() =~= plan@);
    plan
}

/// Copying then deleting the rectangle: its text, and the deletion.
pub fn copy_and_delete(data: &str, anchor: Position, cursor: Position) -> (r: (String, BlockDeletion))
    requires
        anchor.line < usize::MAX,
        cursor.line < usize::MAX,
    ensures
        ({
            let (first, last, lo, hi) = corners(anchor, cursor);
            let ls = spec_lines(data@);
            &&& r.0@ == block_rows(ls, first as int, last as int, lo as int, hi + 1)
            &&& r.1.ranges@.map_values(|x: Range| (x.start(), x.end())) == deletion_spans(ls, last as int, first as int, lo as int, hi + 1)
            &&& r.1.cursor == Position { line: first, offset: lo }
        }),
{
    let text = block_text(data, anchor, cursor);
    let deletion = delete_block_content(data, anchor, cursor);
    (text, deletion)
}

/// Changing the rectangle: its text is copied and deleted, and typing starts at its
/// top left corner into every line of it.
pub fn change(data: &str, anchor: Position, cursor: Position) -> (r: (String, BlockDeletion, BlockInsertMode))
    requires
        anchor.line < usize::MAX,
        cursor.line < usize::MAX,
    ensures
        ({
            let (first, last, lo, hi) = corners(anchor, cursor);
            let ls = spec_lines(data@);
            &&& r.0@ == block_rows(ls, first as int, last as int, lo as int, hi + 1)
            &&& r.1.ranges@.map_values(|x: Range| (x.start(), x.end())) == deletion_spans(ls, last as int, first as int, lo as int, hi + 1)
            &&& r.1.cursor == Position { line: first, offset: lo }
            &&& r.2.start_line == first
            &&& r.2.end_line == last
            &&& r.2.left_column == lo
            &&& r.2.right_column == lo
            &&& r.2.insert_column == lo
            &&& r.2.insert_type == BlockInsertType::Insert
            &&& r.2.typed_text@.len() == 0
        }),
{
    let text = block_text(data, anchor, cursor);
    let deletion = delete_block_content(data, anchor, cursor);
    let mut mode = BlockInsertMode::new();
    mode.start_line = deletion.first_line;
    mode.end_line = deletion.last_line;
    mode.left_column = deletion.left_column;
    mode.right_column = deletion.left_column;
    mode.insert_column = deletion.left_column;
    (text, deletion, mode)
}

/// Typing a character into a block insert and taking it back with backspace leaves the
/// typed text as it was, and backspace reports that it took something back.
pub proof fn law_type_then_backspace(typed: Seq<char>, c: char)
    ensures
        typed.push(c).len() > 0,
        typed.push(c).drop_last() == typed,
{
    assert(typed.push(c).drop_last() =~= typed);
}

} // verus!
