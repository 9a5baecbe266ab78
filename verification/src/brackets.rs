//! Brackets in a buffer's text: the bracket that matches the one at the cursor (`%`),
//! and the braces around the cursor that delimit a function body.
use vstd::prelude::*;
use crate::modes::{before, Position, Range};
use crate::text::{spec_lines, str_lines, to_chars, trim, trim_white};

verus! {

/// Every character of the lines with its position, line by line.
pub open spec fn flat_chars(lines: Seq<Seq<char>>) -> Seq<(char, Position)>
    decreases lines.len(),
{
    if lines.len() == 0 {
        seq![]
    } else {
        let k = lines.len() - 1;
        flat_chars(lines.drop_last()) + line_chars(lines.last(), k)
    }
}

/// The characters of line `k` with their positions.
pub open spec fn line_chars(line: Seq<char>, k: int) -> Seq<(char, Position)> {
    Seq::new(line.len(), |o: int| (line[o], Position { line: k as usize, offset: o as usize }))
}

proof fn lemma_flat_positions(lines: Seq<Seq<char>>)
    requires
        lines.len() <= usize::MAX,
        forall|i: int| 0 <= i < lines.len() ==> #[trigger] lines[i].len() <= usize::MAX,
    ensures
        forall|i: int| 0 <= i < flat_chars(lines).len() ==> {
            let p = (#[trigger] flat_chars(lines)[i]).1;
            &&& p.line < lines.len()
            &&& p.offset < lines[p.line as int].len()
            &&& flat_chars(lines)[i].0 == lines[p.line as int][p.offset as int]
        },
    decreases lines.len(),
{
    if lines.len() > 0 {
        lemma_flat_positions(lines.drop_last());
        let f0 = flat_chars(lines.drop_last());
        let f = flat_chars(lines);
        assert forall|i: int| 0 <= i < f.len() implies {
            let p = (#[trigger] f[i]).1;
            &&& p.line < lines.len()
            &&& p.offset < lines[p.line as int].len()
            &&& f[i].0 == lines[p.line as int][p.offset as int]
        } by {
            if i < f0.len() {
                assert(f[i] == f0[i]);
                let p = f0[i].1;
                assert(lines.drop_last()[p.line as int] == lines[p.line as int]);
            } else {
                assert(f[i] == line_chars(lines.last(), lines.len() - 1)[i - f0.len()]);
                assert(lines.last() == lines[lines.len() - 1]);
            }
        }
    }
}

/// The characters of the text's lines with their positions.
fn flatten(lines: &Vec<&str>) -> (f: Vec<(char, Position)>)
    ensures
        f@ == flat_chars(lines@.map_values(|l: &str| l@)),
        forall|i: int| 0 <= i < f@.len() ==> (#[trigger] f@[i]).1.line < lines@.len(),
{
    let ghost ls = lines@.map_values(|l: &str| l@);
    let mut f: Vec<(char, Position)> = Vec::new();
    let mut li: usize = 0;
    while li < lines.len()
        invariant
            ls == lines@.map_values(|l: &str| l@),
            li <= lines@.len(),
            f@ == flat_chars(ls.take(li as int)),
            forall|i: int| 0 <= i < f@.len() ==> (#[trigger] f@[i]).1.line < li,
        decreases lines@.len() - li,
    {
        let chars = to_chars(lines[li]);
        assert(chars@ == ls[li as int]);
        let ghost start = f@;
        let mut o: usize = 0;
        while o < chars.len()
            invariant
                o <= chars@.len(),
                li < lines@.len(),
                f@ == start + line_chars(chars@, li as int).take(o as int),
                forall|i: int| 0 <= i < f@.len() ==> (#[trigger] f@[i]).1.line < li + 1,
            decreases chars@.len() - o,
        {
            f.push((chars[o], Position { line: li, offset: o }));
            o = o + 1;
            assert(f@ =~= start + line_chars(chars@, li as int).take(o as int));
        }
        assert(line_chars(chars@, li as int).take(chars@.len() as int) == line_chars(chars@, li as int));
        assert(ls.take(li + 1).drop_last() == ls.take(li as int));
        li = li + 1;
    }
    assert(ls.take(lines@.len() as int) == ls);
    f
}

/// The brackets and which way each one's partner lies: `(open, close, forward)`.
pub open spec fn spec_bracket_pair(c: char) -> Option<(char, char, bool)> {
    if c == '(' {
        Some(('(', ')', true))
    } else if c == ')' {
        Some(('(', ')', false))
    } else if c == '[' {
        Some(('[', ']', true))
    } else if c == ']' {
        Some(('[', ']', false))
    } else if c == '{' {
        Some(('{', '}', true))
    } else if c == '}' {
        Some(('{', '}', false))
    } else {
        None
    }
}

/// Returns (opening_bracket, closing_bracket, search_forward) for a given bracket.
pub fn bracket_pair(ch: char) -> (r: Option<(char, char, bool)>)
    ensures
        r == spec_bracket_pair(ch),
{
    if ch == '(' {
        Some(('(', ')', true))
    } else if ch == ')' {
        Some(('(', ')', false))
    } else if ch == '[' {
        Some(('[', ']', true))
    } else if ch == ']' {
        Some(('[', ']', false))
    } else if ch == '{' {
        Some(('{', '}', true))
    } else if ch == '}' {
        Some(('{', '}', false))
    } else {
        None
    }
}

pub fn is_bracket(ch: char) -> (r: bool)
    ensures
        r == (spec_bracket_pair(ch) is Some),
{
    bracket_pair(ch).is_some()
}

/// Going forward from index `i` at nesting `depth`, the index where the nesting returns
/// to zero: `open` goes one deeper, `close` one out.
pub open spec fn match_forward(f: Seq<(char, Position)>, i: int, depth: int, open: char, close: char) -> Option<int>
    decreases f.len() - i,
{
    if i < 0 || i >= f.len() {
        None
    } else if f[i].0 == open {
        match_forward(f, i + 1, depth + 1, open, close)
    } else if f[i].0 == close {
        if depth - 1 == 0 {
            Some(i)
        } else {
            match_forward(f, i + 1, depth - 1, open, close)
        }
    } else {
        match_forward(f, i + 1, depth, open, close)
    }
}

/// Going backward from index `i - 1` at nesting `depth`, the index where the nesting
/// returns to zero: `close` goes one deeper, `open` one out.
pub open spec fn match_backward(f: Seq<(char, Position)>, i: int, depth: int, open: char, close: char) -> Option<int>
    decreases i,
{
    if i <= 0 || i > f.len() {
        None
    } else if f[i - 1].0 == close {
        match_backward(f, i - 1, depth + 1, open, close)
    } else if f[i - 1].0 == open {
        if depth - 1 == 0 {
            Some(i - 1)
        } else {
            match_backward(f, i - 1, depth - 1, open, close)
        }
    } else {
        match_backward(f, i - 1, depth, open, close)
    }
}

fn match_forward_exec(f: &Vec<(char, Position)>, start: usize, open: char, close: char) -> (r: Option<usize>)
    requires
        start <= f@.len(),
    ensures
        r is Some <==> match_forward(f@, start as int, 1, open, close) is Some,
        r matches Some(j) ==> start <= j < f@.len() && match_forward(f@, start as int, 1, open, close) == Some(j as int),
{
    let mut depth: u128 = 1;
    let mut i = start;
    while i < f.len()
        invariant
            start <= i <= f@.len(),
            i - start + 1 >= depth >= 1,
            match_forward(f@, i as int, depth as int, open, close) == match_forward(f@, start as int, 1, open, close),
        decreases f@.len() - i,
    {
        let c = f[i].0;
        if c == open {
            depth = depth + 1;
        } else if c == close {
            depth = depth - 1;
            if depth == 0 {
                return Some(i);
            }
        }
        i = i + 1;
    }
    None
}

fn match_backward_exec(f: &Vec<(char, Position)>, end: usize, open: char, close: char) -> (r: Option<usize>)
    requires
        end <= f@.len(),
    ensures
        r is Some <==> match_backward(f@, end as int, 1, open, close) is Some,
        r matches Some(j) ==> j < end && match_backward(f@, end as int, 1, open, close) == Some(j as int),
{
    let mut depth: u128 = 1;
    let mut i = end;
    while i > 0
        invariant
            i <= end <= f@.len(),
            end - i + 1 >= depth >= 1,
            match_backward(f@, i as int, depth as int, open, close) == match_backward(f@, end as int, 1, open, close),
        decreases i,
    {
        let c = f[i - 1].0;
        if c == close {
            depth = depth + 1;
        } else if c == open {
            depth = depth - 1;
            if depth == 0 {
                return Some(i - 1);
            }
        }
        i = i - 1;
    }
    None
}

/// The first index from `i` on whose position is on `line` at or after `offset`; the
/// length of `f` if none is.
pub open spec fn first_at_or_after(f: Seq<(char, Position)>, i: int, line: usize, offset: usize) -> int
    decreases f.len() - i,
{
    if i < 0 || i >= f.len() {
        f.len() as int
    } else if f[i].1.line == line && f[i].1.offset >= offset {
        i
    } else {
        first_at_or_after(f, i + 1, line, offset)
    }
}

/// The first bracket from index `i` on, before the text passes `line`.
pub open spec fn bracket_from(f: Seq<(char, Position)>, i: int, line: usize) -> Option<int>
    decreases f.len() - i,
{
    if i < 0 || i >= f.len() {
        None
    } else if f[i].1.line > line {
        None
    } else if spec_bracket_pair(f[i].0) is Some {
        Some(i)
    } else {
        bracket_from(f, i + 1, line)
    }
}

fn first_bracket(f: &Vec<(char, Position)>, from: usize, line: usize) -> (r: Option<usize>)
    requires
        from <= f@.len(),
    ensures
        r is Some <==> bracket_from(f@, from as int, line) is Some,
        r matches Some(b) ==> b < f@.len() && spec_bracket_pair(f@[b as int].0) is Some
            && bracket_from(f@, from as int, line) == Some(b as int),
{
    let mut i = from;
    while i < f.len()
        invariant
            from <= i <= f@.len(),
            bracket_from(f@, i as int, line) == bracket_from(f@, from as int, line),
        decreases f@.len() - i,
    {
        if f[i].1.line > line {
            return None;
        }
        if is_bracket(f[i].0) {
            return Some(i);
        }
        i = i + 1;
    }
    None
}

/// Vim's `%`: the first bracket on the cursor line at or after the cursor, and the
/// position of its partner, found by nesting depth.
pub open spec fn matching_bracket(lines: Seq<Seq<char>>, line: usize, offset: usize) -> Option<Position> {
    let f = flat_chars(lines);
    match bracket_from(f, first_at_or_after(f, 0, line, offset), line) {
        None => None,
        Some(b) => {
            let (open, close, forward) = spec_bracket_pair(f[b].0)->0;
            let m = if forward {
                match_forward(f, b + 1, 1, open, close)
            } else {
                match_backward(f, b, 1, open, close)
            };
            match m {
                Some(j) => Some(f[j].1),
                None => None,
            }
        },
    }
}

/// The position of the bracket matching the first bracket at or after the cursor on its
/// line.
pub fn find_matching_bracket(data: &str, start_line: usize, start_offset: usize) -> (r: Option<Position>)
    ensures
        r == matching_bracket(spec_lines(data@), start_line, start_offset),
{
    let lines = str_lines(data);
    let all_chars = flatten(&lines);
    let ghost f = all_chars@;
    assert(f == flat_chars(spec_lines(data@)));
    let mut cursor_flat_idx: usize = 0;
    while cursor_flat_idx < all_chars.len()
        && !(all_chars[cursor_flat_idx].1.line == start_line && all_chars[cursor_flat_idx].1.offset >= start_offset)
        invariant
            cursor_flat_idx <= f.len(),
            f == all_chars@,
            first_at_or_after(f, cursor_flat_idx as int, start_line, start_offset) == first_at_or_after(f, 0, start_line, start_offset),
        decreases f.len() - cursor_flat_idx,
    {
        cursor_flat_idx = cursor_flat_idx + 1;
    }
    let bracket_idx = first_bracket(&all_chars, cursor_flat_idx, start_line);
    let b = match bracket_idx {
        Some(b) => b,
        None => {
            return None;
        },
    };
    let (open, close, forward) = match bracket_pair(all_chars[b].0) {
        Some(p) => p,
        None => return None,
    };
    let m = if forward {
        match_forward_exec(&all_chars, b + 1, open, close)
    } else {
        match_backward_exec(&all_chars, b, open, close)
    };
    proof {
        let sm = if forward {
            match_forward(f, b + 1, 1, open, close)
        } else {
            match_backward(f, b as int, 1, open, close)
        };
        assert(bracket_from(f, first_at_or_after(f, 0, start_line, start_offset), start_line) == Some(b as int));
        assert(spec_bracket_pair(f[b as int].0) == Some((open, close, forward)));
        assert(m is Some <==> sm is Some);
        assert(m matches Some(j) ==> sm == Some(j as int));
    }
    match m {
        Some(j) => Some(all_chars[j].1),
        None => None,
    }
}

/// Why a bracket command found nothing to do.
#[derive(Debug, Clone, Copy, PartialEq, Eq, Structural)]
pub enum BracketError {
    /// `%` found no bracket on the cursor line at or after the cursor, or no partner.
    NoMatchingBracket,
    /// No braces enclose the cursor.
    NoEnclosingFunction,
}

/// `%`: where the cursor goes, the partner of the first bracket at or after it on its
/// line.
pub fn match_bracket(data: &str, cursor_line: usize, cursor_offset: usize) -> (r: Result<Position, BracketError>)
    ensures
        match matching_bracket(spec_lines(data@), cursor_line, cursor_offset) {
            Some(p) => r == Ok::<Position, BracketError>(p),
            None => r == Err::<Position, BracketError>(BracketError::NoMatchingBracket),
        },
{
    match find_matching_bracket(data, cursor_line, cursor_offset) {
        Some(p) => Ok(p),
        None => Err(BracketError::NoMatchingBracket),
    }
}

/// The index of the `{` at `p`, if there is one.
pub open spec fn brace_at(f: Seq<(char, Position)>, i: int, p: Position) -> Option<int>
    decreases f.len() - i,
{
    if i < 0 || i >= f.len() {
        None
    } else if f[i].0 == '{' && f[i].1 == p {
        Some(i)
    } else {
        brace_at(f, i + 1, p)
    }
}

/// The position of the `}` that closes the `{` at `p`.
pub open spec fn brace_partner(f: Seq<(char, Position)>, p: Position) -> Option<Position> {
    match brace_at(f, 0, p) {
        None => None,
        Some(i) => match match_forward(f, i + 1, 1, '{', '}') {
            Some(j) => Some(f[j].1),
            None => None,
        },
    }
}

/// Whether `a` is at or before `b`.
pub open spec fn at_or_before(a: Position, b: Position) -> bool {
    !before(b, a)
}

/// A `{` at index `i` that the cursor sits within: it is at or before the cursor, and its
/// partner is at or after it.
pub open spec fn encloses(f: Seq<(char, Position)>, i: int, cursor: Position) -> bool {
    &&& f[i].0 == '{'
    &&& at_or_before(f[i].1, cursor)
    &&& match brace_partner(f, f[i].1) {
        Some(close) => at_or_before(cursor, close),
        None => false,
    }
}

/// The last index below `n` of a brace that encloses the cursor.
pub open spec fn last_enclosing(f: Seq<(char, Position)>, n: int, cursor: Position) -> Option<int>
    decreases n,
{
    if n <= 0 || n > f.len() {
        None
    } else if encloses(f, n - 1, cursor) {
        Some(n - 1)
    } else {
        last_enclosing(f, n - 1, cursor)
    }
}

/// The innermost braces around the cursor (the enclosing `{` nearest before it), as the
/// positions of `{` and `}`; none when the cursor line is past the text.
pub open spec fn enclosing_pair(lines: Seq<Seq<char>>, cursor: Position) -> Option<(Position, Position)> {
    let f = flat_chars(lines);
    if cursor.line >= lines.len() {
        None
    } else {
        match last_enclosing(f, f.len() as int, cursor) {
            None => None,
            Some(i) => Some((f[i].1, brace_partner(f, f[i].1)->0)),
        }
    }
}

fn brace_at_exec(f: &Vec<(char, Position)>, p: Position) -> (r: Option<usize>)
    ensures
        r is Some <==> brace_at(f@, 0, p) is Some,
        r matches Some(i) ==> i < f@.len() && brace_at(f@, 0, p) == Some(i as int),
{
    let mut i: usize = 0;
    while i < f.len()
        invariant
            i <= f@.len(),
            brace_at(f@, i as int, p) == brace_at(f@, 0, p),
        decreases f@.len() - i,
    {
        if f[i].0 == '{' && f[i].1.line == p.line && f[i].1.offset == p.offset {
            return Some(i);
        }
        i = i + 1;
    }
    None
}

/// The position of the `}` that closes the `{` at `p`.
fn match_bracket_forward(f: &Vec<(char, Position)>, p: Position) -> (r: Option<Position>)
    ensures
        r == brace_partner(f@, p),
        r matches Some(q) ==> exists|j: int| 0 <= j < f@.len() && #[trigger] f@[j] == (f@[j].0, q),
{
    match brace_at_exec(f, p) {
        None => None,
        Some(i) => {
            assert(i < f.len());
            let next = i + 1;
            match match_forward_exec(f, next, '{', '}') {
                Some(j) => Some(f[j].1),
                None => None,
            }
        },
    }
}

/// Find the innermost { } pair that contains the cursor position.
/// Search backward from cursor for a '{', then match forward to '}'.
/// If cursor is inside, return (open_pos, close_pos).
pub fn find_enclosing_brace_pair(data: &str, cursor_line: usize, cursor_offset: usize) -> (r: Option<(Position, Position)>)
    ensures
        r == enclosing_pair(spec_lines(data@), Position { line: cursor_line, offset: cursor_offset }),
        r matches Some((o, c)) ==> c.line < spec_lines(data@).len(),
{
    let lines = str_lines(data);
    if cursor_line >= lines.len() {
        return None;
    }
    let f = flatten(&lines);
    let ghost fv = f@;
    assert(fv == flat_chars(spec_lines(data@)));
    let cursor = Position { line: cursor_line, offset: cursor_offset };
    let mut n = f.len();
    while n > 0
        invariant
            n <= fv.len(),
            fv == f@,
            fv == flat_chars(spec_lines(data@)),
            lines@.map_values(|l: &str| l@) == spec_lines(data@),
            cursor_line < lines@.len(),
            cursor == (Position { line: cursor_line, offset: cursor_offset }),
            forall|i: int| 0 <= i < f@.len() ==> (#[trigger] f@[i]).1.line < lines@.len(),
            last_enclosing(fv, n as int, cursor) == last_enclosing(fv, fv.len() as int, cursor),
        decreases n,
    {
        let i = n - 1;
        let (ch, pos) = f[i];
        if ch == '{' && !(cursor_line < pos.line || (cursor_line == pos.line && cursor_offset < pos.offset)) {
            match match_bracket_forward(&f, pos) {
                Some(close) => {
                    proof {
                        let j = choose|j: int| 0 <= j < f@.len() && #[trigger] f@[j] == (f@[j].0, close);
                        assert(f@[j].1.line < lines@.len());
                    }
                    if !(close.line < cursor_line || (close.line == cursor_line && close.offset < cursor_offset)) {
                        return Some((pos, close));
                    }
                },
                None => {},
            }
        }
        n = n - 1;
    }
    None
}

/// The first line of a signature ending at `line`: walking up, a blank line or one that
/// starts (after white space) with `}` or `#` ends the walk.
pub open spec fn signature_start_from(lines: Seq<Seq<char>>, line: int, current: int) -> int
    decreases line,
{
    if line <= 0 {
        current
    } else {
        let idx = line - 1;
        let t = if idx < lines.len() { trim_white(lines[idx]) } else { Seq::empty() };
        if t.len() == 0 || t[0] == '}' || t[0] == '#' {
            current
        } else {
            signature_start_from(lines, idx, idx)
        }
    }
}

/// Walk backward from the '{' line to find where the function signature starts.
/// Stops at the first line that looks like a declaration beginning.
pub fn find_signature_start(data: &str, brace_line: usize) -> (r: usize)
    ensures
        r == signature_start_from(spec_lines(data@), brace_line as int, brace_line as int),
{
    let lines = str_lines(data);
    let ghost ls = spec_lines(data@);
    let mut sig_line = brace_line;
    let mut idx = brace_line;
    while idx > 0
        invariant
            lines@.map_values(|l: &str| l@) == ls,
            ls == spec_lines(data@),
            sig_line == idx,
            signature_start_from(ls, idx as int, sig_line as int) == signature_start_from(ls, brace_line as int, brace_line as int),
        decreases idx,
    {
        let line_idx = idx - 1;
        let t = if line_idx < lines.len() { trim(&to_chars(lines[line_idx])) } else { Vec::new() };
        if t.len() == 0 || t[0] == '}' || t[0] == '#' {
            return sig_line;
        }
        sig_line = line_idx;
        idx = line_idx;
    }
    sig_line
}

/// The text `daf` deletes: from the start of the signature's first line to the end of
/// the line of the closing brace (its length in bytes).
pub fn delete_around_function(data: &str, cursor_line: usize, cursor_offset: usize) -> (r: Result<Range, BracketError>)
    ensures
        ({
            let ls = spec_lines(data@);
            match enclosing_pair(ls, Position { line: cursor_line, offset: cursor_offset }) {
                None => r == Err::<Range, BracketError>(BracketError::NoEnclosingFunction),
                Some((open, close)) => {
                    let start = Position {
                        line: signature_start_from(ls, open.line as int, open.line as int) as usize,
                        offset: 0,
                    };
                    let end = Position {
                        line: close.line,
                        offset: vstd::utf8::encode_utf8(ls[close.line as int]).len() as usize,
                    };
                    r matches Ok(range) && if before(end, start) {
                        range.start() == end && range.end() == start
                    } else {
                        range.start() == start && range.end() == end
                    }
                },
            }
        }),
{
    let (open, close) = match find_enclosing_brace_pair(data, cursor_line, cursor_offset) {
        Some(pair) => pair,
        None => return Err(BracketError::NoEnclosingFunction),
    };
    let sig_start_line = find_signature_start(data, open.line);
    let lines = str_lines(data);
    assert(lines@[close.line as int]@ == spec_lines(data@)[close.line as int]);
    let close_line_len = lines[close.line].len();
    let start = Position { line: sig_start_line, offset: 0 };
    let end = Position { line: close.line, offset: close_line_len };
    Ok(Range::new(start, end))
}

/// Opening minus closing brackets among the characters `a..b` of `f`.
pub open spec fn bracket_balance(f: Seq<(char, Position)>, a: int, b: int, open: char, close: char) -> int
    decreases b - a,
{
    if a >= b {
        0
    } else {
        (if f[a].0 == open { 1int } else if f[a].0 == close { -1int } else { 0int }) + bracket_balance(f, a + 1, b, open, close)
    }
}

proof fn lemma_balance_split(f: Seq<(char, Position)>, a: int, b: int, c: int, open: char, close: char)
    requires
        a <= b <= c,
    ensures
        bracket_balance(f, a, c, open, close) == bracket_balance(f, a, b, open, close) + bracket_balance(f, b, c, open, close),
    decreases b - a,
{
    if a < b {
        lemma_balance_split(f, a + 1, b, c, open, close);
    }
}

proof fn lemma_forward_balanced(f: Seq<(char, Position)>, i: int, depth: int, open: char, close: char)
    requires
        open != close,
        depth >= 1,
        i >= 0,
    ensures
        match_forward(f, i, depth, open, close) matches Some(j) ==> {
            &&& i <= j < f.len()
            &&& f[j].0 == close
            &&& depth + bracket_balance(f, i, j, open, close) == 1
            &&& forall|k: int| i <= k <= j ==> depth + #[trigger] bracket_balance(f, i, k, open, close) >= 1
        },
    decreases f.len() - i,
{
    if 0 <= i < f.len() {
        let d2 = if f[i].0 == open { depth + 1 } else if f[i].0 == close { depth - 1 } else { depth };
        if !(f[i].0 == close && depth - 1 == 0) {
            lemma_forward_balanced(f, i + 1, d2, open, close);
        }
        match match_forward(f, i, depth, open, close) {
            Some(j) => {
                assert forall|k: int| i <= k <= j implies depth + #[trigger] bracket_balance(f, i, k, open, close) >= 1 by {
                    if k > i {
                        assert(bracket_balance(f, i, k, open, close) == (d2 - depth) + bracket_balance(f, i + 1, k, open, close));
                    }
                }
                if j > i {
                    assert(bracket_balance(f, i, j, open, close) == (d2 - depth) + bracket_balance(f, i + 1, j, open, close));
                }
            },
            None => {},
        }
    }
}

proof fn lemma_backward_balanced(f: Seq<(char, Position)>, i: int, depth: int, open: char, close: char)
    requires
        open != close,
        depth >= 1,
        i <= f.len(),
    ensures
        match_backward(f, i, depth, open, close) matches Some(j) ==> {
            &&& 0 <= j < i
            &&& f[j].0 == open
            &&& depth - bracket_balance(f, j + 1, i, open, close) == 1
            &&& forall|k: int| j + 1 <= k <= i ==> depth - #[trigger] bracket_balance(f, k, i, open, close) >= 1
        },
    decreases i,
{
    if 0 < i <= f.len() {
        let c = f[i - 1].0;
        let d2 = if c == close { depth + 1 } else if c == open { depth - 1 } else { depth };
        assert(bracket_balance(f, i, i, open, close) == 0);
        assert(bracket_balance(f, i - 1, i, open, close) == depth - d2);
        if !(c == open && depth - 1 == 0) {
            lemma_backward_balanced(f, i - 1, d2, open, close);
        }
        match match_backward(f, i, depth, open, close) {
            Some(j) => {
                assert forall|k: int| j + 1 <= k <= i implies depth - #[trigger] bracket_balance(f, k, i, open, close) >= 1 by {
                    if k < i {
                        lemma_balance_split(f, k, i - 1, i, open, close);
                        assert(bracket_balance(f, i - 1, i, open, close) == depth - d2);
                    }
                }
                if j + 1 < i {
                    lemma_balance_split(f, j + 1, i - 1, i, open, close);
                    assert(bracket_balance(f, i - 1, i, open, close) == depth - d2);
                }
            },
            None => {},
        }
    }
}

/// The partner found for a bracket encloses a balanced stretch. Searching forward from
/// just after an opening bracket, the partner is a closing bracket, the characters
/// between hold as many opening as closing brackets, and no start of them holds more
/// closing than opening ones. Searching backward from just before a closing bracket,
/// the partner is an opening bracket, the characters between are balanced, and no end
/// of them holds more opening than closing ones.
pub proof fn law_partner_encloses_balanced_text(f: Seq<(char, Position)>, start: int, open: char, close: char)
    requires
        open != close,
        0 <= start <= f.len(),
    ensures
        match_forward(f, start, 1, open, close) matches Some(j) ==> {
            &&& start <= j < f.len()
            &&& f[j].0 == close
            &&& bracket_balance(f, start, j, open, close) == 0
            &&& forall|k: int| start <= k <= j ==> #[trigger] bracket_balance(f, start, k, open, close) >= 0
        },
        match_backward(f, start, 1, open, close) matches Some(j) ==> {
            &&& 0 <= j < start
            &&& f[j].0 == open
            &&& bracket_balance(f, j + 1, start, open, close) == 0
            &&& forall|k: int| j + 1 <= k <= start ==> #[trigger] bracket_balance(f, k, start, open, close) <= 0
        },
{
    lemma_forward_balanced(f, start, 1, open, close);
    lemma_backward_balanced(f, start, 1, open, close);
}

/// Each bracket belongs to its own pair: `(` with `)`, `[` with `]`, `{` with `}`; an
/// opening bracket looks for its partner forward and a closing one backward; nothing
/// else is a bracket.
pub proof fn law_bracket_pairs(c: char)
    ensures
        spec_bracket_pair(c) matches Some((o, cl, forward)) ==> o != cl && (forward ==> c == o) && (!forward ==> c == cl)
            && ((o == '(' && cl == ')') || (o == '[' && cl == ']') || (o == '{' && cl == '}')),
        (c == '(' || c == ')' || c == '[' || c == ']' || c == '{' || c == '}') <==> spec_bracket_pair(c) is Some,
{
}

} // verus!
