//! The ripgrep results buffer: telling result lines from headings, moving to the next
//! or previous result, and reading the file, line and column a result points at.
use vstd::prelude::*;
use crate::tags::{
    extract_word_at, first_index_of, is_digit, parse_decimal, parse_usize, word_at,
};
use crate::text::{
    chars_start_with, seq_starts_with, spec_lines, str_lines, string_from_chars, sub_chars, to_chars,
    trim, trim_start_white, trim_white, is_whitespace,
};

verus! {

/// How many decimal digits `s` begins with.
pub open spec fn digit_run(s: Seq<char>) -> int
    decreases s.len(),
{
    if s.len() > 0 && is_digit(s[0]) {
        1 + digit_run(s.skip(1))
    } else {
        0
    }
}

/// A result line: after leading white space, digits and then a colon (`10:5:match`),
/// unlike a file heading, an empty line or a header.
pub open spec fn is_result_line(line: Seq<char>) -> bool {
    let t = trim_start_white(line);
    t.len() > 0 && is_digit(t[0]) && digit_run(t) < t.len() && t[digit_run(t)] == ':'
}

fn trim_start_chars(s: &Vec<char>) -> (r: Vec<char>)
    ensures
        r@ == trim_start_white(s@),
{
    let mut start: usize = 0;
    assert(s@.skip(0) == s@);
    while start < s.len() && is_whitespace(s[start])
        invariant
            start <= s@.len(),
            trim_start_white(s@.skip(start as int)) == trim_start_white(s@),
        decreases s@.len() - start,
    {
        assert(s@.skip(start as int).skip(1) == s@.skip(start + 1));
        start = start + 1;
    }
    sub_chars(s, start, s.len())
}

fn is_digit_exec(c: char) -> (r: bool)
    ensures
        r == is_digit(c),
{
    let u = c as u32;
    48 <= u && u <= 57
}

/// Checks if a line is an actual search result (e.g., "10:5:match")
/// and not a file heading, empty line, or header text.
pub fn is_result_line_exec(line: &Vec<char>) -> (r: bool)
    ensures
        r == is_result_line(line@),
{
    let t = trim_start_chars(line);
    if t.len() == 0 || !is_digit_exec(t[0]) {
        return false;
    }
    let mut k: usize = 0;
    assert(t@.skip(0) == t@);
    while k < t.len() && is_digit_exec(t[k])
        invariant
            k <= t@.len(),
            k + digit_run(t@.skip(k as int)) == digit_run(t@),
        decreases t@.len() - k,
    {
        assert(t@.skip(k as int).skip(1) == t@.skip(k + 1));
        k = k + 1;
    }
    k < t.len() && t[k] == ':'
}

/// One step through the lines: forward wraps from the last line to the first, backward
/// from the first to the last.
pub open spec fn step_line(cur: int, total: int, forward: bool) -> int {
    if forward {
        if cur + 1 >= total {
            0
        } else {
            cur + 1
        }
    } else if cur == 0 {
        total - 1
    } else {
        cur - 1
    }
}

/// The first result line met stepping from `cur`, in at most `steps` steps.
pub open spec fn scan_results(lines: Seq<Seq<char>>, cur: int, forward: bool, steps: nat) -> Option<int>
    decreases steps,
{
    if steps == 0 {
        None
    } else {
        let next = step_line(cur, lines.len() as int, forward);
        if 0 <= next < lines.len() && is_result_line(lines[next]) {
            Some(next)
        } else {
            scan_results(lines, next, forward, (steps - 1) as nat)
        }
    }
}

/// Why a ripgrep result could not be followed.
#[derive(Debug, Clone, Copy, PartialEq, Eq, Structural)]
pub enum RgError {
    /// No word under the cursor to search for.
    NoWordUnderCursor,
    /// The results buffer has no lines.
    EmptyBuffer,
    /// The cursor is past the last line.
    NoLine,
    /// The line is a heading, a header or empty.
    NotAResultLine,
    /// The line has no `:`.
    Unparsable,
    /// The line number does not read.
    BadLineNumber,
    /// No file heading above the result.
    NoFilePath,
}

/// The line the cursor moves to for the next (`forward`) or previous result: the first
/// result line met going round the buffer once from the cursor line, else the cursor
/// line itself.
pub fn navigate_result(data: &str, cursor_line: usize, forward: bool) -> (r: Result<usize, RgError>)
    ensures
        spec_lines(data@).len() == 0 ==> r == Err::<usize, RgError>(RgError::EmptyBuffer),
        spec_lines(data@).len() > 0 ==> r == Ok::<usize, RgError>(
            match scan_results(spec_lines(data@), cursor_line as int, forward, spec_lines(data@).len()) {
                Some(l) => l as usize,
                None => cursor_line,
            },
        ),
{
    let lines = str_lines(data);
    let ghost ls = spec_lines(data@);
    let total = lines.len();
    if total == 0 {
        return Err(RgError::EmptyBuffer);
    }
    let mut current = cursor_line;
    let mut n: usize = 0;
    while n < total
        invariant
            lines@.map_values(|l: &str| l@) == ls,
            ls == spec_lines(data@),
            total == ls.len(),
            total > 0,
            n <= total,
            scan_results(ls, cursor_line as int, forward, total as nat) == scan_results(ls, current as int, forward, (total - n) as nat),
        decreases total - n,
    {
        current = if forward {
            if current >= total - 1 {
                0
            } else {
                current + 1
            }
        } else if current == 0 {
            total - 1
        } else {
            current - 1
        };
        if current < total {
            let line = to_chars(lines[current]);
            assert(line@ == ls[current as int]);
            if is_result_line_exec(&line) {
                return Ok(current);
            }
        }
        n = n + 1;
    }
    Ok(cursor_line)
}

/// The line number text and, with two colons, the column text of a result line.
pub open spec fn result_fields(line: Seq<char>) -> Option<(Seq<char>, Option<Seq<char>>)> {
    let c1 = first_index_of(line, ':');
    if c1 < 0 {
        None
    } else {
        let rest = line.skip(c1 + 1);
        let c2 = first_index_of(rest, ':');
        Some((line.take(c1), if c2 >= 0 { Some(rest.take(c2)) } else { None }))
    }
}

/// A line that ends the search for a file heading, or that is no result at all.
pub open spec fn is_header(line: Seq<char>) -> bool {
    line.len() == 0 || seq_starts_with(line, "Searching for:"@) || seq_starts_with(line, "No matches"@)
}

/// The file heading above line `i`: walking up from `i - 1`, a header or empty line ends
/// the walk, and the first line that does not start with a digit (after white space) is
/// the heading.
pub open spec fn heading_above(lines: Seq<Seq<char>>, i: int) -> Option<Seq<char>>
    decreases i,
{
    if i <= 0 || i > lines.len() {
        None
    } else {
        let prev = lines[i - 1];
        if is_header(prev) {
            None
        } else {
            let t = trim_start_white(prev);
            if !(t.len() > 0 && is_digit(t[0])) {
                Some(trim_white(prev))
            } else {
                heading_above(lines, i - 1)
            }
        }
    }
}

/// Where a result points: the file heading above it, and the zero-based line and column.
pub struct ResultLocation {
    pub file: String,
    pub line: usize,
    pub column: usize,
}

/// The file heading above line `line_idx` (see `heading_above`).
fn find_heading(lines: &Vec<&str>, line_idx: usize) -> (r: Option<Vec<char>>)
    requires
        line_idx < lines@.len(),
    ensures
        match heading_above(lines@.map_values(|l: &str| l@), line_idx as int) {
            Some(h) => r matches Some(f) && f@ == h,
            None => r is None,
        },
{
    let ghost ls = lines@.map_values(|l: &str| l@);
    let mut i = line_idx;
    while i > 0
        invariant
            ls == lines@.map_values(|l: &str| l@),
            i <= line_idx < ls.len(),
            heading_above(ls, i as int) == heading_above(ls, line_idx as int),
        decreases i,
    {
        let prev = to_chars(lines[i - 1]);
        assert(prev@ == ls[i - 1]);
        if prev.len() == 0 || chars_start_with(&prev, &to_chars("Searching for:")) || chars_start_with(&prev, &to_chars("No matches")) {
            return None;
        }
        let t = trim_start_chars(&prev);
        if !(t.len() > 0 && is_digit_exec(t[0])) {
            return Some(trim(&prev));
        }
        i = i - 1;
    }
    None
}

/// Reads the result on line `line_idx` of the results: its file heading, its line
/// number and, when given, its column (both made zero-based; a missing column is the
/// first).
pub fn result_location(data: &str, line_idx: usize) -> (r: Result<ResultLocation, RgError>)
    ensures
        ({
            let ls = spec_lines(data@);
            if line_idx >= ls.len() {
                r == Err::<ResultLocation, RgError>(RgError::NoLine)
            } else {
                let line = ls[line_idx as int];
                if is_header(line) {
                    r == Err::<ResultLocation, RgError>(RgError::NotAResultLine)
                } else {
                    match result_fields(line) {
                        None => r == Err::<ResultLocation, RgError>(RgError::Unparsable),
                        Some((num, col)) => match parse_usize(num) {
                            None => r == Err::<ResultLocation, RgError>(RgError::BadLineNumber),
                            Some(n) => match heading_above(ls, line_idx as int) {
                                None => r == Err::<ResultLocation, RgError>(RgError::NoFilePath),
                                Some(file) => r matches Ok(loc) && loc.file@ == file
                                    && loc.line == (if n > 0 { n - 1 } else { 0 })
                                    && loc.column == match col {
                                        Some(c) => match parse_usize(c) {
                                            Some(k) => if k > 0 { k - 1 } else { 0 },
                                            None => 0,
                                        },
                                        None => 0,
                                    },
                            },
                        },
                    }
                }
            }
        }),
{
    let lines = str_lines(data);
    let ghost ls = spec_lines(data@);
    if line_idx >= lines.len() {
        return Err(RgError::NoLine);
    }
    let line = to_chars(lines[line_idx]);
    assert(line@ == ls[line_idx as int]);
    if line.len() == 0 || chars_start_with(&line, &to_chars("Searching for:")) || chars_start_with(&line, &to_chars("No matches")) {
        return Err(RgError::NotAResultLine);
    }
    let c1 = match crate::tags::first_index(&line, ':') {
        Some(c) => c,
        None => return Err(RgError::Unparsable),
    };
    let num = sub_chars(&line, 0, c1);
    let rest = sub_chars(&line, c1 + 1, line.len());
    let col_text = match crate::tags::first_index(&rest, ':') {
        Some(c2) => Some(sub_chars(&rest, 0, c2)),
        None => None,
    };
    let n = match parse_decimal(&num) {
        Some(n) => n,
        None => return Err(RgError::BadLineNumber),
    };
    let col: usize = match col_text {
        Some(t) => match parse_decimal(&t) {
            Some(k) => if k > 0 { k - 1 } else { 0 },
            None => 0,
        },
        None => 0,
    };
    let file = find_heading(&lines, line_idx);
    match file {
        Some(f) => Ok(ResultLocation { file: string_from_chars(f), line: if n > 0 { n - 1 } else { 0 }, column: col }),
        None => Err(RgError::NoFilePath),
    }
}

/// The pattern to search for from the cursor: the word under (or just before) it.
pub fn search_under_cursor(data: &str, cursor_line: usize, cursor_offset: usize) -> (r: Result<String, RgError>)
    ensures
        ({
            let ls = spec_lines(data@);
            if cursor_line < ls.len() {
                match word_at(ls[cursor_line as int], cursor_offset as int) {
                    Some(w) => r matches Ok(s) && s@ == w,
                    None => r == Err::<String, RgError>(RgError::NoWordUnderCursor),
                }
            } else {
                r == Err::<String, RgError>(RgError::NoWordUnderCursor)
            }
        }),
{
    let lines = str_lines(data);
    if cursor_line >= lines.len() {
        return Err(RgError::NoWordUnderCursor);
    }
    match extract_word_at(lines[cursor_line], cursor_offset) {
        Some(w) => Ok(w),
        None => Err(RgError::NoWordUnderCursor),
    }
}

/// The line of the next result after the cursor line.
pub fn next_result(data: &str, cursor_line: usize) -> (r: Result<usize, RgError>)
    ensures
        spec_lines(data@).len() == 0 ==> r == Err::<usize, RgError>(RgError::EmptyBuffer),
        spec_lines(data@).len() > 0 ==> r == Ok::<usize, RgError>(
            match scan_results(spec_lines(data@), cursor_line as int, true, spec_lines(data@).len()) {
                Some(l) => l as usize,
                None => cursor_line,
            },
        ),
{
    navigate_result(data, cursor_line, true)
}

/// The line of the previous result before the cursor line.
pub fn prev_result(data: &str, cursor_line: usize) -> (r: Result<usize, RgError>)
    ensures
        spec_lines(data@).len() == 0 ==> r == Err::<usize, RgError>(RgError::EmptyBuffer),
        spec_lines(data@).len() > 0 ==> r == Ok::<usize, RgError>(
            match scan_results(spec_lines(data@), cursor_line as int, false, spec_lines(data@).len()) {
                Some(l) => l as usize,
                None => cursor_line,
            },
        ),
{
    navigate_result(data, cursor_line, false)
}

/// Where `j` steps from line `cur` lead.
pub open spec fn steps_from(cur: int, total: int, forward: bool, j: nat) -> int
    decreases j,
{
    if j == 0 {
        cur
    } else {
        step_line(steps_from(cur, total, forward, (j - 1) as nat), total, forward)
    }
}

/// Stepping `j` times from `cur` is stepping `j - 1` times from the line after it.
proof fn lemma_steps_shift(cur: int, total: int, forward: bool, j: nat)
    requires
        j >= 1,
    ensures
        steps_from(cur, total, forward, j) == steps_from(step_line(cur, total, forward), total, forward, (j - 1) as nat),
    decreases j,
{
    let next = step_line(cur, total, forward);
    if j == 1 {
        assert(steps_from(cur, total, forward, 0) == cur);
        assert(steps_from(next, total, forward, 0) == next);
    } else {
        lemma_steps_shift(cur, total, forward, (j - 1) as nat);
        assert(steps_from(next, total, forward, (j - 1) as nat) == step_line(
            steps_from(next, total, forward, (j - 2) as nat),
            total,
            forward,
        ));
    }
}

/// Going forward from a line, at most once round: one wrap past the last line.
proof fn lemma_steps_forward(r: int, total: int, j: nat)
    requires
        0 <= r < total,
        j <= total,
    ensures
        steps_from(r, total, true, j) == if r + j < total { r + j } else { r + j - total },
    decreases j,
{
    if j > 0 {
        lemma_steps_forward(r, total, (j - 1) as nat);
    }
}

/// A step back undoes a step forward.
proof fn lemma_back_undoes_forward(r: int, total: int, k: nat, j: nat)
    requires
        0 <= r < total,
        j <= k <= total,
    ensures
        steps_from(steps_from(r, total, true, k), total, false, j) == steps_from(r, total, true, (k - j) as nat),
    decreases j,
{
    if j > 0 {
        lemma_back_undoes_forward(r, total, k, (j - 1) as nat);
        lemma_steps_forward(r, total, (k - j) as nat);
        lemma_steps_forward(r, total, (k - j + 1) as nat);
    }
}

/// The scan finds the first result line among the lines `1..=steps` steps away.
proof fn lemma_scan_finds_first(lines: Seq<Seq<char>>, cur: int, forward: bool, steps: nat)
    requires
        0 <= cur < lines.len(),
    ensures
        scan_results(lines, cur, forward, steps) matches Some(x) ==> exists|j: nat|
            #![trigger steps_from(cur, lines.len() as int, forward, j)]
            1 <= j <= steps && x == steps_from(cur, lines.len() as int, forward, j) && is_result_line(lines[x])
                && forall|i: nat| 1 <= i < j ==> !is_result_line(lines[#[trigger] steps_from(cur, lines.len() as int, forward, i)]),
        forall|j: nat|
            1 <= j <= steps && is_result_line(lines[#[trigger] steps_from(cur, lines.len() as int, forward, j)])
                ==> scan_results(lines, cur, forward, steps) is Some,
    decreases steps,
{
    let t = lines.len() as int;
    if steps > 0 {
        let next = step_line(cur, t, forward);
        assert(0 <= next < t);
        lemma_scan_finds_first(lines, next, forward, (steps - 1) as nat);
        assert forall|j: nat| 1 <= j <= steps implies #[trigger] steps_from(cur, t, forward, j) == steps_from(next, t, forward, (j - 1) as nat) by {
            lemma_steps_shift(cur, t, forward, j);
        }
        if !is_result_line(lines[next]) {
            match scan_results(lines, next, forward, (steps - 1) as nat) {
                Some(x) => {
                    let j0 = choose|j: nat|
                        #![trigger steps_from(next, t, forward, j)]
                        1 <= j <= steps - 1 && x == steps_from(next, t, forward, j) && is_result_line(lines[x])
                            && forall|i: nat| 1 <= i < j ==> !is_result_line(lines[#[trigger] steps_from(next, t, forward, i)]);
                    assert(steps_from(cur, t, forward, (j0 + 1) as nat) == x);
                    assert forall|i: nat| 1 <= i < j0 + 1 implies !is_result_line(lines[#[trigger] steps_from(cur, t, forward, i)]) by {
                        if i == 1 {
                            assert(steps_from(cur, t, forward, 1) == steps_from(next, t, forward, 0));
                        } else {
                            assert(steps_from(cur, t, forward, i) == steps_from(next, t, forward, (i - 1) as nat));
                        }
                    }
                },
                None => {},
            }
            assert forall|j: nat| 1 <= j <= steps && is_result_line(lines[#[trigger] steps_from(cur, t, forward, j)])
                implies scan_results(lines, cur, forward, steps) is Some by {
                assert(steps_from(cur, t, forward, j) == steps_from(next, t, forward, (j - 1) as nat));
                if j == 1 {
                    assert(steps_from(next, t, forward, 0) == next);
                }
            }
        } else {
            assert(steps_from(cur, t, forward, 1) == next) by {
                assert(steps_from(cur, t, forward, 1) == steps_from(next, t, forward, 0));
            }
        }
    }
}

/// Jumping to the next result and back to the previous one returns to the result one
/// started on (going round the buffer when needed).
pub proof fn law_next_then_previous_result(lines: Seq<Seq<char>>, r: int)
    requires
        0 <= r < lines.len(),
        is_result_line(lines[r]),
    ensures
        scan_results(lines, r, true, lines.len()) matches Some(n)
            && scan_results(lines, n, false, lines.len()) == Some(r),
{
    let t = lines.len() as int;
    lemma_scan_finds_first(lines, r, true, t as nat);
    lemma_steps_forward(r, t, t as nat);
    assert(is_result_line(lines[steps_from(r, t, true, t as nat)]));
    let n = scan_results(lines, r, true, t as nat)->0;
    let k = choose|j: nat|
        #![trigger steps_from(r, t, true, j)]
        1 <= j <= t && n == steps_from(r, t, true, j) && is_result_line(lines[n])
            && forall|i: nat| 1 <= i < j ==> !is_result_line(lines[#[trigger] steps_from(r, t, true, i)]);
    lemma_steps_forward(r, t, k);
    assert(0 <= n < t);
    lemma_scan_finds_first(lines, n, false, t as nat);
    lemma_back_undoes_forward(r, t, k, k);
    assert(steps_from(r, t, true, 0) == r);
    assert(is_result_line(lines[steps_from(n, t, false, k)]));
    let x = scan_results(lines, n, false, t as nat)->0;
    let j = choose|j: nat|
        #![trigger steps_from(n, t, false, j)]
        1 <= j <= t && x == steps_from(n, t, false, j) && is_result_line(lines[x])
            && forall|i: nat| 1 <= i < j ==> !is_result_line(lines[#[trigger] steps_from(n, t, false, i)]);
    if j < k {
        lemma_back_undoes_forward(r, t, k, j);
        assert(steps_from(n, t, false, j) == steps_from(r, t, true, (k - j) as nat));
        assert(!is_result_line(lines[steps_from(r, t, true, (k - j) as nat)]));
    } else if j > k {
        assert(!is_result_line(lines[steps_from(n, t, false, k)]));
    }
}

/// The file of a result is the nearest line above it that does not start with a
/// digit, reached by walking up over result lines (lines that start with a digit),
/// unless an empty or header line comes first: a result anywhere below a heading, with
/// only other results between them, belongs to that heading's file.
pub proof fn law_result_file_is_nearest_heading(lines: Seq<Seq<char>>, j: int, i: int)
    requires
        0 <= j < i <= lines.len(),
        !is_header(lines[j]),
        !(trim_start_white(lines[j]).len() > 0 && is_digit(trim_start_white(lines[j])[0])),
        forall|k: int| j < k < i ==> !is_header(#[trigger] lines[k]) && trim_start_white(lines[k]).len() > 0
            && is_digit(trim_start_white(lines[k])[0]),
    ensures
        heading_above(lines, i) == Some(trim_white(lines[j])),
    decreases i - j,
{
    if i - 1 > j {
        law_result_file_is_nearest_heading(lines, j, i - 1);
    }
}

/// A line directly below a result belongs to the same file as that result.
pub proof fn law_adjacent_results_share_a_file(lines: Seq<Seq<char>>, i: int)
    requires
        1 <= i <= lines.len(),
        is_result_line(lines[i - 1]),
        !is_header(lines[i - 1]),
    ensures
        heading_above(lines, i) == heading_above(lines, i - 1),
{
}

} // verus!
