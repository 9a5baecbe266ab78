//! Hunks of the git gutter: finding the hunk under the cursor, moving to the
//! next or previous hunk, and planning the edits that revert a hunk to the
//! index copy of the file.
use vstd::prelude::*;
use crate::diff::{GitGutterStatus, gap_start, last_mapped_before, missing_old_lines_before, spec_missing_old_lines};
use crate::modes::Position;
use crate::text::{spec_lines, str_lines, to_chars};

verus! {

/// Whether a gutter status marks a change.
pub open spec fn changed(s: GitGutterStatus) -> bool {
    s != GitGutterStatus::Unchanged
}

fn is_changed(s: GitGutterStatus) -> (r: bool)
    ensures
        r == changed(s),
{
    match s {
        GitGutterStatus::Unchanged => false,
        _ => true,
    }
}

/// `[start, end]` is the maximal run of changed lines around `line`.
pub open spec fn is_hunk_around(st: Seq<GitGutterStatus>, line: int, start: int, end: int) -> bool {
    &&& 0 <= start <= line <= end < st.len()
    &&& forall|k: int| start <= k <= end ==> changed(#[trigger] st[k])
    &&& start == 0 || !changed(st[start - 1])
    &&& end + 1 == st.len() || !changed(st[end + 1])
}

/// The contiguous run of changed lines containing `cursor_line`, as
/// `(first, last)`; `None` when the cursor line is unchanged or past the end.
pub fn hunk_at(statuses: &[GitGutterStatus], cursor_line: usize) -> (r: Option<(usize, usize)>)
    ensures
        r is None <==> (cursor_line >= statuses@.len() || !changed(statuses@[cursor_line as int])),
        r matches Some((s, e)) ==> is_hunk_around(statuses@, cursor_line as int, s as int, e as int),
{
    if cursor_line >= statuses.len() || !is_changed(statuses[cursor_line]) {
        return None;
    }
    let mut s = cursor_line;
    while s > 0 && is_changed(statuses[s - 1])
        invariant
            s <= cursor_line < statuses@.len(),
            forall|k: int| s <= k <= cursor_line ==> changed(#[trigger] statuses@[k]),
        decreases s,
    {
        s -= 1;
    }
    let mut e = cursor_line;
    while e + 1 < statuses.len() && is_changed(statuses[e + 1])
        invariant
            cursor_line <= e < statuses.len(),
            forall|k: int| s <= k <= e ==> changed(#[trigger] statuses@[k]),
        decreases statuses@.len() - e,
    {
        e += 1;
    }
    Some((s, e))
}

/// First changed line at or after `k`.
pub open spec fn first_changed_from(st: Seq<GitGutterStatus>, k: int) -> Option<int>
    decreases st.len() - k,
{
    if k >= st.len() {
        None
    } else if changed(st[k]) {
        Some(k)
    } else {
        first_changed_from(st, k + 1)
    }
}

/// First unchanged line at or after `k` (the length when there is none).
pub open spec fn first_unchanged_from(st: Seq<GitGutterStatus>, k: int) -> int
    decreases st.len() - k,
{
    if k >= st.len() {
        k
    } else if !changed(st[k]) {
        k
    } else {
        first_unchanged_from(st, k + 1)
    }
}

/// The line the cursor moves to for "next hunk": the start of the first hunk
/// after the one the cursor is in (or after the cursor line).
pub open spec fn spec_next_hunk_line(st: Seq<GitGutterStatus>, cursor: int) -> Option<int> {
    let start_search = if cursor < st.len() && changed(st[cursor]) {
        first_unchanged_from(st, cursor + 1)
    } else {
        cursor + 1
    };
    if start_search < 0 {
        None
    } else {
        first_changed_from(st, start_search)
    }
}

/// Target line of the next-hunk motion; `None` leaves the cursor where it is.
pub fn next_hunk_line(statuses: &[GitGutterStatus], cursor_line: usize) -> (r: Option<usize>)
    requires
        cursor_line < usize::MAX,
    ensures
        r matches Some(t) ==> spec_next_hunk_line(statuses@, cursor_line as int) == Some(t as int),
        r is None <==> spec_next_hunk_line(statuses@, cursor_line as int) is None,
{
    let len = statuses.len();
    let start_search = if cursor_line < len && is_changed(statuses[cursor_line]) {
        let mut end = cursor_line + 1;
        while end < len && is_changed(statuses[end])
            invariant
                cursor_line < end <= len,
                len == statuses@.len(),
                first_unchanged_from(statuses@, cursor_line + 1) == first_unchanged_from(
                    statuses@,
                    end as int,
                ),
            decreases len - end,
        {
            end += 1;
        }
        end
    } else {
        cursor_line + 1
    };
    assert(spec_next_hunk_line(statuses@, cursor_line as int) == first_changed_from(
        statuses@,
        start_search as int,
    ));
    let mut line = start_search;
    while line < len
        invariant
            spec_next_hunk_line(statuses@, cursor_line as int) == first_changed_from(
                statuses@,
                start_search as int,
            ),
            start_search <= line,
            len == statuses@.len(),
            first_changed_from(statuses@, start_search as int) == first_changed_from(
                statuses@,
                line as int,
            ),
        decreases len - line,
    {
        if is_changed(statuses[line]) {
            return Some(line);
        }
        line += 1;
    }
    None
}

/// Last changed line before `k`.
pub open spec fn last_changed_before(st: Seq<GitGutterStatus>, k: int) -> Option<int>
    decreases k,
{
    if k <= 0 {
        None
    } else if k - 1 < st.len() && changed(st[k - 1]) {
        Some(k - 1)
    } else {
        last_changed_before(st, k - 1)
    }
}

/// First line of the run of changed lines ending at `k`.
pub open spec fn run_start(st: Seq<GitGutterStatus>, k: int) -> int
    decreases k,
{
    if k <= 0 {
        0
    } else if changed(st[k - 1]) {
        run_start(st, k - 1)
    } else {
        k
    }
}

/// Walks back from `k` over changed lines, stopping at line 0.
pub open spec fn walk_back(st: Seq<GitGutterStatus>, k: int) -> int
    decreases k,
{
    if k <= 0 {
        0
    } else if changed(st[k]) {
        walk_back(st, k - 1)
    } else {
        k
    }
}

/// The line the cursor moves to for "previous hunk": the start of the last
/// hunk that begins before the hunk the cursor is in (or before the cursor).
pub open spec fn spec_previous_hunk_line(st: Seq<GitGutterStatus>, cursor: int) -> Option<int> {
    let start_search = if cursor < st.len() && changed(st[cursor]) {
        let start = walk_back(st, cursor);
        if !changed(st[start]) {
            start
        } else {
            0
        }
    } else {
        cursor
    };
    match last_changed_before(st, start_search) {
        Some(line) => Some(run_start(st, line)),
        None => None,
    }
}

/// Target line of the previous-hunk motion; `None` leaves the cursor where it is.
pub fn previous_hunk_line(statuses: &[GitGutterStatus], cursor_line: usize) -> (r: Option<usize>)
    ensures
        r matches Some(t) ==> spec_previous_hunk_line(statuses@, cursor_line as int) == Some(
            t as int,
        ),
        r is None <==> spec_previous_hunk_line(statuses@, cursor_line as int) is None,
{
    let len = statuses.len();
    let start_search = if cursor_line < len && is_changed(statuses[cursor_line]) {
        let mut start = cursor_line;
        while start > 0 && is_changed(statuses[start])
            invariant
                start <= cursor_line < len,
                len == statuses@.len(),
                walk_back(statuses@, cursor_line as int) == walk_back(statuses@, start as int),
            decreases start,
        {
            start -= 1;
        }
        if !is_changed(statuses[start]) {
            start
        } else {
            0
        }
    } else {
        cursor_line
    };
    let mut k = if start_search < len {
        start_search
    } else {
        len
    };
    proof {
        lemma_last_changed_past_end(statuses@, start_search as int);
    }
    assert(spec_previous_hunk_line(statuses@, cursor_line as int) == match last_changed_before(
        statuses@,
        start_search as int,
    ) {
        Some(line) => Some(run_start(statuses@, line)),
        None => None,
    });
    while k > 0
        invariant
            spec_previous_hunk_line(statuses@, cursor_line as int) == match last_changed_before(
                statuses@,
                start_search as int,
            ) {
                Some(line) => Some(run_start(statuses@, line)),
                None => None,
            },
            k <= len,
            k <= start_search,
            len == statuses@.len(),
            last_changed_before(statuses@, start_search as int) == last_changed_before(
                statuses@,
                k as int,
            ),
        decreases k,
    {
        if is_changed(statuses[k - 1]) {
            let line = k - 1;
            let mut hunk_start = line;
            while hunk_start > 0 && is_changed(statuses[hunk_start - 1])
                invariant
                    spec_previous_hunk_line(statuses@, cursor_line as int) == Some(
                        run_start(statuses@, line as int),
                    ),
                    hunk_start <= line < len,
                    len == statuses@.len(),
                    run_start(statuses@, line as int) == run_start(statuses@, hunk_start as int),
                decreases hunk_start,
            {
                hunk_start -= 1;
            }
            return Some(hunk_start);
        }
        k -= 1;
    }
    None
}

/// Lines past the end never count as changed.
pub proof fn lemma_last_changed_past_end(st: Seq<GitGutterStatus>, k: int)
    ensures
        k > st.len() ==> last_changed_before(st, k) == last_changed_before(st, st.len() as int),
    decreases k,
{
    if k > st.len() {
        lemma_last_changed_past_end(st, k - 1);
    }
}


/// Pads the statuses with Unchanged up to `line_count` entries, covering the
/// extra line a buffer shows after a trailing newline.
pub fn pad_statuses(statuses: Vec<GitGutterStatus>, line_count: usize) -> (r: Vec<GitGutterStatus>)
    ensures
        r@.len() == if statuses@.len() < line_count { line_count as nat } else { statuses@.len() },
        forall|k: int| 0 <= k < statuses@.len() ==> #[trigger] r@[k] == statuses@[k],
        forall|k: int| statuses@.len() <= k < r@.len() ==> #[trigger] r@[k] == GitGutterStatus::Unchanged,
{
    let mut statuses = statuses;
    let ghost orig = statuses@;
    while statuses.len() < line_count
        invariant
            orig.len() <= statuses@.len() <= if orig.len() < line_count { line_count as nat } else { orig.len() },
            forall|k: int| 0 <= k < orig.len() ==> #[trigger] statuses@[k] == orig[k],
            forall|k: int| orig.len() <= k < statuses@.len() ==> #[trigger] statuses@[k] == GitGutterStatus::Unchanged,
        decreases line_count - statuses@.len(),
    {
        statuses.push(GitGutterStatus::Unchanged);
    }
    statuses
}

/// One edit of a hunk revert, by new-line index.
#[derive(Debug, Clone, PartialEq)]
pub enum RevertEdit<'a> {
    /// Remove the line (it does not exist in the index).
    DeleteLine(usize),
    /// Put the index copy of the line in its place.
    ReplaceLine(usize, &'a str),
    /// Insert a line of the index copy before this line.
    InsertLineBefore(usize, &'a str),
}

/// The edits that revert new line `ni`: delete an Added line, restore the
/// index copy of a Modified line that has one and delete one that has none, re-insert the lines missing
/// before a line carrying the Deleted marker (last first, so that they end
/// up in order).
pub open spec fn edits_for_line<'a>(
    st: Seq<GitGutterStatus>,
    mapping: Seq<Option<usize>>,
    old_lines: Seq<&'a str>,
    ni: int,
) -> Seq<RevertEdit<'a>> {
    let s = if ni < st.len() {
        st[ni]
    } else {
        GitGutterStatus::Unchanged
    };
    match s {
        GitGutterStatus::Unchanged => Seq::empty(),
        GitGutterStatus::Added => seq![RevertEdit::DeleteLine(ni as usize)],
        GitGutterStatus::Modified => if ni < mapping.len() && mapping[ni] is Some && mapping[ni]->0
            < old_lines.len() {
            seq![RevertEdit::ReplaceLine(ni as usize, old_lines[mapping[ni]->0 as int])]
        } else {
            seq![RevertEdit::DeleteLine(ni as usize)]
        },
        GitGutterStatus::Deleted => match spec_missing_old_lines(ni, mapping, old_lines) {
            Some(missing) => Seq::new(
                missing.len(),
                |t: int| RevertEdit::InsertLineBefore(ni as usize, missing[missing.len() - 1 - t]),
            ),
            None => Seq::empty(),
        },
    }
}

/// The edits for lines `end` down to `start`, bottom line first so that the
/// line numbers of lines not yet handled stay valid.
pub open spec fn spec_revert_plan<'a>(
    st: Seq<GitGutterStatus>,
    mapping: Seq<Option<usize>>,
    old_lines: Seq<&'a str>,
    start: int,
    end: int,
) -> Seq<RevertEdit<'a>>
    decreases end + 1 - start,
{
    if end < start {
        Seq::empty()
    } else {
        edits_for_line(st, mapping, old_lines, end) + spec_revert_plan(
            st,
            mapping,
            old_lines,
            start,
            end - 1,
        )
    }
}

/// Every mapped index names an old line.
pub open spec fn mapping_in_range(mapping: Seq<Option<usize>>, old_len: int) -> bool {
    forall|k: int| 0 <= k < mapping.len() ==> (#[trigger] mapping[k] matches Some(v) ==> v < old_len)
}

/// The last mapped index before a position is one of the mapped indices.
pub proof fn lemma_last_mapped_in_range(mapping: Seq<Option<usize>>, old_len: int, k: int)
    requires
        mapping_in_range(mapping, old_len),
        k <= mapping.len(),
    ensures
        last_mapped_before(mapping, k) matches Some(v) ==> v < old_len,
    decreases k,
{
    if k > 0 {
        lemma_last_mapped_in_range(mapping, old_len, k - 1);
    }
}

/// The edits that revert the lines `hunk_start..=hunk_end` back to the index
/// copy, in the order they are to be applied to the buffer.
pub fn revert_plan<'a>(
    statuses: &[GitGutterStatus],
    mapping: &[Option<usize>],
    old_lines: &[&'a str],
    hunk_start: usize,
    hunk_end: usize,
) -> (edits: Vec<RevertEdit<'a>>)
    requires
        mapping_in_range(mapping@, old_lines@.len() as int),
        hunk_end < usize::MAX,
    ensures
        edits@ == spec_revert_plan(statuses@, mapping@, old_lines@, hunk_start as int, hunk_end as int),
{
    let mut edits: Vec<RevertEdit<'a>> = Vec::new();
    if hunk_start > hunk_end {
        return edits;
    }
    let mut ni = hunk_end + 1;
    while ni > hunk_start
        invariant
            hunk_start <= ni <= hunk_end + 1,
            hunk_end < usize::MAX,
            mapping_in_range(mapping@, old_lines@.len() as int),
            spec_revert_plan(statuses@, mapping@, old_lines@, hunk_start as int, hunk_end as int)
                == edits@ + spec_revert_plan(
                statuses@,
                mapping@,
                old_lines@,
                hunk_start as int,
                ni - 1,
            ),
        decreases ni,
    {
        ni -= 1;
        let ghost before = edits@;
        let status = if ni < statuses.len() {
            statuses[ni]
        } else {
            GitGutterStatus::Unchanged
        };
        match status {
            GitGutterStatus::Unchanged => {},
            GitGutterStatus::Added => {
                edits.push(RevertEdit::DeleteLine(ni));
            },
            GitGutterStatus::Modified => {
                let mut replaced = false;
                if ni < mapping.len() {
                    if let Some(old_idx) = mapping[ni] {
                        if old_idx < old_lines.len() {
                            edits.push(RevertEdit::ReplaceLine(ni, old_lines[old_idx]));
                            replaced = true;
                        }
                    }
                }
                if !replaced {
                    edits.push(RevertEdit::DeleteLine(ni));
                }
            },
            GitGutterStatus::Deleted => {
                proof {
                    if ni < mapping@.len() {
                        lemma_last_mapped_in_range(mapping@, old_lines@.len() as int, ni as int);
                    }
                    assert(old_lines@.len() == old_lines.len());
                }
                if let Some(missing) = missing_old_lines_before(ni, mapping, old_lines) {
                    let count = missing.len();
                    for t in 0..count
                        invariant
                            count == missing@.len(),
                            edits@ == before + Seq::new(
                                t as nat,
                                |q: int| RevertEdit::InsertLineBefore(ni, missing@[count - 1 - q]),
                            ),
                    {
                        edits.push(RevertEdit::InsertLineBefore(ni, missing[count - 1 - t]));
                        assert(edits@ =~= before + Seq::new(
                            (t + 1) as nat,
                            |q: int| RevertEdit::InsertLineBefore(ni, missing@[count - 1 - q]),
                        ));
                    }
                }
            },
        }
        assert(edits@ =~= before + edits_for_line(statuses@, mapping@, old_lines@, ni as int));
        assert(spec_revert_plan(statuses@, mapping@, old_lines@, hunk_start as int, ni as int)
            == edits_for_line(statuses@, mapping@, old_lines@, ni as int) + spec_revert_plan(
            statuses@,
            mapping@,
            old_lines@,
            hunk_start as int,
            ni - 1,
        ));
        assert(before + edits_for_line(statuses@, mapping@, old_lines@, ni as int)
            + spec_revert_plan(statuses@, mapping@, old_lines@, hunk_start as int, ni - 1)
            =~= before + (edits_for_line(statuses@, mapping@, old_lines@, ni as int)
            + spec_revert_plan(statuses@, mapping@, old_lines@, hunk_start as int, ni - 1)));
    }
    assert(spec_revert_plan(statuses@, mapping@, old_lines@, hunk_start as int, ni - 1) =~= Seq::<RevertEdit<'a>>::empty());
    assert(edits@ + Seq::<RevertEdit<'a>>::empty() =~= edits@);
    edits
}

/// The stretch of text that removing line `line_no` deletes: up to the start of the
/// next line, or to the end of the last line; `None` past the last line.
pub open spec fn line_delete_span(data: Seq<char>, line_no: int) -> Option<(Position, Position)> {
    let ls = spec_lines(data);
    if line_no < 0 || line_no >= ls.len() {
        None
    } else if line_no + 1 < ls.len() {
        Some((Position { line: line_no as usize, offset: 0 }, Position { line: (line_no + 1) as usize, offset: 0 }))
    } else {
        Some((Position { line: line_no as usize, offset: 0 }, Position { line: line_no as usize, offset: ls[line_no].len() as usize }))
    }
}

/// What to delete to remove line `line_no` of a buffer's text.
pub fn line_deletion(data: &str, line_no: usize) -> (r: Option<(Position, Position)>)
    ensures
        r == line_delete_span(data@, line_no as int),
{
    let lines = str_lines(data);
    let n = lines.len();
    if line_no >= n {
        return None;
    }
    let start = Position { line: line_no, offset: 0 };
    if line_no + 1 < n {
        Some((start, Position { line: line_no + 1, offset: 0 }))
    } else {
        let len = to_chars(lines[line_no]).len();
        Some((start, Position { line: line_no, offset: len }))
    }
}

/// The number of characters of line `line_no` (0 past the last line): what replacing
/// the line deletes before it inserts.
pub fn line_length(data: &str, line_no: usize) -> (r: usize)
    ensures
        r == if line_no < spec_lines(data@).len() { spec_lines(data@)[line_no as int].len() } else { 0 },
{
    let lines = str_lines(data);
    if line_no < lines.len() {
        to_chars(lines[line_no]).len()
    } else {
        0
    }
}

/// The first unchanged line from `k` on ends a run of changed lines.
proof fn lemma_first_unchanged(st: Seq<GitGutterStatus>, k: int)
    requires
        0 <= k <= st.len(),
    ensures
        k <= first_unchanged_from(st, k) <= st.len(),
        first_unchanged_from(st, k) < st.len() ==> !changed(st[first_unchanged_from(st, k)]),
        forall|i: int| k <= i < first_unchanged_from(st, k) ==> changed(#[trigger] st[i]),
    decreases st.len() - k,
{
    if k < st.len() && changed(st[k]) {
        lemma_first_unchanged(st, k + 1);
    }
}

/// The first changed line from `k` on has only unchanged lines before it, from `k`.
proof fn lemma_first_changed(st: Seq<GitGutterStatus>, k: int)
    requires
        0 <= k,
    ensures
        first_changed_from(st, k) matches Some(n) ==> k <= n < st.len() && changed(st[n])
            && forall|i: int| k <= i < n ==> !changed(#[trigger] st[i]),
    decreases st.len() - k,
{
    if k < st.len() && !changed(st[k]) {
        lemma_first_changed(st, k + 1);
    }
}

/// Looking back from `k` over unchanged lines, the first changed line met is `m - 1`.
proof fn lemma_last_changed_found(st: Seq<GitGutterStatus>, m: int, k: int)
    requires
        1 <= m <= k <= st.len(),
        changed(st[m - 1]),
        forall|i: int| m <= i < k ==> !changed(#[trigger] st[i]),
    ensures
        last_changed_before(st, k) == Some(m - 1),
    decreases k,
{
    if k > m {
        lemma_last_changed_found(st, m, k - 1);
    }
}

/// The run of changed lines through `k` starts at `h` when the line before `h` is not
/// changed.
proof fn lemma_run_start_at(st: Seq<GitGutterStatus>, h: int, k: int)
    requires
        0 <= h <= k < st.len(),
        h == 0 || !changed(st[h - 1]),
        forall|i: int| h <= i < k ==> changed(#[trigger] st[i]),
    ensures
        run_start(st, k) == h,
    decreases k,
{
    if k > h {
        lemma_run_start_at(st, h, k - 1);
    }
}

/// From the first line of a hunk, moving to the next hunk and then to the previous one
/// comes back to that line.
pub proof fn law_next_then_previous_hunk(st: Seq<GitGutterStatus>, h: int)
    requires
        0 <= h < st.len(),
        changed(st[h]),
        h == 0 || !changed(st[h - 1]),
        spec_next_hunk_line(st, h) is Some,
    ensures
        spec_previous_hunk_line(st, spec_next_hunk_line(st, h)->0) == Some(h),
{
    lemma_first_unchanged(st, h + 1);
    let e = first_unchanged_from(st, h + 1);
    lemma_first_changed(st, e);
    let n = spec_next_hunk_line(st, h)->0;
    assert(first_changed_from(st, e) == Some(n));
    assert(e < n);
    assert(!changed(st[n - 1]));
    assert(walk_back(st, n) == n - 1) by {
        if n - 1 > 0 {
            assert(walk_back(st, n - 1) == n - 1);
        }
    }
    assert(changed(st[e - 1]));
    lemma_last_changed_found(st, e, n - 1);
    assert forall|i: int| h <= i < e - 1 implies changed(#[trigger] st[i]) by {
        if i > h {
            assert(h + 1 <= i < e);
        }
    }
    lemma_run_start_at(st, h, e - 1);
}

} // verus!
