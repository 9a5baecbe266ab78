//! Line diff between the git index copy of a file and the buffer: the LCS
//! edit script, the per-line gutter statuses, and the new-to-old line mapping
//! that a hunk revert uses.
use vstd::prelude::*;
use crate::text::{str_eq, str_lines, spec_lines, lemma_lines_len};

verus! {

/// Per-line marker shown in the git gutter.
#[derive(Debug, Clone, Copy, PartialEq, Eq, Structural)]
pub enum GitGutterStatus {
    Unchanged,
    Added,
    Modified,
    Deleted,
}

/// One step of the edit script turning the old lines into the new ones.
#[derive(Debug, Clone, Copy, PartialEq, Eq, Structural)]
pub enum DiffOp {
    /// (old_idx, new_idx): the line is common to both.
    Keep(usize, usize),
    /// old_idx only: the line was removed.
    Delete(usize),
    /// new_idx only: the line was added.
    Insert(usize),
}

/// The views of a list of line slices.
pub open spec fn lines_view(v: Seq<&str>) -> Seq<Seq<char>> {
    v.map_values(|l: &str| l@)
}

/// Length of a longest common subsequence of `a[..i]` and `b[..j]`.
pub open spec fn lcs_len(a: Seq<Seq<char>>, b: Seq<Seq<char>>, i: nat, j: nat) -> nat
    decreases i + j,
{
    if i == 0 || j == 0 {
        0
    } else if a[i - 1] == b[j - 1] {
        lcs_len(a, b, (i - 1) as nat, (j - 1) as nat) + 1
    } else {
        let up = lcs_len(a, b, (i - 1) as nat, j);
        let left = lcs_len(a, b, i, (j - 1) as nat);
        if up >= left { up } else { left }
    }
}

/// The edit script for `a[..i]` and `b[..j]` read off the LCS table from the
/// bottom-right corner: matches first, then insertions, then deletions.
pub open spec fn backtrack(a: Seq<Seq<char>>, b: Seq<Seq<char>>, i: nat, j: nat) -> Seq<DiffOp>
    decreases i + j,
{
    if i == 0 && j == 0 {
        Seq::empty()
    } else if i > 0 && j > 0 && a[i - 1] == b[j - 1] {
        backtrack(a, b, (i - 1) as nat, (j - 1) as nat).push(
            DiffOp::Keep((i - 1) as usize, (j - 1) as usize),
        )
    } else if j > 0 && (i == 0 || lcs_len(a, b, i, (j - 1) as nat) >= lcs_len(
        a,
        b,
        (i - 1) as nat,
        j,
    )) {
        backtrack(a, b, i, (j - 1) as nat).push(DiffOp::Insert((j - 1) as usize))
    } else {
        backtrack(a, b, (i - 1) as nat, j).push(DiffOp::Delete((i - 1) as usize))
    }
}

/// The edit script from all of `a` to all of `b`.
pub open spec fn diff_ops(a: Seq<Seq<char>>, b: Seq<Seq<char>>) -> Seq<DiffOp> {
    backtrack(a, b, a.len(), b.len())
}

/// Number of steps that consume a new line (Keep or Insert).
pub open spec fn new_count(ops: Seq<DiffOp>) -> nat
    decreases ops.len(),
{
    if ops.len() == 0 {
        0
    } else {
        new_count(ops.drop_last()) + if ops.last() is Delete {
            0nat
        } else {
            1nat
        }
    }
}

/// Number of steps that consume an old line (Keep or Delete).
pub open spec fn old_count(ops: Seq<DiffOp>) -> nat
    decreases ops.len(),
{
    if ops.len() == 0 {
        0
    } else {
        old_count(ops.drop_last()) + if ops.last() is Insert {
            0nat
        } else {
            1nat
        }
    }
}

/// Every step names the next old and/or new line in order, and the script
/// consumes exactly `i` old lines and `j` new lines.
pub open spec fn well_ordered(ops: Seq<DiffOp>, i: nat, j: nat) -> bool {
    &&& old_count(ops) == i
    &&& new_count(ops) == j
    &&& forall|k: int|
        0 <= k < ops.len() ==> match #[trigger] ops[k] {
            DiffOp::Keep(o, n) => o == old_count(ops.take(k)) && n == new_count(ops.take(k)),
            DiffOp::Insert(n) => n == new_count(ops.take(k)),
            DiffOp::Delete(o) => o == old_count(ops.take(k)),
        }
}

/// Number of consecutive deletions ending just before position `p`.
pub open spec fn delete_run_len(ops: Seq<DiffOp>, p: int) -> nat
    decreases p,
{
    if p <= 0 {
        0
    } else if ops[p - 1] is Delete {
        delete_run_len(ops, p - 1) + 1
    } else {
        0
    }
}

/// First position of the run of insertions that reaches position `k`.
pub open spec fn insert_run_start(ops: Seq<DiffOp>, k: int) -> int
    decreases k,
{
    if k <= 0 {
        0
    } else if ops[k - 1] is Insert {
        insert_run_start(ops, k - 1)
    } else {
        k
    }
}

/// The gutter status of the new line consumed at step `k`: a kept line right
/// after deletions carries the deletion marker, an inserted line is a
/// modification when its run of insertions follows deletions.
pub open spec fn status_for(ops: Seq<DiffOp>, k: int) -> GitGutterStatus {
    match ops[k] {
        DiffOp::Keep(_, _) => if k > 0 && ops[k - 1] is Delete {
            GitGutterStatus::Deleted
        } else {
            GitGutterStatus::Unchanged
        },
        DiffOp::Insert(_) => if delete_run_len(ops, insert_run_start(ops, k)) > 0 {
            GitGutterStatus::Modified
        } else {
            GitGutterStatus::Added
        },
        DiffOp::Delete(_) => GitGutterStatus::Unchanged,
    }
}

/// The statuses of the new lines, one per Keep or Insert step, in order.
pub open spec fn statuses_of_ops(ops: Seq<DiffOp>) -> Seq<GitGutterStatus>
    decreases ops.len(),
{
    if ops.len() == 0 {
        Seq::empty()
    } else if ops.last() is Delete {
        statuses_of_ops(ops.drop_last())
    } else {
        statuses_of_ops(ops.drop_last()).push(status_for(ops, ops.len() - 1))
    }
}

/// The old line a new line consumed at step `k` corresponds to: the matched
/// line for a Keep, the deletion at the same rank of the preceding deletion
/// run for an Insert, nothing otherwise.
pub open spec fn mapped_old(ops: Seq<DiffOp>, k: int) -> Option<usize> {
    match ops[k] {
        DiffOp::Keep(o, _) => Some(o),
        DiffOp::Insert(_) => {
            let s = insert_run_start(ops, k);
            let dl = delete_run_len(ops, s);
            if k - s < dl {
                match ops[s - dl + (k - s)] {
                    DiffOp::Delete(o) => Some(o),
                    _ => None,
                }
            } else {
                None
            }
        },
        DiffOp::Delete(_) => None,
    }
}

/// The new-to-old mapping, one entry per Keep or Insert step, in order.
pub open spec fn mapping_of_ops(ops: Seq<DiffOp>) -> Seq<Option<usize>>
    decreases ops.len(),
{
    if ops.len() == 0 {
        Seq::empty()
    } else if ops.last() is Delete {
        mapping_of_ops(ops.drop_last())
    } else {
        mapping_of_ops(ops.drop_last()).push(mapped_old(ops, ops.len() - 1))
    }
}

/// Gutter statuses for the new text against the old text.
pub open spec fn spec_line_statuses(old: Seq<char>, new: Seq<char>) -> Seq<GitGutterStatus> {
    let a = spec_lines(old);
    let b = spec_lines(new);
    if a.len() == 0 {
        Seq::new(if b.len() > 1 { b.len() } else { 1 }, |k: int| GitGutterStatus::Added)
    } else if b.len() == 0 {
        Seq::empty()
    } else {
        statuses_of_ops(diff_ops(a, b))
    }
}

/// New-to-old line mapping for two lists of lines.
pub open spec fn spec_new_to_old(a: Seq<Seq<char>>, b: Seq<Seq<char>>) -> Seq<Option<usize>> {
    if a.len() == 0 || b.len() == 0 {
        Seq::new(b.len(), |k: int| None)
    } else {
        mapping_of_ops(diff_ops(a, b))
    }
}


/// An LCS length never exceeds either prefix length.
pub proof fn lemma_lcs_bounds(a: Seq<Seq<char>>, b: Seq<Seq<char>>, i: nat, j: nat)
    ensures
        lcs_len(a, b, i, j) <= i,
        lcs_len(a, b, i, j) <= j,
    decreases i + j,
{
    if i == 0 || j == 0 {
    } else if a[i - 1] == b[j - 1] {
        lemma_lcs_bounds(a, b, (i - 1) as nat, (j - 1) as nat);
    } else {
        lemma_lcs_bounds(a, b, (i - 1) as nat, j);
        lemma_lcs_bounds(a, b, i, (j - 1) as nat);
    }
}

/// The edit script read off the table names every old and new line once, in order.
pub proof fn lemma_backtrack_well_ordered(a: Seq<Seq<char>>, b: Seq<Seq<char>>, i: nat, j: nat)
    requires
        i <= a.len(),
        j <= b.len(),
        a.len() < usize::MAX,
        b.len() < usize::MAX,
    ensures
        well_ordered(backtrack(a, b, i, j), i, j),
    decreases i + j,
{
    let ops = backtrack(a, b, i, j);
    if i == 0 && j == 0 {
    } else {
        let (pi, pj) = if i > 0 && j > 0 && a[i - 1] == b[j - 1] {
            ((i - 1) as nat, (j - 1) as nat)
        } else if j > 0 && (i == 0 || lcs_len(a, b, i, (j - 1) as nat) >= lcs_len(
            a,
            b,
            (i - 1) as nat,
            j,
        )) {
            (i, (j - 1) as nat)
        } else {
            ((i - 1) as nat, j)
        };
        lemma_backtrack_well_ordered(a, b, pi, pj);
        let prev = backtrack(a, b, pi, pj);
        assert(ops.drop_last() == prev);
        assert forall|k: int| 0 <= k < ops.len() implies match #[trigger] ops[k] {
            DiffOp::Keep(o, n) => o == old_count(ops.take(k)) && n == new_count(ops.take(k)),
            DiffOp::Insert(n) => n == new_count(ops.take(k)),
            DiffOp::Delete(o) => o == old_count(ops.take(k)),
        } by {
            if k < prev.len() {
                assert(ops.take(k) == prev.take(k));
                assert(ops[k] == prev[k]);
            } else {
                assert(ops.take(k) == prev);
            }
        }
    }
}


/// With no old lines the script inserts every new line.
pub proof fn lemma_backtrack_no_old(a: Seq<Seq<char>>, b: Seq<Seq<char>>, j: nat)
    requires
        j <= b.len(),
        b.len() < usize::MAX,
    ensures
        backtrack(a, b, 0, j) == Seq::new(j, |k: int| DiffOp::Insert(k as usize)),
    decreases j,
{
    if j > 0 {
        lemma_backtrack_no_old(a, b, (j - 1) as nat);
        assert(backtrack(a, b, 0, j) =~= Seq::new(j, |k: int| DiffOp::Insert(k as usize)));
    } else {
        assert(backtrack(a, b, 0, j) =~= Seq::new(j, |k: int| DiffOp::Insert(k as usize)));
    }
}

/// With no new lines the script deletes every old line.
pub proof fn lemma_backtrack_no_new(a: Seq<Seq<char>>, b: Seq<Seq<char>>, i: nat)
    requires
        i <= a.len(),
        a.len() < usize::MAX,
    ensures
        backtrack(a, b, i, 0) == Seq::new(i, |k: int| DiffOp::Delete(k as usize)),
    decreases i,
{
    if i > 0 {
        lemma_backtrack_no_new(a, b, (i - 1) as nat);
        assert(backtrack(a, b, i, 0) =~= Seq::new(i, |k: int| DiffOp::Delete(k as usize)));
    } else {
        assert(backtrack(a, b, i, 0) =~= Seq::new(i, |k: int| DiffOp::Delete(k as usize)));
    }
}

/// The first `rows` rows of `dp` hold the LCS table of `a` and `b`, each row
/// of length `n + 1`.
pub open spec fn table_rows_ok(dp: Seq<Vec<usize>>, a: Seq<Seq<char>>, b: Seq<Seq<char>>, rows: int, n: int) -> bool {
    &&& forall|r: int| 0 <= r < rows ==> (#[trigger] dp[r]@).len() == n + 1
    &&& forall|r: int, t: int|
        0 <= r < rows && 0 <= t <= n ==> #[trigger] dp[r]@[t] == lcs_len(a, b, r as nat, t as nat)
}

/// The LCS table of two line lists, row by row: `dp[i][j]` is the LCS length
/// of the first `i` old lines and the first `j` new lines.
fn lcs_table(old_lines: &[&str], new_lines: &[&str]) -> (dp: Vec<Vec<usize>>)
    requires
        old_lines.len() < usize::MAX,
        new_lines.len() < usize::MAX,
    ensures
        dp@.len() == old_lines.len() + 1,
        table_rows_ok(
            dp@,
            lines_view(old_lines@),
            lines_view(new_lines@),
            old_lines.len() + 1,
            new_lines.len() as int,
        ),
{
    let m = old_lines.len();
    let n = new_lines.len();
    let ghost a = lines_view(old_lines@);
    let ghost b = lines_view(new_lines@);
    let mut dp: Vec<Vec<usize>> = Vec::new();
    let mut row0: Vec<usize> = Vec::new();
    for j in 0..n + 1
        invariant
            row0@.len() == j,
            forall|t: int| 0 <= t < j ==> row0@[t] == lcs_len(a, b, 0, t as nat),
    {
        row0.push(0);
    }
    dp.push(row0);
    for i in 1..m + 1
        invariant
            m == old_lines.len(),
            n == new_lines.len(),
            m < usize::MAX,
            n < usize::MAX,
            a == lines_view(old_lines@),
            b == lines_view(new_lines@),
            dp@.len() == i,
            table_rows_ok(dp@, a, b, i as int, n as int),
    {
        let mut row: Vec<usize> = Vec::new();
        row.push(0);
        for j in 1..n + 1
            invariant
                1 <= i <= m,
                m == old_lines.len(),
                n == new_lines.len(),
                m < usize::MAX,
                n < usize::MAX,
                a == lines_view(old_lines@),
                b == lines_view(new_lines@),
                dp@.len() == i,
                table_rows_ok(dp@, a, b, i as int, n as int),
                row@.len() == j,
                forall|t: int| 0 <= t < j ==> row@[t] == lcs_len(a, b, i as nat, t as nat),
        {
            assert(dp@[i - 1]@.len() == n + 1);
            let eq = str_eq(old_lines[i - 1], new_lines[j - 1]);
            assert(old_lines@[i - 1]@ == a[i - 1]);
            assert(new_lines@[j - 1]@ == b[j - 1]);
            let v = if eq {
                proof {
                    lemma_lcs_bounds(a, b, (i - 1) as nat, (j - 1) as nat);
                }
                dp[i - 1][j - 1] + 1
            } else {
                let up = dp[i - 1][j];
                let left = row[j - 1];
                if up >= left {
                    up
                } else {
                    left
                }
            };
            row.push(v);
        }
        dp.push(row);
    }
    dp
}

/// The LCS edit script turning `old_lines` into `new_lines`.
pub fn build_diff_ops(old_lines: &[&str], new_lines: &[&str]) -> (ops: Vec<DiffOp>)
    requires
        old_lines.len() < usize::MAX,
        new_lines.len() < usize::MAX,
    ensures
        ops@ == diff_ops(lines_view(old_lines@), lines_view(new_lines@)),
{
    let ghost a = lines_view(old_lines@);
    let ghost b = lines_view(new_lines@);
    let m = old_lines.len();
    let n = new_lines.len();
    if m == 0 {
        let mut ops: Vec<DiffOp> = Vec::new();
        for j in 0..n
            invariant
                ops@ == Seq::new(j as nat, |k: int| DiffOp::Insert(k as usize)),
        {
            ops.push(DiffOp::Insert(j));
            assert(ops@ =~= Seq::new((j + 1) as nat, |k: int| DiffOp::Insert(k as usize)));
        }
        proof {
            lemma_backtrack_no_old(a, b, n as nat);
        }
        return ops;
    }
    if n == 0 {
        let mut ops: Vec<DiffOp> = Vec::new();
        for i in 0..m
            invariant
                ops@ == Seq::new(i as nat, |k: int| DiffOp::Delete(k as usize)),
        {
            ops.push(DiffOp::Delete(i));
            assert(ops@ =~= Seq::new((i + 1) as nat, |k: int| DiffOp::Delete(k as usize)));
        }
        proof {
            lemma_backtrack_no_new(a, b, m as nat);
        }
        return ops;
    }
    let dp = lcs_table(old_lines, new_lines);
    let mut rev: Vec<DiffOp> = Vec::new();
    let mut i = m;
    let mut j = n;
    while i > 0 || j > 0
        invariant
            i <= m,
            j <= n,
            m == old_lines.len(),
            n == new_lines.len(),
            a == lines_view(old_lines@),
            b == lines_view(new_lines@),
            dp@.len() == m + 1,
            table_rows_ok(dp@, a, b, m + 1, n as int),
            diff_ops(a, b) == backtrack(a, b, i as nat, j as nat) + rev@.reverse(),
        decreases i + j,
    {
        let ghost old_rev = rev@;
        let ghost (oi, oj) = (i, j);
        let eq = if i > 0 && j > 0 {
            str_eq(old_lines[i - 1], new_lines[j - 1])
        } else {
            false
        };
        if i > 0 && j > 0 {
            assert(old_lines@[i - 1]@ == a[i - 1]);
            assert(new_lines@[j - 1]@ == b[j - 1]);
        }
        if eq {
            rev.push(DiffOp::Keep(i - 1, j - 1));
            i -= 1;
            j -= 1;
        } else if j > 0 && (i == 0 || dp[i][j - 1] >= dp[i - 1][j]) {
            rev.push(DiffOp::Insert(j - 1));
            j -= 1;
        } else {
            rev.push(DiffOp::Delete(i - 1));
            i -= 1;
        }
        assert(backtrack(a, b, oi as nat, oj as nat) == backtrack(a, b, i as nat, j as nat).push(
            rev@.last(),
        ));
        assert(backtrack(a, b, i as nat, j as nat) + rev@.reverse() =~= backtrack(
            a,
            b,
            oi as nat,
            oj as nat,
        ) + old_rev.reverse());
    }
    assert(diff_ops(a, b) =~= rev@.reverse());
    let len = rev.len();
    let mut ops: Vec<DiffOp> = Vec::new();
    for k in 0..len
        invariant
            len == rev@.len(),
            ops@ =~= Seq::new(k as nat, |t: int| rev@[len - 1 - t]),
    {
        ops.push(rev[len - 1 - k]);
    }
    ops
}


/// Counting a one-step-longer prefix adds the step's own contribution.
pub proof fn lemma_count_take_succ(ops: Seq<DiffOp>, k: int)
    requires
        0 <= k < ops.len(),
    ensures
        new_count(ops.take(k + 1)) == new_count(ops.take(k)) + if ops[k] is Delete {
            0nat
        } else {
            1nat
        },
        old_count(ops.take(k + 1)) == old_count(ops.take(k)) + if ops[k] is Insert {
            0nat
        } else {
            1nat
        },
{
    assert(ops.take(k + 1).drop_last() =~= ops.take(k));
}

/// Run boundaries read only the steps before the position asked about.
pub proof fn lemma_runs_agree(o1: Seq<DiffOp>, o2: Seq<DiffOp>, k: int)
    requires
        0 <= k <= o1.len(),
        k <= o2.len(),
        forall|t: int| 0 <= t < k ==> o1[t] == o2[t],
    ensures
        insert_run_start(o1, k) == insert_run_start(o2, k),
        forall|x: int| 0 <= x <= k ==> delete_run_len(o1, x) == delete_run_len(o2, x),
    decreases k,
{
    if k > 0 {
        lemma_runs_agree(o1, o2, k - 1);
        assert(o1[k - 1] == o2[k - 1]);
        assert(delete_run_len(o1, k - 1) == delete_run_len(o2, k - 1));
        assert(delete_run_len(o1, k) == delete_run_len(o2, k));
    }
}

/// The status of a step depends only on the steps up to it.
pub proof fn lemma_status_for_agree(o1: Seq<DiffOp>, o2: Seq<DiffOp>, k: int)
    requires
        0 <= k < o1.len(),
        k < o2.len(),
        forall|t: int| 0 <= t <= k ==> o1[t] == o2[t],
    ensures
        status_for(o1, k) == status_for(o2, k),
        mapped_old(o1, k) == mapped_old(o2, k),
{
    lemma_runs_agree(o1, o2, k);
    let s = insert_run_start(o1, k);
    if o1[k] is Insert {
        lemma_insert_run_start_bounds(o1, k);
        lemma_delete_run_len_bound(o1, s);
    }
}

/// A run of insertions starts at or before the position asked about.
pub proof fn lemma_insert_run_start_bounds(ops: Seq<DiffOp>, k: int)
    requires
        0 <= k,
    ensures
        0 <= insert_run_start(ops, k) <= k,
    decreases k,
{
    if k > 0 {
        lemma_insert_run_start_bounds(ops, k - 1);
    }
}

/// A run of deletions fits before the position it ends at.
pub proof fn lemma_delete_run_len_bound(ops: Seq<DiffOp>, p: int)
    requires
        0 <= p,
    ensures
        delete_run_len(ops, p) <= p,
    decreases p,
{
    if p > 0 {
        lemma_delete_run_len_bound(ops, p - 1);
    }
}

/// The status list has one entry per new line, the entry of step `k` sitting
/// at the number of new lines consumed before `k`.
pub proof fn lemma_statuses_index(ops: Seq<DiffOp>)
    ensures
        statuses_of_ops(ops).len() == new_count(ops),
        forall|k: int|
            0 <= k < ops.len() && !(ops[k] is Delete) ==> statuses_of_ops(ops)[new_count(
                #[trigger] ops.take(k),
            ) as int] == status_for(ops, k),
    decreases ops.len(),
{
    if ops.len() > 0 {
        let p = ops.drop_last();
        lemma_statuses_index(p);
        assert forall|k: int|
            0 <= k < ops.len() && !(ops[k] is Delete) implies statuses_of_ops(ops)[new_count(
            #[trigger] ops.take(k),
        ) as int] == status_for(ops, k) by {
            if k < p.len() {
                assert(ops.take(k) == p.take(k));
                assert(p[k] == ops[k]);
                lemma_status_for_agree(p, ops, k);
                lemma_count_take_succ(p, k);
                lemma_new_count_prefix(p, k + 1);
            } else {
                assert(ops.take(k) == p);
            }
        }
    }
}

/// The mapping has one entry per new line, the entry of step `k` sitting at
/// the number of new lines consumed before `k`.
pub proof fn lemma_mapping_index(ops: Seq<DiffOp>)
    ensures
        mapping_of_ops(ops).len() == new_count(ops),
        forall|k: int|
            0 <= k < ops.len() && !(ops[k] is Delete) ==> mapping_of_ops(ops)[new_count(
                #[trigger] ops.take(k),
            ) as int] == mapped_old(ops, k),
    decreases ops.len(),
{
    if ops.len() > 0 {
        let p = ops.drop_last();
        lemma_mapping_index(p);
        assert forall|k: int|
            0 <= k < ops.len() && !(ops[k] is Delete) implies mapping_of_ops(ops)[new_count(
            #[trigger] ops.take(k),
        ) as int] == mapped_old(ops, k) by {
            if k < p.len() {
                assert(ops.take(k) == p.take(k));
                assert(p[k] == ops[k]);
                lemma_status_for_agree(p, ops, k);
                lemma_count_take_succ(p, k);
                lemma_new_count_prefix(p, k + 1);
            } else {
                assert(ops.take(k) == p);
            }
        }
    }
}

/// Whether a step deletes an old line.
fn is_delete(op: &DiffOp) -> (r: bool)
    ensures
        r == (*op is Delete),
{
    match op {
        DiffOp::Delete(_) => true,
        _ => false,
    }
}

/// Position just past the run of deletions starting at `start`.
fn skip_deletes(ops: &Vec<DiffOp>, start: usize) -> (end: usize)
    requires
        start <= ops@.len(),
    ensures
        start <= end <= ops@.len(),
        forall|t: int| start <= t < end ==> #[trigger] ops@[t] is Delete,
        end == ops@.len() || !(ops@[end as int] is Delete),
{
    let mut idx = start;
    while idx < ops.len() && is_delete(&ops[idx])
        invariant
            start <= idx <= ops@.len(),
            forall|t: int| start <= t < idx ==> #[trigger] ops@[t] is Delete,
        decreases ops@.len() - idx,
    {
        idx += 1;
    }
    idx
}

/// The new-line indices named by the run of insertions starting at `start`,
/// and the position just past that run.
fn collect_inserts(ops: &Vec<DiffOp>, start: usize) -> (r: (usize, Vec<usize>))
    requires
        start <= ops@.len(),
    ensures
        start <= r.0 <= ops@.len(),
        forall|t: int| start <= t < r.0 ==> #[trigger] ops@[t] is Insert,
        r.0 == ops@.len() || !(ops@[r.0 as int] is Insert),
        r.1@.len() == r.0 - start,
        forall|q: int| 0 <= q < r.1@.len() ==> ops@[start + q] == DiffOp::Insert(#[trigger] r.1@[q]),
{
    let mut idx = start;
    let mut indices: Vec<usize> = Vec::new();
    while idx < ops.len()
        invariant
            start <= idx <= ops@.len(),
            forall|t: int| start <= t < idx ==> #[trigger] ops@[t] is Insert,
            indices@.len() == idx - start,
            forall|q: int|
                0 <= q < indices@.len() ==> ops@[start + q] == DiffOp::Insert(#[trigger] indices@[q]),
        ensures
            idx == ops@.len() || !(ops@[idx as int] is Insert),
        decreases ops@.len() - idx,
    {
        match ops[idx] {
            DiffOp::Insert(new_idx) => {
                indices.push(new_idx);
                idx += 1;
            },
            _ => {
                break ;
            },
        }
    }
    (idx, indices)
}

/// A run of deletions consumes old lines only.
pub proof fn lemma_delete_run_counts(ops: Seq<DiffOp>, s: int, e: int)
    requires
        0 <= s <= e <= ops.len(),
        forall|t: int| s <= t < e ==> #[trigger] ops[t] is Delete,
    ensures
        new_count(ops.take(e)) == new_count(ops.take(s)),
        old_count(ops.take(e)) == old_count(ops.take(s)) + (e - s),
    decreases e - s,
{
    if s < e {
        lemma_count_take_succ(ops, e - 1);
        lemma_delete_run_counts(ops, s, e - 1);
    }
}

/// A run of insertions consumes new lines only.
pub proof fn lemma_insert_run_counts(ops: Seq<DiffOp>, s: int, e: int)
    requires
        0 <= s <= e <= ops.len(),
        forall|t: int| s <= t < e ==> #[trigger] ops[t] is Insert,
    ensures
        new_count(ops.take(e)) == new_count(ops.take(s)) + (e - s),
        old_count(ops.take(e)) == old_count(ops.take(s)),
    decreases e - s,
{
    if s < e {
        lemma_count_take_succ(ops, e - 1);
        lemma_insert_run_counts(ops, s, e - 1);
    }
}

/// Inside a run of insertions that starts at `s`, every position's run starts at `s`.
pub proof fn lemma_insert_run_start_const(ops: Seq<DiffOp>, s: int, e: int)
    requires
        0 <= s <= e <= ops.len(),
        s == 0 || !(ops[s - 1] is Insert),
        forall|t: int| s <= t < e ==> #[trigger] ops[t] is Insert,
    ensures
        forall|t: int| s <= t <= e ==> #[trigger] insert_run_start(ops, t) == s,
    decreases e - s,
{
    if s < e {
        lemma_insert_run_start_const(ops, s, e - 1);
        assert(insert_run_start(ops, e) == insert_run_start(ops, e - 1));
    }
}

/// A maximal run of deletions ending before `e` has length `e - s`.
pub proof fn lemma_delete_run_len_run(ops: Seq<DiffOp>, s: int, e: int)
    requires
        0 <= s <= e <= ops.len(),
        s == 0 || !(ops[s - 1] is Delete),
        forall|t: int| s <= t < e ==> #[trigger] ops[t] is Delete,
    ensures
        delete_run_len(ops, e) == e - s,
    decreases e - s,
{
    if s < e {
        lemma_delete_run_len_run(ops, s, e - 1);
    }
}

/// Sets the statuses at the consecutive positions `indices` (starting at `c`).
fn mark_run(
    statuses: &mut Vec<GitGutterStatus>,
    indices: &Vec<usize>,
    status: GitGutterStatus,
    Ghost(c): Ghost<int>,
)
    requires
        0 <= c,
        c + indices@.len() <= old(statuses)@.len(),
        forall|q: int| 0 <= q < indices@.len() ==> #[trigger] indices@[q] == c + q,
    ensures
        final(statuses)@.len() == old(statuses)@.len(),
        forall|j: int|
            0 <= j < old(statuses)@.len() ==> #[trigger] final(statuses)@[j] == if c <= j < c
                + indices@.len() {
                status
            } else {
                old(statuses)@[j]
            },
{
    let count = indices.len();
    for r in 0..count
        invariant
            count == indices@.len(),
            statuses@.len() == old(statuses)@.len(),
            c + count <= statuses@.len(),
            forall|q: int| 0 <= q < count ==> #[trigger] indices@[q] == c + q,
            forall|j: int|
                0 <= j < statuses@.len() ==> #[trigger] statuses@[j] == if c <= j < c + r {
                    status
                } else {
                    old(statuses)@[j]
                },
    {
        statuses[indices[r]] = status;
    }
}

/// Computes the git gutter status of each line of `new` against `old`: with
/// no old lines every new line is Added (at least one marker); with no new
/// lines there is nothing to mark; otherwise each line of the LCS edit script
/// is Unchanged, Added, Modified (an insertion following deletions) or
/// Deleted (a kept line right after a pure deletion).
#[verifier::rlimit(100)]
pub fn compute_line_statuses(old: &str, new: &str) -> (statuses: Vec<GitGutterStatus>)
    requires
        old@.len() < usize::MAX,
        new@.len() < usize::MAX,
    ensures
        statuses@ == spec_line_statuses(old@, new@),
{
    let old_lines: Vec<&str> = if old.is_empty() {
        Vec::new()
    } else {
        str_lines(old)
    };
    let new_lines: Vec<&str> = if new.is_empty() {
        Vec::new()
    } else {
        str_lines(new)
    };
    let ghost a = lines_view(old_lines@);
    let ghost b = lines_view(new_lines@);
    proof {
        lemma_lines_len(old@);
        lemma_lines_len(new@);
        assert(a == spec_lines(old@));
        assert(b == spec_lines(new@));
    }
    if old_lines.len() == 0 {
        let count = if new_lines.len() > 1 {
            new_lines.len()
        } else {
            1
        };
        let mut statuses: Vec<GitGutterStatus> = Vec::new();
        for k in 0..count
            invariant
                statuses@ == Seq::new(k as nat, |t: int| GitGutterStatus::Added),
        {
            statuses.push(GitGutterStatus::Added);
            assert(statuses@ =~= Seq::new((k + 1) as nat, |t: int| GitGutterStatus::Added));
        }
        return statuses;
    }
    if new_lines.len() == 0 {
        return Vec::new();
    }
    let m = old_lines.len();
    let n = new_lines.len();
    let ops = build_diff_ops(old_lines.as_slice(), new_lines.as_slice());
    let ghost spec = statuses_of_ops(ops@);
    proof {
        lemma_backtrack_well_ordered(a, b, m as nat, n as nat);
        lemma_statuses_index(ops@);
        assert(ops@.take(ops@.len() as int) == ops@);
        assert(ops@.take(0) =~= Seq::<DiffOp>::empty());
    }
    let mut statuses: Vec<GitGutterStatus> = Vec::new();
    for k in 0..n
        invariant
            statuses@ == Seq::new(k as nat, |t: int| GitGutterStatus::Unchanged),
    {
        statuses.push(GitGutterStatus::Unchanged);
        assert(statuses@ =~= Seq::new((k + 1) as nat, |t: int| GitGutterStatus::Unchanged));
    }
    let mut idx: usize = 0;
    while idx < ops.len()
        invariant
            ops@ == diff_ops(a, b),
            a.len() == m,
            b.len() == n,
            m < usize::MAX,
            n < usize::MAX,
            spec == statuses_of_ops(ops@),
            spec.len() == n,
            new_count(ops@) == n,
            idx <= ops@.len(),
            statuses@.len() == n,
            forall|j: int|
                0 <= j < new_count(ops@.take(idx as int)) ==> #[trigger] statuses@[j] == spec[j],
            forall|j: int|
                new_count(ops@.take(idx as int)) < j < n ==> #[trigger] statuses@[j]
                    == GitGutterStatus::Unchanged,
            new_count(ops@.take(idx as int)) < n ==> statuses@[new_count(ops@.take(idx as int)) as int]
                == if 0 < idx < ops@.len() && ops@[idx - 1] is Delete && ops@[idx as int] is Keep {
                GitGutterStatus::Deleted
            } else {
                GitGutterStatus::Unchanged
            },
            idx < ops@.len() && ops@[idx as int] is Insert ==> delete_run_len(
                ops@,
                insert_run_start(ops@, idx as int),
            ) == 0,
            0 < idx < ops@.len() && ops@[idx - 1] is Delete ==> ops@[idx as int] is Keep,
        decreases ops@.len() - idx,
    {
        let ghost c = new_count(ops@.take(idx as int));
        proof {
            lemma_count_take_succ(ops@, idx as int);
            lemma_new_count_prefix(ops@, idx + 1);
            assert(match ops@[idx as int] {
                DiffOp::Keep(_, nn) => nn == c,
                DiffOp::Insert(nn) => nn == c,
                DiffOp::Delete(_) => true,
            }) by {
                lemma_backtrack_well_ordered(a, b, m as nat, n as nat);
            }
            assert(!(ops@[idx as int] is Delete) ==> spec[c as int] == status_for(ops@, idx as int)) by {
                lemma_statuses_index(ops@);
            }
        }
        match ops[idx] {
            DiffOp::Keep(_, _) => {
                idx += 1;
            },
            DiffOp::Delete(_) => {
                let ghost d0 = idx as int;
                let d1 = skip_deletes(&ops, idx);
                let (d2, insert_indices) = collect_inserts(&ops, d1);
                proof {
                    lemma_delete_run_counts(ops@, d0, d1 as int);
                    lemma_insert_run_counts(ops@, d1 as int, d2 as int);
                    lemma_insert_run_start_const(ops@, d1 as int, d2 as int);
                    lemma_new_count_prefix(ops@, d2 as int);
                    assert forall|q: int| 0 <= q < insert_indices@.len() implies #[trigger] insert_indices@[q] == c + q by {
                        let t = d1 + q;
                        assert(ops@[t] == DiffOp::Insert(insert_indices@[q]));
                        lemma_insert_run_counts(ops@, d1 as int, t);
                        lemma_backtrack_well_ordered(a, b, m as nat, n as nat);
                    }
                    assert(delete_run_len(ops@, d1 as int) > 0);
                }
                idx = d2;
                if insert_indices.len() > 0 {
                    mark_run(&mut statuses, &insert_indices, GitGutterStatus::Modified, Ghost(c as int));
                    assert forall|j: int| c <= j < c + insert_indices@.len() implies spec[j] == GitGutterStatus::Modified by {
                        let t = d1 + (j - c);
                        assert(ops@[t] is Insert);
                        assert(insert_run_start(ops@, t) == d1);
                        lemma_insert_run_counts(ops@, d1 as int, t);
                        lemma_statuses_index(ops@);
                    }
                } else {
                    proof {
                        if (d2 as int) < ops@.len() && ops@[d2 as int] is Keep {
                            assert(spec[c as int] == GitGutterStatus::Deleted) by {
                                lemma_statuses_index(ops@);
                            }
                            assert(match ops@[d2 as int] {
                                DiffOp::Keep(_, nn) => nn == c,
                                _ => true,
                            }) by {
                                lemma_backtrack_well_ordered(a, b, m as nat, n as nat);
                            }
                        }
                    }
                    if idx < ops.len() {
                        match ops[idx] {
                            DiffOp::Keep(_, new_idx) => {
                                if new_idx < statuses.len() {
                                    statuses[new_idx] = GitGutterStatus::Deleted;
                                }
                            },
                            _ => {},
                        }
                    }
                }
            },
            DiffOp::Insert(new_idx) => {
                statuses[new_idx] = GitGutterStatus::Added;
                idx += 1;
            },
        }
    }
    assert(statuses@ =~= spec);
    statuses
}

/// A prefix consumes no more new lines than the whole script.
pub proof fn lemma_new_count_prefix(ops: Seq<DiffOp>, k: int)
    requires
        0 <= k <= ops.len(),
    ensures
        new_count(ops.take(k)) <= new_count(ops),
        old_count(ops.take(k)) <= old_count(ops),
    decreases ops.len() - k,
{
    if k < ops.len() {
        lemma_count_take_succ(ops, k);
        lemma_new_count_prefix(ops, k + 1);
    } else {
        assert(ops.take(k) == ops);
    }
}


/// The old-line indices named by the run of deletions starting at `start`,
/// and the position just past that run.
fn collect_deletes(ops: &Vec<DiffOp>, start: usize) -> (r: (usize, Vec<usize>))
    requires
        start <= ops@.len(),
    ensures
        start <= r.0 <= ops@.len(),
        forall|t: int| start <= t < r.0 ==> #[trigger] ops@[t] is Delete,
        r.0 == ops@.len() || !(ops@[r.0 as int] is Delete),
        r.1@.len() == r.0 - start,
        forall|q: int| 0 <= q < r.1@.len() ==> ops@[start + q] == DiffOp::Delete(#[trigger] r.1@[q]),
{
    let mut idx = start;
    let mut indices: Vec<usize> = Vec::new();
    while idx < ops.len()
        invariant
            start <= idx <= ops@.len(),
            forall|t: int| start <= t < idx ==> #[trigger] ops@[t] is Delete,
            indices@.len() == idx - start,
            forall|q: int|
                0 <= q < indices@.len() ==> ops@[start + q] == DiffOp::Delete(#[trigger] indices@[q]),
        ensures
            idx == ops@.len() || !(ops@[idx as int] is Delete),
        decreases ops@.len() - idx,
    {
        match ops[idx] {
            DiffOp::Delete(old_idx) => {
                indices.push(old_idx);
                idx += 1;
            },
            _ => {
                break ;
            },
        }
    }
    (idx, indices)
}

/// Pairs the inserted new lines (at consecutive positions from `c`) with the
/// deleted old lines of the same rank; inserted lines without a partner are
/// left as they are.
fn pair_modified(
    result: &mut Vec<Option<usize>>,
    inserted_new: &Vec<usize>,
    deleted_old: &Vec<usize>,
    Ghost(c): Ghost<int>,
)
    requires
        0 <= c,
        c + inserted_new@.len() <= old(result)@.len(),
        forall|q: int| 0 <= q < inserted_new@.len() ==> #[trigger] inserted_new@[q] == c + q,
    ensures
        final(result)@.len() == old(result)@.len(),
        forall|j: int|
            0 <= j < old(result)@.len() ==> #[trigger] final(result)@[j] == if c <= j < c
                + inserted_new@.len() && j - c < deleted_old@.len() {
                Some(deleted_old@[j - c])
            } else {
                old(result)@[j]
            },
{
    let count = inserted_new.len();
    for k in 0..count
        invariant
            count == inserted_new@.len(),
            result@.len() == old(result)@.len(),
            c + count <= result@.len(),
            forall|q: int| 0 <= q < count ==> #[trigger] inserted_new@[q] == c + q,
            forall|j: int|
                0 <= j < result@.len() ==> #[trigger] result@[j] == if c <= j < c + k && j - c
                    < deleted_old@.len() {
                    Some(deleted_old@[j - c])
                } else {
                    old(result)@[j]
                },
    {
        let new_j = inserted_new[k];
        if k < deleted_old.len() {
            let old_i = deleted_old[k];
            result[new_j] = Some(old_i);
        }
    }
}

/// Maps each new line to an old line: Unchanged lines to their LCS match,
/// the inserted lines of a hunk that follows deletions to the deleted lines
/// of the same rank, every other line (and every line when either side is
/// empty) to nothing.
#[verifier::rlimit(100)]
pub fn build_new_to_old_mapping(old_lines: &[&str], new_lines: &[&str]) -> (result: Vec<Option<usize>>)
    requires
        old_lines.len() < usize::MAX,
        new_lines.len() < usize::MAX,
    ensures
        result@ == spec_new_to_old(lines_view(old_lines@), lines_view(new_lines@)),
{
    let ghost a = lines_view(old_lines@);
    let ghost b = lines_view(new_lines@);
    let m = old_lines.len();
    let n = new_lines.len();
    let mut result: Vec<Option<usize>> = Vec::new();
    for k in 0..n
        invariant
            result@ == Seq::new(k as nat, |t: int| None::<usize>),
    {
        result.push(None);
        assert(result@ =~= Seq::new((k + 1) as nat, |t: int| None::<usize>));
    }
    if m == 0 || n == 0 {
        return result;
    }
    let ops = build_diff_ops(old_lines, new_lines);
    let ghost spec = mapping_of_ops(ops@);
    proof {
        lemma_backtrack_well_ordered(a, b, m as nat, n as nat);
        lemma_mapping_index(ops@);
        assert(ops@.take(ops@.len() as int) == ops@);
        assert(ops@.take(0) =~= Seq::<DiffOp>::empty());
    }
    let mut idx: usize = 0;
    while idx < ops.len()
        invariant
            ops@ == diff_ops(a, b),
            a.len() == m,
            b.len() == n,
            m < usize::MAX,
            n < usize::MAX,
            spec == mapping_of_ops(ops@),
            spec.len() == n,
            new_count(ops@) == n,
            idx <= ops@.len(),
            result@.len() == n,
            forall|j: int|
                0 <= j < new_count(ops@.take(idx as int)) ==> #[trigger] result@[j] == spec[j],
            forall|j: int|
                new_count(ops@.take(idx as int)) <= j < n ==> #[trigger] result@[j] == None::<usize>,
            idx < ops@.len() && ops@[idx as int] is Insert ==> delete_run_len(
                ops@,
                insert_run_start(ops@, idx as int),
            ) == 0,
            0 < idx < ops@.len() && ops@[idx - 1] is Delete ==> ops@[idx as int] is Keep,
        decreases ops@.len() - idx,
    {
        let ghost c = new_count(ops@.take(idx as int));
        proof {
            lemma_count_take_succ(ops@, idx as int);
            lemma_new_count_prefix(ops@, idx + 1);
            assert(match ops@[idx as int] {
                DiffOp::Keep(_, nn) => nn == c,
                DiffOp::Insert(nn) => nn == c,
                DiffOp::Delete(_) => true,
            }) by {
                lemma_backtrack_well_ordered(a, b, m as nat, n as nat);
            }
            assert(!(ops@[idx as int] is Delete) ==> spec[c as int] == mapped_old(ops@, idx as int)) by {
                lemma_mapping_index(ops@);
            }
        }
        match ops[idx] {
            DiffOp::Keep(old_i, new_j) => {
                result[new_j] = Some(old_i);
                idx += 1;
            },
            DiffOp::Delete(_) => {
                let ghost d0 = idx as int;
                let (d1, deleted_old) = collect_deletes(&ops, idx);
                let (d2, inserted_new) = collect_inserts(&ops, d1);
                proof {
                    lemma_delete_run_counts(ops@, d0, d1 as int);
                    lemma_insert_run_counts(ops@, d1 as int, d2 as int);
                    lemma_insert_run_start_const(ops@, d1 as int, d2 as int);
                    lemma_delete_run_len_run(ops@, d0, d1 as int);
                    lemma_new_count_prefix(ops@, d2 as int);
                    assert forall|q: int| 0 <= q < inserted_new@.len() implies #[trigger] inserted_new@[q] == c + q by {
                        let t = d1 + q;
                        assert(ops@[t] == DiffOp::Insert(inserted_new@[q]));
                        lemma_insert_run_counts(ops@, d1 as int, t);
                        lemma_backtrack_well_ordered(a, b, m as nat, n as nat);
                    }
                }
                idx = d2;
                pair_modified(&mut result, &inserted_new, &deleted_old, Ghost(c as int));
                assert forall|j: int| c <= j < c + inserted_new@.len() implies #[trigger] result@[j] == spec[j] by {
                    let t = d1 + (j - c);
                    assert(ops@[t] is Insert);
                    assert(insert_run_start(ops@, t) == d1);
                    lemma_insert_run_counts(ops@, d1 as int, t);
                    lemma_mapping_index(ops@);
                    if j - c < deleted_old@.len() {
                        assert(ops@[d0 + (j - c)] == DiffOp::Delete(deleted_old@[j - c]));
                    }
                }
            },
            DiffOp::Insert(new_j) => {
                result[new_j] = None;
                idx += 1;
            },
        }
    }
    assert(result@ =~= spec);
    result
}


/// The mapped old index of the closest new line before `k` that has one.
pub open spec fn last_mapped_before(mapping: Seq<Option<usize>>, k: int) -> Option<usize>
    decreases k,
{
    if k <= 0 {
        None
    } else if mapping[k - 1] is Some {
        mapping[k - 1]
    } else {
        last_mapped_before(mapping, k - 1)
    }
}

/// First old index after the previous mapped new line (0 at the top).
pub open spec fn gap_start(mapping: Seq<Option<usize>>, k: int) -> int {
    match last_mapped_before(mapping, k) {
        Some(v) => v + 1,
        None => 0,
    }
}

/// The old lines missing just before new line `new_idx`: those between the
/// previous mapped new line's old index and `new_idx`'s own old index.
pub open spec fn spec_missing_old_lines<'a>(
    new_idx: int,
    mapping: Seq<Option<usize>>,
    old_lines: Seq<&'a str>,
) -> Option<Seq<&'a str>> {
    if new_idx >= mapping.len() || mapping[new_idx] is None {
        None
    } else {
        let old_at = mapping[new_idx]->0;
        let start = gap_start(mapping, new_idx);
        if start >= old_at {
            None
        } else {
            Some(old_lines.subrange(start, old_at as int))
        }
    }
}

/// Returns the old lines that are missing just before new line `new_idx`,
/// i.e. the lines deleted there that a revert re-inserts; `None` when
/// `new_idx` has no old counterpart or there is no gap.
pub fn missing_old_lines_before<'a>(
    new_idx: usize,
    mapping: &[Option<usize>],
    old_lines: &[&'a str],
) -> (missing: Option<Vec<&'a str>>)
    requires
        new_idx < mapping@.len() && mapping@[new_idx as int] is Some ==> last_mapped_before(
            mapping@,
            new_idx as int,
        ) != Some(usize::MAX) && (gap_start(mapping@, new_idx as int) < mapping@[new_idx as int]->0
            ==> mapping@[new_idx as int]->0 <= old_lines@.len()),
    ensures
        missing matches Some(v) ==> spec_missing_old_lines(new_idx as int, mapping@, old_lines@)
            == Some(v@),
        missing is None <==> spec_missing_old_lines(new_idx as int, mapping@, old_lines@) is None,
{
    if new_idx >= mapping.len() {
        return None;
    }
    let old_at = match mapping[new_idx] {
        Some(v) => v,
        None => {
            return None;
        },
    };
    let mut range_start: usize = 0;
    let mut k = new_idx;
    while k > 0
        invariant_except_break
            range_start == 0,
        invariant
            k <= new_idx < mapping@.len(),
            last_mapped_before(mapping@, new_idx as int) == last_mapped_before(mapping@, k as int),
            last_mapped_before(mapping@, new_idx as int) != Some(usize::MAX),
        ensures
            gap_start(mapping@, new_idx as int) == range_start,
        decreases k,
    {
        match mapping[k - 1] {
            Some(v) => {
                range_start = v + 1;
                break ;
            },
            None => {
                k -= 1;
            },
        }
    }
    if range_start >= old_at {
        return None;
    }
    let mut out: Vec<&'a str> = Vec::new();
    for t in range_start..old_at
        invariant
            range_start <= old_at <= old_lines@.len(),
            out@ == old_lines@.subrange(range_start as int, t as int),
    {
        out.push(old_lines[t]);
        assert(out@ =~= old_lines@.subrange(range_start as int, t + 1));
    }
    Some(out)
}


/// Every kept pair in the script matches equal lines.
pub proof fn lemma_backtrack_keeps_match(a: Seq<Seq<char>>, b: Seq<Seq<char>>, i: nat, j: nat)
    requires
        i <= a.len(),
        j <= b.len(),
        a.len() < usize::MAX,
        b.len() < usize::MAX,
    ensures
        forall|k: int|
            0 <= k < backtrack(a, b, i, j).len() ==> (#[trigger] backtrack(a, b, i, j)[k] matches DiffOp::Keep(
                o,
                n,
            ) ==> o < i && n < j && a[o as int] == b[n as int]),
    decreases i + j,
{
    if i == 0 && j == 0 {
    } else if i > 0 && j > 0 && a[i - 1] == b[j - 1] {
        lemma_backtrack_keeps_match(a, b, (i - 1) as nat, (j - 1) as nat);
    } else if j > 0 && (i == 0 || lcs_len(a, b, i, (j - 1) as nat) >= lcs_len(
        a,
        b,
        (i - 1) as nat,
        j,
    )) {
        lemma_backtrack_keeps_match(a, b, i, (j - 1) as nat);
    } else {
        lemma_backtrack_keeps_match(a, b, (i - 1) as nat, j);
    }
}

/// Every new line is consumed by some Keep or Insert step.
pub proof fn lemma_new_line_has_step(ops: Seq<DiffOp>, j: int)
    requires
        0 <= j < new_count(ops),
    ensures
        exists|k: int|
            0 <= k < ops.len() && !(ops[k] is Delete) && new_count(#[trigger] ops.take(k)) == j,
    decreases ops.len(),
{
    let p = ops.drop_last();
    if j < new_count(p) {
        lemma_new_line_has_step(p, j);
        let k = choose|k: int| 0 <= k < p.len() && !(p[k] is Delete) && new_count(#[trigger] p.take(k)) == j;
        assert(ops.take(k) == p.take(k));
        assert(ops[k] == p[k]);
    } else {
        assert(ops.take(p.len() as int) == p);
    }
}

/// Every old index the mapping names is a line of the old list.
pub proof fn lemma_mapping_in_old_range(a: Seq<Seq<char>>, b: Seq<Seq<char>>)
    requires
        a.len() < usize::MAX,
        b.len() < usize::MAX,
    ensures
        forall|k: int|
            0 <= k < spec_new_to_old(a, b).len() ==> (#[trigger] spec_new_to_old(a, b)[k] matches Some(
                v,
            ) ==> v < a.len()),
{
    if a.len() > 0 && b.len() > 0 {
        let ops = diff_ops(a, b);
        lemma_backtrack_well_ordered(a, b, a.len(), b.len());
        lemma_mapping_index(ops);
        assert forall|j: int| 0 <= j < spec_new_to_old(a, b).len() implies (
        #[trigger] spec_new_to_old(a, b)[j] matches Some(v) ==> v < a.len()) by {
            lemma_new_line_has_step(ops, j);
            let k = choose|k: int|
                0 <= k < ops.len() && !(ops[k] is Delete) && new_count(#[trigger] ops.take(k)) == j;
            lemma_count_take_succ(ops, k);
            lemma_new_count_prefix(ops, k + 1);
            if ops[k] is Insert {
                let s = insert_run_start(ops, k);
                let dl = delete_run_len(ops, s);
                lemma_insert_run_start_bounds(ops, k);
                lemma_delete_run_len_bound(ops, s);
                if k - s < dl {
                    let p = s - dl + (k - s);
                    lemma_count_take_succ(ops, p);
                    lemma_new_count_prefix(ops, p + 1);
                }
            }
        }
    }
}

/// Comparing a list of lines with itself keeps every line in place.
pub proof fn lemma_backtrack_identity(a: Seq<Seq<char>>, i: nat)
    requires
        i <= a.len(),
        a.len() < usize::MAX,
    ensures
        backtrack(a, a, i, i) == Seq::new(i, |k: int| DiffOp::Keep(k as usize, k as usize)),
    decreases i,
{
    if i > 0 {
        lemma_backtrack_identity(a, (i - 1) as nat);
    }
    assert(backtrack(a, a, i, i) =~= Seq::new(i, |k: int| DiffOp::Keep(k as usize, k as usize)));
}

/// A script of kept lines only marks every line Unchanged and maps it to itself.
pub proof fn lemma_all_keeps(i: nat)
    ensures
        statuses_of_ops(Seq::new(i, |k: int| DiffOp::Keep(k as usize, k as usize))) == Seq::new(
            i,
            |k: int| GitGutterStatus::Unchanged,
        ),
        mapping_of_ops(Seq::new(i, |k: int| DiffOp::Keep(k as usize, k as usize))) == Seq::new(
            i,
            |k: int| Some(k as usize),
        ),
    decreases i,
{
    let ops = Seq::new(i, |k: int| DiffOp::Keep(k as usize, k as usize));
    if i > 0 {
        lemma_all_keeps((i - 1) as nat);
        assert(ops.drop_last() =~= Seq::new((i - 1) as nat, |k: int| DiffOp::Keep(k as usize, k as usize)));
    }
    assert(statuses_of_ops(ops) =~= Seq::new(i, |k: int| GitGutterStatus::Unchanged));
    assert(mapping_of_ops(ops) =~= Seq::new(i, |k: int| Some(k as usize)));
}

/// Law: comparing a text with itself marks every one of its lines Unchanged.
pub proof fn law_identical_text_is_unchanged(text: Seq<char>)
    requires
        spec_lines(text).len() > 0,
        text.len() < usize::MAX,
    ensures
        spec_line_statuses(text, text) == Seq::new(
            spec_lines(text).len(),
            |k: int| GitGutterStatus::Unchanged,
        ),
{
    let a = spec_lines(text);
    crate::text::lemma_lines_len(text);
    lemma_backtrack_identity(a, a.len());
    lemma_all_keeps(a.len());
}

/// Law: mapping a list of lines onto itself maps every line to its own index.
pub proof fn law_identical_lines_map_to_themselves(lines: Seq<Seq<char>>)
    requires
        lines.len() > 0,
        lines.len() < usize::MAX,
    ensures
        spec_new_to_old(lines, lines) == Seq::new(lines.len(), |k: int| Some(k as usize)),
{
    lemma_backtrack_identity(lines, lines.len());
    lemma_all_keeps(lines.len());
}

/// Law: the new-to-old mapping agrees with the gutter markers. Unchanged and
/// Deleted-marked lines map to an equal old line, Added lines map to nothing,
/// and every mapped index names an old line.
pub proof fn law_mapping_agrees_with_statuses(old: Seq<char>, new: Seq<char>)
    requires
        old.len() < usize::MAX,
        new.len() < usize::MAX,
        spec_lines(old).len() > 0,
        spec_lines(new).len() > 0,
    ensures
        ({
            let a = spec_lines(old);
            let b = spec_lines(new);
            let st = spec_line_statuses(old, new);
            let mp = spec_new_to_old(a, b);
            &&& st.len() == b.len()
            &&& mp.len() == b.len()
            &&& forall|j: int|
                0 <= j < b.len() ==> ((#[trigger] st[j] == GitGutterStatus::Unchanged || st[j]
                    == GitGutterStatus::Deleted) ==> (mp[j] matches Some(o) && o < a.len() && a[o as int]
                    == b[j]))
            &&& forall|j: int|
                0 <= j < b.len() ==> (#[trigger] st[j] == GitGutterStatus::Added ==> mp[j] is None)
            &&& forall|j: int| 0 <= j < b.len() ==> (#[trigger] mp[j] matches Some(o) ==> o < a.len())
        }),
{
    let a = spec_lines(old);
    let b = spec_lines(new);
    crate::text::lemma_lines_len(old);
    crate::text::lemma_lines_len(new);
    let ops = diff_ops(a, b);
    let st = spec_line_statuses(old, new);
    let mp = spec_new_to_old(a, b);
    lemma_backtrack_well_ordered(a, b, a.len(), b.len());
    lemma_backtrack_keeps_match(a, b, a.len(), b.len());
    lemma_statuses_index(ops);
    lemma_mapping_index(ops);
    lemma_mapping_in_old_range(a, b);
    assert forall|j: int| 0 <= j < b.len() implies ((#[trigger] st[j] == GitGutterStatus::Unchanged
        || st[j] == GitGutterStatus::Deleted) ==> (mp[j] matches Some(o) && o < a.len() && a[o as int]
        == b[j])) && (st[j] == GitGutterStatus::Added ==> mp[j] is None) by {
        lemma_new_line_has_step(ops, j);
        let k = choose|k: int|
            0 <= k < ops.len() && !(ops[k] is Delete) && new_count(#[trigger] ops.take(k)) == j;
        if ops[k] is Insert {
            let s = insert_run_start(ops, k);
            lemma_insert_run_start_bounds(ops, k);
            lemma_delete_run_len_bound(ops, s);
        }
    }
}

} // verus!
