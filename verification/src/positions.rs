//! The file that remembers where the cursor was in each file: one line per file,
//! `seconds:line:offset:path`, the most recently used first, at most a hundred of them.
use vstd::prelude::*;
use crate::modes::Position;
use crate::status_line::{decimal, decimal_chars};
use crate::tags::{all_digits, digits_value, first_index, first_index_of, is_digit, lemma_digits_value_monotone, parse_decimal, parse_usize};
use crate::pickers::{all_positions, positions_upto};
use crate::search_select::first_n;
use crate::text::{push_chars, push_str, scan_lines, spec_lines, strip_cr, str_lines, string_from_chars, sub_chars, to_chars};
use vstd::relations::*;
use vstd::seq_lib::*;

verus! {

/// The most files the positions file remembers.
pub const MAX_ENTRIES: usize = 100;

/// Where the cursor was in a file, and when the file was last used (seconds since the
/// Unix epoch).
#[derive(Clone, Copy, Debug, PartialEq, Eq, Structural)]
pub struct BufferPosition {
    pub position: Position,
    pub last_used: u64,
}

/// What `str::parse::<u64>` gives: an optional `+`, then one or more decimal digits,
/// whose value fits in a `u64`.
pub open spec fn parse_u64(s: Seq<char>) -> Option<u64> {
    let digits = if s.len() > 0 && s[0] == '+' { s.skip(1) } else { s };
    if digits.len() > 0 && all_digits(digits) && digits_value(digits) <= u64::MAX {
        Some(digits_value(digits) as u64)
    } else {
        None
    }
}

fn parse_seconds(s: &Vec<char>) -> (r: Option<u64>)
    ensures
        r == parse_u64(s@),
{
    let start: usize = if s.len() > 0 && s[0] == '+' { 1 } else { 0 };
    let ghost digits = if s@.len() > 0 && s@[0] == '+' { s@.skip(1) } else { s@ };
    assert(digits == s@.skip(start as int));
    if start >= s.len() {
        return None;
    }
    let mut value: u64 = 0;
    let mut i = start;
    while i < s.len()
        invariant
            start <= i <= s@.len(),
            digits == s@.skip(start as int),
            start == (if s@.len() > 0 && s@[0] == '+' { 1usize } else { 0usize }),
            digits == (if s@.len() > 0 && s@[0] == '+' { s@.skip(1) } else { s@ }),
            all_digits(s@.subrange(start as int, i as int)),
            value == digits_value(s@.subrange(start as int, i as int)),
        decreases s@.len() - i,
    {
        let u = s[i] as u32;
        if u < 48 || u > 57 {
            assert(s@.skip(start as int)[i - start] == s@[i as int]);
            assert(!is_digit(digits[i - start]));
            return None;
        }
        let d = (u - 48) as u64;
        assert(s@.subrange(start as int, i + 1).drop_last() == s@.subrange(start as int, i as int));
        assert(s@.subrange(start as int, i + 1).last() == s@[i as int]);
        assert(digits_value(s@.subrange(start as int, i + 1)) == value * 10 + d);
        if value > (u64::MAX - d) / 10 {
            proof {
                assert(all_digits(s@.subrange(start as int, i + 1)));
                assert(digits_value(s@.subrange(start as int, i + 1)) > u64::MAX) by (nonlinear_arith)
                    requires
                        value > (u64::MAX - d) / 10,
                        digits_value(s@.subrange(start as int, i + 1)) == value * 10 + d,
                        d <= 9;
                if all_digits(digits) {
                    assert(s@.subrange(start as int, i + 1) == digits.take(i + 1 - start));
                    lemma_digits_value_monotone(digits, i + 1 - start);
                }
            }
            return None;
        }
        assert(value * 10 + d <= u64::MAX) by (nonlinear_arith)
            requires
                value <= (u64::MAX - d) / 10,
                d <= 9;
        value = value * 10 + d;
        i = i + 1;
    }
    assert(s@.subrange(start as int, s@.len() as int) == digits);
    Some(value)
}

/// The pieces of a line split at its first three colons (fewer when it has fewer).
pub open spec fn colon_pieces(line: Seq<char>) -> Seq<Seq<char>> {
    let c1 = first_index_of(line, ':');
    if c1 < 0 {
        seq![line]
    } else {
        let r1 = line.skip(c1 + 1);
        let c2 = first_index_of(r1, ':');
        if c2 < 0 {
            seq![line.take(c1), r1]
        } else {
            let r2 = r1.skip(c2 + 1);
            let c3 = first_index_of(r2, ':');
            if c3 < 0 {
                seq![line.take(c1), r1.take(c2), r2]
            } else {
                seq![line.take(c1), r1.take(c2), r2.take(c3), r2.skip(c3 + 1)]
            }
        }
    }
}

/// Whether a remembered path names a file: not empty, and not a special buffer such as
/// `[Ripgrep Results]`.
pub open spec fn is_file_path(p: Seq<char>) -> bool {
    p.len() > 0 && p[0] != '['
}

/// What one line of the positions file records: `seconds:line:offset:path`, or the
/// older `line:offset:path` (used at time zero); nothing for any other line.
pub open spec fn line_record(line: Seq<char>) -> Option<(Seq<char>, BufferPosition)> {
    let p = colon_pieces(line);
    if p.len() == 4 {
        match (parse_u64(p[0]), parse_usize(p[1]), parse_usize(p[2])) {
            (Some(t), Some(l), Some(o)) => if is_file_path(p[3]) {
                Some((p[3], BufferPosition { position: Position { line: l, offset: o }, last_used: t }))
            } else {
                None
            },
            _ => None,
        }
    } else if p.len() == 3 {
        match (parse_usize(p[0]), parse_usize(p[1])) {
            (Some(l), Some(o)) => if is_file_path(p[2]) {
                Some((p[2], BufferPosition { position: Position { line: l, offset: o }, last_used: 0 }))
            } else {
                None
            },
            _ => None,
        }
    } else {
        None
    }
}

/// Where path `p` is among the entries, or -1.
pub open spec fn path_index(entries: Seq<(Seq<char>, BufferPosition)>, p: Seq<char>) -> int
    decreases entries.len(),
{
    if entries.len() == 0 {
        -1
    } else if path_index(entries.drop_last(), p) >= 0 {
        path_index(entries.drop_last(), p)
    } else if entries.last().0 == p {
        entries.len() - 1
    } else {
        -1
    }
}

/// `entries` with `p` at `pos`: in place of its entry, or added at the end.
pub open spec fn remember(entries: Seq<(Seq<char>, BufferPosition)>, p: Seq<char>, pos: BufferPosition) -> Seq<(Seq<char>, BufferPosition)> {
    let j = path_index(entries, p);
    if j >= 0 {
        entries.update(j, (p, pos))
    } else {
        entries.push((p, pos))
    }
}

/// The positions the lines record, a later line for a path replacing an earlier one.
pub open spec fn recorded_positions(lines: Seq<Seq<char>>) -> Seq<(Seq<char>, BufferPosition)>
    decreases lines.len(),
{
    if lines.len() == 0 {
        seq![]
    } else {
        let before = recorded_positions(lines.drop_last());
        match line_record(lines.last()) {
            Some((p, pos)) => remember(before, p, pos),
            None => before,
        }
    }
}

fn colon_split(line: &Vec<char>) -> (r: Vec<Vec<char>>)
    ensures
        r@.map_values(|t: Vec<char>| t@) == colon_pieces(line@),
{
    let mut r: Vec<Vec<char>> = Vec::new();
    match first_index(line, ':') {
        None => {
            let whole = sub_chars(line, 0, line.len());
            assert(whole@ =~= line@);
            r.push(whole);
            assert(r@.map_values(|t: Vec<char>| t@) =~= colon_pieces(line@));
        },
        Some(c1) => {
            assert(c1 < line.len());
            let r1 = sub_chars(line, c1 + 1, line.len());
            assert(r1@ == line@.skip(c1 + 1));
            let a = sub_chars(line, 0, c1);
            assert(a@ == line@.take(c1 as int));
            r.push(a);
            match first_index(&r1, ':') {
                None => {
                    r.push(r1);
                    assert(r@.map_values(|t: Vec<char>| t@) =~= colon_pieces(line@));
                },
                Some(c2) => {
                    assert(c2 < r1.len());
                    let r2 = sub_chars(&r1, c2 + 1, r1.len());
                    assert(r2@ == r1@.skip(c2 + 1));
                    let b = sub_chars(&r1, 0, c2);
                    assert(b@ == r1@.take(c2 as int));
                    r.push(b);
                    match first_index(&r2, ':') {
                        None => {
                            r.push(r2);
                            assert(r@.map_values(|t: Vec<char>| t@) =~= colon_pieces(line@));
                        },
                        Some(c3) => {
                            assert(c3 < r2.len());
                            let c = sub_chars(&r2, 0, c3);
                            let d = sub_chars(&r2, c3 + 1, r2.len());
                            assert(c@ == r2@.take(c3 as int));
                            assert(d@ == r2@.skip(c3 + 1));
                            r.push(c);
                            r.push(d);
                            assert(r@.map_values(|t: Vec<char>| t@) =~= colon_pieces(line@));
                        },
                    }
                },
            }
        },
    }
    r
}

fn file_path_exec(p: &Vec<char>) -> (r: bool)
    ensures
        r == is_file_path(p@),
{
    p.len() > 0 && p[0] != '['
}

/// What one line of the positions file records.
pub fn parse_record(line: &str) -> (r: Option<(String, BufferPosition)>)
    ensures
        match line_record(line@) {
            Some((p, pos)) => r matches Some((s, q)) && s@ == p && q == pos,
            None => r is None,
        },
{
    let pieces = colon_split(&to_chars(line));
    assert(pieces@.len() == colon_pieces(line@).len());
    if pieces.len() == 4 {
        assert(pieces@[0]@ == colon_pieces(line@)[0] && pieces@[1]@ == colon_pieces(line@)[1]);
        assert(pieces@[2]@ == colon_pieces(line@)[2] && pieces@[3]@ == colon_pieces(line@)[3]);
        match (parse_seconds(&pieces[0]), parse_decimal(&pieces[1]), parse_decimal(&pieces[2])) {
            (Some(t), Some(l), Some(o)) => {
                if file_path_exec(&pieces[3]) {
                    Some((string_from_chars(sub_chars(&pieces[3], 0, pieces[3].len())), BufferPosition { position: Position { line: l, offset: o }, last_used: t }))
                } else {
                    None
                }
            },
            _ => None,
        }
    } else if pieces.len() == 3 {
        assert(pieces@[0]@ == colon_pieces(line@)[0] && pieces@[1]@ == colon_pieces(line@)[1]);
        assert(pieces@[2]@ == colon_pieces(line@)[2]);
        match (parse_decimal(&pieces[0]), parse_decimal(&pieces[1])) {
            (Some(l), Some(o)) => {
                if file_path_exec(&pieces[2]) {
                    Some((string_from_chars(sub_chars(&pieces[2], 0, pieces[2].len())), BufferPosition { position: Position { line: l, offset: o }, last_used: 0 }))
                } else {
                    None
                }
            },
            _ => None,
        }
    } else {
        None
    }
}

pub open spec fn entries_view(entries: Seq<(String, BufferPosition)>) -> Seq<(Seq<char>, BufferPosition)> {
    entries.map_values(|e: (String, BufferPosition)| (e.0@, e.1))
}

/// Records the position of file `path`: in place of its entry, or as a new entry.
pub fn remember_position(entries: &mut Vec<(String, BufferPosition)>, path: String, pos: BufferPosition)
    ensures
        entries_view(final(entries)@) == remember(entries_view(old(entries)@), path@, pos),
{
    let ghost before = entries_view(entries@);
    let mut i: usize = 0;
    while i < entries.len()
        invariant
            i <= entries@.len(),
            before == entries_view(entries@),
            entries@ == old(entries)@,
            path_index(before.take(i as int), path@) == -1,
        decreases entries@.len() - i,
    {
        assert(before.take(i + 1).drop_last() =~= before.take(i as int));
        if crate::text::str_eq(entries[i].0.as_str(), path.as_str()) {
            proof {
                assert(path_index(before.take(i + 1), path@) == i);
                lemma_path_index_prefix(before, path@, i as int + 1);
            }
            entries.set(i, (path, pos));
            assert(entries_view(entries@) =~= before.update(i as int, (path@, pos)));
            return;
        }
        i = i + 1;
    }
    assert(before.take(i as int) =~= before);
    let ghost pv = path@;
    entries.push((path, pos));
    assert(entries_view(entries@) =~= before.push((pv, pos)));
}

/// Once a prefix holds the path, the first place it is found stays the same.
proof fn lemma_path_index_prefix(entries: Seq<(Seq<char>, BufferPosition)>, p: Seq<char>, k: int)
    requires
        0 <= k <= entries.len(),
        path_index(entries.take(k), p) >= 0,
    ensures
        path_index(entries, p) == path_index(entries.take(k), p),
    decreases entries.len() - k,
{
    if k < entries.len() {
        assert(entries.take(k + 1).drop_last() =~= entries.take(k));
        lemma_path_index_prefix(entries, p, k + 1);
    } else {
        assert(entries.take(k) =~= entries);
    }
}

/// Reads the positions file: each file once, a later line replacing an earlier one.
pub fn parse_positions(content: &str) -> (r: Vec<(String, BufferPosition)>)
    ensures
        entries_view(r@) == recorded_positions(spec_lines(content@)),
{
    let lines = str_lines(content);
    let ghost ls = spec_lines(content@);
    let mut r: Vec<(String, BufferPosition)> = Vec::new();
    let mut i: usize = 0;
    assert(entries_view(r@) =~= Seq::<(Seq<char>, BufferPosition)>::empty());
    while i < lines.len()
        invariant
            i <= lines@.len(),
            lines@.map_values(|l: &str| l@) == ls,
            ls == spec_lines(content@),
            entries_view(r@) == recorded_positions(ls.take(i as int)),
        decreases lines@.len() - i,
    {
        assert(ls.take(i + 1).drop_last() =~= ls.take(i as int));
        assert(lines@[i as int]@ == ls[i as int]);
        match parse_record(lines[i]) {
            Some((p, pos)) => remember_position(&mut r, p, pos),
            None => {},
        }
        i = i + 1;
    }
    assert(ls.take(lines@.len() as int) =~= ls);
    r
}

/// Most recently used first; among files used at the same time, the earlier entry first.
pub open spec fn recent_first(entries: Seq<(Seq<char>, BufferPosition)>) -> spec_fn(usize, usize) -> bool {
    |a: usize, b: usize|
        entries[a as int].1.last_used > entries[b as int].1.last_used || (entries[a as int].1.last_used
            == entries[b as int].1.last_used && a <= b)
}

/// The entries the positions file keeps, in the order it lists them.
pub open spec fn saved_order(entries: Seq<(Seq<char>, BufferPosition)>) -> Seq<usize> {
    first_n(all_positions(entries.len()).sort_by(recent_first(entries)), MAX_ENTRIES as int)
}

/// One line of the positions file.
pub open spec fn position_line(p: Seq<char>, pos: BufferPosition) -> Seq<char> {
    decimal(pos.last_used as nat) + ":"@ + decimal(pos.position.line as nat) + ":"@ + decimal(pos.position.offset as nat) + ":"@ + p + "\n"@
}

/// The lines for the entries at `order`, in that order.
pub open spec fn lines_for(entries: Seq<(Seq<char>, BufferPosition)>, order: Seq<usize>) -> Seq<char>
    decreases order.len(),
{
    if order.len() == 0 {
        Seq::empty()
    } else {
        lines_for(entries, order.drop_last()) + position_line(entries[order.last() as int].0, entries[order.last() as int].1)
    }
}

/// The text of the positions file.
pub open spec fn saved_text(entries: Seq<(Seq<char>, BufferPosition)>) -> Seq<char> {
    lines_for(entries, saved_order(entries))
}

fn decimal_u64(n: u64) -> (r: Vec<char>)
    ensures
        r@ == decimal(n as nat),
    decreases n,
{
    if n < 10 {
        let d = (48 + n) as u8;
        vec![d as char]
    } else {
        let mut v = decimal_u64(n / 10);
        let d = (48 + n % 10) as u8;
        v.push(d as char);
        v
    }
}

proof fn lemma_recent_first_total(entries: Seq<(Seq<char>, BufferPosition)>)
    ensures
        total_ordering(recent_first(entries)),
{
}

fn recent_first_exec(entries: &Vec<(String, BufferPosition)>, a: usize, b: usize) -> (r: bool)
    requires
        a < entries@.len(),
        b < entries@.len(),
    ensures
        r == recent_first(entries_view(entries@))(a, b),
{
    let (ta, tb) = (entries[a].1.last_used, entries[b].1.last_used);
    ta > tb || (ta == tb && a <= b)
}

fn recent_order(entries: &Vec<(String, BufferPosition)>) -> (r: Vec<usize>)
    ensures
        forall|j: int| 0 <= j < r@.len() ==> #[trigger] r@[j] < entries@.len(),
        r@ == all_positions(entries@.len()).sort_by(recent_first(entries_view(entries@))),
{
    let ghost ord = recent_first(entries_view(entries@));
    let all = positions_upto(entries.len());
    let mut out: Vec<usize> = Vec::new();
    let mut k: usize = 0;
    proof {
        lemma_recent_first_total(entries_view(entries@));
        assert(out@ =~= all@.take(0));
    }
    while k < all.len()
        invariant
            k <= all@.len(),
            all@ == all_positions(entries@.len()),
            ord == recent_first(entries_view(entries@)),
            total_ordering(ord),
            forall|j: int| 0 <= j < out@.len() ==> #[trigger] out@[j] < entries@.len(),
            sorted_by(out@, ord),
            out@.to_multiset() == all@.take(k as int).to_multiset(),
        decreases all@.len() - k,
    {
        let x = all[k];
        let mut pos: usize = 0;
        while pos < out.len() && recent_first_exec(entries, out[pos], x)
            invariant
                pos <= out@.len(),
                x < entries@.len(),
                ord == recent_first(entries_view(entries@)),
                forall|j: int| 0 <= j < out@.len() ==> #[trigger] out@[j] < entries@.len(),
                forall|j: int| 0 <= j < pos ==> ord(#[trigger] out@[j], x),
            decreases out@.len() - pos,
        {
            pos = pos + 1;
        }
        let ghost before = out@;
        proof {
            if pos < out@.len() {
                assert(!ord(out@[pos as int], x));
                assert(ord(out@[pos as int], x) || ord(x, out@[pos as int]));
            }
        }
        out.insert(pos, x);
        proof {
            assert(all@.take(k + 1) == all@.take(k as int).push(x));
            to_multiset_build(all@.take(k as int), x);
            to_multiset_insert(before, pos as int, x);
            assert forall|i1: int, j1: int| 0 <= i1 < j1 < out@.len() implies #[trigger] ord(out@[i1], out@[j1]) by {
                if j1 < pos {
                    assert(out@[i1] == before[i1] && out@[j1] == before[j1]);
                } else if j1 == pos {
                    assert(out@[i1] == before[i1]);
                } else if i1 < pos {
                    assert(out@[i1] == before[i1] && out@[j1] == before[j1 - 1]);
                    assert(ord(before[i1], before[j1 - 1]));
                } else if i1 == pos {
                    assert(out@[j1] == before[j1 - 1]);
                    assert(ord(before[pos as int], before[j1 - 1]));
                    assert(ord(x, before[pos as int]));
                } else {
                    assert(out@[i1] == before[i1 - 1] && out@[j1] == before[j1 - 1]);
                    assert(ord(before[i1 - 1], before[j1 - 1]));
                }
            }
        }
        k = k + 1;
    }
    proof {
        assert(all@.take(all@.len() as int) == all@);
        all@.lemma_sort_by_ensures(ord);
        lemma_sorted_unique(out@, all@.sort_by(ord), ord);
    }
    out
}

/// The text of the positions file: the hundred most recently used files, most recent
/// first, one `seconds:line:offset:path` line each.
pub fn serialize_positions(entries: &Vec<(String, BufferPosition)>) -> (r: String)
    ensures
        r@ == saved_text(entries_view(entries@)),
{
    let ghost ev = entries_view(entries@);
    let order = recent_order(entries);
    let n = if order.len() <= MAX_ENTRIES { order.len() } else { MAX_ENTRIES };
    let ghost keep = saved_order(ev);
    assert(keep =~= order@.take(n as int));
    let mut out: Vec<char> = Vec::new();
    let mut i: usize = 0;
    while i < n
        invariant
            i <= n,
            n <= order@.len(),
            ev == entries_view(entries@),
            forall|j: int| 0 <= j < order@.len() ==> #[trigger] order@[j] < entries@.len(),
            keep == order@.take(n as int),
            out@ == lines_for(ev, keep.take(i as int)),
        decreases n - i,
    {
        let e = &entries[order[i]];
        assert(keep.take(i + 1).drop_last() =~= keep.take(i as int));
        assert(keep.take(i + 1).last() == order@[i as int]);
        let ghost before = out@;
        push_chars(&mut out, &decimal_u64(e.1.last_used));
        push_str(&mut out, ":");
        push_chars(&mut out, &decimal_chars(e.1.position.line));
        push_str(&mut out, ":");
        push_chars(&mut out, &decimal_chars(e.1.position.offset));
        push_str(&mut out, ":");
        push_str(&mut out, e.0.as_str());
        push_str(&mut out, "\n");
        assert(out@ =~= before + position_line(ev[order@[i as int] as int].0, ev[order@[i as int] as int].1));
        i = i + 1;
    }
    assert(keep.take(n as int) =~= keep);
    string_from_chars(out)
}

/// The digits of a number read back as that number.
pub proof fn lemma_decimal_digits(n: nat)
    ensures
        decimal(n).len() >= 1,
        all_digits(decimal(n)),
        digits_value(decimal(n)) == n,
    decreases n,
{
    if n >= 10 {
        lemma_decimal_digits(n / 10);
        let d = decimal(n / 10);
        let c = ((48 + n % 10) as u8) as char;
        assert(decimal(n) == d.push(c));
        assert(d.push(c).drop_last() =~= d);
        assert(d.push(c).last() == c);
        assert((c as u32) == 48 + n % 10);
        assert(crate::tags::digit_value(c) == n % 10);
        assert(digits_value(d.push(c)) == digits_value(d) * 10 + crate::tags::digit_value(c));
        assert(n == (n / 10) * 10 + n % 10) by (nonlinear_arith);
        assert forall|i: int| 0 <= i < d.push(c).len() implies is_digit(#[trigger] d.push(c)[i]) by {
            if i < d.len() {
                assert(d.push(c)[i] == d[i]);
            }
        }
    } else {
        let c = ((48 + n) as u8) as char;
        assert(decimal(n) == seq![c]);
        assert(seq![c].drop_last() =~= Seq::<char>::empty());
        assert((c as u32) == 48 + n);
        assert(crate::tags::digit_value(c) == n);
        assert(digits_value(seq![c]) == digits_value(Seq::<char>::empty()) * 10 + crate::tags::digit_value(c));
    }
}

/// A text without `c` has no first `c`.
proof fn lemma_no_char(s: Seq<char>, c: char)
    requires
        forall|i: int| 0 <= i < s.len() ==> s[i] != c,
    ensures
        first_index_of(s, c) == -1,
    decreases s.len(),
{
    if s.len() > 0 {
        lemma_no_char(s.drop_last(), c);
    }
}

/// The first `c` of `x`, `c`, `y` is the one after `x` when `x` holds none.
proof fn lemma_first_at(x: Seq<char>, y: Seq<char>, c: char)
    requires
        forall|i: int| 0 <= i < x.len() ==> x[i] != c,
    ensures
        first_index_of(x + seq![c] + y, c) == x.len(),
    decreases y.len(),
{
    if y.len() == 0 {
        assert((x + seq![c] + y).drop_last() =~= x);
        lemma_no_char(x, c);
    } else {
        assert((x + seq![c] + y).drop_last() =~= x + seq![c] + y.drop_last());
        lemma_first_at(x, y.drop_last(), c);
    }
}

proof fn lemma_digits_no_colon(d: Seq<char>)
    requires
        all_digits(d),
    ensures
        forall|i: int| 0 <= i < d.len() ==> d[i] != ':',
{
    assert forall|i: int| 0 <= i < d.len() implies d[i] != ':' by {
        assert(is_digit(d[i]));
    }
}

/// A line of the positions file without its line break.
pub open spec fn position_text(p: Seq<char>, pos: BufferPosition) -> Seq<char> {
    decimal(pos.last_used as nat) + seq![':'] + decimal(pos.position.line as nat) + seq![':'] + decimal(
        pos.position.offset as nat,
    ) + seq![':'] + p
}

/// Split at its first three colons, a line of three colon-free pieces and a rest gives
/// those pieces.
proof fn lemma_colon_pieces(a: Seq<char>, b: Seq<char>, c: Seq<char>, p: Seq<char>)
    requires
        forall|i: int| 0 <= i < a.len() ==> a[i] != ':',
        forall|i: int| 0 <= i < b.len() ==> b[i] != ':',
        forall|i: int| 0 <= i < c.len() ==> c[i] != ':',
    ensures
        colon_pieces(a + seq![':'] + b + seq![':'] + c + seq![':'] + p) == seq![a, b, c, p],
{
    let line = a + seq![':'] + b + seq![':'] + c + seq![':'] + p;
    let r1 = b + seq![':'] + c + seq![':'] + p;
    let r2 = c + seq![':'] + p;
    assert(line =~= a + seq![':'] + r1);
    lemma_first_at(a, r1, ':');
    assert(line.take(a.len() as int) =~= a);
    assert(line.skip(a.len() as int + 1) =~= r1);
    assert(r1 =~= b + seq![':'] + r2);
    lemma_first_at(b, r2, ':');
    assert(r1.take(b.len() as int) =~= b);
    assert(r1.skip(b.len() as int + 1) =~= r2);
    lemma_first_at(c, p, ':');
    assert(r2.take(c.len() as int) =~= c);
    assert(r2.skip(c.len() as int + 1) =~= p);
    assert(colon_pieces(line) =~= seq![a, b, c, p]);
}

/// A number's digits read back as the number.
pub proof fn lemma_parse_decimal(n: nat)
    ensures
        n <= u64::MAX ==> parse_u64(decimal(n)) == Some(n as u64),
        n <= usize::MAX ==> parse_usize(decimal(n)) == Some(n as usize),
{
    lemma_decimal_digits(n);
    assert(is_digit(decimal(n)[0]));
}

/// A written line reads back as what was written.
proof fn lemma_line_reads_back(p: Seq<char>, pos: BufferPosition)
    requires
        is_file_path(p),
    ensures
        line_record(position_text(p, pos)) == Some((p, pos)),
{
    let a = decimal(pos.last_used as nat);
    let b = decimal(pos.position.line as nat);
    let c = decimal(pos.position.offset as nat);
    lemma_decimal_digits(pos.last_used as nat);
    lemma_decimal_digits(pos.position.line as nat);
    lemma_decimal_digits(pos.position.offset as nat);
    lemma_digits_no_colon(a);
    lemma_digits_no_colon(b);
    lemma_digits_no_colon(c);
    lemma_colon_pieces(a, b, c, p);
    lemma_parse_decimal(pos.last_used as nat);
    lemma_parse_decimal(pos.position.line as nat);
    lemma_parse_decimal(pos.position.offset as nat);
    let pieces = colon_pieces(position_text(p, pos));
    assert(pieces == seq![a, b, c, p]);
    assert(pieces[0] == a && pieces[1] == b && pieces[2] == c && pieces[3] == p);
}

/// Scanning a text that ends a line, then one more line.
proof fn lemma_scan_line(t: Seq<char>, l: Seq<char>, k: int)
    requires
        scan_lines(t).1.len() == 0,
        0 <= k <= l.len(),
        forall|i: int| 0 <= i < l.len() ==> l[i] != '\n',
    ensures
        scan_lines(t + l.take(k)) == (scan_lines(t).0, l.take(k)),
    decreases k,
{
    if k == 0 {
        assert(t + l.take(0) =~= t);
        assert(scan_lines(t).1 =~= l.take(0));
    } else {
        lemma_scan_line(t, l, k - 1);
        assert((t + l.take(k)).drop_last() =~= t + l.take(k - 1));
        assert(l.take(k - 1).push(l[k - 1]) =~= l.take(k));
    }
}

/// The lines of the positions file for the entries at `order`, line breaks left out.
pub open spec fn texts_for(entries: Seq<(Seq<char>, BufferPosition)>, order: Seq<usize>) -> Seq<Seq<char>> {
    order.map_values(|i: usize| position_text(entries[i as int].0, entries[i as int].1))
}

/// A path the positions file can hold: it names a file, takes no line break, and does
/// not end in a carriage return.
pub open spec fn storable_path(p: Seq<char>) -> bool {
    &&& is_file_path(p)
    &&& forall|i: int| 0 <= i < p.len() ==> p[i] != '\n'
    &&& p.last() != '\r'
}

proof fn lemma_scan_lines_for(entries: Seq<(Seq<char>, BufferPosition)>, order: Seq<usize>)
    requires
        forall|j: int| 0 <= j < order.len() ==> storable_path(#[trigger] entries[order[j] as int].0),
    ensures
        scan_lines(lines_for(entries, order)) == (texts_for(entries, order), Seq::<char>::empty()),
    decreases order.len(),
{
    reveal_strlit(":");
    reveal_strlit("\n");
    if order.len() == 0 {
        assert(texts_for(entries, order) =~= Seq::<Seq<char>>::empty());
    } else {
        lemma_scan_lines_for(entries, order.drop_last());
        let i = order.last() as int;
        let (p, pos) = (entries[i].0, entries[i].1);
        let l = position_text(p, pos);
        assert(storable_path(entries[order[order.len() - 1] as int].0));
        assert(position_line(p, pos) =~= l.push('\n'));
        let t = lines_for(entries, order.drop_last());
        lemma_decimal_digits(pos.last_used as nat);
        lemma_decimal_digits(pos.position.line as nat);
        lemma_decimal_digits(pos.position.offset as nat);
        assert forall|k: int| 0 <= k < l.len() implies l[k] != '\n' by {
            let a = decimal(pos.last_used as nat);
            let b = decimal(pos.position.line as nat);
            let c = decimal(pos.position.offset as nat);
            if k < a.len() {
                assert(is_digit(a[k]));
            } else if a.len() < k < a.len() + 1 + b.len() {
                assert(is_digit(b[k - a.len() - 1]));
            } else if a.len() + 1 + b.len() < k < a.len() + 2 + b.len() + c.len() {
                assert(is_digit(c[k - a.len() - 2 - b.len()]));
            }
        }
        lemma_scan_line(t, l, l.len() as int);
        assert(l.take(l.len() as int) =~= l);
        assert(t + position_line(p, pos) =~= (t + l).push('\n'));
        assert((t + l).push('\n').drop_last() =~= t + l);
        assert(strip_cr(l) == l);
        assert(texts_for(entries, order) =~= texts_for(entries, order.drop_last()).push(l));
    }
}

proof fn lemma_path_index_absent(entries: Seq<(Seq<char>, BufferPosition)>, p: Seq<char>)
    requires
        forall|i: int| 0 <= i < entries.len() ==> entries[i].0 != p,
    ensures
        path_index(entries, p) == -1,
    decreases entries.len(),
{
    if entries.len() > 0 {
        lemma_path_index_absent(entries.drop_last(), p);
    }
}

proof fn lemma_read_texts(entries: Seq<(Seq<char>, BufferPosition)>, order: Seq<usize>)
    requires
        forall|j: int| 0 <= j < order.len() ==> storable_path(#[trigger] entries[order[j] as int].0),
        forall|j: int, k: int| 0 <= j < k < order.len() ==> entries[order[j] as int].0 != entries[order[k] as int].0,
    ensures
        recorded_positions(texts_for(entries, order)) == order.map_values(|i: usize| entries[i as int]),
    decreases order.len(),
{
    let texts = texts_for(entries, order);
    if order.len() == 0 {
        assert(order.map_values(|i: usize| entries[i as int]) =~= Seq::<(Seq<char>, BufferPosition)>::empty());
    } else {
        let front = order.drop_last();
        assert(texts.drop_last() =~= texts_for(entries, front));
        lemma_read_texts(entries, front);
        let i = order.last() as int;
        assert(storable_path(entries[order[order.len() - 1] as int].0));
        lemma_line_reads_back(entries[i].0, entries[i].1);
        let before = front.map_values(|x: usize| entries[x as int]);
        assert forall|j: int| 0 <= j < before.len() implies before[j].0 != entries[i].0 by {
            assert(before[j] == entries[front[j] as int]);
            assert(front[j] == order[j]);
        }
        lemma_path_index_absent(before, entries[i].0);
        assert(order.map_values(|x: usize| entries[x as int]) =~= before.push(entries[i]));
    }
}

/// What the positions file is written with reads back: the hundred most recently used
/// files, most recent first, each at its position, when no two entries are for the
/// same file and each path can stand on a line of its own.
pub proof fn law_positions_round_trip(entries: Seq<(Seq<char>, BufferPosition)>)
    requires
        entries.len() <= usize::MAX,
        forall|i: int| 0 <= i < entries.len() ==> storable_path(#[trigger] entries[i].0),
        forall|i: int, j: int| 0 <= i < j < entries.len() ==> entries[i].0 != entries[j].0,
    ensures
        recorded_positions(spec_lines(saved_text(entries))) == saved_order(entries).map_values(
            |i: usize| entries[i as int],
        ),
{
    let all = all_positions(entries.len());
    let ord = recent_first(entries);
    lemma_recent_first_total(entries);
    all.lemma_sort_by_ensures(ord);
    let sorted = all.sort_by(ord);
    let order = saved_order(entries);
    assert forall|i: int, j: int| 0 <= i < all.len() && 0 <= j < all.len() && i != j implies all[i] != all[j] by {}
    assert(all.no_duplicates());
    all.lemma_multiset_has_no_duplicates();
    assert forall|x: usize| sorted.to_multiset().contains(x) implies sorted.to_multiset().count(x) == 1 by {}
    sorted.lemma_multiset_has_no_duplicates_conv();
    assert forall|j: int| 0 <= j < sorted.len() implies (#[trigger] sorted[j]) < entries.len() by {
        assert(sorted.contains(sorted[j]));
        assert(all.contains(sorted[j]));
    }
    assert(order.len() <= sorted.len());
    assert forall|j: int| 0 <= j < order.len() implies #[trigger] order[j] == sorted[j] by {}
    assert forall|j: int| 0 <= j < order.len() implies storable_path(#[trigger] entries[order[j] as int].0) by {
        assert(order[j] == sorted[j]);
    }
    assert forall|j: int, k: int| 0 <= j < k < order.len() implies entries[order[j] as int].0 != entries[order[k] as int].0 by {
        assert(order[j] == sorted[j] && order[k] == sorted[k]);
        assert(sorted[j] != sorted[k]);
    }
    lemma_scan_lines_for(entries, order);
    lemma_read_texts(entries, order);
}

/// Pruning keeps the most recently used: the positions file lists a hundred entries, or
/// all of them when there are fewer, each at most once, and no entry left out was used
/// later than one kept.
pub proof fn law_pruning_keeps_most_recent(entries: Seq<(Seq<char>, BufferPosition)>)
    requires
        entries.len() <= usize::MAX,
    ensures
        saved_order(entries).len() == if entries.len() <= MAX_ENTRIES { entries.len() } else { MAX_ENTRIES as nat },
        saved_order(entries).no_duplicates(),
        forall|i: int| 0 <= i < saved_order(entries).len() ==> #[trigger] saved_order(entries)[i] < entries.len(),
        forall|i: int, b: usize|
            #![trigger saved_order(entries)[i], entries[b as int]]
            0 <= i < saved_order(entries).len() && b < entries.len() && !saved_order(entries).contains(b)
                ==> entries[saved_order(entries)[i] as int].1.last_used >= entries[b as int].1.last_used,
{
    broadcast use vstd::seq_lib::group_to_multiset_ensures;

    let n = entries.len();
    let all = all_positions(n);
    let leq = recent_first(entries);
    lemma_recent_first_total(entries);
    all.lemma_sort_by_ensures(leq);
    let sorted = all.sort_by(leq);
    assert forall|a: int, b: int| 0 <= a < all.len() && 0 <= b < all.len() && a != b implies all[a] != all[b] by {
        assert(all[a] == a as usize && all[b] == b as usize);
    }
    all.lemma_multiset_has_no_duplicates();
    assert forall|x: usize| sorted.to_multiset().contains(x) implies sorted.to_multiset().count(x) == 1 by {
        assert(all.to_multiset().contains(x));
    }
    sorted.lemma_multiset_has_no_duplicates_conv();
    assert(sorted.len() == n) by {
        assert(sorted.to_multiset().len() == sorted.len());
        assert(all.to_multiset().len() == all.len());
    }
    assert forall|j: int| 0 <= j < n implies #[trigger] sorted[j] < n by {
        assert(sorted.contains(sorted[j]));
        assert(sorted.to_multiset().count(sorted[j]) > 0);
        assert(all.contains(sorted[j]));
    }
    let keep = saved_order(entries);
    assert(keep == first_n(sorted, MAX_ENTRIES as int));
    assert forall|i: int, b: usize|
        #![trigger keep[i], entries[b as int]]
        0 <= i < keep.len() && b < n && !keep.contains(b) implies entries[keep[i] as int].1.last_used
        >= entries[b as int].1.last_used by {
        assert(all[b as int] == b);
        assert(all.contains(b));
        assert(all.to_multiset().count(b) > 0);
        assert(sorted.contains(b));
        let j = choose|j: int| 0 <= j < sorted.len() && sorted[j] == b;
        if j < keep.len() {
            assert(keep[j] == b);
        }
        assert(keep[i] == sorted[i]);
        assert(i < j);
        assert(leq(sorted[i], sorted[j]));
    }
}

} // verus!
