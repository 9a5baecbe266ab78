//! The order of text (by code point, which is the order of `String`'s `Ord`),
//! and the sorted collections of text built on it.
use vstd::prelude::*;
use vstd::relations::*;
use vstd::seq_lib::*;

verus! {

/// `a` sorts no later than `b`: lexicographic order by code point.
pub open spec fn chars_le(a: Seq<char>, b: Seq<char>) -> bool
    decreases a.len(),
{
    if a.len() == 0 {
        true
    } else if b.len() == 0 {
        false
    } else if a[0] != b[0] {
        (a[0] as u32) < (b[0] as u32)
    } else {
        chars_le(a.skip(1), b.skip(1))
    }
}

/// The order as a relation.
pub open spec fn text_order() -> spec_fn(Seq<char>, Seq<char>) -> bool {
    |a: Seq<char>, b: Seq<char>| chars_le(a, b)
}

/// The views of a vector of character vectors.
pub open spec fn views(v: Seq<Vec<char>>) -> Seq<Seq<char>> {
    v.map_values(|x: Vec<char>| x@)
}

pub proof fn lemma_le_reflexive(a: Seq<char>)
    ensures
        chars_le(a, a),
    decreases a.len(),
{
    if a.len() > 0 {
        lemma_le_reflexive(a.skip(1));
    }
}

pub proof fn lemma_le_antisymmetric(a: Seq<char>, b: Seq<char>)
    requires
        chars_le(a, b),
        chars_le(b, a),
    ensures
        a == b,
    decreases a.len(),
{
    if a.len() > 0 && b.len() > 0 {
        lemma_le_antisymmetric(a.skip(1), b.skip(1));
        assert(a == seq![a[0]] + a.skip(1));
        assert(b == seq![b[0]] + b.skip(1));
    }
}

pub proof fn lemma_le_transitive(a: Seq<char>, b: Seq<char>, c: Seq<char>)
    requires
        chars_le(a, b),
        chars_le(b, c),
    ensures
        chars_le(a, c),
    decreases a.len(),
{
    if a.len() > 0 && b.len() > 0 && c.len() > 0 && a[0] == b[0] && b[0] == c[0] {
        lemma_le_transitive(a.skip(1), b.skip(1), c.skip(1));
    }
}

pub proof fn lemma_le_connected(a: Seq<char>, b: Seq<char>)
    ensures
        chars_le(a, b) || chars_le(b, a),
    decreases a.len(),
{
    if a.len() > 0 && b.len() > 0 {
        if a[0] == b[0] {
            lemma_le_connected(a.skip(1), b.skip(1));
        } else {
            vstd::utf8::char_u32_cast(a[0], a[0] as u32);
            vstd::utf8::char_u32_cast(b[0], b[0] as u32);
        }
    }
}

/// The order of text is a total order.
pub proof fn lemma_text_order_total()
    ensures
        total_ordering(text_order()),
{
    assert forall|x: Seq<char>| #[trigger] text_order()(x, x) by {
        lemma_le_reflexive(x);
    }
    assert forall|x: Seq<char>, y: Seq<char>|
        #[trigger] text_order()(x, y) && #[trigger] text_order()(y, x) implies x == y by {
        lemma_le_antisymmetric(x, y);
    }
    assert forall|x: Seq<char>, y: Seq<char>, z: Seq<char>|
        #[trigger] text_order()(x, y) && #[trigger] text_order()(y, z) implies text_order()(x, z) by {
        lemma_le_transitive(x, y, z);
    }
    assert forall|x: Seq<char>, y: Seq<char>|
        #[trigger] text_order()(x, y) || #[trigger] text_order()(y, x) by {
        lemma_le_connected(x, y);
    }
}

/// Whether `a` sorts no later than `b`.
pub fn chars_le_exec(a: &Vec<char>, b: &Vec<char>) -> (r: bool)
    ensures
        r == chars_le(a@, b@),
{
    let mut i: usize = 0;
    assert(a@.skip(0) == a@ && b@.skip(0) == b@);
    while i < a.len() && i < b.len() && a[i] == b[i]
        invariant
            i <= a@.len(),
            i <= b@.len(),
            chars_le(a@.skip(i as int), b@.skip(i as int)) == chars_le(a@, b@),
        decreases a@.len() - i,
    {
        assert(a@.skip(i as int).skip(1) == a@.skip(i + 1));
        assert(b@.skip(i as int).skip(1) == b@.skip(i + 1));
        i = i + 1;
    }
    if i == a.len() {
        true
    } else if i == b.len() {
        false
    } else {
        (a[i] as u32) < (b[i] as u32)
    }
}

/// Inserts `w` into sorted `out` after every entry that sorts no later than it.
fn insert_sorted(out: &mut Vec<Vec<char>>, w: Vec<char>)
    requires
        sorted_by(views(old(out)@), text_order()),
    ensures
        sorted_by(views(final(out)@), text_order()),
        views(final(out)@).to_multiset() == views(old(out)@).to_multiset().insert(w@),
{
    let mut pos: usize = 0;
    while pos < out.len() && chars_le_exec(&out[pos], &w)
        invariant
            pos <= out@.len(),
            forall|k: int| 0 <= k < pos ==> chars_le(#[trigger] out@[k]@, w@),
        decreases out@.len() - pos,
    {
        pos = pos + 1;
    }
    let ghost before = views(out@);
    let ghost wv = w@;
    proof {
        lemma_text_order_total();
        if pos < out@.len() {
            lemma_le_connected(out@[pos as int]@, w@);
        }
    }
    out.insert(pos, w);
    proof {
        assert(views(out@) == before.insert(pos as int, wv));
        to_multiset_insert(before, pos as int, wv);
        let after = views(out@);
        assert forall|i: int, j: int| 0 <= i < j < after.len() implies #[trigger] text_order()(
            after[i],
            after[j],
        ) by {
            if j < pos {
                assert(after[i] == before[i] && after[j] == before[j]);
            } else if j == pos {
                assert(after[i] == before[i]);
            } else if i < pos {
                assert(after[i] == before[i] && after[j] == before[j - 1]);
                assert(text_order()(before[i], before[j - 1]));
            } else if i == pos {
                assert(after[j] == before[j - 1]);
                assert(text_order()(before[pos as int], before[j - 1]));
                assert(text_order()(wv, before[pos as int]));
            } else {
                assert(after[i] == before[i - 1] && after[j] == before[j - 1]);
                assert(text_order()(before[i - 1], before[j - 1]));
            }
        }
    }
}

/// The texts of `items` in increasing order, equal texts kept.
pub fn sort_texts(items: Vec<Vec<char>>) -> (r: Vec<Vec<char>>)
    ensures
        views(r@) == views(items@).sort_by(text_order()),
{
    let mut out: Vec<Vec<char>> = Vec::new();
    let mut i: usize = 0;
    let n = items.len();
    let mut rest = items;
    let ghost all = views(rest@);
    assert(views(out@) =~= all.take(0));
    while i < n
        invariant
            n == all.len(),
            i <= n,
            rest@.len() == n,
            views(rest@) == all,
            sorted_by(views(out@), text_order()),
            views(out@).to_multiset() == all.take(i as int).to_multiset(),
        decreases n - i,
    {
        let w = vec_clone_chars(&rest[i]);
        insert_sorted(&mut out, w);
        proof {
            assert(all.take(i + 1) == all.take(i as int).push(all[i as int]));
            to_multiset_build(all.take(i as int), all[i as int]);
        }
        i = i + 1;
    }
    proof {
        assert(all.take(n as int) == all);
        lemma_text_order_total();
        all.lemma_sort_by_ensures(text_order());
        lemma_sorted_unique(views(out@), all.sort_by(text_order()), text_order());
    }
    out
}

/// A copy of a character vector.
pub fn vec_clone_chars(v: &Vec<char>) -> (r: Vec<char>)
    ensures
        r@ == v@,
{
    let mut r: Vec<char> = Vec::new();
    let mut i: usize = 0;
    while i < v.len()
        invariant
            i <= v@.len(),
            r@ == v@.take(i as int),
        decreases v@.len() - i,
    {
        r.push(v[i]);
        i = i + 1;
        assert(r@ == v@.take(i as int));
    }
    assert(v@.take(v@.len() as int) == v@);
    r
}

/// Increasing and without repeats.
pub open spec fn strictly_sorted(s: Seq<Seq<char>>) -> bool {
    forall|i: int, j: int|
        0 <= i < j < s.len() ==> chars_le(#[trigger] s[i], #[trigger] s[j]) && s[i] != s[j]
}

/// Inserts `w` into the increasing, repeat-free `out`, unless it is there already.
pub fn insert_distinct_sorted(out: &mut Vec<Vec<char>>, w: Vec<char>)
    requires
        strictly_sorted(views(old(out)@)),
    ensures
        strictly_sorted(views(final(out)@)),
        forall|x: Seq<char>|
            views(final(out)@).contains(x) <==> (views(old(out)@).contains(x) || x == w@),
{
    let mut pos: usize = 0;
    while pos < out.len() && chars_le_exec(&out[pos], &w)
        invariant
            pos <= out@.len(),
            forall|k: int| 0 <= k < pos ==> chars_le(#[trigger] out@[k]@, w@),
        decreases out@.len() - pos,
    {
        pos = pos + 1;
    }
    let ghost before = views(out@);
    let ghost wv = w@;
    if pos > 0 && crate::text::chars_eq(&out[pos - 1], &w) {
        assert(before[pos - 1] == wv);
        return;
    }
    proof {
        lemma_text_order_total();
        if pos < out@.len() {
            lemma_le_connected(out@[pos as int]@, w@);
        }
        assert forall|k: int| 0 <= k < pos implies before[k] != wv by {
            if k < pos - 1 {
                assert(chars_le(before[k], before[pos - 1]) && before[k] != before[pos - 1]);
                if before[k] == wv {
                    lemma_le_antisymmetric(before[pos - 1], wv);
                }
            }
        }
        if pos < out@.len() {
            assert(before[pos as int] != wv) by {
                if before[pos as int] == wv {
                    lemma_le_reflexive(wv);
                }
            }
        }
    }
    out.insert(pos, w);
    proof {
        assert(views(out@) == before.insert(pos as int, wv));
        let after = views(out@);
        assert forall|i: int, j: int| 0 <= i < j < after.len() implies chars_le(
            #[trigger] after[i],
            #[trigger] after[j],
        ) && after[i] != after[j] by {
            if j < pos {
                assert(after[i] == before[i] && after[j] == before[j]);
            } else if j == pos {
                assert(after[i] == before[i]);
            } else if i < pos {
                assert(after[i] == before[i] && after[j] == before[j - 1]);
                assert(chars_le(before[i], before[j - 1]));
                if i < pos as int && j - 1 >= pos as int {
                    if j - 1 > pos as int {
                        assert(chars_le(before[pos as int], before[j - 1]));
                    }
                    lemma_le_transitive(before[i], wv, before[pos as int]);
                    if before[i] == before[j - 1] {
                        lemma_le_antisymmetric(before[i], before[pos as int]);
                    }
                }
            } else if i == pos {
                assert(after[j] == before[j - 1]);
                if j - 1 > pos as int {
                    assert(chars_le(before[pos as int], before[j - 1]));
                    lemma_le_transitive(wv, before[pos as int], before[j - 1]);
                    if wv == before[j - 1] {
                        lemma_le_antisymmetric(before[pos as int], before[j - 1]);
                    }
                }
            } else {
                assert(after[i] == before[i - 1] && after[j] == before[j - 1]);
            }
        }
        assert forall|x: Seq<char>| after.contains(x) <==> (before.contains(x) || x == wv) by {
            if after.contains(x) {
                let k = choose|k: int| 0 <= k < after.len() && after[k] == x;
                if k < pos {
                    assert(before[k] == x);
                } else if k > pos {
                    assert(before[k - 1] == x);
                }
            }
            if before.contains(x) {
                let k = choose|k: int| 0 <= k < before.len() && before[k] == x;
                if k < pos {
                    assert(after[k] == x);
                } else {
                    assert(after[k + 1] == x);
                }
            }
            if x == wv {
                assert(after[pos as int] == x);
            }
        }
    }
}

} // verus!
