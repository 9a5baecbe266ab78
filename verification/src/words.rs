//! Words of a buffer: the pieces of each line between characters that are neither
//! alphanumeric nor `_`, and the sorted, repeat-free word lists that completion
//! offers from them.
use vstd::prelude::*;
use crate::order::{chars_le, insert_distinct_sorted, strictly_sorted, views};
use crate::text::{
    chars_start_with, seq_starts_with, spec_lines, str_lines, string_from_chars, to_chars,
};

verus! {

/// What `char::is_alphanumeric` says of a character (Unicode `Alphabetic` or `Numeric`).
pub uninterp spec fn alphanumeric(c: char) -> bool;

/// What `str::to_lowercase` gives for a text.
pub uninterp spec fn lowercase(s: Seq<char>) -> Seq<char>;

/// `char::is_alphanumeric`.
#[verifier::external_body]
pub(crate) fn is_alphanumeric(c: char) -> (r: bool)
    ensures
        r == alphanumeric(c),
{
    c.is_alphanumeric()
}

/// `str::to_lowercase`.
#[verifier::external_body]
fn str_to_lowercase(s: &str) -> (r: String)
    ensures
        r@ == lowercase(s@),
{
    s.to_lowercase()
}

/// A character that belongs to a word.
pub open spec fn is_word_char(c: char) -> bool {
    alphanumeric(c) || c == '_'
}

/// Whether `c` belongs to a word.
pub fn word_char(c: char) -> (r: bool)
    ensures
        r == is_word_char(c),
{
    c == '_' || is_alphanumeric(c)
}

/// The number of bytes that UTF-8 takes for `c`.
pub open spec fn char_width(c: char) -> nat {
    let u = c as u32;
    if u < 0x80 {
        1
    } else if u < 0x800 {
        2
    } else if u < 0x10000 {
        3
    } else {
        4
    }
}

/// The number of bytes that UTF-8 takes for `s`.
pub open spec fn byte_len(s: Seq<char>) -> nat
    decreases s.len(),
{
    if s.len() == 0 {
        0
    } else {
        byte_len(s.drop_last()) + char_width(s.last())
    }
}

/// The UTF-8 length of `s`, in bytes.
pub fn byte_length(s: &Vec<char>) -> (n: u128)
    ensures
        n == byte_len(s@),
{
    let mut n: u128 = 0;
    let mut i: usize = 0;
    while i < s.len()
        invariant
            i <= s@.len(),
            n == byte_len(s@.take(i as int)),
            n <= 4 * i,
        decreases s@.len() - i,
    {
        assert(s@.take(i + 1).drop_last() == s@.take(i as int));
        let u = s[i] as u32;
        let w: u128 = if u < 0x80 {
            1
        } else if u < 0x800 {
            2
        } else if u < 0x10000 {
            3
        } else {
            4
        };
        n = n + w;
        i = i + 1;
    }
    assert(s@.take(s@.len() as int) == s@);
    n
}

/// The lowercase form of `s`.
pub fn lowercase_chars(s: &Vec<char>) -> (r: Vec<char>)
    ensures
        r@ == lowercase(s@),
{
    let text = string_from_chars(crate::order::vec_clone_chars(s));
    let lower = str_to_lowercase(text.as_str());
    to_chars(lower.as_str())
}

/// Scans a line left to right: the finished words and the word being read.
pub open spec fn scan_words(s: Seq<char>) -> (Seq<Seq<char>>, Seq<char>)
    decreases s.len(),
{
    if s.len() == 0 {
        (seq![], seq![])
    } else {
        let (done, cur) = scan_words(s.drop_last());
        if is_word_char(s.last()) {
            (done, cur.push(s.last()))
        } else {
            (done.push(cur), seq![])
        }
    }
}

/// The pieces of a line between non-word characters (empty pieces included).
pub open spec fn split_words(line: Seq<char>) -> Seq<Seq<char>> {
    scan_words(line).0.push(scan_words(line).1)
}

/// Whether `w` is one of the words of one of `lines`.
pub open spec fn is_word_of(lines: Seq<Seq<char>>, w: Seq<char>) -> bool {
    exists|i: int, j: int|
        0 <= i < lines.len() && 0 <= j < split_words(lines[i]).len() && #[trigger] split_words(
            lines[i],
        )[j] == w
}

/// A word that completes `prefix`: longer in bytes, and beginning with it (letter case
/// aside where `fold_case` holds).
pub open spec fn completes(w: Seq<char>, prefix: Seq<char>, fold_case: bool) -> bool {
    &&& byte_len(w) > byte_len(prefix)
    &&& if fold_case {
        seq_starts_with(lowercase(w), lowercase(prefix))
    } else {
        seq_starts_with(w, prefix)
    }
}

/// A word of `text` that completes `prefix`.
pub open spec fn is_candidate(text: Seq<char>, w: Seq<char>, prefix: Seq<char>, fold_case: bool) -> bool {
    is_word_of(spec_lines(text), w) && completes(w, prefix, fold_case)
}

/// `r` is, in increasing order, the first `limit` (or all) of the distinct words that
/// `is_candidate` accepts.
pub open spec fn first_candidates(
    r: Seq<Seq<char>>,
    text: Seq<char>,
    prefix: Seq<char>,
    fold_case: bool,
    limit: nat,
) -> bool {
    &&& strictly_sorted(r)
    &&& r.len() <= limit
    &&& forall|i: int| 0 <= i < r.len() ==> is_candidate(text, #[trigger] r[i], prefix, fold_case)
    &&& forall|w: Seq<char>|
        is_candidate(text, w, prefix, fold_case) && !r.contains(w) ==> r.len() == limit && chars_le(
            r.last(),
            w,
        ) && r.last() != w
}

fn word_completes(w: &Vec<char>, prefix: &Vec<char>, prefix_bytes: u128, fold_case: bool) -> (r:
    bool)
    requires
        prefix_bytes == byte_len(prefix@),
    ensures
        r == completes(w@, prefix@, fold_case),
{
    if byte_length(w) <= prefix_bytes {
        return false;
    }
    if fold_case {
        chars_start_with(&lowercase_chars(w), &lowercase_chars(prefix))
    } else {
        chars_start_with(w, prefix)
    }
}

/// The distinct words of `text` that complete `prefix`, in increasing order.
pub fn candidate_words(text: &str, prefix: &Vec<char>, fold_case: bool) -> (r: Vec<Vec<char>>)
    ensures
        strictly_sorted(views(r@)),
        forall|w: Seq<char>| views(r@).contains(w) <==> is_candidate(text@, w, prefix@, fold_case),
{
    let prefix_bytes = byte_length(prefix);
    let lines = str_lines(text);
    let ghost ls = spec_lines(text@);
    let mut out: Vec<Vec<char>> = Vec::new();
    let mut li: usize = 0;
    while li < lines.len()
        invariant
            lines@.map_values(|l: &str| l@) == ls,
            ls == spec_lines(text@),
            li <= lines@.len(),
            prefix_bytes == byte_len(prefix@),
            strictly_sorted(views(out@)),
            forall|w: Seq<char>|
                #[trigger] views(out@).contains(w) <==> (is_word_of(ls.take(li as int), w) && completes(
                    w,
                    prefix@,
                    fold_case,
                )),
        decreases lines@.len() - li,
    {
        let line = to_chars(lines[li]);
        assert(line@ == ls[li as int]);
        let mut cur: Vec<char> = Vec::new();
        let mut k: usize = 0;
        let ghost before_line = views(out@);
        while k < line.len()
            invariant
                k <= line@.len(),
                prefix_bytes == byte_len(prefix@),
                cur@ == scan_words(line@.take(k as int)).1,
                strictly_sorted(views(out@)),
                forall|w: Seq<char>|
                    #[trigger] views(out@).contains(w) <==> (before_line.contains(w) || (scan_words(
                        line@.take(k as int),
                    ).0.contains(w) && completes(w, prefix@, fold_case))),
            decreases line@.len() - k,
        {
            let ghost prev = line@.take(k as int);
            assert(line@.take(k + 1).drop_last() == prev);
            let c = line[k];
            let ghost out_before = views(out@);
            if word_char(c) {
                cur.push(c);
                assert(scan_words(line@.take(k + 1)).0 == scan_words(prev).0);
            } else {
                let word = cur;
                cur = Vec::new();
                let ghost wv = word@;
                if word_completes(&word, prefix, prefix_bytes, fold_case) {
                    insert_distinct_sorted(&mut out, word);
                }
                proof {
                    let done = scan_words(line@.take(k + 1)).0;
                    let pd = scan_words(prev).0;
                    assert(done == pd.push(wv));
                    assert forall|w: Seq<char>| #[trigger] done.contains(w) <==> (pd.contains(w) || w == wv) by {
                        if done.contains(w) {
                            let j = choose|j: int| 0 <= j < done.len() && done[j] == w;
                            if j < pd.len() {
                                assert(pd[j] == w);
                            }
                        }
                        if pd.contains(w) {
                            let j = choose|j: int| 0 <= j < pd.len() && pd[j] == w;
                            assert(done[j] == w);
                        }
                        if w == wv {
                            assert(done[pd.len() as int] == w);
                        }
                    }
                    assert forall|w: Seq<char>| #[trigger] views(out@).contains(w) <==> (before_line.contains(w) || (done.contains(w) && completes(w, prefix@, fold_case))) by {
                        assert(out_before.contains(w) <==> (before_line.contains(w) || (pd.contains(w) && completes(w, prefix@, fold_case))));
                    }
                }
            }
            k = k + 1;
        }
        let word = cur;
        let ghost wv = word@;
        let ghost out_before = views(out@);
        if word_completes(&word, prefix, prefix_bytes, fold_case) {
            insert_distinct_sorted(&mut out, word);
        }
        proof {
            assert(line@.take(line@.len() as int) == line@);
            assert forall|w: Seq<char>| #[trigger] views(out@).contains(w) <==> (before_line.contains(w) || ((scan_words(line@).0.contains(w) || w == wv) && completes(w, prefix@, fold_case))) by {
                assert(out_before.contains(w) <==> (before_line.contains(w) || (scan_words(line@).0.contains(w) && completes(w, prefix@, fold_case))));
            }
            let sw = split_words(line@);
            let done = scan_words(line@).0;
            assert(sw == done.push(wv));
            assert(ls.take(li + 1) == ls.take(li as int).push(line@));
            assert forall|w: Seq<char>| views(out@).contains(w) <==> (is_word_of(ls.take(li + 1), w) && completes(w, prefix@, fold_case)) by {
                let t1 = ls.take(li + 1);
                let t0 = ls.take(li as int);
                if is_word_of(t1, w) {
                    let (i, j) = choose|i: int, j: int| 0 <= i < t1.len() && 0 <= j < split_words(t1[i]).len() && #[trigger] split_words(t1[i])[j] == w;
                    if i < li {
                        assert(t0[i] == t1[i]);
                        assert(is_word_of(t0, w));
                    } else {
                        assert(t1[i] == line@);
                        if j < done.len() {
                            assert(done[j] == w);
                        } else {
                            assert(w == wv);
                        }
                    }
                }
                if is_word_of(t0, w) {
                    let (i, j) = choose|i: int, j: int| 0 <= i < t0.len() && 0 <= j < split_words(t0[i]).len() && #[trigger] split_words(t0[i])[j] == w;
                    assert(t1[i] == t0[i]);
                    assert(is_word_of(t1, w));
                }
                if done.contains(w) {
                    let j = choose|j: int| 0 <= j < done.len() && done[j] == w;
                    assert(t1[li as int] == line@);
                    assert(sw[j] == w);
                    assert(split_words(t1[li as int])[j] == w);
                    assert(is_word_of(t1, w));
                }
                if w == wv {
                    assert(t1[li as int] == line@);
                    assert(sw[done.len() as int] == w);
                    assert(split_words(t1[li as int])[done.len() as int] == w);
                    assert(is_word_of(t1, w));
                }
            }
        }
        li = li + 1;
    }
    proof {
        assert(ls.take(lines@.len() as int) == ls);
    }
    out
}

/// The first `limit` entries of `words`.
pub fn take_first(words: Vec<Vec<char>>, limit: usize) -> (r: Vec<Vec<char>>)
    ensures
        views(r@) == views(words@).take(if words@.len() < limit { words@.len() as int } else { limit as int }),
{
    let mut r: Vec<Vec<char>> = Vec::new();
    let mut i: usize = 0;
    let n = if words.len() < limit { words.len() } else { limit };
    while i < n
        invariant
            n <= words@.len(),
            i <= n,
            views(r@) == views(words@).take(i as int),
        decreases n - i,
    {
        let ghost before = views(r@);
        r.push(crate::order::vec_clone_chars(&words[i]));
        assert(views(r@) =~= before.push(words@[i as int]@));
        i = i + 1;
        assert(views(r@) =~= views(words@).take(i as int));
    }
    r
}

/// Taking the first `limit` of the increasing list of all candidates gives the first
/// candidates.
pub proof fn lemma_first_candidates(
    all: Seq<Seq<char>>,
    text: Seq<char>,
    prefix: Seq<char>,
    fold_case: bool,
    limit: nat,
)
    requires
        limit > 0,
        strictly_sorted(all),
        forall|w: Seq<char>| all.contains(w) <==> is_candidate(text, w, prefix, fold_case),
    ensures
        first_candidates(
            all.take(if all.len() < limit { all.len() as int } else { limit as int }),
            text,
            prefix,
            fold_case,
            limit,
        ),
{
    let n = if all.len() < limit { all.len() as int } else { limit as int };
    let r = all.take(n);
    assert forall|i: int| 0 <= i < r.len() implies is_candidate(text, #[trigger] r[i], prefix, fold_case) by {
        assert(all.contains(all[i]));
    }
    assert forall|w: Seq<char>| is_candidate(text, w, prefix, fold_case) && !r.contains(w) implies r.len() == limit && chars_le(r.last(), w) && r.last() != w by {
        assert(all.contains(w));
        let k = choose|k: int| 0 <= k < all.len() && all[k] == w;
        if k < n {
            assert(r[k] == w);
        }
        assert(r[n - 1] == all[n - 1]);
        if k > n - 1 {
            assert(chars_le(all[n - 1], all[k]) && all[n - 1] != all[k]);
        }
    }
}

/// Where the run of word characters that ends `s` begins.
pub open spec fn is_trailing_word_start(s: Seq<char>, k: int) -> bool {
    &&& 0 <= k <= s.len()
    &&& forall|i: int| k <= i < s.len() ==> is_word_char(#[trigger] s[i])
    &&& k == 0 || !is_word_char(s[k - 1])
}

/// The index where the run of word characters that ends `s` begins.
pub open spec fn word_start(s: Seq<char>) -> int
    decreases s.len(),
{
    if s.len() > 0 && is_word_char(s.last()) {
        word_start(s.drop_last())
    } else {
        s.len() as int
    }
}

/// The index where the run of word characters that ends `s` begins.
pub fn trailing_word_start(s: &Vec<char>) -> (k: usize)
    ensures
        k == word_start(s@),
        is_trailing_word_start(s@, k as int),
{
    let mut k = s.len();
    assert(s@.take(k as int) == s@);
    while k > 0 && word_char(s[k - 1])
        invariant
            k <= s@.len(),
            forall|i: int| k <= i < s@.len() ==> is_word_char(#[trigger] s@[i]),
            word_start(s@.take(k as int)) == word_start(s@),
        decreases k,
    {
        assert(s@.take(k as int).drop_last() == s@.take(k - 1));
        k = k - 1;
    }
    k
}

} // verus!
