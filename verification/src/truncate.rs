//! Shortening texts for narrow popups and completion lists, by grapheme cluster (what a
//! reader sees as one character), marking the cut with `~`.
use vstd::prelude::*;
use unicode_segmentation::UnicodeSegmentation;
use crate::text::{push_chars, string_from_chars, to_chars};

verus! {

/// The extended grapheme clusters of a text, in order, as
/// `UnicodeSegmentation::graphemes` splits it.
pub uninterp spec fn grapheme_clusters(s: Seq<char>) -> Seq<Seq<char>>;

/// `str::graphemes(true)` of `unicode-segmentation`, each cluster copied out.
#[verifier::external_body]
pub(crate) fn graphemes(s: &str) -> (r: Vec<String>)
    ensures
        r@.map_values(|g: String| g@) == grapheme_clusters(s@),
{
    s.graphemes(true).map(|g| g.to_string()).collect()
}

/// The texts one after another.
pub open spec fn concat_all(parts: Seq<Seq<char>>) -> Seq<char>
    decreases parts.len(),
{
    if parts.len() == 0 {
        Seq::empty()
    } else {
        concat_all(parts.drop_last()) + parts.last()
    }
}

/// `s` when it has at most `max` clusters; else its first `max - 1` clusters and `~`,
/// nothing when `max` is zero.
pub open spec fn truncated(s: Seq<char>, max: nat) -> Seq<char> {
    let g = grapheme_clusters(s);
    if g.len() <= max {
        s
    } else if max == 0 {
        Seq::empty()
    } else {
        concat_all(g.take(max - 1)) + seq!['~']
    }
}

/// `s` cut down to at most `max_graphemes` clusters, the last of which is `~` when
/// something was cut.
pub fn truncate_graphemes(s: &str, max_graphemes: usize) -> (r: String)
    ensures
        r@ == truncated(s@, max_graphemes as nat),
{
    let g = graphemes(s);
    let ghost gv = g@.map_values(|x: String| x@);
    if g.len() <= max_graphemes {
        return string_from_chars(to_chars(s));
    }
    if max_graphemes == 0 {
        return string_from_chars(Vec::new());
    }
    let mut out: Vec<char> = Vec::new();
    let mut i: usize = 0;
    while i < max_graphemes - 1
        invariant
            0 < max_graphemes <= g@.len(),
            i <= max_graphemes - 1,
            gv == g@.map_values(|x: String| x@),
            out@ == concat_all(gv.take(i as int)),
        decreases max_graphemes - 1 - i,
    {
        assert(gv.take(i + 1).drop_last() =~= gv.take(i as int));
        let part = to_chars(g[i].as_str());
        push_chars(&mut out, &part);
        i = i + 1;
    }
    out.push('~');
    string_from_chars(out)
}

/// The same cut, for the entries and descriptions of popups.
pub fn truncate_popup_graphemes(s: &str, max: usize) -> (r: String)
    ensures
        r@ == truncated(s@, max as nat),
{
    truncate_graphemes(s, max)
}

} // verus!
