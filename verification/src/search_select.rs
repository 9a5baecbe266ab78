//! Searchable pick lists: a query narrows a list of entries to those whose text holds
//! it (letter case aside), and a selection moves through what is shown. The buffer
//! list, recently used files, `fd` results, the file picker and tag jumps are such
//! lists.
use vstd::prelude::*;
use crate::text::{string_from_chars, sub_chars, to_chars};
use crate::words::{lowercase, lowercase_chars};

verus! {

pub struct SearchSelectConfig {
    pub max_results: usize,
}

/// A list with one selected position.
pub struct SelectableVec<T> {
    set: Vec<T>,
    selected_index: usize,
}

impl<T> SelectableVec<T> {
    pub closed spec fn items(&self) -> Seq<T> {
        self.set@
    }

    pub closed spec fn index(&self) -> usize {
        self.selected_index
    }

    pub fn new(set: Vec<T>) -> (r: SelectableVec<T>)
        ensures
            r.items() == set@,
            r.index() == 0,
    {
        SelectableVec { set, selected_index: 0 }
    }

    pub fn len(&self) -> (n: usize)
        ensures
            n == self.items().len(),
    {
        self.set.len()
    }

    pub fn get(&self, i: usize) -> (r: &T)
        requires
            i < self.items().len(),
        ensures
            *r == self.items()[i as int],
    {
        &self.set[i]
    }

    /// Selects position `index`; refused (`false`) past the end.
    pub fn set_selected_index(&mut self, index: usize) -> (ok: bool)
        ensures
            final(self).items() == old(self).items(),
            ok == (index < old(self).items().len()),
            final(self).index() == if ok { index } else { old(self).index() },
    {
        if index >= self.set.len() {
            return false;
        }
        self.selected_index = index;
        true
    }

    pub fn selected_index(&self) -> (i: usize)
        ensures
            i == self.index(),
    {
        self.selected_index
    }

    /// The selected item, if the position holds one.
    pub fn selection(&self) -> (r: Option<&T>)
        ensures
            r == if self.index() < self.items().len() {
                Some(&self.items()[self.index() as int])
            } else {
                None
            },
    {
        if self.selected_index < self.set.len() {
            Some(&self.set[self.selected_index])
        } else {
            None
        }
    }

    /// Moves up one, unless at the top.
    pub fn select_previous(&mut self)
        ensures
            final(self).items() == old(self).items(),
            final(self).index() == if old(self).index() > 0 {
                (old(self).index() - 1) as usize
            } else {
                old(self).index()
            },
    {
        if self.selected_index > 0 {
            self.selected_index = self.selected_index - 1;
        }
    }

    /// Moves down one, unless at the bottom.
    pub fn select_next(&mut self)
        ensures
            final(self).items() == old(self).items(),
            final(self).index() == if old(self).index() + 1 < old(self).items().len() {
                (old(self).index() + 1) as usize
            } else {
                old(self).index()
            },
    {
        if self.set.len() > 0 && self.selected_index < self.set.len() - 1 {
            self.selected_index = self.selected_index + 1;
        }
    }
}

/// Whether `needle` occurs in `hay`.
pub open spec fn seq_contains(hay: Seq<char>, needle: Seq<char>) -> bool {
    exists|i: int| 0 <= i && i + needle.len() <= hay.len() && #[trigger] hay.subrange(i, i + needle.len()) == needle
}

/// Whether `needle` occurs in `hay`.
pub fn chars_contain(hay: &Vec<char>, needle: &Vec<char>) -> (r: bool)
    ensures
        r == seq_contains(hay@, needle@),
{
    if needle.len() > hay.len() {
        return false;
    }
    if needle.len() == 0 {
        assert(hay@.subrange(0int, 0int + needle@.len()) == needle@);
        return true;
    }
    let last = hay.len() - needle.len();
    let mut i: usize = 0;
    while i <= last
        invariant
            needle@.len() > 0,
            hay@.len() == hay.len(),
            last == hay@.len() - needle@.len(),
            i <= last + 1,
            forall|k: int| 0 <= k < i ==> #[trigger] hay@.subrange(k, k + needle@.len()) != needle@,
        decreases last + 1 - i,
    {
        let window = sub_chars(hay, i, i + needle.len());
        if crate::text::chars_eq(&window, needle) {
            return true;
        }
        i = i + 1;
    }
    assert forall|k: int| 0 <= k && k + needle@.len() <= hay@.len() implies #[trigger] hay@.subrange(k, k + needle@.len()) != needle@ by {
        assert(k < i);
    }
    false
}

/// Whether the text matches the query: the query empty, or its lowercase form held in the
/// text's lowercase form.
pub open spec fn matches_query(text: Seq<char>, query: Seq<char>) -> bool {
    query.len() == 0 || seq_contains(lowercase(text), lowercase(query))
}

/// The positions of the texts that match the query, in order.
pub open spec fn matching_positions(texts: Seq<Seq<char>>, query: Seq<char>) -> Seq<usize>
    decreases texts.len(),
{
    if texts.len() == 0 {
        seq![]
    } else {
        let before = matching_positions(texts.drop_last(), query);
        if matches_query(texts.last(), query) {
            before.push((texts.len() - 1) as usize)
        } else {
            before
        }
    }
}

/// The positions of the texts that match the query, in order.
pub fn filter_positions(texts: &Vec<Vec<char>>, query: &Vec<char>) -> (r: Vec<usize>)
    ensures
        r@ == matching_positions(texts@.map_values(|t: Vec<char>| t@), query@),
{
    let ghost tv = texts@.map_values(|t: Vec<char>| t@);
    let lower_query = lowercase_chars(query);
    let mut r: Vec<usize> = Vec::new();
    let mut i: usize = 0;
    while i < texts.len()
        invariant
            i <= texts@.len(),
            tv == texts@.map_values(|t: Vec<char>| t@),
            lower_query@ == lowercase(query@),
            r@ == matching_positions(tv.take(i as int), query@),
        decreases texts@.len() - i,
    {
        assert(tv.take(i + 1).drop_last() == tv.take(i as int));
        let keep = query.len() == 0 || chars_contain(&lowercase_chars(&texts[i]), &lower_query);
        if keep {
            r.push(i);
        }
        i = i + 1;
    }
    assert(tv.take(texts@.len() as int) == tv);
    r
}

/// The first `n` entries of `s` (all, if fewer).
pub open spec fn first_n<A>(s: Seq<A>, n: int) -> Seq<A> {
    if s.len() <= n {
        s
    } else {
        s.take(n)
    }
}

fn take_positions(s: &Vec<usize>, start: usize, end: usize) -> (r: Vec<usize>)
    requires
        start <= end <= s@.len(),
    ensures
        r@ == s@.subrange(start as int, end as int),
{
    let mut r: Vec<usize> = Vec::new();
    let mut i = start;
    while i < end
        invariant
            start <= i <= end <= s@.len(),
            r@ == s@.subrange(start as int, i as int),
        decreases end - i,
    {
        r.push(s[i]);
        i = i + 1;
        assert(r@ == s@.subrange(start as int, i as int));
    }
    r
}

/// A scrolling window over matching entries: `max_results` of them are shown from
/// `scroll_offset` on, and the selection moving past the window's edge scrolls it.
pub struct ScrollingResults {
    /// Positions, in the entry list, of every entry that matches.
    all_results: Vec<usize>,
    scroll_offset: usize,
    /// The shown part of `all_results`.
    results: SelectableVec<usize>,
}

/// The shown part of the matches: from `offset`, at most `max` of them.
pub open spec fn window(all: Seq<usize>, offset: int, max: int) -> Seq<usize> {
    let end = if offset + max < all.len() { offset + max } else { all.len() as int };
    all.subrange(offset, end)
}

impl ScrollingResults {
    /// Positions, in the entry list, of every entry that matches.
    pub closed spec fn all(&self) -> Seq<usize> {
        self.all_results@
    }

    /// How far the window is scrolled.
    pub closed spec fn offset(&self) -> usize {
        self.scroll_offset
    }

    pub fn scroll_offset(&self) -> (o: usize)
        ensures
            o == self.offset(),
    {
        self.scroll_offset
    }

    pub fn match_count(&self) -> (n: usize)
        ensures
            n == self.all().len(),
    {
        self.all_results.len()
    }

    /// Takes new matches and shows their first window, the cursor at the top.
    pub fn show_matches(&mut self, all: Vec<usize>, max: usize)
        ensures
            final(self).all() == all@,
            final(self).offset() == 0,
            final(self).shown() == window(all@, 0, max as int),
            final(self).cursor() == 0,
    {
        self.all_results = all;
        self.scroll_offset = 0;
        self.update_visible_results(0, max);
    }

    pub closed spec fn shown(&self) -> Seq<usize> {
        self.results.items()
    }

    pub closed spec fn cursor(&self) -> usize {
        self.results.index()
    }

    pub fn empty() -> (r: ScrollingResults)
        ensures
            r.all().len() == 0,
            r.offset() == 0,
            r.shown().len() == 0,
            r.cursor() == 0,
    {
        ScrollingResults { all_results: Vec::new(), scroll_offset: 0, results: SelectableVec::new(Vec::new()) }
    }

    /// Shows the window at the current offset with the cursor at `cursor_index` (at the
    /// top if the window is shorter).
    pub fn update_visible_results(&mut self, cursor_index: usize, max: usize)
        requires
            old(self).offset() <= old(self).all().len(),
            old(self).offset() + max <= usize::MAX,
        ensures
            final(self).all() == old(self).all(),
            final(self).offset() == old(self).offset(),
            final(self).shown() == window(old(self).all(), old(self).offset() as int, max as int),
            final(self).cursor() == if cursor_index < final(self).shown().len() { cursor_index } else { 0 },
    {
        let end = if self.scroll_offset + max < self.all_results.len() {
            self.scroll_offset + max
        } else {
            self.all_results.len()
        };
        let visible = take_positions(&self.all_results, self.scroll_offset, end);
        self.results = SelectableVec::new(visible);
        if self.results.len() > 0 {
            self.results.set_selected_index(cursor_index);
        }
    }

    /// Up: within the window, or scrolls it up by one at the top.
    pub fn select_previous(&mut self, max: usize)
        requires
            old(self).offset() <= old(self).all().len(),
            old(self).offset() + max <= usize::MAX,
        ensures
            final(self).all() == old(self).all(),
            final(self).offset() <= final(self).all().len(),
            old(self).cursor() == 0 && old(self).offset() > 0 ==> final(self).offset() == old(self).offset() - 1
                && final(self).shown() == window(old(self).all(), old(self).offset() - 1, max as int)
                && final(self).cursor() == 0,
            old(self).cursor() == 0 && old(self).offset() == 0 ==> final(self).offset() == 0
                && final(self).shown() == old(self).shown() && final(self).cursor() == 0,
            old(self).cursor() > 0 ==> final(self).offset() == old(self).offset()
                && final(self).shown() == old(self).shown() && final(self).cursor() == old(self).cursor() - 1,
    {
        if self.results.selected_index() == 0 {
            if self.scroll_offset > 0 {
                self.scroll_offset = self.scroll_offset - 1;
                self.update_visible_results(0, max);
            }
        } else {
            self.results.select_previous();
        }
    }

    /// Down: within the window, or scrolls it down by one at the bottom while more matches
    /// follow.
    pub fn select_next(&mut self, max: usize)
        requires
            old(self).offset() <= old(self).all().len(),
            old(self).offset() + max < usize::MAX,
        ensures
            final(self).all() == old(self).all(),
            final(self).offset() <= final(self).all().len(),
            ({
                let n = old(self).shown().len();
                let c = old(self).cursor();
                if n == 0 {
                    final(self).offset() == old(self).offset() && final(self).shown() == old(self).shown()
                        && final(self).cursor() == c
                } else if c >= n - 1 {
                    if old(self).offset() + max < old(self).all().len() {
                        &&& final(self).offset() == old(self).offset() + 1
                        &&& final(self).shown() == window(old(self).all(), old(self).offset() + 1, max as int)
                        &&& final(self).cursor() == if n - 1 < final(self).shown().len() { (n - 1) as usize } else { 0 }
                    } else {
                        final(self).offset() == old(self).offset() && final(self).shown() == old(self).shown()
                            && final(self).cursor() == c
                    }
                } else {
                    final(self).offset() == old(self).offset() && final(self).shown() == old(self).shown()
                        && final(self).cursor() == c + 1
                }
            }),
    {
        let visible_len = self.results.len();
        if visible_len == 0 {
            return;
        }
        if self.results.selected_index() >= visible_len - 1 {
            if self.scroll_offset + max < self.all_results.len() {
                self.scroll_offset = self.scroll_offset + 1;
                self.update_visible_results(visible_len - 1, max);
            }
        } else {
            self.results.select_next();
        }
    }

    /// The position, in the entry list, of the selected entry.
    pub fn selection(&self) -> (r: Option<usize>)
        ensures
            r == if self.cursor() < self.shown().len() { Some(self.shown()[self.cursor() as int]) } else { None },
    {
        match self.results.selection() {
            Some(p) => Some(*p),
            None => None,
        }
    }

    pub fn selected_index(&self) -> (i: usize)
        ensures
            i == self.cursor(),
    {
        self.results.selected_index()
    }

    pub fn shown_len(&self) -> (n: usize)
        ensures
            n == self.shown().len(),
    {
        self.results.len()
    }

    /// The positions, in the entry list, of the shown entries.
    pub fn shown_positions(&self) -> (r: Vec<usize>)
        ensures
            r@ == self.shown(),
    {
        let mut r: Vec<usize> = Vec::new();
        let mut i: usize = 0;
        while i < self.results.len()
            invariant
                i <= self.shown().len(),
                r@ == self.shown().take(i as int),
            decreases self.shown().len() - i,
        {
            r.push(*self.results.get(i));
            i = i + 1;
            assert(r@ == self.shown().take(i as int));
        }
        assert(self.shown().take(self.shown().len() as int) == self.shown());
        r
    }
}

} // verus!
