//! The pick-list modes: open buffers, recently used files, `fd` results, the file
//! picker, tag jumps and symbol jumps. Each keeps its entries and shows those that match the query.
use vstd::prelude::*;
use crate::search_select::{
    first_n, matching_positions, window, filter_positions, ScrollingResults, SearchSelectConfig,
    SelectableVec,
};
use crate::order::{chars_le, lemma_le_antisymmetric, lemma_le_connected, lemma_le_transitive};
use crate::status_line::{decimal, decimal_chars};
use crate::text::{concat_chars, string_from_chars, to_chars};
use crate::modes::Position;
use vstd::relations::*;
use vstd::seq_lib::*;

verus! {

/// An open buffer, as the buffer list shows it.
#[derive(Clone, Debug)]
pub struct BufferEntry {
    pub path: Option<String>,
    pub buffer_id: Option<usize>,
    pub modified: bool,
}

/// What the buffer list shows for a buffer: its path (or `[No Name]`), then ` [+]` when
/// it has unsaved edits.
pub open spec fn buffer_label(path: Option<Seq<char>>, modified: bool) -> Seq<char> {
    (match path {
        Some(p) => p,
        None => "[No Name]"@,
    }) + if modified { " [+]"@ } else { Seq::empty() }
}

impl BufferEntry {
    pub open spec fn path_view(&self) -> Option<Seq<char>> {
        match self.path {
            Some(p) => Some(p@),
            None => None,
        }
    }

    pub fn label_chars(&self) -> (r: Vec<char>)
        ensures
            r@ == buffer_label(self.path_view(), self.modified),
    {
        let base = match &self.path {
            Some(p) => to_chars(p.as_str()),
            None => to_chars("[No Name]"),
        };
        if self.modified {
            concat_chars(&base, &to_chars(" [+]"))
        } else {
            proof {
                assert(base@ + Seq::<char>::empty() == base@);
            }
            base
        }
    }

    /// The text the buffer list shows.
    pub fn label(&self) -> (r: String)
        ensures
            r@ == buffer_label(self.path_view(), self.modified),
    {
        string_from_chars(self.label_chars())
    }
}

pub open spec fn labels(entries: Seq<BufferEntry>) -> Seq<Seq<char>> {
    entries.map_values(|e: BufferEntry| buffer_label(e.path_view(), e.modified))
}

fn label_list(entries: &Vec<BufferEntry>) -> (r: Vec<Vec<char>>)
    ensures
        r@.map_values(|t: Vec<char>| t@) == labels(entries@),
{
    let mut r: Vec<Vec<char>> = Vec::new();
    let mut i: usize = 0;
    while i < entries.len()
        invariant
            i <= entries@.len(),
            r@.map_values(|t: Vec<char>| t@) == labels(entries@).take(i as int),
        decreases entries@.len() - i,
    {
        let ghost before = r@;
        r.push(entries[i].label_chars());
        assert(r@.map_values(|t: Vec<char>| t@) =~= before.map_values(|t: Vec<char>| t@).push(labels(entries@)[i as int]));
        i = i + 1;
        assert(r@.map_values(|t: Vec<char>| t@) =~= labels(entries@).take(i as int));
    }
    assert(labels(entries@).take(entries@.len() as int) == labels(entries@));
    r
}

fn text_list(items: &Vec<String>) -> (r: Vec<Vec<char>>)
    ensures
        r@.map_values(|t: Vec<char>| t@) == items@.map_values(|s: String| s@),
{
    let mut r: Vec<Vec<char>> = Vec::new();
    let mut i: usize = 0;
    while i < items.len()
        invariant
            i <= items@.len(),
            r@.map_values(|t: Vec<char>| t@) == items@.map_values(|s: String| s@).take(i as int),
        decreases items@.len() - i,
    {
        let ghost before = r@;
        r.push(to_chars(items[i].as_str()));
        assert(r@.map_values(|t: Vec<char>| t@) =~= before.map_values(|t: Vec<char>| t@).push(items@[i as int]@));
        i = i + 1;
        assert(r@.map_values(|t: Vec<char>| t@) =~= items@.map_values(|s: String| s@).take(i as int));
    }
    assert(items@.map_values(|s: String| s@).take(items@.len() as int) == items@.map_values(|s: String| s@));
    r
}

fn first_positions(positions: &Vec<usize>, max: usize) -> (r: Vec<usize>)
    ensures
        r@ == first_n(positions@, max as int),
{
    let end = if positions.len() <= max { positions.len() } else { max };
    let mut r: Vec<usize> = Vec::new();
    let mut i: usize = 0;
    while i < end
        invariant
            end <= positions@.len(),
            end == if positions@.len() <= max { positions@.len() } else { max as nat },
            i <= end,
            r@ == positions@.take(i as int),
        decreases end - i,
    {
        r.push(positions[i]);
        i = i + 1;
        assert(r@ == positions@.take(i as int));
    }
    assert(positions@.len() <= max ==> positions@.take(end as int) == positions@);
    r
}

pub struct BufferListMode {
    pub insert: bool,
    input: String,
    entries: Vec<BufferEntry>,
    all_results: Vec<usize>,
    results: SelectableVec<usize>,
    config: SearchSelectConfig,
    pub scroll_offset: usize,
}

impl BufferListMode {
    pub closed spec fn is_insert(&self) -> bool {
        self.insert
    }

    pub closed spec fn scroll(&self) -> usize {
        self.scroll_offset
    }

    pub closed spec fn query_view(&self) -> Seq<char> {
        self.input@
    }

    pub closed spec fn entries_view(&self) -> Seq<BufferEntry> {
        self.entries@
    }

    /// Positions of the matching entries.
    pub closed spec fn matches(&self) -> Seq<usize> {
        self.all_results@
    }

    pub closed spec fn shown(&self) -> Seq<usize> {
        self.results.items()
    }

    pub closed spec fn cursor(&self) -> usize {
        self.results.index()
    }

    pub fn new(config: SearchSelectConfig) -> (m: BufferListMode)
        ensures
            m.is_insert(),
            m.query_view().len() == 0,
            m.entries_view().len() == 0,
            m.shown().len() == 0,
            m.scroll() == 0,
    {
        BufferListMode {
            insert: true,
            input: String::new(),
            entries: Vec::new(),
            all_results: Vec::new(),
            results: SelectableVec::new(Vec::new()),
            scroll_offset: 0,
            config,
        }
    }

    /// Lists `entries` afresh: empty query, insert mode, every entry shown, the first one
    /// selected.
    pub fn reset(&mut self, entries: Vec<BufferEntry>, config: SearchSelectConfig)
        ensures
            final(self).is_insert(),
            final(self).query_view().len() == 0,
            final(self).scroll() == 0,
            final(self).entries_view() == entries@,
            final(self).matches() == matching_positions(labels(entries@), Seq::empty()),
            final(self).shown() == final(self).matches(),
            final(self).cursor() == 0,
    {
        self.input = String::new();
        self.insert = true;
        self.config = config;
        self.scroll_offset = 0;
        self.entries = entries;
        self.search();
    }

    /// Shows the entries whose label matches the query, the first one selected.
    pub fn search(&mut self)
        ensures
            final(self).is_insert() == old(self).is_insert(),
            final(self).scroll() == old(self).scroll(),
            final(self).query_view() == old(self).query_view(),
            final(self).entries_view() == old(self).entries_view(),
            final(self).matches() == matching_positions(labels(old(self).entries_view()), old(self).query_view()),
            final(self).shown() == final(self).matches(),
            final(self).cursor() == 0,
    {
        let texts = label_list(&self.entries);
        let query = to_chars(self.input.as_str());
        let positions = filter_positions(&texts, &query);
        self.all_results = first_positions(&positions, positions.len());
        self.results = SelectableVec::new(first_positions(&positions, positions.len()));
    }

    /// Replaces the query and searches again.
    pub fn set_query(&mut self, query: String)
        ensures
            final(self).query_view() == query@,
            final(self).entries_view() == old(self).entries_view(),
            final(self).matches() == matching_positions(labels(old(self).entries_view()), query@),
            final(self).shown() == final(self).matches(),
            final(self).cursor() == 0,
    {
        self.input = query;
        self.search();
    }

    pub fn query(&self) -> (r: &String)
        ensures
            r@ == self.query_view(),
    {
        &self.input
    }

    pub fn select_previous(&mut self)
        ensures
            final(self).shown() == old(self).shown(),
            final(self).cursor() == if old(self).cursor() > 0 { (old(self).cursor() - 1) as usize } else { old(self).cursor() },
    {
        self.results.select_previous();
    }

    pub fn select_next(&mut self)
        ensures
            final(self).shown() == old(self).shown(),
            final(self).cursor() == if old(self).cursor() + 1 < old(self).shown().len() {
                (old(self).cursor() + 1) as usize
            } else {
                old(self).cursor()
            },
    {
        self.results.select_next();
    }

    /// The selected buffer, if any.
    pub fn selection(&self) -> (r: Option<&BufferEntry>)
        ensures
            r matches Some(e) ==> self.cursor() < self.shown().len() && self.shown()[self.cursor() as int]
                < self.entries_view().len() && *e == self.entries_view()[self.shown()[self.cursor() as int] as int],
            r is None ==> self.cursor() >= self.shown().len() || self.shown()[self.cursor() as int]
                >= self.entries_view().len(),
    {
        match self.results.selection() {
            Some(p) => {
                if *p < self.entries.len() {
                    Some(&self.entries[*p])
                } else {
                    None
                }
            },
            None => None,
        }
    }

    pub fn selected_index(&self) -> (i: usize)
        ensures
            i == self.cursor(),
    {
        self.results.selected_index()
    }

    /// What to say instead of a list: that no buffers are open, or that none matches.
    pub fn message(&self) -> (r: Option<String>)
        ensures
            self.entries_view().len() == 0 ==> (r matches Some(s) && s@ == "No buffers open."@),
            self.entries_view().len() > 0 && self.query_view().len() > 0 && self.matches().len() == 0
                ==> (r matches Some(s) && s@ == "No matching entries found."@),
            self.entries_view().len() > 0 && !(self.query_view().len() > 0 && self.matches().len() == 0)
                ==> r is None,
    {
        if self.entries.len() == 0 {
            Some(string_from_chars(to_chars("No buffers open.")))
        } else if to_chars(self.input.as_str()).len() > 0 && self.all_results.len() == 0 {
            Some(string_from_chars(to_chars("No matching entries found.")))
        } else {
            None
        }
    }

    pub fn label(&self) -> (r: &'static str)
        ensures
            r@ == "BUFFERS"@,
    {
        "BUFFERS"
    }
}

/// All positions of a list of `n` entries, in order.
pub open spec fn all_positions(n: nat) -> Seq<usize> {
    Seq::new(n, |i: int| i as usize)
}

pub fn positions_upto(n: usize) -> (r: Vec<usize>)
    ensures
        r@ == all_positions(n as nat),
{
    let mut r: Vec<usize> = Vec::new();
    let mut i: usize = 0;
    while i < n
        invariant
            i <= n,
            r@ == all_positions(i as nat),
        decreases n - i,
    {
        r.push(i);
        i = i + 1;
        assert(r@ =~= all_positions(i as nat));
    }
    r
}

/// Recently used files.
pub struct MRUMode {
    insert: bool,
    input: String,
    paths: Vec<String>,
    results: ScrollingResults,
    config: SearchSelectConfig,
}

impl MRUMode {
    pub closed spec fn query_view(&self) -> Seq<char> {
        self.input@
    }

    pub closed spec fn paths_view(&self) -> Seq<Seq<char>> {
        self.paths@.map_values(|s: String| s@)
    }

    pub closed spec fn matches(&self) -> Seq<usize> {
        self.results.all()
    }

    pub closed spec fn offset(&self) -> usize {
        self.results.offset()
    }

    pub closed spec fn shown(&self) -> Seq<usize> {
        self.results.shown()
    }

    pub closed spec fn cursor(&self) -> usize {
        self.results.cursor()
    }

    pub closed spec fn max_results(&self) -> usize {
        self.config.max_results
    }

    pub fn new(config: SearchSelectConfig) -> (m: MRUMode)
        ensures
            m.query_view().len() == 0,
            m.paths_view().len() == 0,
            m.matches().len() == 0,
            m.shown().len() == 0,
            m.max_results() == config.max_results,
    {
        MRUMode {
            insert: true,
            input: String::new(),
            paths: Vec::new(),
            results: ScrollingResults::empty(),
            config,
        }
    }

    /// Lists `paths` afresh: empty query, every path matching, the first window shown.
    pub fn reset(&mut self, paths: Vec<String>, config: SearchSelectConfig)
        ensures
            final(self).query_view().len() == 0,
            final(self).paths_view() == paths@.map_values(|s: String| s@),
            final(self).max_results() == config.max_results,
            final(self).matches() == all_positions(paths@.len()),
            final(self).offset() == 0,
            final(self).shown() == window(all_positions(paths@.len()), 0, config.max_results as int),
            final(self).cursor() == 0,
    {
        self.input = String::new();
        self.insert = true;
        let n = paths.len();
        self.paths = paths;
        self.config = config;
        self.results.show_matches(positions_upto(n), self.config.max_results);
    }

    /// Shows the paths that match the query from the first window on.
    pub fn search(&mut self)
        ensures
            final(self).query_view() == old(self).query_view(),
            final(self).paths_view() == old(self).paths_view(),
            final(self).max_results() == old(self).max_results(),
            final(self).matches() == matching_positions(old(self).paths_view(), old(self).query_view()),
            final(self).offset() == 0,
            final(self).shown() == window(final(self).matches(), 0, old(self).max_results() as int),
            final(self).cursor() == 0,
    {
        let texts = text_list(&self.paths);
        let query = to_chars(self.input.as_str());
        let positions = filter_positions(&texts, &query);
        self.results.show_matches(positions, self.config.max_results);
    }

    pub fn set_query(&mut self, query: String)
        ensures
            final(self).query_view() == query@,
            final(self).paths_view() == old(self).paths_view(),
            final(self).matches() == matching_positions(old(self).paths_view(), query@),
            final(self).offset() == 0,
            final(self).shown() == window(final(self).matches(), 0, old(self).max_results() as int),
            final(self).cursor() == 0,
    {
        self.input = query;
        self.search();
    }

    pub fn select_previous(&mut self)
        requires
            old(self).offset() <= old(self).matches().len(),
            old(self).offset() + old(self).max_results() <= usize::MAX,
        ensures
            final(self).matches() == old(self).matches(),
            final(self).offset() <= final(self).matches().len(),
            old(self).cursor() == 0 && old(self).offset() > 0 ==> final(self).offset() == old(self).offset() - 1
                && final(self).shown() == window(old(self).matches(), old(self).offset() - 1, old(self).max_results() as int)
                && final(self).cursor() == 0,
            old(self).cursor() > 0 ==> final(self).offset() == old(self).offset() && final(self).shown() == old(self).shown()
                && final(self).cursor() == old(self).cursor() - 1,
    {
        self.results.select_previous(self.config.max_results);
    }

    pub fn select_next(&mut self)
        requires
            old(self).offset() <= old(self).matches().len(),
            old(self).offset() + old(self).max_results() < usize::MAX,
        ensures
            final(self).matches() == old(self).matches(),
            final(self).offset() <= final(self).matches().len(),
            ({
                let n = old(self).shown().len();
                let c = old(self).cursor();
                &&& (n > 0 && c + 1 < n) ==> final(self).offset() == old(self).offset() && final(self).cursor() == c + 1
                &&& (n > 0 && c + 1 >= n && old(self).offset() + old(self).max_results() < old(self).matches().len())
                    ==> final(self).offset() == old(self).offset() + 1 && final(self).shown() == window(
                    old(self).matches(),
                    old(self).offset() + 1,
                    old(self).max_results() as int,
                )
            }),
    {
        self.results.select_next(self.config.max_results);
    }

    /// The selected path, if any.
    pub fn selection(&self) -> (r: Option<&String>)
        ensures
            r is Some <==> self.cursor() < self.shown().len() && self.shown()[self.cursor() as int] < self.paths_view().len(),
            r matches Some(p) ==> p@ == self.paths_view()[self.shown()[self.cursor() as int] as int],
    {
        match self.results.selection() {
            Some(i) => {
                if i < self.paths.len() {
                    Some(&self.paths[i])
                } else {
                    None
                }
            },
            None => None,
        }
    }

    pub fn label(&self) -> (r: &'static str)
        ensures
            r@ == "MRU"@,
    {
        "MRU"
    }
}

/// Files that `fd` found.
pub struct FdMode {
    insert: bool,
    input: String,
    paths: Vec<String>,
    results: SelectableVec<usize>,
    config: SearchSelectConfig,
}

impl FdMode {
    pub closed spec fn query_view(&self) -> Seq<char> {
        self.input@
    }

    pub closed spec fn paths_view(&self) -> Seq<Seq<char>> {
        self.paths@.map_values(|s: String| s@)
    }

    pub closed spec fn shown(&self) -> Seq<usize> {
        self.results.items()
    }

    pub closed spec fn cursor(&self) -> usize {
        self.results.index()
    }

    pub closed spec fn max_results(&self) -> usize {
        self.config.max_results
    }

    pub fn new(config: SearchSelectConfig) -> (m: FdMode)
        ensures
            m.query_view().len() == 0,
            m.paths_view().len() == 0,
            m.shown().len() == 0,
            m.max_results() == config.max_results,
    {
        FdMode {
            insert: true,
            input: String::new(),
            paths: Vec::new(),
            results: SelectableVec::new(Vec::new()),
            config,
        }
    }

    /// Takes the paths that `fd` found for `filter` (its lines, each joined to the
    /// workspace path): the query starts as the filter, and the first `max_results` paths
    /// are shown.
    pub fn reset(&mut self, paths: Vec<String>, config: SearchSelectConfig, filter: &str)
        ensures
            final(self).query_view() == filter@,
            final(self).paths_view() == paths@.map_values(|s: String| s@),
            final(self).max_results() == config.max_results,
            final(self).shown() == first_n(all_positions(paths@.len()), config.max_results as int),
            final(self).cursor() == 0,
    {
        self.input = string_from_chars(to_chars(filter));
        self.insert = true;
        let n = paths.len();
        self.paths = paths;
        self.config = config;
        self.results = SelectableVec::new(first_positions(&positions_upto(n), self.config.max_results));
    }

    /// Shows the first `max_results` paths that match the query.
    pub fn search(&mut self)
        ensures
            final(self).query_view() == old(self).query_view(),
            final(self).paths_view() == old(self).paths_view(),
            final(self).max_results() == old(self).max_results(),
            final(self).shown() == first_n(
                matching_positions(old(self).paths_view(), old(self).query_view()),
                old(self).max_results() as int,
            ),
            final(self).cursor() == 0,
    {
        let texts = text_list(&self.paths);
        let query = to_chars(self.input.as_str());
        let positions = filter_positions(&texts, &query);
        self.results = SelectableVec::new(first_positions(&positions, self.config.max_results));
    }

    pub fn set_query(&mut self, query: String)
        ensures
            final(self).query_view() == query@,
            final(self).paths_view() == old(self).paths_view(),
            final(self).shown() == first_n(matching_positions(old(self).paths_view(), query@), old(self).max_results() as int),
            final(self).cursor() == 0,
    {
        self.input = query;
        self.search();
    }

    pub fn select_previous(&mut self)
        ensures
            final(self).shown() == old(self).shown(),
            final(self).cursor() == if old(self).cursor() > 0 { (old(self).cursor() - 1) as usize } else { old(self).cursor() },
    {
        self.results.select_previous();
    }

    pub fn select_next(&mut self)
        ensures
            final(self).shown() == old(self).shown(),
            final(self).cursor() == if old(self).cursor() + 1 < old(self).shown().len() {
                (old(self).cursor() + 1) as usize
            } else {
                old(self).cursor()
            },
    {
        self.results.select_next();
    }

    /// The selected path, if any.
    pub fn selection(&self) -> (r: Option<&String>)
        ensures
            r is Some <==> self.cursor() < self.shown().len() && self.shown()[self.cursor() as int] < self.paths_view().len(),
            r matches Some(p) ==> p@ == self.paths_view()[self.shown()[self.cursor() as int] as int],
    {
        match self.results.selection() {
            Some(i) => {
                if *i < self.paths.len() {
                    Some(&self.paths[*i])
                } else {
                    None
                }
            },
            None => None,
        }
    }

    /// What to say instead of a list: that `fd` found nothing, or that nothing matches.
    pub fn message(&self) -> (r: Option<String>)
        ensures
            self.paths_view().len() == 0 ==> (r matches Some(s) && s@ == "No files found (is 'fd' installed?)"@),
            self.paths_view().len() > 0 && self.query_view().len() > 0 && self.shown().len() == 0
                ==> (r matches Some(s) && s@ == "No matching entries found."@),
            self.paths_view().len() > 0 && !(self.query_view().len() > 0 && self.shown().len() == 0)
                ==> r is None,
    {
        if self.paths.len() == 0 {
            Some(string_from_chars(to_chars("No files found (is 'fd' installed?)")))
        } else if to_chars(self.input.as_str()).len() > 0 && self.results.len() == 0 {
            Some(string_from_chars(to_chars("No matching entries found.")))
        } else {
            None
        }
    }

    pub fn label(&self) -> (r: &'static str)
        ensures
            r@ == "FD"@,
    {
        "FD"
    }
}

/// An entry of the directory that the file picker shows.
#[derive(Clone, Debug)]
pub struct PickerEntry {
    pub path: String,
    pub name: String,
    pub is_dir: bool,
}

/// The picker's order on entry positions: directories first, then by name, then by
/// position (so equal entries keep their order).
pub open spec fn picker_le(names: Seq<Seq<char>>, dirs: Seq<bool>, p: usize, q: usize) -> bool {
    if dirs[p as int] != dirs[q as int] {
        dirs[p as int]
    } else if names[p as int] != names[q as int] {
        chars_le(names[p as int], names[q as int])
    } else {
        p <= q
    }
}

pub open spec fn picker_order(names: Seq<Seq<char>>, dirs: Seq<bool>) -> spec_fn(usize, usize) -> bool {
    |p: usize, q: usize| picker_le(names, dirs, p, q)
}

proof fn lemma_picker_order_total(names: Seq<Seq<char>>, dirs: Seq<bool>)
    ensures
        total_ordering(picker_order(names, dirs)),
{
    let r = picker_order(names, dirs);
    assert forall|x: usize, y: usize| #[trigger] r(x, y) && #[trigger] r(y, x) implies x == y by {
        if dirs[x as int] == dirs[y as int] && names[x as int] != names[y as int] {
            lemma_le_antisymmetric(names[x as int], names[y as int]);
        }
    }
    assert forall|x: usize, y: usize, z: usize| #[trigger] r(x, y) && #[trigger] r(y, z) implies r(x, z) by {
        let (nx, ny, nz) = (names[x as int], names[y as int], names[z as int]);
        if dirs[x as int] == dirs[y as int] && dirs[y as int] == dirs[z as int] {
            if nx != ny && ny != nz {
                lemma_le_transitive(nx, ny, nz);
                if nx == nz {
                    lemma_le_antisymmetric(nx, ny);
                }
            }
        }
    }
    assert forall|x: usize, y: usize| #[trigger] r(x, y) || #[trigger] r(y, x) by {
        lemma_le_connected(names[x as int], names[y as int]);
    }
}

fn picker_le_exec(names: &Vec<Vec<char>>, dirs: &Vec<bool>, p: usize, q: usize) -> (r: bool)
    requires
        p < names@.len(),
        q < names@.len(),
        dirs@.len() == names@.len(),
    ensures
        r == picker_le(names@.map_values(|t: Vec<char>| t@), dirs@, p, q),
{
    if dirs[p] != dirs[q] {
        dirs[p]
    } else if !crate::text::chars_eq(&names[p], &names[q]) {
        crate::order::chars_le_exec(&names[p], &names[q])
    } else {
        p <= q
    }
}

/// The positions of the entries in the order the picker shows them.
pub fn picker_positions(entries: &Vec<PickerEntry>) -> (r: Vec<usize>)
    ensures
        forall|j: int| 0 <= j < r@.len() ==> #[trigger] r@[j] < entries@.len(),
        r@ == all_positions(entries@.len()).sort_by(picker_order(
            entries@.map_values(|e: PickerEntry| e.name@),
            entries@.map_values(|e: PickerEntry| e.is_dir),
        )),
{
    let ghost nv = entries@.map_values(|e: PickerEntry| e.name@);
    let ghost dv = entries@.map_values(|e: PickerEntry| e.is_dir);
    let ghost ord = picker_order(nv, dv);
    let mut names: Vec<Vec<char>> = Vec::new();
    let mut dirs: Vec<bool> = Vec::new();
    let mut i: usize = 0;
    while i < entries.len()
        invariant
            i <= entries@.len(),
            nv == entries@.map_values(|e: PickerEntry| e.name@),
            dv == entries@.map_values(|e: PickerEntry| e.is_dir),
            names@.map_values(|t: Vec<char>| t@) == nv.take(i as int),
            dirs@ == dv.take(i as int),
        decreases entries@.len() - i,
    {
        let ghost before = names@;
        names.push(to_chars(entries[i].name.as_str()));
        dirs.push(entries[i].is_dir);
        assert(names@.map_values(|t: Vec<char>| t@) =~= before.map_values(|t: Vec<char>| t@).push(nv[i as int]));
        i = i + 1;
        assert(names@.map_values(|t: Vec<char>| t@) =~= nv.take(i as int));
        assert(dirs@ =~= dv.take(i as int));
    }
    assert(names@.map_values(|t: Vec<char>| t@) == nv);
    assert(dirs@ == dv);
    let n = entries.len();
    let ghost all = all_positions(n as nat);
    let mut out: Vec<usize> = Vec::new();
    let mut k: usize = 0;
    proof {
        lemma_picker_order_total(nv, dv);
        assert(out@ =~= all.take(0));
    }
    while k < n
        invariant
            n == entries@.len(),
            names@.len() == n,
            dirs@.len() == n,
            names@.map_values(|t: Vec<char>| t@) == nv,
            dirs@ == dv,
            ord == picker_order(nv, dv),
            all == all_positions(n as nat),
            total_ordering(ord),
            k <= n,
            forall|j: int| 0 <= j < out@.len() ==> out@[j] < n,
            sorted_by(out@, ord),
            out@.to_multiset() == all.take(k as int).to_multiset(),
        decreases n - k,
    {
        let mut pos: usize = 0;
        while pos < out.len() && picker_le_exec(&names, &dirs, out[pos], k)
            invariant
                pos <= out@.len(),
                n == names@.len(),
                dirs@.len() == n,
                k < n,
                names@.map_values(|t: Vec<char>| t@) == nv,
                dirs@ == dv,
                ord == picker_order(nv, dv),
                forall|j: int| 0 <= j < out@.len() ==> out@[j] < n,
                forall|j: int| 0 <= j < pos ==> ord(#[trigger] out@[j], k),
            decreases out@.len() - pos,
        {
            pos = pos + 1;
        }
        let ghost before = out@;
        proof {
            if pos < out@.len() {
                assert(!ord(out@[pos as int], k));
                assert(ord(out@[pos as int], k) || ord(k, out@[pos as int]));
            }
        }
        out.insert(pos, k);
        proof {
            assert(all.take(k + 1) == all.take(k as int).push(k));
            to_multiset_build(all.take(k as int), k);
            to_multiset_insert(before, pos as int, k);
            assert forall|i1: int, j1: int| 0 <= i1 < j1 < out@.len() implies #[trigger] ord(out@[i1], out@[j1]) by {
                if j1 < pos {
                    assert(out@[i1] == before[i1] && out@[j1] == before[j1]);
                } else if j1 == pos {
                    assert(out@[i1] == before[i1]);
                } else if i1 < pos {
                    assert(out@[i1] == before[i1] && out@[j1] == before[j1 - 1]);
                    assert(ord(before[i1], before[j1 - 1]));
                } else if i1 == pos {
                    assert(out@[j1] == before[j1 - 1]);
                    assert(ord(before[pos as int], before[j1 - 1]));
                    assert(ord(k, before[pos as int]));
                } else {
                    assert(out@[i1] == before[i1 - 1] && out@[j1] == before[j1 - 1]);
                    assert(ord(before[i1 - 1], before[j1 - 1]));
                }
            }
        }
        k = k + 1;
    }
    proof {
        assert(all.take(n as int) == all);
        all.lemma_sort_by_ensures(ord);
        lemma_sorted_unique(out@, all.sort_by(ord), ord);
    }
    out
}

/// The file picker: the entries of one directory, directories first.
pub struct FilePickerMode {
    pub insert: bool,
    input: String,
    pub current_dir: String,
    entries: Vec<PickerEntry>,
    order: Vec<usize>,
    results: SelectableVec<usize>,
    config: SearchSelectConfig,
}

/// The parent of a path, as `PathBuf::pop` finds it; `None` for a path without one.
pub uninterp spec fn path_parent(path: Seq<char>) -> Option<Seq<char>>;

/// `PathBuf::pop`: the path without its last component, if it has a parent.
#[verifier::external_body]
fn parent_path(path: &str) -> (r: Option<String>)
    ensures
        match path_parent(path@) {
            Some(p) => r matches Some(s) && s@ == p,
            None => r is None,
        },
{
    let mut buf = std::path::PathBuf::from(path);
    if buf.pop() {
        Some(buf.to_string_lossy().into_owned())
    } else {
        None
    }
}

impl FilePickerMode {
    pub closed spec fn query_view(&self) -> Seq<char> {
        self.input@
    }

    pub closed spec fn dir_view(&self) -> Seq<char> {
        self.current_dir@
    }

    pub closed spec fn entries_view(&self) -> Seq<PickerEntry> {
        self.entries@
    }

    /// Positions of the entries in display order.
    pub closed spec fn order_view(&self) -> Seq<usize> {
        self.order@
    }

    /// Display-order ranks of the entries shown.
    pub closed spec fn shown(&self) -> Seq<usize> {
        self.results.items()
    }

    pub closed spec fn cursor(&self) -> usize {
        self.results.index()
    }

    pub fn new(config: SearchSelectConfig) -> (m: FilePickerMode)
        ensures
            m.query_view().len() == 0,
            m.dir_view().len() == 0,
            m.entries_view().len() == 0,
            m.shown().len() == 0,
    {
        FilePickerMode {
            insert: true,
            input: String::new(),
            current_dir: String::new(),
            entries: Vec::new(),
            order: Vec::new(),
            results: SelectableVec::new(Vec::new()),
            config,
        }
    }

    /// Opens the picker on the workspace directory; the caller then lists it into
    /// `set_entries`.
    pub fn reset(&mut self, workspace_path: String, config: SearchSelectConfig)
        ensures
            final(self).dir_view() == workspace_path@,
            final(self).query_view().len() == 0,
            final(self).entries_view() == old(self).entries_view(),
    {
        self.current_dir = workspace_path;
        self.input = String::new();
        self.insert = true;
        self.config = config;
    }

    /// Takes the entries of the current directory: directories first, then by name; the
    /// ones that match the query are shown, the first one selected.
    pub fn set_entries(&mut self, entries: Vec<PickerEntry>)
        ensures
            final(self).entries_view() == entries@,
            final(self).query_view() == old(self).query_view(),
            final(self).dir_view() == old(self).dir_view(),
            final(self).order_view() == all_positions(entries@.len()).sort_by(picker_order(
                entries@.map_values(|e: PickerEntry| e.name@),
                entries@.map_values(|e: PickerEntry| e.is_dir),
            )),
            final(self).shown() == matching_positions(
                final(self).order_view().map_values(|p: usize| final(self).entries_view()[p as int].name@),
                final(self).query_view(),
            ),
            final(self).cursor() == 0,
    {
        self.order = picker_positions(&entries);
        self.entries = entries;
        self.search();
    }

    /// Shows the entries whose name matches the query, the first one selected.
    pub fn search(&mut self)
        requires
            forall|j: int| 0 <= j < old(self).order_view().len() ==> #[trigger] old(self).order_view()[j] < old(self).entries_view().len(),
        ensures
            final(self).entries_view() == old(self).entries_view(),
            final(self).order_view() == old(self).order_view(),
            final(self).query_view() == old(self).query_view(),
            final(self).dir_view() == old(self).dir_view(),
            final(self).shown() == matching_positions(
                old(self).order_view().map_values(|p: usize| old(self).entries_view()[p as int].name@),
                old(self).query_view(),
            ),
            final(self).cursor() == 0,
    {
        let ghost shown_names = self.order@.map_values(|p: usize| self.entries@[p as int].name@);
        let mut texts: Vec<Vec<char>> = Vec::new();
        let mut i: usize = 0;
        while i < self.order.len()
            invariant
                i <= self.order@.len(),
                forall|j: int| 0 <= j < self.order_view().len() ==> #[trigger] self.order_view()[j] < self.entries_view().len(),
                shown_names == self.order@.map_values(|p: usize| self.entries@[p as int].name@),
                texts@.map_values(|t: Vec<char>| t@) == shown_names.take(i as int),
            decreases self.order@.len() - i,
        {
            let p = self.order[i];
            assert(self.order_view()[i as int] < self.entries_view().len());
            let ghost before = texts@;
            texts.push(to_chars(self.entries[p].name.as_str()));
            assert(texts@.map_values(|t: Vec<char>| t@) =~= before.map_values(|t: Vec<char>| t@).push(shown_names[i as int]));
            i = i + 1;
            assert(texts@.map_values(|t: Vec<char>| t@) =~= shown_names.take(i as int));
        }
        assert(shown_names.take(self.order@.len() as int) == shown_names);
        let query = to_chars(self.input.as_str());
        self.results = SelectableVec::new(filter_positions(&texts, &query));
    }

    /// Goes to the parent directory, if there is one, with an empty query; `true` tells
    /// the caller to list it into `set_entries`.
    pub fn navigate_up(&mut self) -> (moved: bool)
        ensures
            moved == (path_parent(old(self).dir_view()) is Some),
            moved ==> final(self).dir_view() == path_parent(old(self).dir_view())->0 && final(self).query_view().len() == 0,
            !moved ==> final(self).dir_view() == old(self).dir_view() && final(self).query_view() == old(self).query_view(),
            final(self).entries_view() == old(self).entries_view(),
    {
        match parent_path(self.current_dir.as_str()) {
            Some(parent) => {
                self.current_dir = parent;
                self.input = String::new();
                true
            },
            None => false,
        }
    }

    pub fn select_previous(&mut self)
        ensures
            final(self).shown() == old(self).shown(),
            final(self).cursor() == if old(self).cursor() > 0 { (old(self).cursor() - 1) as usize } else { old(self).cursor() },
    {
        self.results.select_previous();
    }

    pub fn select_next(&mut self)
        ensures
            final(self).shown() == old(self).shown(),
            final(self).cursor() == if old(self).cursor() + 1 < old(self).shown().len() {
                (old(self).cursor() + 1) as usize
            } else {
                old(self).cursor()
            },
    {
        self.results.select_next();
    }

    /// The selected entry, if any.
    pub fn selection(&self) -> (r: Option<&PickerEntry>)
        ensures
            r is Some <==> self.cursor() < self.shown().len() && self.shown()[self.cursor() as int] < self.order_view().len()
                && self.order_view()[self.shown()[self.cursor() as int] as int] < self.entries_view().len(),
            r matches Some(e) ==> *e == self.entries_view()[self.order_view()[self.shown()[self.cursor() as int] as int] as int],
    {
        match self.results.selection() {
            Some(rank) => {
                if *rank < self.order.len() && self.order[*rank] < self.entries.len() {
                    Some(&self.entries[self.order[*rank]])
                } else {
                    None
                }
            },
            None => None,
        }
    }

    pub fn label(&self) -> (r: &'static str)
        ensures
            r@ == "PICKER"@,
    {
        "PICKER"
    }
}

/// A tag from the tags file.
#[derive(Clone, Debug)]
pub struct TagEntry {
    pub name: String,
    pub file: String,
    pub line: usize,
    pub kind: Option<String>,
}

/// What the tag list shows for a tag: name, a tab, `file:line`, and ` [kind]` when the
/// kind is known.
pub open spec fn tag_label(name: Seq<char>, file: Seq<char>, line: nat, kind: Option<Seq<char>>) -> Seq<char> {
    name + seq!['\t'] + file + seq![':'] + decimal(line) + match kind {
        Some(k) => seq![' ', '['] + k + seq![']'],
        None => Seq::empty(),
    }
}

impl TagEntry {
    pub open spec fn kind_view(&self) -> Option<Seq<char>> {
        match self.kind {
            Some(k) => Some(k@),
            None => None,
        }
    }

    /// The text the tag list shows.
    pub fn label(&self) -> (r: String)
        ensures
            r@ == tag_label(self.name@, self.file@, self.line as nat, self.kind_view()),
    {
        let mut out = to_chars(self.name.as_str());
        out.push('\t');
        out = concat_chars(&out, &to_chars(self.file.as_str()));
        out.push(':');
        out = concat_chars(&out, &decimal_chars(self.line));
        match &self.kind {
            Some(k) => {
                out.push(' ');
                out.push('[');
                out = concat_chars(&out, &to_chars(k.as_str()));
                out.push(']');
            },
            None => {},
        }
        assert(out@ =~= tag_label(self.name@, self.file@, self.line as nat, self.kind_view()));
        string_from_chars(out)
    }
}

/// The names that `fragment::matching::find` ranks for a query, best first.
pub uninterp spec fn fuzzy_matches(needle: Seq<char>, names: Seq<Seq<char>>) -> Seq<Seq<char>>;

/// `fragment::matching::find`, with no limit on the results: the names that match the
/// query, best first, each given back as its text.
#[verifier::external_body]
fn fuzzy_find(needle: &str, names: &Vec<String>) -> (r: Vec<String>)
    ensures
        r@.map_values(|s: String| s@) == fuzzy_matches(needle@, names@.map_values(|s: String| s@)),
{
    fragment::matching::find(needle, names, usize::MAX).into_iter().map(|m| (*m).clone()).collect()
}

/// How often `w` occurs in `s`.
pub open spec fn occurrences(s: Seq<Seq<char>>, w: Seq<char>) -> nat
    decreases s.len(),
{
    if s.len() == 0 {
        0
    } else {
        occurrences(s.drop_last(), w) + if s.last() == w { 1nat } else { 0nat }
    }
}

/// The position of the occurrence of `w` in `names` after `n` others, searching from
/// `start`.
pub open spec fn nth_position_from(names: Seq<Seq<char>>, w: Seq<char>, n: nat, start: int) -> Option<usize>
    decreases names.len() - start,
{
    if start < 0 || start >= names.len() {
        None
    } else if names[start] == w {
        if n == 0 {
            Some(start as usize)
        } else {
            nth_position_from(names, w, (n - 1) as nat, start + 1)
        }
    } else {
        nth_position_from(names, w, n, start + 1)
    }
}

/// The positions in `names` that ranked names stand for: each occurrence of a name in
/// the ranking takes the next occurrence of that name in `names`.
pub open spec fn ranked_positions(ranked: Seq<Seq<char>>, names: Seq<Seq<char>>) -> Seq<usize>
    decreases ranked.len(),
{
    if ranked.len() == 0 {
        seq![]
    } else {
        let before = ranked_positions(ranked.drop_last(), names);
        match nth_position_from(names, ranked.last(), occurrences(ranked.drop_last(), ranked.last()), 0) {
            Some(p) => before.push(p),
            None => before,
        }
    }
}

fn count_occurrences(s: &Vec<Vec<char>>, end: usize, w: &Vec<char>) -> (n: usize)
    requires
        end <= s@.len(),
    ensures
        n == occurrences(s@.map_values(|t: Vec<char>| t@).take(end as int), w@),
{
    let ghost sv = s@.map_values(|t: Vec<char>| t@);
    let mut n: usize = 0;
    let mut i: usize = 0;
    while i < end
        invariant
            end <= s@.len(),
            sv == s@.map_values(|t: Vec<char>| t@),
            i <= end,
            n <= i,
            n == occurrences(sv.take(i as int), w@),
        decreases end - i,
    {
        assert(sv.take(i + 1).drop_last() == sv.take(i as int));
        if crate::text::chars_eq(&s[i], w) {
            n = n + 1;
        }
        i = i + 1;
    }
    n
}

fn nth_position(names: &Vec<Vec<char>>, w: &Vec<char>, n: usize) -> (r: Option<usize>)
    ensures
        r == nth_position_from(names@.map_values(|t: Vec<char>| t@), w@, n as nat, 0),
{
    let ghost nv = names@.map_values(|t: Vec<char>| t@);
    let mut left = n;
    let mut i: usize = 0;
    while i < names.len()
        invariant
            nv == names@.map_values(|t: Vec<char>| t@),
            i <= names@.len(),
            nth_position_from(nv, w@, left as nat, i as int) == nth_position_from(nv, w@, n as nat, 0),
        decreases names@.len() - i,
    {
        if crate::text::chars_eq(&names[i], w) {
            if left == 0 {
                return Some(i);
            }
            left = left - 1;
        }
        i = i + 1;
    }
    None
}

/// The tags to jump to.
pub struct TagJumpMode {
    insert: bool,
    input: String,
    tags: Vec<TagEntry>,
    results: ScrollingResults,
    config: SearchSelectConfig,
}

impl TagJumpMode {
    pub closed spec fn query_view(&self) -> Seq<char> {
        self.input@
    }

    pub closed spec fn names_view(&self) -> Seq<Seq<char>> {
        self.tags@.map_values(|t: TagEntry| t.name@)
    }

    /// The tags to choose from.
    pub closed spec fn tags_view(&self) -> Seq<TagEntry> {
        self.tags@
    }

    pub closed spec fn matches(&self) -> Seq<usize> {
        self.results.all()
    }

    pub closed spec fn offset(&self) -> usize {
        self.results.offset()
    }

    pub closed spec fn shown(&self) -> Seq<usize> {
        self.results.shown()
    }

    pub closed spec fn cursor(&self) -> usize {
        self.results.cursor()
    }

    pub closed spec fn max_results(&self) -> usize {
        self.config.max_results
    }

    pub fn new(config: SearchSelectConfig) -> (m: TagJumpMode)
        ensures
            m.query_view().len() == 0,
            m.names_view().len() == 0,
            m.matches().len() == 0,
            m.shown().len() == 0,
            m.max_results() == config.max_results,
    {
        TagJumpMode { insert: true, input: String::new(), tags: Vec::new(), results: ScrollingResults::empty(), config }
    }

    /// Takes new tags with an empty query; nothing is shown until a search.
    pub fn reset(&mut self, tags: Vec<TagEntry>, config: SearchSelectConfig)
        ensures
            final(self).query_view().len() == 0,
            final(self).names_view() == tags@.map_values(|t: TagEntry| t.name@),
            final(self).tags_view() == tags@,
            final(self).matches().len() == 0,
            final(self).offset() == 0,
            final(self).shown().len() == 0,
            final(self).max_results() == config.max_results,
    {
        self.insert = true;
        self.input = String::new();
        self.tags = tags;
        self.results = ScrollingResults::empty();
        self.config = config;
    }

    /// Shows every tag for an empty query, else the tags whose names match it, best
    /// first; from the first window on.
    pub fn search(&mut self)
        ensures
            final(self).query_view() == old(self).query_view(),
            final(self).names_view() == old(self).names_view(),
            final(self).max_results() == old(self).max_results(),
            final(self).matches() == if old(self).query_view().len() == 0 {
                all_positions(old(self).names_view().len())
            } else {
                ranked_positions(fuzzy_matches(old(self).query_view(), old(self).names_view()), old(self).names_view())
            },
            final(self).offset() == 0,
            final(self).shown() == window(final(self).matches(), 0, old(self).max_results() as int),
            final(self).cursor() == 0,
    {
        let query = to_chars(self.input.as_str());
        if query.len() == 0 {
            let n = self.tags.len();
            self.results.show_matches(positions_upto(n), self.config.max_results);
            return;
        }
        let mut names: Vec<String> = Vec::new();
        let mut name_chars: Vec<Vec<char>> = Vec::new();
        let ghost nv = self.tags@.map_values(|t: TagEntry| t.name@);
        let mut i: usize = 0;
        while i < self.tags.len()
            invariant
                i <= self.tags@.len(),
                nv == self.tags@.map_values(|t: TagEntry| t.name@),
                names@.map_values(|s: String| s@) == nv.take(i as int),
                name_chars@.map_values(|t: Vec<char>| t@) == nv.take(i as int),
            decreases self.tags@.len() - i,
        {
            let ghost b1 = names@;
            let ghost b2 = name_chars@;
            names.push(self.tags[i].name.clone());
            name_chars.push(to_chars(self.tags[i].name.as_str()));
            assert(names@.map_values(|s: String| s@) =~= b1.map_values(|s: String| s@).push(nv[i as int]));
            assert(name_chars@.map_values(|t: Vec<char>| t@) =~= b2.map_values(|t: Vec<char>| t@).push(nv[i as int]));
            i = i + 1;
            assert(names@.map_values(|s: String| s@) =~= nv.take(i as int));
            assert(name_chars@.map_values(|t: Vec<char>| t@) =~= nv.take(i as int));
        }
        assert(nv.take(self.tags@.len() as int) == nv);
        let ranked = fuzzy_find(self.input.as_str(), &names);
        let ghost rv = ranked@.map_values(|s: String| s@);
        let mut ranked_chars: Vec<Vec<char>> = Vec::new();
        let mut positions: Vec<usize> = Vec::new();
        let mut k: usize = 0;
        while k < ranked.len()
            invariant
                k <= ranked@.len(),
                rv == ranked@.map_values(|s: String| s@),
                name_chars@.map_values(|t: Vec<char>| t@) == nv,
                ranked_chars@.map_values(|t: Vec<char>| t@) == rv.take(k as int),
                positions@ == ranked_positions(rv.take(k as int), nv),
            decreases ranked@.len() - k,
        {
            let w = to_chars(ranked[k].as_str());
            let seen = count_occurrences(&ranked_chars, k, &w);
            assert(ranked_chars@.map_values(|t: Vec<char>| t@).take(k as int) == rv.take(k as int));
            assert(rv.take(k + 1).drop_last() == rv.take(k as int));
            assert(rv.take(k + 1).last() == w@);
            match nth_position(&name_chars, &w, seen) {
                Some(p) => {
                    positions.push(p);
                },
                None => {},
            }
            let ghost before = ranked_chars@;
            ranked_chars.push(w);
            assert(ranked_chars@.map_values(|t: Vec<char>| t@) =~= before.map_values(|t: Vec<char>| t@).push(rv[k as int]));
            k = k + 1;
            assert(ranked_chars@.map_values(|t: Vec<char>| t@) =~= rv.take(k as int));
        }
        assert(rv.take(ranked@.len() as int) == rv);
        self.results.show_matches(positions, self.config.max_results);
    }

    pub fn set_query(&mut self, query: String)
        ensures
            final(self).query_view() == query@,
            final(self).names_view() == old(self).names_view(),
            final(self).matches() == if query@.len() == 0 {
                all_positions(old(self).names_view().len())
            } else {
                ranked_positions(fuzzy_matches(query@, old(self).names_view()), old(self).names_view())
            },
            final(self).offset() == 0,
            final(self).shown() == window(final(self).matches(), 0, old(self).max_results() as int),
            final(self).cursor() == 0,
    {
        self.input = query;
        self.search();
    }

    pub fn select_previous(&mut self)
        requires
            old(self).offset() <= old(self).matches().len(),
            old(self).offset() + old(self).max_results() <= usize::MAX,
        ensures
            final(self).matches() == old(self).matches(),
            final(self).offset() <= final(self).matches().len(),
            old(self).cursor() == 0 && old(self).offset() > 0 ==> final(self).offset() == old(self).offset() - 1
                && final(self).shown() == window(old(self).matches(), old(self).offset() - 1, old(self).max_results() as int)
                && final(self).cursor() == 0,
            old(self).cursor() > 0 ==> final(self).offset() == old(self).offset() && final(self).shown() == old(self).shown()
                && final(self).cursor() == old(self).cursor() - 1,
    {
        self.results.select_previous(self.config.max_results);
    }

    pub fn select_next(&mut self)
        requires
            old(self).offset() <= old(self).matches().len(),
            old(self).offset() + old(self).max_results() < usize::MAX,
        ensures
            final(self).matches() == old(self).matches(),
            final(self).offset() <= final(self).matches().len(),
            ({
                let n = old(self).shown().len();
                let c = old(self).cursor();
                &&& (n > 0 && c + 1 < n) ==> final(self).offset() == old(self).offset() && final(self).cursor() == c + 1
                &&& (n > 0 && c + 1 >= n && old(self).offset() + old(self).max_results() < old(self).matches().len())
                    ==> final(self).offset() == old(self).offset() + 1 && final(self).shown() == window(
                    old(self).matches(),
                    old(self).offset() + 1,
                    old(self).max_results() as int,
                )
            }),
    {
        self.results.select_next(self.config.max_results);
    }

    /// The selected tag, if any.
    pub fn selection(&self) -> (r: Option<&TagEntry>)
        ensures
            r is Some <==> self.cursor() < self.shown().len() && self.shown()[self.cursor() as int] < self.tags_view().len(),
            r matches Some(t) ==> *t == self.tags_view()[self.shown()[self.cursor() as int] as int],
    {
        match self.results.selection() {
            Some(i) => {
                if i < self.tags.len() {
                    Some(&self.tags[i])
                } else {
                    None
                }
            },
            None => None,
        }
    }

    pub fn shown_count(&self) -> (n: usize)
        ensures
            n == self.shown().len(),
    {
        self.results.shown_len()
    }

    pub fn label(&self) -> (r: &'static str)
        ensures
            r@ == "TAG"@,
    {
        "TAG"
    }
}

/// A function, class or struct named in a buffer, and where its name starts.
#[derive(Clone, Debug, PartialEq)]
pub struct Symbol {
    pub token: String,
    pub position: Position,
}

/// The symbols of a buffer to jump to.
pub struct SymbolJumpMode {
    insert: bool,
    input: String,
    symbols: Vec<Symbol>,
    results: ScrollingResults,
    config: SearchSelectConfig,
}

impl SymbolJumpMode {
    pub closed spec fn query_view(&self) -> Seq<char> {
        self.input@
    }

    pub closed spec fn names_view(&self) -> Seq<Seq<char>> {
        self.symbols@.map_values(|t: Symbol| t.token@)
    }

    /// The symbols to choose from.
    pub closed spec fn symbols_view(&self) -> Seq<Symbol> {
        self.symbols@
    }

    pub closed spec fn matches(&self) -> Seq<usize> {
        self.results.all()
    }

    pub closed spec fn offset(&self) -> usize {
        self.results.offset()
    }

    pub closed spec fn shown(&self) -> Seq<usize> {
        self.results.shown()
    }

    pub closed spec fn cursor(&self) -> usize {
        self.results.cursor()
    }

    pub closed spec fn max_results(&self) -> usize {
        self.config.max_results
    }

    pub fn new(config: SearchSelectConfig) -> (m: SymbolJumpMode)
        ensures
            m.query_view().len() == 0,
            m.names_view().len() == 0,
            m.matches().len() == 0,
            m.shown().len() == 0,
            m.max_results() == config.max_results,
            m.insert_view(),
    {
        SymbolJumpMode { insert: true, input: String::new(), symbols: Vec::new(), results: ScrollingResults::empty(), config }
    }

    /// Takes new symbols with an empty query; nothing is shown until a search.
    pub fn reset(&mut self, symbols: Vec<Symbol>, config: SearchSelectConfig)
        ensures
            final(self).query_view().len() == 0,
            final(self).names_view() == symbols@.map_values(|t: Symbol| t.token@),
            final(self).symbols_view() == symbols@,
            final(self).matches().len() == 0,
            final(self).offset() == 0,
            final(self).shown().len() == 0,
            final(self).max_results() == config.max_results,
            final(self).insert_view(),
    {
        self.insert = true;
        self.input = String::new();
        self.symbols = symbols;
        self.results = ScrollingResults::empty();
        self.config = config;
    }

    /// Shows every symbol for an empty query, else the symbols that match it, best
    /// first; from the first window on.
    pub fn search(&mut self)
        ensures
            final(self).query_view() == old(self).query_view(),
            final(self).names_view() == old(self).names_view(),
            final(self).max_results() == old(self).max_results(),
            final(self).matches() == if old(self).query_view().len() == 0 {
                all_positions(old(self).names_view().len())
            } else {
                ranked_positions(fuzzy_matches(old(self).query_view(), old(self).names_view()), old(self).names_view())
            },
            final(self).offset() == 0,
            final(self).shown() == window(final(self).matches(), 0, old(self).max_results() as int),
            final(self).cursor() == 0,
    {
        let query = to_chars(self.input.as_str());
        if query.len() == 0 {
            let n = self.symbols.len();
            self.results.show_matches(positions_upto(n), self.config.max_results);
            return;
        }
        let mut names: Vec<String> = Vec::new();
        let mut name_chars: Vec<Vec<char>> = Vec::new();
        let ghost nv = self.symbols@.map_values(|t: Symbol| t.token@);
        let mut i: usize = 0;
        while i < self.symbols.len()
            invariant
                i <= self.symbols@.len(),
                nv == self.symbols@.map_values(|t: Symbol| t.token@),
                names@.map_values(|s: String| s@) == nv.take(i as int),
                name_chars@.map_values(|t: Vec<char>| t@) == nv.take(i as int),
            decreases self.symbols@.len() - i,
        {
            let ghost b1 = names@;
            let ghost b2 = name_chars@;
            names.push(self.symbols[i].token.clone());
            name_chars.push(to_chars(self.symbols[i].token.as_str()));
            assert(names@.map_values(|s: String| s@) =~= b1.map_values(|s: String| s@).push(nv[i as int]));
            assert(name_chars@.map_values(|t: Vec<char>| t@) =~= b2.map_values(|t: Vec<char>| t@).push(nv[i as int]));
            i = i + 1;
            assert(names@.map_values(|s: String| s@) =~= nv.take(i as int));
            assert(name_chars@.map_values(|t: Vec<char>| t@) =~= nv.take(i as int));
        }
        assert(nv.take(self.symbols@.len() as int) == nv);
        let ranked = fuzzy_find(self.input.as_str(), &names);
        let ghost rv = ranked@.map_values(|s: String| s@);
        let mut ranked_chars: Vec<Vec<char>> = Vec::new();
        let mut positions: Vec<usize> = Vec::new();
        let mut k: usize = 0;
        while k < ranked.len()
            invariant
                k <= ranked@.len(),
                rv == ranked@.map_values(|s: String| s@),
                name_chars@.map_values(|t: Vec<char>| t@) == nv,
                ranked_chars@.map_values(|t: Vec<char>| t@) == rv.take(k as int),
                positions@ == ranked_positions(rv.take(k as int), nv),
            decreases ranked@.len() - k,
        {
            let w = to_chars(ranked[k].as_str());
            let seen = count_occurrences(&ranked_chars, k, &w);
            assert(ranked_chars@.map_values(|t: Vec<char>| t@).take(k as int) == rv.take(k as int));
            assert(rv.take(k + 1).drop_last() == rv.take(k as int));
            assert(rv.take(k + 1).last() == w@);
            match nth_position(&name_chars, &w, seen) {
                Some(p) => {
                    positions.push(p);
                },
                None => {},
            }
            let ghost before = ranked_chars@;
            ranked_chars.push(w);
            assert(ranked_chars@.map_values(|t: Vec<char>| t@) =~= before.map_values(|t: Vec<char>| t@).push(rv[k as int]));
            k = k + 1;
            assert(ranked_chars@.map_values(|t: Vec<char>| t@) =~= rv.take(k as int));
        }
        assert(rv.take(ranked@.len() as int) == rv);
        self.results.show_matches(positions, self.config.max_results);
    }

    pub fn set_query(&mut self, query: String)
        ensures
            final(self).query_view() == query@,
            final(self).names_view() == old(self).names_view(),
            final(self).matches() == if query@.len() == 0 {
                all_positions(old(self).names_view().len())
            } else {
                ranked_positions(fuzzy_matches(query@, old(self).names_view()), old(self).names_view())
            },
            final(self).offset() == 0,
            final(self).shown() == window(final(self).matches(), 0, old(self).max_results() as int),
            final(self).cursor() == 0,
    {
        self.input = query;
        self.search();
    }

    pub fn select_previous(&mut self)
        requires
            old(self).offset() <= old(self).matches().len(),
            old(self).offset() + old(self).max_results() <= usize::MAX,
        ensures
            final(self).matches() == old(self).matches(),
            final(self).offset() <= final(self).matches().len(),
            old(self).cursor() == 0 && old(self).offset() > 0 ==> final(self).offset() == old(self).offset() - 1
                && final(self).shown() == window(old(self).matches(), old(self).offset() - 1, old(self).max_results() as int)
                && final(self).cursor() == 0,
            old(self).cursor() > 0 ==> final(self).offset() == old(self).offset() && final(self).shown() == old(self).shown()
                && final(self).cursor() == old(self).cursor() - 1,
    {
        self.results.select_previous(self.config.max_results);
    }

    pub fn select_next(&mut self)
        requires
            old(self).offset() <= old(self).matches().len(),
            old(self).offset() + old(self).max_results() < usize::MAX,
        ensures
            final(self).matches() == old(self).matches(),
            final(self).offset() <= final(self).matches().len(),
            ({
                let n = old(self).shown().len();
                let c = old(self).cursor();
                &&& (n > 0 && c + 1 < n) ==> final(self).offset() == old(self).offset() && final(self).cursor() == c + 1
                &&& (n > 0 && c + 1 >= n && old(self).offset() + old(self).max_results() < old(self).matches().len())
                    ==> final(self).offset() == old(self).offset() + 1 && final(self).shown() == window(
                    old(self).matches(),
                    old(self).offset() + 1,
                    old(self).max_results() as int,
                )
            }),
    {
        self.results.select_next(self.config.max_results);
    }

    /// The selected symbol, if any.
    pub fn selection(&self) -> (r: Option<&Symbol>)
        ensures
            r is Some <==> self.cursor() < self.shown().len() && self.shown()[self.cursor() as int] < self.symbols_view().len(),
            r matches Some(t) ==> *t == self.symbols_view()[self.shown()[self.cursor() as int] as int],
    {
        match self.results.selection() {
            Some(i) => {
                if i < self.symbols.len() {
                    Some(&self.symbols[i])
                } else {
                    None
                }
            },
            None => None,
        }
    }

    pub fn shown_count(&self) -> (n: usize)
        ensures
            n == self.shown().len(),
    {
        self.results.shown_len()
    }

    pub closed spec fn insert_view(&self) -> bool {
        self.insert
    }

    pub fn query(&self) -> (r: &String)
        ensures
            r@ == self.query_view(),
    {
        &self.input
    }

    /// Whether the query is being typed.
    pub fn insert_mode(&self) -> (r: bool)
        ensures
            r == self.insert_view(),
    {
        self.insert
    }

    pub fn set_insert_mode(&mut self, insert_mode: bool)
        ensures
            final(self).insert_view() == insert_mode,
            final(self).query_view() == old(self).query_view(),
            final(self).names_view() == old(self).names_view(),
            final(self).matches() == old(self).matches(),
            final(self).offset() == old(self).offset(),
            final(self).shown() == old(self).shown(),
            final(self).cursor() == old(self).cursor(),
            final(self).max_results() == old(self).max_results(),
    {
        self.insert = insert_mode;
    }

    /// How far the list of matches is scrolled.
    pub fn scroll_offset(&self) -> (o: usize)
        ensures
            o == self.offset(),
    {
        self.results.scroll_offset()
    }

    /// How many symbols match the query, shown or not.
    pub fn match_count(&self) -> (n: usize)
        ensures
            n == self.matches().len(),
    {
        self.results.match_count()
    }

    pub fn label(&self) -> (r: &'static str)
        ensures
            r@ == "SYMBOL"@,
    {
        "SYMBOL"
    }
}

/// How many of the positions `ps` hold the name `w` in `names`.
pub open spec fn positions_named(ps: Seq<usize>, names: Seq<Seq<char>>, w: Seq<char>) -> nat
    decreases ps.len(),
{
    if ps.len() == 0 {
        0
    } else {
        positions_named(ps.drop_last(), names, w) + if names[ps.last() as int] == w { 1nat } else { 0nat }
    }
}

proof fn lemma_occurrences_take_step(s: Seq<Seq<char>>, i: int, w: Seq<char>)
    requires
        0 <= i < s.len(),
    ensures
        occurrences(s.take(i + 1), w) == occurrences(s.take(i), w) + if s[i] == w { 1nat } else { 0nat },
{
    assert(s.take(i + 1).drop_last() =~= s.take(i));
}

/// The occurrence found after `n` others from `start` holds `w` and has exactly `n`
/// occurrences of `w` between `start` and it; there is one exactly when more than `n`
/// occurrences lie from `start` on.
proof fn lemma_nth_position(names: Seq<Seq<char>>, w: Seq<char>, n: nat, start: int)
    requires
        names.len() <= usize::MAX,
        0 <= start <= names.len(),
    ensures
        nth_position_from(names, w, n, start) is Some <==> occurrences(names, w) > n + occurrences(names.take(start), w),
        nth_position_from(names, w, n, start) matches Some(p) ==> start <= p < names.len() && names[p as int] == w
            && occurrences(names.take(p as int), w) == n + occurrences(names.take(start), w),
    decreases names.len() - start,
{
    if start == names.len() {
        assert(names.take(start) =~= names);
    } else {
        lemma_occurrences_take_step(names, start, w);
        if names[start] == w {
            if n > 0 {
                lemma_nth_position(names, w, (n - 1) as nat, start + 1);
            } else {
                lemma_nth_position(names, w, 0, start + 1);
                assert(names.take(start + 1).len() == start + 1);
                lemma_occurrences_bound(names, start + 1, w);
            }
        } else {
            lemma_nth_position(names, w, n, start + 1);
        }
    }
}

proof fn lemma_occurrences_bound(names: Seq<Seq<char>>, i: int, w: Seq<char>)
    requires
        0 <= i <= names.len(),
    ensures
        occurrences(names.take(i), w) <= occurrences(names, w),
    decreases names.len() - i,
{
    if i < names.len() {
        lemma_occurrences_take_step(names, i, w);
        lemma_occurrences_bound(names, i + 1, w);
    } else {
        assert(names.take(i) =~= names);
    }
}

proof fn lemma_ranked_positions(ranked: Seq<Seq<char>>, names: Seq<Seq<char>>)
    requires
        names.len() <= usize::MAX,
    ensures
        ranked_positions(ranked, names).no_duplicates(),
        forall|k: int| 0 <= k < ranked_positions(ranked, names).len() ==> {
            let p = #[trigger] ranked_positions(ranked, names)[k];
            &&& p < names.len()
            &&& occurrences(names.take(p as int), names[p as int]) < occurrences(ranked, names[p as int])
        },
        forall|w: Seq<char>| #[trigger] positions_named(ranked_positions(ranked, names), names, w) == if occurrences(ranked, w)
            <= occurrences(names, w) { occurrences(ranked, w) } else { occurrences(names, w) },
    decreases ranked.len(),
{
    if ranked.len() == 0 {
        assert forall|w: Seq<char>| #[trigger] positions_named(ranked_positions(ranked, names), names, w) == if occurrences(ranked, w)
            <= occurrences(names, w) { occurrences(ranked, w) } else { occurrences(names, w) } by {}
    } else {
        let before = ranked_positions(ranked.drop_last(), names);
        let w = ranked.last();
        let n = occurrences(ranked.drop_last(), w);
        lemma_ranked_positions(ranked.drop_last(), names);
        lemma_nth_position(names, w, n, 0);
        assert(names.take(0) =~= Seq::<Seq<char>>::empty());
        match nth_position_from(names, w, n, 0) {
            Some(p) => {
                let after = before.push(p);
                assert(ranked_positions(ranked, names) == after);
                assert forall|k: int| 0 <= k < before.len() implies before[k] != p by {
                    let q = before[k];
                    if names[q as int] == w {
                        assert(occurrences(names.take(q as int), w) < n);
                    }
                }
                assert forall|a: int, b: int| 0 <= a < after.len() && 0 <= b < after.len() && a != b implies after[a] != after[b] by {
                    if a < before.len() && b < before.len() {
                        assert(after[a] == before[a] && after[b] == before[b]);
                    } else if a < before.len() {
                        assert(after[a] == before[a]);
                    } else {
                        assert(after[b] == before[b]);
                    }
                }
                assert forall|k: int| 0 <= k < after.len() implies {
                    let q = #[trigger] after[k];
                    &&& q < names.len()
                    &&& occurrences(names.take(q as int), names[q as int]) < occurrences(ranked, names[q as int])
                } by {
                    if k < before.len() {
                        assert(after[k] == before[k]);
                    }
                }
                assert forall|v: Seq<char>| #[trigger] positions_named(after, names, v) == if occurrences(ranked, v)
                    <= occurrences(names, v) { occurrences(ranked, v) } else { occurrences(names, v) } by {
                    assert(after.drop_last() =~= before);
                    assert(positions_named(before, names, v) == if occurrences(ranked.drop_last(), v)
                        <= occurrences(names, v) { occurrences(ranked.drop_last(), v) } else { occurrences(names, v) });
                }
            },
            None => {
                assert(ranked_positions(ranked, names) == before);
                assert forall|k: int| 0 <= k < before.len() implies {
                    let q = #[trigger] before[k];
                    &&& q < names.len()
                    &&& occurrences(names.take(q as int), names[q as int]) < occurrences(ranked, names[q as int])
                } by {}
                assert forall|v: Seq<char>| #[trigger] positions_named(before, names, v) == if occurrences(ranked, v)
                    <= occurrences(names, v) { occurrences(ranked, v) } else { occurrences(names, v) } by {
                    assert(positions_named(before, names, v) == if occurrences(ranked.drop_last(), v)
                        <= occurrences(names, v) { occurrences(ranked.drop_last(), v) } else { occurrences(names, v) });
                }
            },
        }
    }
}

/// The entries a ranked search lists are distinct entries, each one whose name the
/// ranking returns: no entry is listed twice, and each name is listed as often as the
/// ranking returns it, as far as there are entries of that name. Two entries with the
/// same name are both listed when the ranking returns the name twice.
pub proof fn law_ranked_entries_are_distinct(ranked: Seq<Seq<char>>, names: Seq<Seq<char>>)
    requires
        names.len() <= usize::MAX,
    ensures
        ranked_positions(ranked, names).no_duplicates(),
        forall|k: int| 0 <= k < ranked_positions(ranked, names).len() ==> #[trigger] ranked_positions(ranked, names)[k]
            < names.len() && ranked.contains(names[ranked_positions(ranked, names)[k] as int]),
        forall|w: Seq<char>| occurrences(ranked, w) <= occurrences(names, w) ==> #[trigger] positions_named(
            ranked_positions(ranked, names),
            names,
            w,
        ) == occurrences(ranked, w),
{
    lemma_ranked_positions(ranked, names);
    assert forall|k: int| 0 <= k < ranked_positions(ranked, names).len() implies #[trigger] ranked_positions(ranked, names)[k]
        < names.len() && ranked.contains(names[ranked_positions(ranked, names)[k] as int]) by {
        let w = names[ranked_positions(ranked, names)[k] as int];
        lemma_occurrences_contains(ranked, w);
    }
}

proof fn lemma_occurrences_contains(s: Seq<Seq<char>>, w: Seq<char>)
    ensures
        occurrences(s, w) > 0 ==> s.contains(w),
    decreases s.len(),
{
    if s.len() > 0 {
        lemma_occurrences_contains(s.drop_last(), w);
        if occurrences(s.drop_last(), w) > 0 {
            let i = choose|i: int| 0 <= i < s.drop_last().len() && s.drop_last()[i] == w;
            assert(s[i] == w);
        } else if s.last() == w {
            assert(s[s.len() - 1] == w);
        }
    }
}

} // verus!
