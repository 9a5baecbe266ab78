//! The ex command line: its input, history and completion popup, and the commands
//! that edit, navigate, complete and accept it.
use vstd::prelude::*;
use crate::input::Key;
use crate::order::{text_order, views};
use crate::text::{
    chars_eq, chars_start_with, concat_chars, count_leading, seq_starts_with, string_from_chars,
    strip_leading, sub_chars, to_chars, trim, trim_end, trim_end_white, trim_white,
};
use crate::words::{
    candidate_words, first_candidates, lemma_first_candidates, take_first, trailing_word_start,
    word_start,
};

verus! {

/// The completion popup lays its entries out in rows of this many.
pub const COMPLETION_COLUMNS: usize = 4;

#[derive(Debug)]
pub struct CompletionEntry {
    pub display: String,
    pub value: String,
}

pub struct ExMode {
    pub input: String,
    pub history: Vec<String>,
    pub history_index: usize,
    pub completions: Vec<CompletionEntry>,
    pub completion_selection: Option<usize>,
}

/// An entry of a directory, as a `:e` completion lists it.
#[derive(Debug)]
pub struct DirEntry {
    pub name: String,
    pub is_dir: bool,
}

/// An entry as plain text: what it shows and what it gives.
pub open spec fn entry_view(e: CompletionEntry) -> (Seq<char>, Seq<char>) {
    (e.display@, e.value@)
}

pub open spec fn entries_view(s: Seq<CompletionEntry>) -> Seq<(Seq<char>, Seq<char>)> {
    s.map_values(|e: CompletionEntry| entry_view(e))
}

pub open spec fn listing_view(l: Seq<DirEntry>) -> Seq<(Seq<char>, bool)> {
    l.map_values(|e: DirEntry| (e.name@, e.is_dir))
}

pub open spec fn history_view(h: Seq<String>) -> Seq<Seq<char>> {
    h.map_values(|s: String| s@)
}

/// `:e `, which opens a file.
pub open spec fn edit_prefix() -> Seq<char> {
    seq!['e', ' ']
}

/// The selection after the popup's entries were replaced by `len` new ones: kept while it
/// still points at an entry, else the first entry, and none when there are none.
pub open spec fn refreshed_selection(old_selection: Option<usize>, len: nat) -> Option<usize> {
    if len == 0 {
        None
    } else {
        match old_selection {
            Some(i) if i < len => Some(i),
            _ => Some(0),
        }
    }
}

/// The selection one row down in the popup grid, if there is an entry there.
pub open spec fn selection_down(sel: Option<usize>, len: nat) -> Option<usize> {
    if len == 0 {
        sel
    } else {
        let cur = match sel {
            Some(i) => i as int,
            None => 0,
        };
        if cur + COMPLETION_COLUMNS < len {
            Some((cur + COMPLETION_COLUMNS) as usize)
        } else {
            sel
        }
    }
}

/// The selection one row up in the popup grid, unless it is in the top row.
pub open spec fn selection_up(sel: Option<usize>, len: nat) -> Option<usize> {
    if len == 0 {
        sel
    } else {
        let cur = match sel {
            Some(i) => i as int,
            None => 0,
        };
        if cur >= COMPLETION_COLUMNS {
            Some((cur - COMPLETION_COLUMNS) as usize)
        } else {
            sel
        }
    }
}

/// The selection one column right, if that stays in the row and on an entry.
pub open spec fn selection_right(sel: Option<usize>, len: nat) -> Option<usize> {
    if len == 0 {
        sel
    } else {
        let cur = match sel {
            Some(i) => i as int,
            None => 0,
        };
        if (cur + 1) / (COMPLETION_COLUMNS as int) == cur / (COMPLETION_COLUMNS as int) && cur + 1
            < len {
            Some((cur + 1) as usize)
        } else {
            sel
        }
    }
}

/// The selection one column left, unless it is in the first column.
pub open spec fn selection_left(sel: Option<usize>, len: nat) -> Option<usize> {
    if len == 0 {
        sel
    } else {
        let cur = match sel {
            Some(i) => i as int,
            None => 0,
        };
        if cur % (COMPLETION_COLUMNS as int) > 0 {
            Some((cur - 1) as usize)
        } else {
            sel
        }
    }
}

/// The next entry in reading order, wrapping to the first.
pub open spec fn selection_next(sel: Option<usize>, len: nat) -> Option<usize> {
    if len == 0 {
        sel
    } else {
        match sel {
            Some(i) => if i + 1 < len {
                Some((i + 1) as usize)
            } else {
                Some(0)
            },
            None => Some(0),
        }
    }
}

/// The previous entry in reading order, wrapping to the last.
pub open spec fn selection_previous(sel: Option<usize>, len: nat) -> Option<usize> {
    if len == 0 {
        sel
    } else {
        match sel {
            Some(i) => if i > 0 {
                Some((i - 1) as usize)
            } else {
                Some((len - 1) as usize)
            },
            None => Some((len - 1) as usize),
        }
    }
}

/// The input and history position after stepping back in the history.
pub open spec fn history_back(input: Seq<char>, history: Seq<Seq<char>>, index: usize) -> (Seq<char>, usize) {
    if index == 0 {
        (input, index)
    } else {
        let i = (index - 1) as usize;
        (if i < history.len() { history[i as int] } else { input }, i)
    }
}

/// The input and history position after stepping forward in the history: the entry
/// stepped to, or an empty input past the newest entry.
pub open spec fn history_forward(input: Seq<char>, history: Seq<Seq<char>>, index: usize) -> (Seq<char>, usize) {
    if index >= history.len() {
        (input, index)
    } else {
        let i = (index + 1) as usize;
        (if i < history.len() { history[i as int] } else { Seq::empty() }, i)
    }
}

impl ExMode {
    /// Everything but the popup selection is as in `other`.
    pub open spec fn same_but_selection(&self, other: &ExMode) -> bool {
        &&& self.input@ == other.input@
        &&& history_view(self.history@) == history_view(other.history@)
        &&& self.history_index == other.history_index
        &&& entries_view(self.completions@) == entries_view(other.completions@)
    }

    /// The popup and history are as in `other`.
    pub open spec fn same_popup_and_history(&self, other: &ExMode) -> bool {
        &&& history_view(self.history@) == history_view(other.history@)
        &&& self.history_index == other.history_index
        &&& entries_view(self.completions@) == entries_view(other.completions@)
        &&& self.completion_selection == other.completion_selection
    }

    pub fn new() -> (m: ExMode)
        ensures
            m.input@ == Seq::<char>::empty(),
            m.history@.len() == 0,
            m.history_index == 0,
            m.completions@.len() == 0,
            m.completion_selection is None,
    {
        ExMode {
            input: String::new(),
            history: Vec::new(),
            history_index: 0,
            completions: Vec::new(),
            completion_selection: None,
        }
    }

    /// Empties the input and the popup, and points past the newest history entry.
    pub fn reset(&mut self)
        ensures
            final(self).input@ == Seq::<char>::empty(),
            history_view(final(self).history@) == history_view(old(self).history@),
            final(self).history_index == old(self).history@.len(),
            final(self).completions@.len() == 0,
            final(self).completion_selection is None,
    {
        self.input = String::new();
        self.history_index = self.history.len();
        self.completions = Vec::new();
        self.completion_selection = None;
    }

    // ── Grid navigation ──────────────────────────────────
    pub fn select_completion_down(&mut self)
        ensures
            final(self).same_but_selection(old(self)),
            final(self).completion_selection == selection_down(
                old(self).completion_selection,
                old(self).completions@.len(),
            ),
    {
        if self.completions.len() == 0 {
            return;
        }
        let current = match self.completion_selection {
            Some(i) => i,
            None => 0,
        };
        let len = self.completions.len();
        if current < len && len - current > COMPLETION_COLUMNS {
            self.completion_selection = Some(current + COMPLETION_COLUMNS);
        }
    }

    pub fn select_completion_up(&mut self)
        ensures
            final(self).same_but_selection(old(self)),
            final(self).completion_selection == selection_up(
                old(self).completion_selection,
                old(self).completions@.len(),
            ),
    {
        if self.completions.len() == 0 {
            return;
        }
        let current = match self.completion_selection {
            Some(i) => i,
            None => 0,
        };
        if current >= COMPLETION_COLUMNS {
            self.completion_selection = Some(current - COMPLETION_COLUMNS);
        }
    }

    pub fn select_completion_right(&mut self)
        ensures
            final(self).same_but_selection(old(self)),
            final(self).completion_selection == selection_right(
                old(self).completion_selection,
                old(self).completions@.len(),
            ),
    {
        if self.completions.len() == 0 {
            return;
        }
        let current = match self.completion_selection {
            Some(i) => i,
            None => 0,
        };
        let current_row = current / COMPLETION_COLUMNS;
        if current < self.completions.len() - 1 && (current + 1) / COMPLETION_COLUMNS == current_row {
            self.completion_selection = Some(current + 1);
        }
    }

    pub fn select_completion_left(&mut self)
        ensures
            final(self).same_but_selection(old(self)),
            final(self).completion_selection == selection_left(
                old(self).completion_selection,
                old(self).completions@.len(),
            ),
    {
        if self.completions.len() == 0 {
            return;
        }
        let current = match self.completion_selection {
            Some(i) => i,
            None => 0,
        };
        if current % COMPLETION_COLUMNS > 0 {
            self.completion_selection = Some(current - 1);
        }
    }

    // ── Sequential navigation (Tab / Ctrl-N / Ctrl-P) ────
    pub fn select_next_completion(&mut self)
        ensures
            final(self).same_but_selection(old(self)),
            final(self).completion_selection == selection_next(
                old(self).completion_selection,
                old(self).completions@.len(),
            ),
    {
        if self.completions.len() == 0 {
            return;
        }
        self.completion_selection = match self.completion_selection {
            Some(idx) => {
                if idx < self.completions.len() - 1 {
                    Some(idx + 1)
                } else {
                    Some(0)
                }
            },
            None => Some(0),
        };
    }

    pub fn select_previous_completion(&mut self)
        ensures
            final(self).same_but_selection(old(self)),
            final(self).completion_selection == selection_previous(
                old(self).completion_selection,
                old(self).completions@.len(),
            ),
    {
        if self.completions.len() == 0 {
            return;
        }
        self.completion_selection = match self.completion_selection {
            Some(idx) => {
                if idx > 0 {
                    Some(idx - 1)
                } else {
                    Some(self.completions.len() - 1)
                }
            },
            None => Some(self.completions.len() - 1),
        };
    }

    // ── History navigation ────────────────────────────────
    /// Steps back in the history, showing the entry stepped to.
    pub fn history_previous(&mut self)
        ensures
            history_view(final(self).history@) == history_view(old(self).history@),
            entries_view(final(self).completions@) == entries_view(old(self).completions@),
            final(self).completion_selection == old(self).completion_selection,
            (final(self).input@, final(self).history_index) == history_back(
                old(self).input@,
                history_view(old(self).history@),
                old(self).history_index,
            ),
    {
        if self.history_index > 0 {
            self.history_index = self.history_index - 1;
            if self.history_index < self.history.len() {
                self.input = self.history[self.history_index].clone();
            }
        }
    }

    /// Steps forward in the history, showing the entry stepped to, or an empty input
    /// past the newest entry.
    pub fn history_next(&mut self)
        ensures
            history_view(final(self).history@) == history_view(old(self).history@),
            entries_view(final(self).completions@) == entries_view(old(self).completions@),
            final(self).completion_selection == old(self).completion_selection,
            (final(self).input@, final(self).history_index) == history_forward(
                old(self).input@,
                history_view(old(self).history@),
                old(self).history_index,
            ),
    {
        if self.history_index < self.history.len() {
            self.history_index = self.history_index + 1;
            if self.history_index < self.history.len() {
                self.input = self.history[self.history_index].clone();
            } else {
                self.input = String::new();
            }
        }
    }

    /// Inline-complete the unambiguous suffix into `self.input`.
    /// Called after `update_completions` when exactly one candidate exists.
    pub fn inline_complete(&mut self)
        ensures
            final(self).same_popup_and_history(old(self)),
            final(self).completions@ == old(self).completions@,
            final(self).input@ == if old(self).completions@.len() == 1 {
                old(self).completions@[0].value@
            } else {
                old(self).input@
            },
    {
        if self.completions.len() == 1 {
            self.input = self.completions[0].value.clone();
        }
    }

    // ── Apply selection ───────────────────────────────────
    /// Puts the selected entry's value in the input and closes the popup.
    pub fn apply_selection(&mut self)
        ensures
            history_view(final(self).history@) == history_view(old(self).history@),
            final(self).history_index == old(self).history_index,
            old(self).completion_selection matches Some(i) ==> (i < old(self).completions@.len() ==> {
                &&& final(self).input@ == old(self).completions@[i as int].value@
                &&& final(self).completions@.len() == 0
                &&& final(self).completion_selection is None
            }),
            !(old(self).completion_selection matches Some(i) && i < old(self).completions@.len())
                ==> final(self).same_popup_and_history(old(self)) && final(self).input@ == old(self).input@,
    {
        if let Some(idx) = self.completion_selection {
            if idx < self.completions.len() {
                self.input = self.completions[idx].value.clone();
                self.completions = Vec::new();
                self.completion_selection = None;
            }
        }
    }
}

/// Sets the input to `:` then `before` then `word`, and closes the popup.
pub fn apply_word_completion(mode: &mut ExMode, before: &Vec<char>, word: &Vec<char>)
    ensures
        final(mode).input@ == seq![':'] + before@ + word@,
        final(mode).completions@.len() == 0,
        final(mode).completion_selection is None,
        history_view(final(mode).history@) == history_view(old(mode).history@),
        final(mode).history_index == old(mode).history_index,
{
    let colon: Vec<char> = vec![':'];
    let head = concat_chars(&colon, before);
    let all = concat_chars(&head, word);
    assert(colon@ == seq![':']);
    mode.input = string_from_chars(all);
    mode.completions = Vec::new();
    mode.completion_selection = None;
}

/// Completes the word at the end of the ex input with `value`: what precedes that word
/// stays, the word becomes `value`, and the popup closes.
pub fn apply_ex_completion(mode: &mut ExMode, value: &str)
    ensures
        ({
            let input = strip_leading(old(mode).input@, ':');
            final(mode).input@ == seq![':'] + input.take(word_start(input)) + value@
        }),
        final(mode).completions@.len() == 0,
        final(mode).completion_selection is None,
        history_view(final(mode).history@) == history_view(old(mode).history@),
        final(mode).history_index == old(mode).history_index,
{
    let raw = to_chars(mode.input.as_str());
    let colons = count_leading(&raw, ':');
    let input = sub_chars(&raw, colons, raw.len());
    let start = trailing_word_start(&input);
    let before = sub_chars(&input, 0, start);
    let word = to_chars(value);
    apply_word_completion(mode, &before, &word);
}

/// The ex commands that completion offers, in the order of their text.
pub open spec fn command_table() -> Seq<Seq<char>> {
    seq![
        ":bd"@,
        ":bn"@,
        ":bp"@,
        ":cn"@,
        ":cp"@,
        ":e "@,
        ":gentags"@,
        ":last_rg"@,
        ":ls"@,
        ":q"@,
        ":q!"@,
        ":rg "@,
        ":sed "@,
        ":sed -w "@,
        ":tag "@,
        ":w"@,
        ":wq"@,
    ]
}

fn command_table_exec() -> (v: Vec<&'static str>)
    ensures
        v@.map_values(|s: &str| s@) == command_table(),
{
    let v: Vec<&'static str> = vec![
        ":bd",
        ":bn",
        ":bp",
        ":cn",
        ":cp",
        ":e ",
        ":gentags",
        ":last_rg",
        ":ls",
        ":q",
        ":q!",
        ":rg ",
        ":sed ",
        ":sed -w ",
        ":tag ",
        ":w",
        ":wq",
    ];
    assert(v@.map_values(|s: &str| s@) =~= command_table());
    v
}

/// Whether the command `display` completes the raw input: with a leading `:` the input
/// must begin it; without, it must begin the command's name.
pub open spec fn is_command_match(raw: Seq<char>, display: Seq<char>) -> bool {
    if raw.len() > 0 && raw[0] == ':' {
        seq_starts_with(display, raw)
    } else {
        seq_starts_with(strip_leading(display, ':'), strip_leading(raw, ':'))
    }
}

/// The commands that complete the raw input, each giving its own text.
pub open spec fn command_completions(raw: Seq<char>) -> Seq<(Seq<char>, Seq<char>)> {
    command_table().filter(|d: Seq<char>| is_command_match(raw, d)).map_values(
        |d: Seq<char>| (d, d),
    )
}

/// The index of the last `c` in `s`, or -1.
pub open spec fn last_index_of(s: Seq<char>, c: char) -> int
    decreases s.len(),
{
    if s.len() == 0 {
        -1
    } else if s.last() == c {
        s.len() - 1
    } else {
        last_index_of(s.drop_last(), c)
    }
}

/// The directory part of a path being typed: up to and including its last `/`.
pub open spec fn dir_part(p: Seq<char>) -> Seq<char> {
    p.take(last_index_of(p, '/') + 1)
}

/// The file-name part of a path being typed: after its last `/`.
pub open spec fn file_part(p: Seq<char>) -> Seq<char> {
    p.skip(last_index_of(p, '/') + 1)
}

/// The names of a listing that begin with `file_prefix`, in order.
pub open spec fn listed_names(listing: Seq<(Seq<char>, bool)>, file_prefix: Seq<char>) -> Seq<
    Seq<char>,
> {
    listing.map_values(|e: (Seq<char>, bool)| e.0).filter(
        |n: Seq<char>| seq_starts_with(n, file_prefix),
    ).sort_by(text_order())
}

/// Whether the listing marks `name` as a directory.
pub open spec fn listed_dir(listing: Seq<(Seq<char>, bool)>, name: Seq<char>) -> bool {
    exists|i: int| 0 <= i < listing.len() && #[trigger] listing[i].0 == name && listing[i].1
}

/// The entry for `name` of directory `dir`: the name (with `/` for a directory), and
/// `:e ` then the path then a space, which marks it complete.
pub open spec fn file_entry(dir: Seq<char>, name: Seq<char>, is_dir: bool) -> (Seq<char>, Seq<char>) {
    (if is_dir { name.push('/') } else { name }, seq![':', 'e', ' '] + dir + name.push(' '))
}

/// The completions of the path being typed after `:e `.
pub open spec fn file_completions(prefix: Seq<char>, listing: Seq<(Seq<char>, bool)>) -> Seq<
    (Seq<char>, Seq<char>),
> {
    listed_names(listing, file_part(prefix)).map_values(
        |n: Seq<char>| file_entry(dir_part(prefix), n, listed_dir(listing, n)),
    )
}

/// The completions of an ex input: files after `:e `, commands otherwise.
pub open spec fn ex_completions(raw: Seq<char>, listing: Seq<(Seq<char>, bool)>) -> Seq<
    (Seq<char>, Seq<char>),
> {
    let t = strip_leading(raw, ':');
    if seq_starts_with(t, edit_prefix()) {
        file_completions(t.skip(2), listing)
    } else {
        command_completions(raw)
    }
}

fn command_completions_exec(raw: &Vec<char>) -> (r: Vec<CompletionEntry>)
    ensures
        entries_view(r@) == command_completions(raw@),
{
    let table = command_table_exec();
    let ghost tv = table@.map_values(|s: &str| s@);
    let ghost pred = |d: Seq<char>| is_command_match(raw@, d);
    let colons = count_leading(raw, ':');
    let bare = sub_chars(raw, colons, raw.len());
    let with_colon = raw.len() > 0 && raw[0] == ':';
    let mut r: Vec<CompletionEntry> = Vec::new();
    let mut i: usize = 0;
    while i < table.len()
        invariant
            i <= table@.len(),
            tv == table@.map_values(|s: &str| s@),
            tv == command_table(),
            bare@ == strip_leading(raw@, ':'),
            with_colon == (raw@.len() > 0 && raw@[0] == ':'),
            pred == (|d: Seq<char>| is_command_match(raw@, d)),
            entries_view(r@) == tv.take(i as int).filter(pred).map_values(|d: Seq<char>| (d, d)),
        decreases table@.len() - i,
    {
        let d = to_chars(table[i]);
        assert(d@ == tv[i as int]);
        let matches = if with_colon {
            chars_start_with(&d, raw)
        } else {
            let dc = count_leading(&d, ':');
            let dbare = sub_chars(&d, dc, d.len());
            chars_start_with(&dbare, &bare)
        };
        assert(matches == pred(d@));
        let ghost before = r@;
        proof {
            reveal(Seq::filter);
            let t1 = tv.take(i + 1);
            assert(t1.drop_last() == tv.take(i as int));
            assert(t1.last() == tv[i as int]);
            assert(t1.filter(pred) == if pred(tv[i as int]) {
                tv.take(i as int).filter(pred).push(tv[i as int])
            } else {
                tv.take(i as int).filter(pred)
            });
        }
        if matches {
            let display = string_from_chars(crate::order::vec_clone_chars(&d));
            let value = string_from_chars(d);
            r.push(CompletionEntry { display, value });
            assert(entries_view(r@) =~= entries_view(before).push((tv[i as int], tv[i as int])));
        }
        i = i + 1;
        assert(entries_view(r@) =~= tv.take(i as int).filter(pred).map_values(|d: Seq<char>| (d, d)));
    }
    assert(tv.take(table@.len() as int) == tv);
    r
}

/// The index of the last `c` in `s`, if any.
fn last_index(s: &Vec<char>, c: char) -> (r: Option<usize>)
    ensures
        r matches Some(i) ==> i < s@.len(),
        match r {
            Some(i) => i == last_index_of(s@, c),
            None => last_index_of(s@, c) == -1,
        },
{
    let mut k = s.len();
    assert(s@.take(k as int) == s@);
    while k > 0
        invariant
            k <= s@.len(),
            forall|j: int| k <= j < s@.len() ==> s@[j] != c,
            last_index_of(s@.take(k as int), c) == last_index_of(s@, c),
        decreases k,
    {
        assert(s@.take(k as int).drop_last() == s@.take(k - 1));
        if s[k - 1] == c {
            return Some(k - 1);
        }
        k = k - 1;
    }
    None
}

/// Whether the listing marks `name` as a directory.
fn listed_dir_exec(listing: &Vec<DirEntry>, name: &Vec<char>) -> (r: bool)
    ensures
        r == listed_dir(listing_view(listing@), name@),
{
    let ghost lv = listing_view(listing@);
    let mut i: usize = 0;
    while i < listing.len()
        invariant
            i <= listing@.len(),
            lv == listing_view(listing@),
            forall|j: int| 0 <= j < i ==> !(#[trigger] lv[j].0 == name@ && lv[j].1),
        decreases listing@.len() - i,
    {
        if listing[i].is_dir && chars_eq(&to_chars(listing[i].name.as_str()), name) {
            assert(lv[i as int].0 == name@ && lv[i as int].1);
            return true;
        }
        i = i + 1;
    }
    false
}

fn file_completions_exec(prefix: &Vec<char>, listing: &Vec<DirEntry>) -> (r: Vec<CompletionEntry>)
    ensures
        entries_view(r@) == file_completions(prefix@, listing_view(listing@)),
{
    let ghost lv = listing_view(listing@);
    let cut: usize = match last_index(prefix, '/') {
        Some(i) => {
            assert(i < prefix.len());
            i + 1
        },
        None => 0,
    };
    let dir = sub_chars(prefix, 0, cut);
    let file_prefix = sub_chars(prefix, cut, prefix.len());
    assert(dir@ == dir_part(prefix@));
    assert(file_prefix@ == file_part(prefix@));
    let ghost names_all = lv.map_values(|e: (Seq<char>, bool)| e.0);
    let ghost pred = |n: Seq<char>| seq_starts_with(n, file_part(prefix@));
    let mut names: Vec<Vec<char>> = Vec::new();
    let mut i: usize = 0;
    while i < listing.len()
        invariant
            i <= listing@.len(),
            lv == listing_view(listing@),
            names_all == lv.map_values(|e: (Seq<char>, bool)| e.0),
            file_prefix@ == file_part(prefix@),
            pred == (|n: Seq<char>| seq_starts_with(n, file_part(prefix@))),
            views(names@) == names_all.take(i as int).filter(pred),
        decreases listing@.len() - i,
    {
        let name = to_chars(listing[i].name.as_str());
        assert(name@ == names_all[i as int]);
        proof {
            reveal(Seq::filter);
            let t1 = names_all.take(i + 1);
            assert(t1.drop_last() == names_all.take(i as int));
            assert(t1.last() == names_all[i as int]);
            assert(t1.filter(pred) == if pred(names_all[i as int]) {
                names_all.take(i as int).filter(pred).push(names_all[i as int])
            } else {
                names_all.take(i as int).filter(pred)
            });
        }
        let ghost before = views(names@);
        if chars_start_with(&name, &file_prefix) {
            names.push(name);
            assert(views(names@) =~= before.push(names_all[i as int]));
        }
        i = i + 1;
        assert(views(names@) =~= names_all.take(i as int).filter(pred));
    }
    assert(names_all.take(listing@.len() as int) == names_all);
    let sorted = crate::order::sort_texts(names);
    let ghost sv = views(sorted@);
    assert(sv == listed_names(lv, file_part(prefix@)));
    let edit: Vec<char> = vec![':', 'e', ' '];
    assert(edit@ == seq![':', 'e', ' ']);
    let head = concat_chars(&edit, &dir);
    let mut r: Vec<CompletionEntry> = Vec::new();
    let mut k: usize = 0;
    while k < sorted.len()
        invariant
            k <= sorted@.len(),
            sv == views(sorted@),
            lv == listing_view(listing@),
            head@ == seq![':', 'e', ' '] + dir_part(prefix@),
            entries_view(r@) == sv.take(k as int).map_values(
                |n: Seq<char>| file_entry(dir_part(prefix@), n, listed_dir(lv, n)),
            ),
        decreases sorted@.len() - k,
    {
        let name = &sorted[k];
        let is_dir = listed_dir_exec(listing, name);
        let mut shown = crate::order::vec_clone_chars(name);
        if is_dir {
            shown.push('/');
        }
        let mut path = concat_chars(&head, name);
        path.push(' ');
        let ghost before = r@;
        r.push(CompletionEntry { display: string_from_chars(shown), value: string_from_chars(path) });
        assert(entries_view(r@) =~= entries_view(before).push(
            file_entry(dir_part(prefix@), sv[k as int], listed_dir(lv, sv[k as int])),
        ));
        k = k + 1;
        assert(entries_view(r@) =~= sv.take(k as int).map_values(
            |n: Seq<char>| file_entry(dir_part(prefix@), n, listed_dir(lv, n)),
        ));
    }
    assert(sv.take(sorted@.len() as int) == sv);
    r
}

/// The directory whose entries `:e` completion lists for this input (relative to the
/// workspace unless absolute), if the input is a `:e` command.
pub fn completion_directory(input: &str) -> (r: Option<String>)
    ensures
        r is Some <==> seq_starts_with(strip_leading(input@, ':'), edit_prefix()),
        r matches Some(d) ==> d@ == dir_part(strip_leading(input@, ':').skip(2)),
{
    let raw = to_chars(input);
    let colons = count_leading(&raw, ':');
    let t = sub_chars(&raw, colons, raw.len());
    let ep: Vec<char> = vec!['e', ' '];
    assert(ep@ == edit_prefix());
    if !chars_start_with(&t, &ep) {
        return None;
    }
    let p = sub_chars(&t, 2, t.len());
    let cut: usize = match last_index(&p, '/') {
        Some(i) => i + 1,
        None => 0,
    };
    Some(string_from_chars(sub_chars(&p, 0, cut)))
}

impl ExMode {
    fn generate_completions(&self, listing: &Vec<DirEntry>) -> (r: Vec<CompletionEntry>)
        ensures
            entries_view(r@) == ex_completions(self.input@, listing_view(listing@)),
    {
        let raw = to_chars(self.input.as_str());
        let colons = count_leading(&raw, ':');
        let t = sub_chars(&raw, colons, raw.len());
        let ep: Vec<char> = vec!['e', ' '];
        assert(ep@ == edit_prefix());
        if chars_start_with(&t, &ep) {
            let p = sub_chars(&t, 2, t.len());
            file_completions_exec(&p, listing)
        } else {
            command_completions_exec(&raw)
        }
    }

    /// Recomputes the popup for the current input from `listing`, the entries of
    /// `completion_directory(input)` (ignored for other input); the selection stays where
    /// it still points at an entry.
    pub fn update_completions(&mut self, listing: &Vec<DirEntry>)
        ensures
            final(self).input@ == old(self).input@,
            history_view(final(self).history@) == history_view(old(self).history@),
            final(self).history_index == old(self).history_index,
            entries_view(final(self).completions@) == ex_completions(
                old(self).input@,
                listing_view(listing@),
            ),
            final(self).completion_selection == refreshed_selection(
                old(self).completion_selection,
                final(self).completions@.len(),
            ),
    {
        self.completions = self.generate_completions(listing);
        if self.completions.len() == 0 {
            self.completion_selection = None;
        } else {
            match self.completion_selection {
                Some(idx) => {
                    if idx >= self.completions.len() {
                        self.completion_selection = Some(0);
                    }
                },
                None => {
                    self.completion_selection = Some(0);
                },
            }
        }
    }
}

/// The word being typed at the end of an ex input (leading `:` aside), and what precedes
/// it.
pub open spec fn word_being_typed(raw: Seq<char>) -> (Seq<char>, Seq<char>) {
    let input = strip_leading(raw, ':');
    (input.take(word_start(input)), input.skip(word_start(input)))
}

/// The most entries a buffer-word popup on the ex line offers.
pub const MAX_BUFFER_COMPLETIONS: usize = 100;

/// The words that the entries show.
pub open spec fn shown_words(entries: Seq<CompletionEntry>) -> Seq<Seq<char>> {
    entries.map_values(|e: CompletionEntry| e.display@)
}

impl ExMode {
    /// Generate completions from words in the current buffer that match the
    /// alphanumeric/underscore prefix at the end of the ex input line.
    /// Uses the same `completions` / `completion_selection` fields as
    /// command/file completions so the popup UI is unified.
    pub fn generate_buffer_completions(&mut self, buffer_data: &str)
        ensures
            final(self).input@ == old(self).input@,
            history_view(final(self).history@) == history_view(old(self).history@),
            final(self).history_index == old(self).history_index,
            ({
                let (before, prefix) = word_being_typed(old(self).input@);
                &&& prefix.len() == 0 ==> final(self).completions@.len() == 0
                &&& prefix.len() > 0 ==> first_candidates(
                    shown_words(final(self).completions@),
                    buffer_data@,
                    prefix,
                    true,
                    MAX_BUFFER_COMPLETIONS as nat,
                )
                &&& forall|i: int|
                    0 <= i < final(self).completions@.len() ==> (#[trigger] final(self).completions@[i]).value@
                        == seq![':'] + before + final(self).completions@[i].display@
            }),
            final(self).completion_selection == if final(self).completions@.len() == 0 {
                None
            } else {
                Some(0usize)
            },
    {
        let raw = to_chars(self.input.as_str());
        let colons = count_leading(&raw, ':');
        let input = sub_chars(&raw, colons, raw.len());
        let start = trailing_word_start(&input);
        let prefix = sub_chars(&input, start, input.len());
        let before = sub_chars(&input, 0, start);
        assert(prefix@ == input@.skip(start as int));
        if prefix.len() == 0 {
            self.completions = Vec::new();
            self.completion_selection = None;
            return;
        }
        let all = candidate_words(buffer_data, &prefix, true);
        let ghost all_v = views(all@);
        let words = take_first(all, MAX_BUFFER_COMPLETIONS);
        proof {
            lemma_first_candidates(all_v, buffer_data@, prefix@, true, MAX_BUFFER_COMPLETIONS as nat);
        }
        let colon: Vec<char> = vec![':'];
        assert(colon@ == seq![':']);
        let head = concat_chars(&colon, &before);
        let mut entries: Vec<CompletionEntry> = Vec::new();
        let mut i: usize = 0;
        while i < words.len()
            invariant
                i <= words@.len(),
                head@ == seq![':'] + before@,
                shown_words(entries@) == views(words@).take(i as int),
                forall|j: int|
                    0 <= j < entries@.len() ==> (#[trigger] entries@[j]).value@ == head@
                        + entries@[j].display@,
            decreases words@.len() - i,
        {
            let word = crate::order::vec_clone_chars(&words[i]);
            let value = concat_chars(&head, &word);
            let ghost before_entries = entries@;
            entries.push(CompletionEntry { display: string_from_chars(word), value: string_from_chars(value) });
            assert(shown_words(entries@) =~= shown_words(before_entries).push(words@[i as int]@));
            i = i + 1;
            assert(shown_words(entries@) =~= views(words@).take(i as int));
        }
        assert(views(words@).take(words@.len() as int) == views(words@));
        let empty = entries.len() == 0;
        self.completions = entries;
        if empty {
            self.completion_selection = None;
        } else {
            self.completion_selection = Some(0);
        }
    }

    /// The path after `:e `, trailing white space removed, when the input is a `:e`
    /// command: the path whose directory-ness decides whether completing walks into it.
    pub fn walk_target(&self) -> (r: Option<String>)
        ensures
            r is Some <==> seq_starts_with(strip_leading(self.input@, ':'), edit_prefix()),
            r matches Some(p) ==> p@ == trim_end_white(strip_leading(self.input@, ':').skip(2)),
    {
        let raw = to_chars(self.input.as_str());
        let colons = count_leading(&raw, ':');
        let t = sub_chars(&raw, colons, raw.len());
        let ep: Vec<char> = vec!['e', ' '];
        assert(ep@ == edit_prefix());
        if !chars_start_with(&t, &ep) {
            return None;
        }
        let p = sub_chars(&t, 2, t.len());
        Some(string_from_chars(trim_end(&p)))
    }

    /// Steps into directory `path`: the input becomes `:e path/` (unless `path` ends with
    /// `/` already), and the popup lists `listing`, the directory's entries, nothing
    /// selected but the first.
    pub fn enter_directory(&mut self, path: &str, listing: &Vec<DirEntry>)
        ensures
            ({
                let input = if path@.len() > 0 && path@.last() == '/' {
                    old(self).input@
                } else {
                    seq![':', 'e', ' '] + path@.push('/')
                };
                &&& final(self).input@ == input
                &&& entries_view(final(self).completions@) == ex_completions(input, listing_view(listing@))
            }),
            final(self).completion_selection == refreshed_selection(None, final(self).completions@.len()),
            history_view(final(self).history@) == history_view(old(self).history@),
            final(self).history_index == old(self).history_index,
    {
        let p = to_chars(path);
        if !(p.len() > 0 && p[p.len() - 1] == '/') {
            let edit: Vec<char> = vec![':', 'e', ' '];
            let mut full = concat_chars(&edit, &p);
            full.push('/');
            assert(full@ == seq![':', 'e', ' '] + p@.push('/'));
            self.input = string_from_chars(full);
        }
        self.completion_selection = None;
        self.update_completions(listing);
    }
}

/// Why an ex command could not be carried out.
#[derive(Debug, Clone, PartialEq, Eq)]
pub enum ExError {
    /// No key press to insert.
    NoKeyPress,
    /// `:tag` without a name.
    NoTagSpecified,
    /// `:e` without a path.
    NoFileSpecified,
    /// A command that ex mode does not know.
    UnknownCommand(String),
}

/// The commands the ex line runs.
#[derive(Debug, Clone, Copy, PartialEq, Eq, Structural)]
pub enum ExCommandKind {
    Quit,
    ForceQuit,
    Write,
    WriteQuit,
    NextBuffer,
    PreviousBuffer,
    CloseBuffer,
    ListBuffers,
    Search,
    NextResult,
    PreviousResult,
    Find,
    GenerateTags,
    Tag,
    LastSearch,
    Edit,
    /// `:gs`: the git status buffer.
    GitStatus,
    /// `:stash [message]`: stash the work tree (with the default message when none is
    /// given).
    Stash,
}

/// An accepted ex command and its argument.
#[derive(Debug, Clone, PartialEq, Eq)]
pub struct ExCommand {
    pub kind: ExCommandKind,
    pub arg: String,
}

/// The command that a command word names.
pub open spec fn command_kind(cmd: Seq<char>) -> Option<ExCommandKind> {
    if cmd == "q"@ {
        Some(ExCommandKind::Quit)
    } else if cmd == "q!"@ {
        Some(ExCommandKind::ForceQuit)
    } else if cmd == "w"@ {
        Some(ExCommandKind::Write)
    } else if cmd == "wq"@ {
        Some(ExCommandKind::WriteQuit)
    } else if cmd == "bn"@ {
        Some(ExCommandKind::NextBuffer)
    } else if cmd == "bp"@ {
        Some(ExCommandKind::PreviousBuffer)
    } else if cmd == "bd"@ {
        Some(ExCommandKind::CloseBuffer)
    } else if cmd == "ls"@ {
        Some(ExCommandKind::ListBuffers)
    } else if cmd == "rg"@ {
        Some(ExCommandKind::Search)
    } else if cmd == "cn"@ {
        Some(ExCommandKind::NextResult)
    } else if cmd == "cp"@ {
        Some(ExCommandKind::PreviousResult)
    } else if cmd == "fd"@ {
        Some(ExCommandKind::Find)
    } else if cmd == "gentags"@ {
        Some(ExCommandKind::GenerateTags)
    } else if cmd == "tag"@ || cmd == "ta"@ {
        Some(ExCommandKind::Tag)
    } else if cmd == "last_rg"@ {
        Some(ExCommandKind::LastSearch)
    } else if cmd == "e"@ {
        Some(ExCommandKind::Edit)
    } else if cmd == "gs"@ {
        Some(ExCommandKind::GitStatus)
    } else if cmd == "stash"@ {
        Some(ExCommandKind::Stash)
    } else {
        None
    }
}

fn command_kind_exec(cmd: &Vec<char>) -> (r: Option<ExCommandKind>)
    ensures
        r == command_kind(cmd@),
{
    if chars_eq(cmd, &to_chars("q")) {
        Some(ExCommandKind::Quit)
    } else if chars_eq(cmd, &to_chars("q!")) {
        Some(ExCommandKind::ForceQuit)
    } else if chars_eq(cmd, &to_chars("w")) {
        Some(ExCommandKind::Write)
    } else if chars_eq(cmd, &to_chars("wq")) {
        Some(ExCommandKind::WriteQuit)
    } else if chars_eq(cmd, &to_chars("bn")) {
        Some(ExCommandKind::NextBuffer)
    } else if chars_eq(cmd, &to_chars("bp")) {
        Some(ExCommandKind::PreviousBuffer)
    } else if chars_eq(cmd, &to_chars("bd")) {
        Some(ExCommandKind::CloseBuffer)
    } else if chars_eq(cmd, &to_chars("ls")) {
        Some(ExCommandKind::ListBuffers)
    } else if chars_eq(cmd, &to_chars("rg")) {
        Some(ExCommandKind::Search)
    } else if chars_eq(cmd, &to_chars("cn")) {
        Some(ExCommandKind::NextResult)
    } else if chars_eq(cmd, &to_chars("cp")) {
        Some(ExCommandKind::PreviousResult)
    } else if chars_eq(cmd, &to_chars("fd")) {
        Some(ExCommandKind::Find)
    } else if chars_eq(cmd, &to_chars("gentags")) {
        Some(ExCommandKind::GenerateTags)
    } else if chars_eq(cmd, &to_chars("tag")) || chars_eq(cmd, &to_chars("ta")) {
        Some(ExCommandKind::Tag)
    } else if chars_eq(cmd, &to_chars("last_rg")) {
        Some(ExCommandKind::LastSearch)
    } else if chars_eq(cmd, &to_chars("e")) {
        Some(ExCommandKind::Edit)
    } else if chars_eq(cmd, &to_chars("gs")) {
        Some(ExCommandKind::GitStatus)
    } else if chars_eq(cmd, &to_chars("stash")) {
        Some(ExCommandKind::Stash)
    } else {
        None
    }
}

/// The index of the first space in `t`, or -1.
pub open spec fn first_space(t: Seq<char>) -> int
    decreases t.len(),
{
    if t.len() == 0 {
        -1
    } else if first_space(t.drop_last()) >= 0 {
        first_space(t.drop_last())
    } else if t.last() == ' ' {
        t.len() - 1
    } else {
        -1
    }
}

/// The text of an ex input to run: leading `:` and surrounding white space removed.
pub open spec fn command_text(raw: Seq<char>) -> Seq<char> {
    trim_white(strip_leading(raw, ':'))
}

/// The command word: the text up to the first space.
pub open spec fn command_word(t: Seq<char>) -> Seq<char> {
    if first_space(t) < 0 {
        t
    } else {
        t.take(first_space(t))
    }
}

/// The argument: the text after the first space, trimmed.
pub open spec fn command_arg(t: Seq<char>) -> Seq<char> {
    if first_space(t) < 0 {
        Seq::empty()
    } else {
        trim_white(t.skip(first_space(t) + 1))
    }
}

/// Splits command text into its word and argument.
fn split_command(t: &Vec<char>) -> (r: (Vec<char>, Vec<char>))
    ensures
        r.0@ == command_word(t@),
        r.1@ == command_arg(t@),
{
    let mut i: usize = 0;
    while i < t.len() && t[i] != ' '
        invariant
            i <= t@.len(),
            forall|j: int| 0 <= j < i ==> t@[j] != ' ',
            first_space(t@.take(i as int)) == -1,
        decreases t@.len() - i,
    {
        assert(t@.take(i + 1).drop_last() == t@.take(i as int));
        i = i + 1;
    }
    proof {
        lemma_first_space_prefix(t@, i as int);
    }
    if i == t.len() {
        assert(t@.take(i as int) == t@);
        (sub_chars(t, 0, t.len()), Vec::new())
    } else {
        let rest = sub_chars(t, i + 1, t.len());
        (sub_chars(t, 0, i), trim(&rest))
    }
}

proof fn lemma_first_space_prefix(t: Seq<char>, i: int)
    requires
        0 <= i <= t.len(),
        first_space(t.take(i)) == -1,
        i < t.len() ==> t[i] == ' ',
    ensures
        i < t.len() ==> first_space(t) == i,
        i == t.len() ==> first_space(t) == -1,
    decreases t.len(),
{
    if i == t.len() {
        assert(t.take(i) == t);
    } else if t.len() > i + 1 {
        assert(t.drop_last().take(i) == t.take(i));
        assert(t.drop_last()[i] == t[i]);
        lemma_first_space_prefix(t.drop_last(), i);
    } else {
        assert(t.drop_last() == t.take(i));
    }
}

/// What the `:e` argument of the input would be once the selected completion, if any, is
/// applied: the path whose directory-ness `accept_input` needs to know.
pub fn edit_target(mode: &ExMode) -> (r: Option<String>)
    ensures
        ({
            let raw = match mode.completion_selection {
                Some(i) if i < mode.completions@.len() => mode.completions@[i as int].value@,
                _ => mode.input@,
            };
            let t = command_text(raw);
            &&& r is Some <==> (command_word(t) == "e"@ && command_arg(t).len() > 0)
            &&& r matches Some(p) ==> p@ == command_arg(t)
        }),
{
    let raw = match mode.completion_selection {
        Some(i) => {
            if i < mode.completions.len() {
                to_chars(mode.completions[i].value.as_str())
            } else {
                to_chars(mode.input.as_str())
            }
        },
        None => to_chars(mode.input.as_str()),
    };
    let colons = count_leading(&raw, ':');
    let t = trim(&sub_chars(&raw, colons, raw.len()));
    let (cmd, arg) = split_command(&t);
    if chars_eq(&cmd, &to_chars("e")) && arg.len() > 0 {
        Some(string_from_chars(arg))
    } else {
        None
    }
}

/// Runs the ex input: applies the selected completion, then for `:e` on a directory
/// (`target_is_dir`, as found for `edit_target`) steps into it with `listing`, its
/// entries, and returns no command; otherwise records the input in the history, clears
/// the line and returns the command to run, or why there is none.
pub fn accept_input(mode: &mut ExMode, target_is_dir: bool, listing: &Vec<DirEntry>) -> (r: Result<
    Option<ExCommand>,
    ExError,
>)
    ensures
        ({
            let raw = match old(mode).completion_selection {
                Some(i) if i < old(mode).completions@.len() => old(mode).completions@[i as int].value@,
                _ => old(mode).input@,
            };
            let t = command_text(raw);
            let cmd = command_word(t);
            let arg = command_arg(t);
            if cmd == "e"@ && arg.len() > 0 && target_is_dir {
                &&& r == Ok::<Option<ExCommand>, ExError>(None)
                &&& final(mode).input@ == if arg.last() == '/' {
                    raw
                } else {
                    seq![':', 'e', ' '] + arg.push('/')
                }
                &&& entries_view(final(mode).completions@) == ex_completions(final(mode).input@, listing_view(listing@))
                &&& final(mode).completion_selection == refreshed_selection(None, final(mode).completions@.len())
                &&& history_view(final(mode).history@) == history_view(old(mode).history@)
                &&& final(mode).history_index == old(mode).history_index
            } else {
                &&& history_view(final(mode).history@) == if t.len() > 0 {
                    history_view(old(mode).history@).push(seq![':'] + t)
                } else {
                    history_view(old(mode).history@)
                }
                &&& final(mode).history_index == if t.len() > 0 { final(mode).history@.len() } else { old(mode).history_index as nat }
                &&& final(mode).input@.len() == 0
                &&& final(mode).completions@.len() == 0
                &&& final(mode).completion_selection is None
                &&& match command_kind(cmd) {
                    None => r matches Err(ExError::UnknownCommand(c)) && c@ == cmd,
                    Some(ExCommandKind::Tag) => if arg.len() == 0 {
                        r == Err::<Option<ExCommand>, ExError>(ExError::NoTagSpecified)
                    } else {
                        r matches Ok(Some(c)) && c.kind == ExCommandKind::Tag && c.arg@ == arg
                    },
                    Some(ExCommandKind::Edit) => if arg.len() == 0 {
                        r == Err::<Option<ExCommand>, ExError>(ExError::NoFileSpecified)
                    } else {
                        r matches Ok(Some(c)) && c.kind == ExCommandKind::Edit && c.arg@ == arg
                    },
                    Some(k) => r matches Ok(Some(c)) && c.kind == k && c.arg@ == arg,
                }
            }
        }),
{
    if mode.completion_selection.is_some() {
        mode.apply_selection();
    }
    let raw = to_chars(mode.input.as_str());
    let colons = count_leading(&raw, ':');
    let t = trim(&sub_chars(&raw, colons, raw.len()));
    let (cmd, arg) = split_command(&t);
    let is_edit = chars_eq(&cmd, &to_chars("e"));
    if is_edit && arg.len() > 0 && target_is_dir {
        let path = string_from_chars(arg);
        mode.enter_directory(path.as_str(), listing);
        return Ok(None);
    }
    if t.len() > 0 {
        let colon: Vec<char> = vec![':'];
        assert(colon@ == seq![':']);
        let entry = string_from_chars(concat_chars(&colon, &t));
        mode.history.push(entry);
        assert(history_view(mode.history@) =~= history_view(old(mode).history@).push(seq![':'] + t@));
        mode.history_index = mode.history.len();
    }
    mode.input = String::new();
    mode.completions = Vec::new();
    mode.completion_selection = None;
    match command_kind_exec(&cmd) {
        None => Err(ExError::UnknownCommand(string_from_chars(cmd))),
        Some(kind) => {
            match kind {
                ExCommandKind::Tag => {
                    if arg.len() == 0 {
                        return Err(ExError::NoTagSpecified);
                    }
                },
                ExCommandKind::Edit => {
                    if arg.len() == 0 {
                        return Err(ExError::NoFileSpecified);
                    }
                },
                _ => {},
            }
            Ok(Some(ExCommand { kind, arg: string_from_chars(arg) }))
        },
    }
}

/// Whether completing should go on to fill in the only candidate: the input is a `:e`
/// command and there is exactly one entry.
pub open spec fn inlines(input: Seq<char>, len: nat) -> bool {
    seq_starts_with(strip_leading(input, ':'), edit_prefix()) && len == 1
}

/// Types the pressed key's character into the input and recomputes the popup from
/// `listing` (the entries of `completion_directory` of the new input). For a `:e` command
/// with exactly one candidate, the candidate is filled in and the result is `true`: the
/// caller then checks `walk_target` for a directory to step into.
pub fn push_char(mode: &mut ExMode, key: Option<Key>, listing: &Vec<DirEntry>) -> (r: Result<
    bool,
    ExError,
>)
    ensures
        key is None ==> r == Err::<bool, ExError>(ExError::NoKeyPress),
        !(key matches Some(Key::Char(_))) ==> final(mode).input@ == old(mode).input@ && final(mode).same_popup_and_history(old(mode)),
        key matches Some(Key::Char(_)) || key is None || r == Ok::<bool, ExError>(false),
        key matches Some(Key::Char(c)) ==> {
            let typed = old(mode).input@.push(c);
            let len = final(mode).completions@.len();
            &&& entries_view(final(mode).completions@) == ex_completions(typed, listing_view(listing@))
            &&& final(mode).completion_selection == refreshed_selection(old(mode).completion_selection, len)
            &&& r == Ok::<bool, ExError>(inlines(typed, len))
            &&& final(mode).input@ == if inlines(typed, len) {
                final(mode).completions@[0].value@
            } else {
                typed
            }
            &&& history_view(final(mode).history@) == history_view(old(mode).history@)
            &&& final(mode).history_index == old(mode).history_index
        },
{
    match key {
        None => Err(ExError::NoKeyPress),
        Some(Key::Char(c)) => {
            crate::text::string_push(&mut mode.input, c);
            mode.update_completions(listing);
            let raw = to_chars(mode.input.as_str());
            let colons = count_leading(&raw, ':');
            let t = sub_chars(&raw, colons, raw.len());
            let ep: Vec<char> = vec!['e', ' '];
            assert(ep@ == edit_prefix());
            if chars_start_with(&t, &ep) && mode.completions.len() == 1 {
                let ghost updated = *mode;
                mode.inline_complete();
                Ok(true)
            } else {
                Ok(false)
            }
        },
        Some(_) => Ok(false),
    }
}

/// Deletes the last character of the input and recomputes the popup from `listing` (the
/// entries of `completion_directory` of the new input).
pub fn pop_char(mode: &mut ExMode, listing: &Vec<DirEntry>)
    ensures
        ({
            let cut = if old(mode).input@.len() > 0 { old(mode).input@.drop_last() } else { old(mode).input@ };
            &&& final(mode).input@ == cut
            &&& entries_view(final(mode).completions@) == ex_completions(cut, listing_view(listing@))
        }),
        final(mode).completion_selection == refreshed_selection(
            old(mode).completion_selection,
            final(mode).completions@.len(),
        ),
        history_view(final(mode).history@) == history_view(old(mode).history@),
        final(mode).history_index == old(mode).history_index,
{
    crate::text::string_pop(&mut mode.input);
    mode.update_completions(listing);
}

// ── Smart navigation: popup when visible, history when not ──
/// Up: one row up in the popup when it shows, else back in the history.
pub fn navigate_up(mode: &mut ExMode)
    ensures
        old(mode).completions@.len() > 0 ==> final(mode).same_but_selection(old(mode))
            && final(mode).completion_selection == selection_up(
            old(mode).completion_selection,
            old(mode).completions@.len(),
        ),
        old(mode).completions@.len() == 0 ==> final(mode).completion_selection == old(mode).completion_selection && entries_view(final(mode).completions@) == entries_view(old(mode).completions@) && history_view(final(mode).history@)
            == history_view(old(mode).history@) && (final(mode).input@, final(mode).history_index)
            == history_back(old(mode).input@, history_view(old(mode).history@), old(mode).history_index),
{
    if mode.completions.len() > 0 {
        mode.select_completion_up();
    } else {
        mode.history_previous();
    }
}

/// Down: one row down in the popup when it shows, else forward in the history.
pub fn navigate_down(mode: &mut ExMode)
    ensures
        old(mode).completions@.len() > 0 ==> final(mode).same_but_selection(old(mode))
            && final(mode).completion_selection == selection_down(
            old(mode).completion_selection,
            old(mode).completions@.len(),
        ),
        old(mode).completions@.len() == 0 ==> final(mode).completion_selection == old(mode).completion_selection && entries_view(final(mode).completions@) == entries_view(old(mode).completions@) && history_view(final(mode).history@)
            == history_view(old(mode).history@) && (final(mode).input@, final(mode).history_index)
            == history_forward(old(mode).input@, history_view(old(mode).history@), old(mode).history_index),
{
    if mode.completions.len() > 0 {
        mode.select_completion_down();
    } else {
        mode.history_next();
    }
}

/// Left: one column left in the popup when it shows.
pub fn navigate_left(mode: &mut ExMode)
    ensures
        final(mode).same_but_selection(old(mode)),
        final(mode).completion_selection == selection_left(
            old(mode).completion_selection,
            old(mode).completions@.len(),
        ),
{
    if mode.completions.len() > 0 {
        mode.select_completion_left();
    }
}

/// Right: one column right in the popup when it shows.
pub fn navigate_right(mode: &mut ExMode)
    ensures
        final(mode).same_but_selection(old(mode)),
        final(mode).completion_selection == selection_right(
            old(mode).completion_selection,
            old(mode).completions@.len(),
        ),
{
    if mode.completions.len() > 0 {
        mode.select_completion_right();
    }
}

// ── Direct completion navigation (always navigates popup) ──
pub fn select_next_completion(mode: &mut ExMode)
    ensures
        final(mode).same_but_selection(old(mode)),
        final(mode).completion_selection == selection_next(
            old(mode).completion_selection,
            old(mode).completions@.len(),
        ),
{
    mode.select_next_completion();
}

pub fn select_previous_completion(mode: &mut ExMode)
    ensures
        final(mode).same_but_selection(old(mode)),
        final(mode).completion_selection == selection_previous(
            old(mode).completion_selection,
            old(mode).completions@.len(),
        ),
{
    mode.select_previous_completion();
}

/// Puts the selected entry in the input; the caller then checks `walk_target` for a
/// directory to step into.
pub fn apply_completion(mode: &mut ExMode)
    ensures
        history_view(final(mode).history@) == history_view(old(mode).history@),
        final(mode).history_index == old(mode).history_index,
        old(mode).completion_selection matches Some(i) ==> (i < old(mode).completions@.len() ==> {
            &&& final(mode).input@ == old(mode).completions@[i as int].value@
            &&& final(mode).completions@.len() == 0
            &&& final(mode).completion_selection is None
        }),
        !(old(mode).completion_selection matches Some(i) && i < old(mode).completions@.len())
            ==> final(mode).same_popup_and_history(old(mode)) && final(mode).input@ == old(mode).input@,
{
    mode.apply_selection();
}

// ── Direct history navigation (always navigates history) ──
pub fn previous_history(mode: &mut ExMode)
    ensures
        history_view(final(mode).history@) == history_view(old(mode).history@),
        entries_view(final(mode).completions@) == entries_view(old(mode).completions@),
        final(mode).completion_selection == old(mode).completion_selection,
        (final(mode).input@, final(mode).history_index) == history_back(
            old(mode).input@,
            history_view(old(mode).history@),
            old(mode).history_index,
        ),
{
    mode.history_previous();
}

pub fn next_history(mode: &mut ExMode)
    ensures
        history_view(final(mode).history@) == history_view(old(mode).history@),
        entries_view(final(mode).completions@) == entries_view(old(mode).completions@),
        final(mode).completion_selection == old(mode).completion_selection,
        (final(mode).input@, final(mode).history_index) == history_forward(
            old(mode).input@,
            history_view(old(mode).history@),
            old(mode).history_index,
        ),
{
    mode.history_next();
}

/// Tab: fills the popup if it is empty (from `listing`, the entries of
/// `completion_directory` of the input); with one entry, selects it or, once selected,
/// applies it; with more, selects the next. The caller then checks `walk_target`.
pub fn complete(mode: &mut ExMode, listing: &Vec<DirEntry>)
    ensures
        ({
            let refill = old(mode).completions@.len() == 0;
            let entries = if refill {
                ex_completions(old(mode).input@, listing_view(listing@))
            } else {
                entries_view(old(mode).completions@)
            };
            let sel = if refill {
                refreshed_selection(old(mode).completion_selection, entries.len())
            } else {
                old(mode).completion_selection
            };
            &&& history_view(final(mode).history@) == history_view(old(mode).history@)
            &&& final(mode).history_index == old(mode).history_index
            &&& if entries.len() == 0 {
                final(mode).input@ == old(mode).input@ && final(mode).completions@.len() == 0
                    && final(mode).completion_selection == sel
            } else if entries.len() == 1 {
                if sel == Some(0usize) {
                    final(mode).input@ == entries[0].1 && final(mode).completions@.len() == 0
                        && final(mode).completion_selection is None
                } else {
                    final(mode).input@ == old(mode).input@ && entries_view(final(mode).completions@)
                        == entries && final(mode).completion_selection == Some(0usize)
                }
            } else {
                final(mode).input@ == old(mode).input@ && entries_view(final(mode).completions@)
                    == entries && final(mode).completion_selection == selection_next(sel, entries.len())
            }
        }),
{
    if mode.completions.len() == 0 {
        mode.update_completions(listing);
    }
    let n = mode.completions.len();
    if n == 0 {
    } else if n == 1 {
        if mode.completion_selection == Some(0) {
            assert(entries_view(mode.completions@)[0].1 == mode.completions@[0].value@);
            mode.apply_selection();
        } else {
            mode.completion_selection = Some(0);
        }
    } else {
        mode.select_next_completion();
    }
}

/// Completes the word at the end of the input from the words of the buffer; a single
/// candidate is applied at once.
pub fn complete_from_buffer(mode: &mut ExMode, buffer_data: &str)
    ensures
        history_view(final(mode).history@) == history_view(old(mode).history@),
        final(mode).history_index == old(mode).history_index,
        ({
            let (before, prefix) = word_being_typed(old(mode).input@);
            if prefix.len() == 0 {
                final(mode).input@ == old(mode).input@ && final(mode).completions@.len() == 0
                    && final(mode).completion_selection is None
            } else {
                ||| exists|w: Seq<char>| first_candidates(seq![w], buffer_data@, prefix, true, MAX_BUFFER_COMPLETIONS as nat)
                    && final(mode).input@ == seq![':'] + before + w && final(mode).completions@.len() == 0
                    && final(mode).completion_selection is None
                ||| final(mode).completions@.len() != 1 && final(mode).input@ == old(mode).input@
                    && first_candidates(shown_words(final(mode).completions@), buffer_data@, prefix, true, MAX_BUFFER_COMPLETIONS as nat)
                    && (forall|i: int| 0 <= i < final(mode).completions@.len() ==> (#[trigger] final(mode).completions@[i]).value@
                        == seq![':'] + before + final(mode).completions@[i].display@)
                    && final(mode).completion_selection == if final(mode).completions@.len() == 0 { None } else { Some(0usize) }
            }
        }),
{
    mode.generate_buffer_completions(buffer_data);
    if mode.completions.len() == 1 {
        proof {
            let w = mode.completions@[0].display@;
            assert(shown_words(mode.completions@) =~= seq![w]);
        }
        mode.apply_selection();
    }
}

/// Moving through the completion popup: to the next entry and back, or back and then
/// on, selects the entry one started from.
pub proof fn law_popup_selection_returns(i: usize, len: nat)
    requires
        i < len <= usize::MAX,
    ensures
        selection_previous(selection_next(Some(i), len), len) == Some(i),
        selection_next(selection_previous(Some(i), len), len) == Some(i),
{
}

/// Stepping back in the history and forward again brings back the entry one was on,
/// while one is within the history.
pub proof fn law_history_back_and_forth(input: Seq<char>, history: Seq<Seq<char>>, index: usize)
    requires
        0 < index < history.len(),
    ensures
        ({
            let (back_input, back_index) = history_back(input, history, index);
            history_forward(back_input, history, back_index) == (history[index as int], index)
        }),
{
}

/// The command words of the ex line and the commands they name: `q` quits, `q!` quits
/// without saving, `w` writes, `wq` writes and quits, `bn` and `bp` go to the next and
/// previous buffer, `bd` closes it, `ls` lists the buffers, `rg` searches, `cn` and `cp`
/// go to the next and previous result, `fd` finds files, `gentags` generates tags,
/// `tag` or `ta` jumps to a tag, `last_rg` returns to the last search, `e` edits a
/// file, `gs` shows the git status and `stash` stashes; no other word names a command.
pub proof fn law_command_words(other: Seq<char>)
    requires
        other != seq!['q'],
        other != seq!['q', '!'],
        other != seq!['w'],
        other != seq!['w', 'q'],
        other != seq!['b', 'n'],
        other != seq!['b', 'p'],
        other != seq!['b', 'd'],
        other != seq!['l', 's'],
        other != seq!['r', 'g'],
        other != seq!['c', 'n'],
        other != seq!['c', 'p'],
        other != seq!['f', 'd'],
        other != seq!['g', 'e', 'n', 't', 'a', 'g', 's'],
        other != seq!['t', 'a', 'g'],
        other != seq!['t', 'a'],
        other != seq!['l', 'a', 's', 't', '_', 'r', 'g'],
        other != seq!['e'],
        other != seq!['g', 's'],
        other != seq!['s', 't', 'a', 's', 'h'],
    ensures
        command_kind(seq!['q']) == Some(ExCommandKind::Quit),
        command_kind(seq!['q', '!']) == Some(ExCommandKind::ForceQuit),
        command_kind(seq!['w']) == Some(ExCommandKind::Write),
        command_kind(seq!['w', 'q']) == Some(ExCommandKind::WriteQuit),
        command_kind(seq!['b', 'n']) == Some(ExCommandKind::NextBuffer),
        command_kind(seq!['b', 'p']) == Some(ExCommandKind::PreviousBuffer),
        command_kind(seq!['b', 'd']) == Some(ExCommandKind::CloseBuffer),
        command_kind(seq!['l', 's']) == Some(ExCommandKind::ListBuffers),
        command_kind(seq!['r', 'g']) == Some(ExCommandKind::Search),
        command_kind(seq!['c', 'n']) == Some(ExCommandKind::NextResult),
        command_kind(seq!['c', 'p']) == Some(ExCommandKind::PreviousResult),
        command_kind(seq!['f', 'd']) == Some(ExCommandKind::Find),
        command_kind(seq!['g', 'e', 'n', 't', 'a', 'g', 's']) == Some(ExCommandKind::GenerateTags),
        command_kind(seq!['t', 'a', 'g']) == Some(ExCommandKind::Tag),
        command_kind(seq!['t', 'a']) == Some(ExCommandKind::Tag),
        command_kind(seq!['l', 'a', 's', 't', '_', 'r', 'g']) == Some(ExCommandKind::LastSearch),
        command_kind(seq!['e']) == Some(ExCommandKind::Edit),
        command_kind(seq!['g', 's']) == Some(ExCommandKind::GitStatus),
        command_kind(seq!['s', 't', 'a', 's', 'h']) == Some(ExCommandKind::Stash),
        command_kind(other) is None,
{
    reveal_strlit("q");
    reveal_strlit("q!");
    reveal_strlit("w");
    reveal_strlit("wq");
    reveal_strlit("bn");
    reveal_strlit("bp");
    reveal_strlit("bd");
    reveal_strlit("ls");
    reveal_strlit("rg");
    reveal_strlit("cn");
    reveal_strlit("cp");
    reveal_strlit("fd");
    reveal_strlit("gentags");
    reveal_strlit("tag");
    reveal_strlit("ta");
    reveal_strlit("last_rg");
    reveal_strlit("e");
    reveal_strlit("gs");
    reveal_strlit("stash");
    assert("q"@ =~= seq!['q']);
    assert("q!"@ =~= seq!['q', '!']);
    assert("w"@ =~= seq!['w']);
    assert("wq"@ =~= seq!['w', 'q']);
    assert("bn"@ =~= seq!['b', 'n']);
    assert("bp"@ =~= seq!['b', 'p']);
    assert("bd"@ =~= seq!['b', 'd']);
    assert("ls"@ =~= seq!['l', 's']);
    assert("rg"@ =~= seq!['r', 'g']);
    assert("cn"@ =~= seq!['c', 'n']);
    assert("cp"@ =~= seq!['c', 'p']);
    assert("fd"@ =~= seq!['f', 'd']);
    assert("gentags"@ =~= seq!['g', 'e', 'n', 't', 'a', 'g', 's']);
    assert("tag"@ =~= seq!['t', 'a', 'g']);
    assert("ta"@ =~= seq!['t', 'a']);
    assert("last_rg"@ =~= seq!['l', 'a', 's', 't', '_', 'r', 'g']);
    assert("e"@ =~= seq!['e']);
    assert("gs"@ =~= seq!['g', 's']);
    assert("stash"@ =~= seq!['s', 't', 'a', 's', 'h']);
    assert(seq!['q'] != seq!['w']) by {
        assert(seq!['q'][0] != seq!['w'][0]);
    }
    assert(seq!['q'] != seq!['e']) by {
        assert(seq!['q'][0] != seq!['e'][0]);
    }
    assert(seq!['q', '!'] != seq!['w', 'q']) by {
        assert(seq!['q', '!'][0] != seq!['w', 'q'][0]);
    }
    assert(seq!['q', '!'] != seq!['b', 'n']) by {
        assert(seq!['q', '!'][0] != seq!['b', 'n'][0]);
    }
    assert(seq!['q', '!'] != seq!['b', 'p']) by {
        assert(seq!['q', '!'][0] != seq!['b', 'p'][0]);
    }
    assert(seq!['q', '!'] != seq!['b', 'd']) by {
        assert(seq!['q', '!'][0] != seq!['b', 'd'][0]);
    }
    assert(seq!['q', '!'] != seq!['l', 's']) by {
        assert(seq!['q', '!'][0] != seq!['l', 's'][0]);
    }
    assert(seq!['q', '!'] != seq!['r', 'g']) by {
        assert(seq!['q', '!'][0] != seq!['r', 'g'][0]);
    }
    assert(seq!['q', '!'] != seq!['c', 'n']) by {
        assert(seq!['q', '!'][0] != seq!['c', 'n'][0]);
    }
    assert(seq!['q', '!'] != seq!['c', 'p']) by {
        assert(seq!['q', '!'][0] != seq!['c', 'p'][0]);
    }
    assert(seq!['q', '!'] != seq!['f', 'd']) by {
        assert(seq!['q', '!'][0] != seq!['f', 'd'][0]);
    }
    assert(seq!['q', '!'] != seq!['t', 'a']) by {
        assert(seq!['q', '!'][0] != seq!['t', 'a'][0]);
    }
    assert(seq!['q', '!'] != seq!['g', 's']) by {
        assert(seq!['q', '!'][0] != seq!['g', 's'][0]);
    }
    assert(seq!['w'] != seq!['q']) by {
        assert(seq!['w'][0] != seq!['q'][0]);
    }
    assert(seq!['w'] != seq!['e']) by {
        assert(seq!['w'][0] != seq!['e'][0]);
    }
    assert(seq!['w', 'q'] != seq!['q', '!']) by {
        assert(seq!['w', 'q'][0] != seq!['q', '!'][0]);
    }
    assert(seq!['w', 'q'] != seq!['b', 'n']) by {
        assert(seq!['w', 'q'][0] != seq!['b', 'n'][0]);
    }
    assert(seq!['w', 'q'] != seq!['b', 'p']) by {
        assert(seq!['w', 'q'][0] != seq!['b', 'p'][0]);
    }
    assert(seq!['w', 'q'] != seq!['b', 'd']) by {
        assert(seq!['w', 'q'][0] != seq!['b', 'd'][0]);
    }
    assert(seq!['w', 'q'] != seq!['l', 's']) by {
        assert(seq!['w', 'q'][0] != seq!['l', 's'][0]);
    }
    assert(seq!['w', 'q'] != seq!['r', 'g']) by {
        assert(seq!['w', 'q'][0] != seq!['r', 'g'][0]);
    }
    assert(seq!['w', 'q'] != seq!['c', 'n']) by {
        assert(seq!['w', 'q'][0] != seq!['c', 'n'][0]);
    }
    assert(seq!['w', 'q'] != seq!['c', 'p']) by {
        assert(seq!['w', 'q'][0] != seq!['c', 'p'][0]);
    }
    assert(seq!['w', 'q'] != seq!['f', 'd']) by {
        assert(seq!['w', 'q'][0] != seq!['f', 'd'][0]);
    }
    assert(seq!['w', 'q'] != seq!['t', 'a']) by {
        assert(seq!['w', 'q'][0] != seq!['t', 'a'][0]);
    }
    assert(seq!['w', 'q'] != seq!['g', 's']) by {
        assert(seq!['w', 'q'][0] != seq!['g', 's'][0]);
    }
    assert(seq!['b', 'n'] != seq!['q', '!']) by {
        assert(seq!['b', 'n'][0] != seq!['q', '!'][0]);
    }
    assert(seq!['b', 'n'] != seq!['w', 'q']) by {
        assert(seq!['b', 'n'][0] != seq!['w', 'q'][0]);
    }
    assert(seq!['b', 'n'] != seq!['b', 'p']) by {
        assert(seq!['b', 'n'][1] != seq!['b', 'p'][1]);
    }
    assert(seq!['b', 'n'] != seq!['b', 'd']) by {
        assert(seq!['b', 'n'][1] != seq!['b', 'd'][1]);
    }
    assert(seq!['b', 'n'] != seq!['l', 's']) by {
        assert(seq!['b', 'n'][0] != seq!['l', 's'][0]);
    }
    assert(seq!['b', 'n'] != seq!['r', 'g']) by {
        assert(seq!['b', 'n'][0] != seq!['r', 'g'][0]);
    }
    assert(seq!['b', 'n'] != seq!['c', 'n']) by {
        assert(seq!['b', 'n'][0] != seq!['c', 'n'][0]);
    }
    assert(seq!['b', 'n'] != seq!['c', 'p']) by {
        assert(seq!['b', 'n'][0] != seq!['c', 'p'][0]);
    }
    assert(seq!['b', 'n'] != seq!['f', 'd']) by {
        assert(seq!['b', 'n'][0] != seq!['f', 'd'][0]);
    }
    assert(seq!['b', 'n'] != seq!['t', 'a']) by {
        assert(seq!['b', 'n'][0] != seq!['t', 'a'][0]);
    }
    assert(seq!['b', 'n'] != seq!['g', 's']) by {
        assert(seq!['b', 'n'][0] != seq!['g', 's'][0]);
    }
    assert(seq!['b', 'p'] != seq!['q', '!']) by {
        assert(seq!['b', 'p'][0] != seq!['q', '!'][0]);
    }
    assert(seq!['b', 'p'] != seq!['w', 'q']) by {
        assert(seq!['b', 'p'][0] != seq!['w', 'q'][0]);
    }
    assert(seq!['b', 'p'] != seq!['b', 'n']) by {
        assert(seq!['b', 'p'][1] != seq!['b', 'n'][1]);
    }
    assert(seq!['b', 'p'] != seq!['b', 'd']) by {
        assert(seq!['b', 'p'][1] != seq!['b', 'd'][1]);
    }
    assert(seq!['b', 'p'] != seq!['l', 's']) by {
        assert(seq!['b', 'p'][0] != seq!['l', 's'][0]);
    }
    assert(seq!['b', 'p'] != seq!['r', 'g']) by {
        assert(seq!['b', 'p'][0] != seq!['r', 'g'][0]);
    }
    assert(seq!['b', 'p'] != seq!['c', 'n']) by {
        assert(seq!['b', 'p'][0] != seq!['c', 'n'][0]);
    }
    assert(seq!['b', 'p'] != seq!['c', 'p']) by {
        assert(seq!['b', 'p'][0] != seq!['c', 'p'][0]);
    }
    assert(seq!['b', 'p'] != seq!['f', 'd']) by {
        assert(seq!['b', 'p'][0] != seq!['f', 'd'][0]);
    }
    assert(seq!['b', 'p'] != seq!['t', 'a']) by {
        assert(seq!['b', 'p'][0] != seq!['t', 'a'][0]);
    }
    assert(seq!['b', 'p'] != seq!['g', 's']) by {
        assert(seq!['b', 'p'][0] != seq!['g', 's'][0]);
    }
    assert(seq!['b', 'd'] != seq!['q', '!']) by {
        assert(seq!['b', 'd'][0] != seq!['q', '!'][0]);
    }
    assert(seq!['b', 'd'] != seq!['w', 'q']) by {
        assert(seq!['b', 'd'][0] != seq!['w', 'q'][0]);
    }
    assert(seq!['b', 'd'] != seq!['b', 'n']) by {
        assert(seq!['b', 'd'][1] != seq!['b', 'n'][1]);
    }
    assert(seq!['b', 'd'] != seq!['b', 'p']) by {
        assert(seq!['b', 'd'][1] != seq!['b', 'p'][1]);
    }
    assert(seq!['b', 'd'] != seq!['l', 's']) by {
        assert(seq!['b', 'd'][0] != seq!['l', 's'][0]);
    }
    assert(seq!['b', 'd'] != seq!['r', 'g']) by {
        assert(seq!['b', 'd'][0] != seq!['r', 'g'][0]);
    }
    assert(seq!['b', 'd'] != seq!['c', 'n']) by {
        assert(seq!['b', 'd'][0] != seq!['c', 'n'][0]);
    }
    assert(seq!['b', 'd'] != seq!['c', 'p']) by {
        assert(seq!['b', 'd'][0] != seq!['c', 'p'][0]);
    }
    assert(seq!['b', 'd'] != seq!['f', 'd']) by {
        assert(seq!['b', 'd'][0] != seq!['f', 'd'][0]);
    }
    assert(seq!['b', 'd'] != seq!['t', 'a']) by {
        assert(seq!['b', 'd'][0] != seq!['t', 'a'][0]);
    }
    assert(seq!['b', 'd'] != seq!['g', 's']) by {
        assert(seq!['b', 'd'][0] != seq!['g', 's'][0]);
    }
    assert(seq!['l', 's'] != seq!['q', '!']) by {
        assert(seq!['l', 's'][0] != seq!['q', '!'][0]);
    }
    assert(seq!['l', 's'] != seq!['w', 'q']) by {
        assert(seq!['l', 's'][0] != seq!['w', 'q'][0]);
    }
    assert(seq!['l', 's'] != seq!['b', 'n']) by {
        assert(seq!['l', 's'][0] != seq!['b', 'n'][0]);
    }
    assert(seq!['l', 's'] != seq!['b', 'p']) by {
        assert(seq!['l', 's'][0] != seq!['b', 'p'][0]);
    }
    assert(seq!['l', 's'] != seq!['b', 'd']) by {
        assert(seq!['l', 's'][0] != seq!['b', 'd'][0]);
    }
    assert(seq!['l', 's'] != seq!['r', 'g']) by {
        assert(seq!['l', 's'][0] != seq!['r', 'g'][0]);
    }
    assert(seq!['l', 's'] != seq!['c', 'n']) by {
        assert(seq!['l', 's'][0] != seq!['c', 'n'][0]);
    }
    assert(seq!['l', 's'] != seq!['c', 'p']) by {
        assert(seq!['l', 's'][0] != seq!['c', 'p'][0]);
    }
    assert(seq!['l', 's'] != seq!['f', 'd']) by {
        assert(seq!['l', 's'][0] != seq!['f', 'd'][0]);
    }
    assert(seq!['l', 's'] != seq!['t', 'a']) by {
        assert(seq!['l', 's'][0] != seq!['t', 'a'][0]);
    }
    assert(seq!['l', 's'] != seq!['g', 's']) by {
        assert(seq!['l', 's'][0] != seq!['g', 's'][0]);
    }
    assert(seq!['r', 'g'] != seq!['q', '!']) by {
        assert(seq!['r', 'g'][0] != seq!['q', '!'][0]);
    }
    assert(seq!['r', 'g'] != seq!['w', 'q']) by {
        assert(seq!['r', 'g'][0] != seq!['w', 'q'][0]);
    }
    assert(seq!['r', 'g'] != seq!['b', 'n']) by {
        assert(seq!['r', 'g'][0] != seq!['b', 'n'][0]);
    }
    assert(seq!['r', 'g'] != seq!['b', 'p']) by {
        assert(seq!['r', 'g'][0] != seq!['b', 'p'][0]);
    }
    assert(seq!['r', 'g'] != seq!['b', 'd']) by {
        assert(seq!['r', 'g'][0] != seq!['b', 'd'][0]);
    }
    assert(seq!['r', 'g'] != seq!['l', 's']) by {
        assert(seq!['r', 'g'][0] != seq!['l', 's'][0]);
    }
    assert(seq!['r', 'g'] != seq!['c', 'n']) by {
        assert(seq!['r', 'g'][0] != seq!['c', 'n'][0]);
    }
    assert(seq!['r', 'g'] != seq!['c', 'p']) by {
        assert(seq!['r', 'g'][0] != seq!['c', 'p'][0]);
    }
    assert(seq!['r', 'g'] != seq!['f', 'd']) by {
        assert(seq!['r', 'g'][0] != seq!['f', 'd'][0]);
    }
    assert(seq!['r', 'g'] != seq!['t', 'a']) by {
        assert(seq!['r', 'g'][0] != seq!['t', 'a'][0]);
    }
    assert(seq!['r', 'g'] != seq!['g', 's']) by {
        assert(seq!['r', 'g'][0] != seq!['g', 's'][0]);
    }
    assert(seq!['c', 'n'] != seq!['q', '!']) by {
        assert(seq!['c', 'n'][0] != seq!['q', '!'][0]);
    }
    assert(seq!['c', 'n'] != seq!['w', 'q']) by {
        assert(seq!['c', 'n'][0] != seq!['w', 'q'][0]);
    }
    assert(seq!['c', 'n'] != seq!['b', 'n']) by {
        assert(seq!['c', 'n'][0] != seq!['b', 'n'][0]);
    }
    assert(seq!['c', 'n'] != seq!['b', 'p']) by {
        assert(seq!['c', 'n'][0] != seq!['b', 'p'][0]);
    }
    assert(seq!['c', 'n'] != seq!['b', 'd']) by {
        assert(seq!['c', 'n'][0] != seq!['b', 'd'][0]);
    }
    assert(seq!['c', 'n'] != seq!['l', 's']) by {
        assert(seq!['c', 'n'][0] != seq!['l', 's'][0]);
    }
    assert(seq!['c', 'n'] != seq!['r', 'g']) by {
        assert(seq!['c', 'n'][0] != seq!['r', 'g'][0]);
    }
    assert(seq!['c', 'n'] != seq!['c', 'p']) by {
        assert(seq!['c', 'n'][1] != seq!['c', 'p'][1]);
    }
    assert(seq!['c', 'n'] != seq!['f', 'd']) by {
        assert(seq!['c', 'n'][0] != seq!['f', 'd'][0]);
    }
    assert(seq!['c', 'n'] != seq!['t', 'a']) by {
        assert(seq!['c', 'n'][0] != seq!['t', 'a'][0]);
    }
    assert(seq!['c', 'n'] != seq!['g', 's']) by {
        assert(seq!['c', 'n'][0] != seq!['g', 's'][0]);
    }
    assert(seq!['c', 'p'] != seq!['q', '!']) by {
        assert(seq!['c', 'p'][0] != seq!['q', '!'][0]);
    }
    assert(seq!['c', 'p'] != seq!['w', 'q']) by {
        assert(seq!['c', 'p'][0] != seq!['w', 'q'][0]);
    }
    assert(seq!['c', 'p'] != seq!['b', 'n']) by {
        assert(seq!['c', 'p'][0] != seq!['b', 'n'][0]);
    }
    assert(seq!['c', 'p'] != seq!['b', 'p']) by {
        assert(seq!['c', 'p'][0] != seq!['b', 'p'][0]);
    }
    assert(seq!['c', 'p'] != seq!['b', 'd']) by {
        assert(seq!['c', 'p'][0] != seq!['b', 'd'][0]);
    }
    assert(seq!['c', 'p'] != seq!['l', 's']) by {
        assert(seq!['c', 'p'][0] != seq!['l', 's'][0]);
    }
    assert(seq!['c', 'p'] != seq!['r', 'g']) by {
        assert(seq!['c', 'p'][0] != seq!['r', 'g'][0]);
    }
    assert(seq!['c', 'p'] != seq!['c', 'n']) by {
        assert(seq!['c', 'p'][1] != seq!['c', 'n'][1]);
    }
    assert(seq!['c', 'p'] != seq!['f', 'd']) by {
        assert(seq!['c', 'p'][0] != seq!['f', 'd'][0]);
    }
    assert(seq!['c', 'p'] != seq!['t', 'a']) by {
        assert(seq!['c', 'p'][0] != seq!['t', 'a'][0]);
    }
    assert(seq!['c', 'p'] != seq!['g', 's']) by {
        assert(seq!['c', 'p'][0] != seq!['g', 's'][0]);
    }
    assert(seq!['f', 'd'] != seq!['q', '!']) by {
        assert(seq!['f', 'd'][0] != seq!['q', '!'][0]);
    }
    assert(seq!['f', 'd'] != seq!['w', 'q']) by {
        assert(seq!['f', 'd'][0] != seq!['w', 'q'][0]);
    }
    assert(seq!['f', 'd'] != seq!['b', 'n']) by {
        assert(seq!['f', 'd'][0] != seq!['b', 'n'][0]);
    }
    assert(seq!['f', 'd'] != seq!['b', 'p']) by {
        assert(seq!['f', 'd'][0] != seq!['b', 'p'][0]);
    }
    assert(seq!['f', 'd'] != seq!['b', 'd']) by {
        assert(seq!['f', 'd'][0] != seq!['b', 'd'][0]);
    }
    assert(seq!['f', 'd'] != seq!['l', 's']) by {
        assert(seq!['f', 'd'][0] != seq!['l', 's'][0]);
    }
    assert(seq!['f', 'd'] != seq!['r', 'g']) by {
        assert(seq!['f', 'd'][0] != seq!['r', 'g'][0]);
    }
    assert(seq!['f', 'd'] != seq!['c', 'n']) by {
        assert(seq!['f', 'd'][0] != seq!['c', 'n'][0]);
    }
    assert(seq!['f', 'd'] != seq!['c', 'p']) by {
        assert(seq!['f', 'd'][0] != seq!['c', 'p'][0]);
    }
    assert(seq!['f', 'd'] != seq!['t', 'a']) by {
        assert(seq!['f', 'd'][0] != seq!['t', 'a'][0]);
    }
    assert(seq!['f', 'd'] != seq!['g', 's']) by {
        assert(seq!['f', 'd'][0] != seq!['g', 's'][0]);
    }
    assert(seq!['g', 'e', 'n', 't', 'a', 'g', 's'] != seq!['l', 'a', 's', 't', '_', 'r', 'g']) by {
        assert(seq!['g', 'e', 'n', 't', 'a', 'g', 's'][0] != seq!['l', 'a', 's', 't', '_', 'r', 'g'][0]);
    }
    assert(seq!['t', 'a'] != seq!['q', '!']) by {
        assert(seq!['t', 'a'][0] != seq!['q', '!'][0]);
    }
    assert(seq!['t', 'a'] != seq!['w', 'q']) by {
        assert(seq!['t', 'a'][0] != seq!['w', 'q'][0]);
    }
    assert(seq!['t', 'a'] != seq!['b', 'n']) by {
        assert(seq!['t', 'a'][0] != seq!['b', 'n'][0]);
    }
    assert(seq!['t', 'a'] != seq!['b', 'p']) by {
        assert(seq!['t', 'a'][0] != seq!['b', 'p'][0]);
    }
    assert(seq!['t', 'a'] != seq!['b', 'd']) by {
        assert(seq!['t', 'a'][0] != seq!['b', 'd'][0]);
    }
    assert(seq!['t', 'a'] != seq!['l', 's']) by {
        assert(seq!['t', 'a'][0] != seq!['l', 's'][0]);
    }
    assert(seq!['t', 'a'] != seq!['r', 'g']) by {
        assert(seq!['t', 'a'][0] != seq!['r', 'g'][0]);
    }
    assert(seq!['t', 'a'] != seq!['c', 'n']) by {
        assert(seq!['t', 'a'][0] != seq!['c', 'n'][0]);
    }
    assert(seq!['t', 'a'] != seq!['c', 'p']) by {
        assert(seq!['t', 'a'][0] != seq!['c', 'p'][0]);
    }
    assert(seq!['t', 'a'] != seq!['f', 'd']) by {
        assert(seq!['t', 'a'][0] != seq!['f', 'd'][0]);
    }
    assert(seq!['t', 'a'] != seq!['g', 's']) by {
        assert(seq!['t', 'a'][0] != seq!['g', 's'][0]);
    }
    assert(seq!['l', 'a', 's', 't', '_', 'r', 'g'] != seq!['g', 'e', 'n', 't', 'a', 'g', 's']) by {
        assert(seq!['l', 'a', 's', 't', '_', 'r', 'g'][0] != seq!['g', 'e', 'n', 't', 'a', 'g', 's'][0]);
    }
    assert(seq!['e'] != seq!['q']) by {
        assert(seq!['e'][0] != seq!['q'][0]);
    }
    assert(seq!['e'] != seq!['w']) by {
        assert(seq!['e'][0] != seq!['w'][0]);
    }
    assert(seq!['g', 's'] != seq!['q', '!']) by {
        assert(seq!['g', 's'][0] != seq!['q', '!'][0]);
    }
    assert(seq!['g', 's'] != seq!['w', 'q']) by {
        assert(seq!['g', 's'][0] != seq!['w', 'q'][0]);
    }
    assert(seq!['g', 's'] != seq!['b', 'n']) by {
        assert(seq!['g', 's'][0] != seq!['b', 'n'][0]);
    }
    assert(seq!['g', 's'] != seq!['b', 'p']) by {
        assert(seq!['g', 's'][0] != seq!['b', 'p'][0]);
    }
    assert(seq!['g', 's'] != seq!['b', 'd']) by {
        assert(seq!['g', 's'][0] != seq!['b', 'd'][0]);
    }
    assert(seq!['g', 's'] != seq!['l', 's']) by {
        assert(seq!['g', 's'][0] != seq!['l', 's'][0]);
    }
    assert(seq!['g', 's'] != seq!['r', 'g']) by {
        assert(seq!['g', 's'][0] != seq!['r', 'g'][0]);
    }
    assert(seq!['g', 's'] != seq!['c', 'n']) by {
        assert(seq!['g', 's'][0] != seq!['c', 'n'][0]);
    }
    assert(seq!['g', 's'] != seq!['c', 'p']) by {
        assert(seq!['g', 's'][0] != seq!['c', 'p'][0]);
    }
    assert(seq!['g', 's'] != seq!['f', 'd']) by {
        assert(seq!['g', 's'][0] != seq!['f', 'd'][0]);
    }
    assert(seq!['g', 's'] != seq!['t', 'a']) by {
        assert(seq!['g', 's'][0] != seq!['t', 'a'][0]);
    }
}

} // verus!
