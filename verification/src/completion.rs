//! Completion of words from the buffer: the popup's state, and the commands that
//! open, move through, accept and dismiss it.
use vstd::prelude::*;
use crate::ex_mode::{apply_word_completion, history_view, ExMode};
use crate::input::Key;
use crate::order::views;
use crate::text::{seq_starts_with, spec_lines, str_lines, string_from_chars, sub_chars, to_chars};
use crate::words::{
    candidate_words, first_candidates, is_candidate, lemma_first_candidates, take_first,
    trailing_word_start, word_start,
};

verus! {

/// The most entries a completion popup offers.
pub const MAX_COMPLETIONS: usize = 100;

/// The shortest prefix that buffer-word completion starts from.
pub const MIN_PREFIX_CHARS: usize = 3;

#[derive(Debug)]
pub struct CompletionEntry {
    pub display: String,
    pub value: String,
}

/// Where a completion was asked for: in the buffer, or on the ex command line.
#[derive(Clone, Copy, Debug, PartialEq, Eq, Structural)]
pub enum CompletionOrigin {
    BufferWords,
    ExInput,
}

#[derive(Debug)]
pub struct CompletionState {
    pub entries: Vec<CompletionEntry>,
    pub selected_index: usize,
    pub prefix: String,
    pub origin: CompletionOrigin,
}

/// The values of a list of entries.
pub open spec fn entry_values(entries: Seq<CompletionEntry>) -> Seq<Seq<char>> {
    entries.map_values(|e: CompletionEntry| e.value@)
}

/// Every entry shows exactly its value.
pub open spec fn shows_values(entries: Seq<CompletionEntry>) -> bool {
    forall|i: int| 0 <= i < entries.len() ==> (#[trigger] entries[i]).display@ == entries[i].value@
}

/// Entries that show and give each word, in order.
fn entries_of(words: &Vec<Vec<char>>) -> (r: Vec<CompletionEntry>)
    ensures
        entry_values(r@) == views(words@),
        shows_values(r@),
{
    let mut r: Vec<CompletionEntry> = Vec::new();
    let mut i: usize = 0;
    while i < words.len()
        invariant
            i <= words@.len(),
            entry_values(r@) == views(words@).take(i as int),
            shows_values(r@),
        decreases words@.len() - i,
    {
        let value = string_from_chars(crate::order::vec_clone_chars(&words[i]));
        let display = value.clone();
        let ghost before = r@;
        r.push(CompletionEntry { display, value });
        assert(entry_values(r@) =~= entry_values(before).push(words@[i as int]@));
        i = i + 1;
        assert(entry_values(r@) =~= views(words@).take(i as int));
    }
    r
}

/// The entry after `sel` among `len`, wrapping to the first.
pub open spec fn cycled_next(sel: int, len: nat) -> int {
    if len == 0 {
        sel
    } else {
        (sel + 1) % (len as int)
    }
}

/// The entry before `sel` among `len`, wrapping to the last.
pub open spec fn cycled_previous(sel: int, len: nat) -> int {
    if len == 0 {
        sel
    } else if sel > 0 {
        sel - 1
    } else {
        len - 1
    }
}

impl CompletionState {
    pub fn select_next(&mut self)
        requires
            old(self).entries@.len() > 0 ==> old(self).selected_index < usize::MAX,
        ensures
            final(self).entries@ == old(self).entries@,
            final(self).prefix@ == old(self).prefix@,
            final(self).origin == old(self).origin,
            final(self).selected_index == cycled_next(old(self).selected_index as int, old(self).entries@.len()),
    {
        if self.entries.len() > 0 {
            self.selected_index = (self.selected_index + 1) % self.entries.len();
        }
    }

    pub fn select_previous(&mut self)
        ensures
            final(self).entries@ == old(self).entries@,
            final(self).prefix@ == old(self).prefix@,
            final(self).origin == old(self).origin,
            final(self).selected_index == cycled_previous(old(self).selected_index as int, old(self).entries@.len()),
    {
        if self.entries.len() > 0 {
            if self.selected_index > 0 {
                self.selected_index = self.selected_index - 1;
            } else {
                self.selected_index = self.entries.len() - 1;
            }
        }
    }

    /// The selected entry, if the index points at one.
    pub fn selection(&self) -> (r: Option<&CompletionEntry>)
        ensures
            r == if self.selected_index < self.entries@.len() {
                Some(&self.entries@[self.selected_index as int])
            } else {
                None
            },
    {
        if self.selected_index < self.entries.len() {
            Some(&self.entries[self.selected_index])
        } else {
            None
        }
    }

    /// Scan `buffer_data` for words that extend `prefix`.
    /// Case-sensitive matching; returns at most 100 entries.
    /// Requires a minimum prefix length of 3 to avoid flooding candidates.
    pub fn from_buffer_words(buffer_data: &str, prefix: &str, origin: CompletionOrigin) -> (r: Option<
        Self,
    >)
        ensures
            r is None <==> (prefix@.len() < MIN_PREFIX_CHARS || forall|w: Seq<char>|
                !is_candidate(buffer_data@, w, prefix@, false)),
            r matches Some(st) ==> {
                &&& st.entries@.len() > 0
                &&& st.selected_index == 0
                &&& st.prefix@ == prefix@
                &&& st.origin == origin
                &&& shows_values(st.entries@)
                &&& first_candidates(
                    entry_values(st.entries@),
                    buffer_data@,
                    prefix@,
                    false,
                    MAX_COMPLETIONS as nat,
                )
            },
    {
        let prefix_chars = to_chars(prefix);
        if prefix_chars.len() < MIN_PREFIX_CHARS {
            return None;
        }
        let all = candidate_words(buffer_data, &prefix_chars, false);
        let ghost all_v = views(all@);
        let words = take_first(all, MAX_COMPLETIONS);
        proof {
            lemma_first_candidates(all_v, buffer_data@, prefix@, false, MAX_COMPLETIONS as nat);
        }
        let entries = entries_of(&words);
        if entries.len() == 0 {
            proof {
                assert forall|w: Seq<char>| !is_candidate(buffer_data@, w, prefix@, false) by {
                    if is_candidate(buffer_data@, w, prefix@, false) {
                        assert(all_v.contains(w));
                    }
                }
            }
            return None;
        }
        assert(is_candidate(buffer_data@, entry_values(entries@)[0], prefix@, false));
        Some(
            CompletionState {
                entries,
                selected_index: 0,
                prefix: string_from_chars(prefix_chars),
                origin,
            },
        )
    }
}

/// The result of accepting the selected completion.
pub enum Accepted {
    /// Text to insert at the cursor, completing the word there.
    InsertText(String),
    /// The chosen word, completing the word at the end of the ex command line.
    ExWord(String),
}

/// Moves the selection of an open popup down.
pub fn select_next(completion: &mut Option<CompletionState>)
    requires
        (*old(completion)) matches Some(c) ==> (c.entries@.len() > 0 ==> c.selected_index < usize::MAX),
    ensures
        (*old(completion)) is None ==> (*final(completion)) is None,
        (*old(completion)) matches Some(c) ==> (*final(completion)) matches Some(n) && n.entries@
            == c.entries@ && n.prefix@ == c.prefix@ && n.origin == c.origin
            && n.selected_index == cycled_next(c.selected_index as int, c.entries@.len()),
{
    if let Some(c) = completion {
        c.select_next();
    }
}

/// Moves the selection of an open popup up.
pub fn select_previous(completion: &mut Option<CompletionState>)
    ensures
        (*old(completion)) is None ==> (*final(completion)) is None,
        (*old(completion)) matches Some(c) ==> (*final(completion)) matches Some(n) && n.entries@
            == c.entries@ && n.prefix@ == c.prefix@ && n.origin == c.origin
            && n.selected_index == cycled_previous(c.selected_index as int, c.entries@.len()),
{
    if let Some(c) = completion {
        c.select_previous();
    }
}

/// Closes the popup.
pub fn cancel(completion: &mut Option<CompletionState>)
    ensures
        (*final(completion)) is None,
{
    *completion = None;
}

/// Closes the popup and hands over the selected entry: for buffer words, the part of
/// its value after the prefix; on the ex line, the whole value.
pub fn accept(completion: &mut Option<CompletionState>) -> (r: Option<Accepted>)
    ensures
        (*final(completion)) is None,
        r is Some <==> ((*old(completion)) matches Some(c) && c.selected_index < c.entries@.len()),
        r matches Some(a) ==> {
            let c = (*old(completion))->0;
            let value = c.entries@[c.selected_index as int].value@;
            match a {
                Accepted::InsertText(s) => c.origin == CompletionOrigin::BufferWords && s@
                    == value.skip(if c.prefix@.len() <= value.len() { c.prefix@.len() as int } else { value.len() as int }),
                Accepted::ExWord(s) => c.origin == CompletionOrigin::ExInput && s@ == value,
            }
        },
{
    let taken = completion.take();
    match taken {
        Some(c) => {
            if c.selected_index >= c.entries.len() {
                return None;
            }
            let value = to_chars(c.entries[c.selected_index].value.as_str());
            match c.origin {
                CompletionOrigin::BufferWords => {
                    let skip = to_chars(c.prefix.as_str()).len();
                    let start = if skip <= value.len() { skip } else { value.len() };
                    Some(Accepted::InsertText(string_from_chars(sub_chars(&value, start, value.len()))))
                },
                CompletionOrigin::ExInput => Some(Accepted::ExWord(string_from_chars(value))),
            }
        },
        None => None,
    }
}

/// One character key for each character of `s`.
pub open spec fn typed_keys(s: Seq<char>) -> Seq<Key>
    decreases s.len(),
{
    if s.len() == 0 {
        Seq::empty()
    } else {
        typed_keys(s.drop_last()).push(Key::Char(s.last()))
    }
}

/// The keys that accepting a buffer-word completion records for repeating the change:
/// one character key per inserted character, or none while a change is being replayed.
pub fn keys_to_record(inserted: &str, replaying: bool) -> (r: Vec<Key>)
    ensures
        r@ == if replaying { Seq::<Key>::empty() } else { typed_keys(inserted@) },
{
    let mut out: Vec<Key> = Vec::new();
    if replaying {
        return out;
    }
    let chars = to_chars(inserted);
    let n = chars.len();
    for i in 0..n
        invariant
            n == chars@.len(),
            chars@ == inserted@,
            out@ == typed_keys(inserted@.take(i as int)),
    {
        let c = chars[i];
        out.push(Key::Char(c));
        assert(inserted@.take(i + 1).drop_last() =~= inserted@.take(i as int));
    }
    assert(inserted@.take(n as int) =~= inserted@);
    out
}

/// What a key does while the popup is open.
#[derive(Debug, Clone, Copy, PartialEq, Eq, Structural)]
pub enum KeyHandling {
    /// The popup took the key.
    Consumed,
    /// The key accepts the selection; `accept` hands it over.
    Accept,
    /// The popup did not take the key (and is closed if it was open).
    Passed,
}

/// Called before the mode keymap is consulted: Down or Tab and Up move the selection,
/// Enter accepts, Escape cancels, any other key closes the popup and goes on.
pub fn handle_key(completion: &mut Option<CompletionState>, key: Option<Key>) -> (r: KeyHandling)
    requires
        (*old(completion)) matches Some(c) ==> (c.entries@.len() > 0 ==> c.selected_index < usize::MAX),
    ensures
        (*old(completion)) is None ==> r == KeyHandling::Passed && (*final(completion)) is None,
        (*old(completion)) is Some ==> match key {
            Some(Key::Down) | Some(Key::Tab) | Some(Key::Up) => r == KeyHandling::Consumed
                && (*final(completion)) is Some,
            Some(Key::Enter) => r == KeyHandling::Accept && (*final(completion)) == (*old(completion)),
            Some(Key::Esc) => r == KeyHandling::Consumed && (*final(completion)) is None,
            _ => r == KeyHandling::Passed && (*final(completion)) is None,
        },
        (*old(completion)) matches Some(c) ==> ((key == Some(Key::Down) || key == Some(Key::Tab) || key == Some(Key::Up))
            ==> ((*final(completion)) matches Some(n) && n.entries@ == c.entries@ && n.prefix@ == c.prefix@
            && n.origin == c.origin)),
        (*old(completion)) matches Some(c) ==> ((key == Some(Key::Down) || key == Some(Key::Tab))
            ==> (*final(completion))->0.selected_index == cycled_next(c.selected_index as int, c.entries@.len())),
        (*old(completion)) matches Some(c) ==> (key == Some(Key::Up)
            ==> (*final(completion))->0.selected_index == cycled_previous(c.selected_index as int, c.entries@.len())),
{
    if completion.is_none() {
        return KeyHandling::Passed;
    }
    match key {
        Some(Key::Down) | Some(Key::Tab) => {
            select_next(completion);
            KeyHandling::Consumed
        },
        Some(Key::Up) => {
            select_previous(completion);
            KeyHandling::Consumed
        },
        Some(Key::Enter) => KeyHandling::Accept,
        Some(Key::Esc) => {
            cancel(completion);
            KeyHandling::Consumed
        },
        _ => {
            *completion = None;
            KeyHandling::Passed
        },
    }
}

/// What buffer-word completion at the cursor comes to.
pub enum InsertCompletion {
    /// Nothing to offer; the popup is closed.
    Nothing,
    /// A single candidate: insert this rest of it at the cursor.
    Insert(String),
    /// Several candidates: open the popup.
    Popup(CompletionState),
}

/// Completes the word that ends at the cursor, from the words of the buffer.
pub fn complete_insert(buffer_data: &str, cursor_line: usize, cursor_offset: usize) -> (r:
    InsertCompletion)
    ensures
        cursor_line >= spec_lines(buffer_data@).len() ==> r is Nothing,
        cursor_line < spec_lines(buffer_data@).len() ==> {
            let line = spec_lines(buffer_data@)[cursor_line as int];
            let end = if cursor_offset <= line.len() { cursor_offset as int } else { line.len() as int };
            let head = line.take(end);
            {
                let prefix = head.skip(word_start(head));
                &&& prefix.len() == 0 ==> r is Nothing
                &&& prefix.len() > 0 ==> match r {
                    InsertCompletion::Nothing => prefix.len() < MIN_PREFIX_CHARS || forall|w: Seq<char>|
                        !is_candidate(buffer_data@, w, prefix, false),
                    InsertCompletion::Insert(s) => exists|w: Seq<char>| first_candidates(
                        seq![w],
                        buffer_data@,
                        prefix,
                        false,
                        MAX_COMPLETIONS as nat,
                    ) && s@ == w.skip(prefix.len() as int),
                    InsertCompletion::Popup(st) => st.entries@.len() > 1 && st.selected_index == 0
                        && st.prefix@ == prefix && st.origin == CompletionOrigin::BufferWords
                        && first_candidates(
                        entry_values(st.entries@),
                        buffer_data@,
                        prefix,
                        false,
                        MAX_COMPLETIONS as nat,
                    ),
                }
            }
        },
{
    let lines = str_lines(buffer_data);
    if cursor_line >= lines.len() {
        return InsertCompletion::Nothing;
    }
    let chars = to_chars(lines[cursor_line]);
    assert(chars@ == spec_lines(buffer_data@)[cursor_line as int]);
    let end = if cursor_offset <= chars.len() { cursor_offset } else { chars.len() };
    let head = sub_chars(&chars, 0, end);
    assert(head@ == chars@.take(end as int));
    let start = trailing_word_start(&head);
    proof {
        let line = spec_lines(buffer_data@)[cursor_line as int];
        let e = if cursor_offset <= line.len() { cursor_offset as int } else { line.len() as int };
        assert(e == end as int);
        assert(line.take(e) == head@);
        assert(word_start(line.take(e)) == start);
    }
    if start == end {
        assert(head@.skip(start as int).len() == 0);
        return InsertCompletion::Nothing;
    }
    let prefix_chars = sub_chars(&head, start, end);
    assert(prefix_chars@ == head@.skip(start as int));
    let prefix = string_from_chars(prefix_chars);
    match CompletionState::from_buffer_words(buffer_data, prefix.as_str(), CompletionOrigin::BufferWords) {
        Some(state) => {
            if state.entries.len() == 1 {
                let value = to_chars(state.entries[0].value.as_str());
                let ghost w = value@;
                assert(entry_values(state.entries@) =~= seq![w]);
                let plen = to_chars(prefix.as_str()).len();
                proof {
                    assert(entry_values(state.entries@)[0] == w);
                    assert(first_candidates(seq![w], buffer_data@, prefix@, false, MAX_COMPLETIONS as nat));
                    assert(seq![w][0] == w);
                    assert(is_candidate(buffer_data@, w, prefix@, false));
                }
                let rest = string_from_chars(sub_chars(&value, plen, value.len()));
                assert(rest@ == w.skip(prefix@.len() as int));
                InsertCompletion::Insert(rest)
            } else {
                InsertCompletion::Popup(state)
            }
        },
        None => InsertCompletion::Nothing,
    }
}

/// Completes the word at the end of the ex command line from the words of the buffer:
/// a single candidate goes straight into the input; several open the popup.
pub fn complete_ex(mode: &mut ExMode, buffer_data: &str) -> (r: Option<CompletionState>)
    ensures
        ({
            let input = crate::text::strip_leading(old(mode).input@, ':');
            {
                let prefix = input.skip(word_start(input));
                let before = input.take(word_start(input));
                if prefix.len() == 0 {
                    r is None && final(mode).input@ == old(mode).input@
                        && final(mode).completions@ == old(mode).completions@
                        && final(mode).completion_selection == old(mode).completion_selection
                } else {
                    &&& final(mode).completions@.len() == 0
                    &&& final(mode).completion_selection is None
                    &&& match r {
                        None => {
                            let single = exists|w: Seq<char>| first_candidates(
                                seq![w],
                                buffer_data@,
                                prefix,
                                false,
                                MAX_COMPLETIONS as nat,
                            ) && final(mode).input@ == seq![':'] + before + w;
                            ||| single
                            ||| final(mode).input@ == old(mode).input@ && (prefix.len()
                                < MIN_PREFIX_CHARS || forall|w: Seq<char>|
                                !is_candidate(buffer_data@, w, prefix, false))
                        },
                        Some(st) => st.entries@.len() > 1 && st.selected_index == 0 && st.prefix@
                            == prefix && st.origin == CompletionOrigin::ExInput && first_candidates(
                            entry_values(st.entries@),
                            buffer_data@,
                            prefix,
                            false,
                            MAX_COMPLETIONS as nat,
                        ) && final(mode).input@ == old(mode).input@,
                    }
                }
            }
        }),
        history_view(final(mode).history@) == history_view(old(mode).history@),
        final(mode).history_index == old(mode).history_index,
{
    let raw = to_chars(mode.input.as_str());
    let colons = crate::text::count_leading(&raw, ':');
    let input = sub_chars(&raw, colons, raw.len());
    let start = trailing_word_start(&input);
    assert(input@ == crate::text::strip_leading(old(mode).input@, ':'));
    assert(word_start(input@) == start);
    if start == input.len() {
        assert(input@.skip(start as int).len() == 0);
        return None;
    }
    let prefix_chars = sub_chars(&input, start, input.len());
    let before = sub_chars(&input, 0, start);
    assert(prefix_chars@ == input@.skip(start as int));
    assert(before@ == input@.take(start as int));
    let prefix = string_from_chars(prefix_chars);
    mode.completions = Vec::new();
    mode.completion_selection = None;
    match CompletionState::from_buffer_words(buffer_data, prefix.as_str(), CompletionOrigin::ExInput) {
        Some(state) => {
            if state.entries.len() == 1 {
                let value = to_chars(state.entries[0].value.as_str());
                assert(entry_values(state.entries@) =~= seq![value@]);
                apply_word_completion(mode, &before, &value);
                assert(first_candidates(seq![value@], buffer_data@, prefix@, false, MAX_COMPLETIONS as nat));
                None
            } else {
                Some(state)
            }
        },
        None => None,
    }
}

/// Cycling through completions: stepping to the next entry and back, or back and then
/// on, selects the entry one started from.
pub proof fn law_cycling_returns(sel: int, len: nat)
    requires
        0 <= sel < len,
    ensures
        cycled_previous(cycled_next(sel, len), len) == sel,
        cycled_next(cycled_previous(sel, len), len) == sel,
{
    if sel + 1 < len {
        vstd::arithmetic::div_mod::lemma_small_mod((sel + 1) as nat, len);
    } else {
        assert((sel + 1) % (len as int) == 0) by (nonlinear_arith)
            requires
                sel + 1 == len,
                len > 0,
        ;
    }
    if sel == 0 {
        assert((len as int) % (len as int) == 0) by (nonlinear_arith)
            requires
                len > 0,
        ;
    } else {
        vstd::arithmetic::div_mod::lemma_small_mod(sel as nat, len);
    }
}

} // verus!
