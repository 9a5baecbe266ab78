//! Key maps: which commands a key runs in each mode, and the trees of key sequences
//! after the leader key, `d` and `g`.
use vstd::prelude::*;
use crate::input::Key;
use crate::tags::{first_index, first_index_of};
use crate::text::{chars_eq, push_chars, str_eq, string_from_chars, sub_chars, to_chars};

verus! {

/// Why a key name could not be read.
#[derive(Debug, Clone, PartialEq, Eq)]
pub enum KeyParseError {
    /// No character names the key.
    InvalidKey(String),
    /// The part before `-` is neither `ctrl` nor `alt`.
    InvalidModifier(String),
}

/// A key name as plain values: the key, or why it does not read.
pub enum KeyName {
    Valid(Key),
    BadKey(Seq<char>),
    BadModifier(Seq<char>),
}

/// The keys that have a name of their own.
pub open spec fn keyword_key(s: Seq<char>) -> Option<Key> {
    if s == "space"@ {
        Some(Key::Char(' '))
    } else if s == "backspace"@ {
        Some(Key::Backspace)
    } else if s == "left"@ {
        Some(Key::Left)
    } else if s == "right"@ {
        Some(Key::Right)
    } else if s == "up"@ {
        Some(Key::Up)
    } else if s == "down"@ {
        Some(Key::Down)
    } else if s == "home"@ {
        Some(Key::Home)
    } else if s == "end"@ {
        Some(Key::End)
    } else if s == "page_up"@ {
        Some(Key::PageUp)
    } else if s == "page_down"@ {
        Some(Key::PageDown)
    } else if s == "delete"@ {
        Some(Key::Delete)
    } else if s == "insert"@ {
        Some(Key::Insert)
    } else if s == "escape"@ {
        Some(Key::Esc)
    } else if s == "tab"@ {
        Some(Key::Tab)
    } else if s == "enter"@ {
        Some(Key::Enter)
    } else if s == "f1"@ {
        Some(Key::F1)
    } else if s == "f2"@ {
        Some(Key::F2)
    } else if s == "f3"@ {
        Some(Key::F3)
    } else if s == "f4"@ {
        Some(Key::F4)
    } else if s == "f5"@ {
        Some(Key::F5)
    } else if s == "f6"@ {
        Some(Key::F6)
    } else if s == "f7"@ {
        Some(Key::F7)
    } else if s == "f8"@ {
        Some(Key::F8)
    } else if s == "f9"@ {
        Some(Key::F9)
    } else if s == "f10"@ {
        Some(Key::F10)
    } else if s == "f11"@ {
        Some(Key::F11)
    } else if s == "f12"@ {
        Some(Key::F12)
    } else if s == "_"@ {
        Some(Key::AnyChar)
    } else {
        None
    }
}

/// What a key name means: `ctrl-x` and `alt-x` for a modifier and the first character
/// after the first `-`; otherwise a key's own name, or the name's first character.
pub open spec fn key_name(s: Seq<char>) -> KeyName {
    let h = first_index_of(s, '-');
    if h >= 0 {
        let component = s.take(h);
        let rest = s.skip(h + 1);
        if rest.len() == 0 {
            KeyName::BadKey(rest)
        } else if component == "ctrl"@ {
            KeyName::Valid(Key::Ctrl(rest[0]))
        } else if component == "alt"@ {
            KeyName::Valid(Key::Alt(rest[0]))
        } else {
            KeyName::BadModifier(component)
        }
    } else {
        match keyword_key(s) {
            Some(k) => KeyName::Valid(k),
            None => if s.len() > 0 {
                KeyName::Valid(Key::Char(s[0]))
            } else {
                KeyName::BadKey(s)
            },
        }
    }
}

fn is_word(s: &Vec<char>, w: &str) -> (r: bool)
    ensures
        r == (s@ == w@),
{
    chars_eq(s, &to_chars(w))
}

fn keyword_exec(s: &Vec<char>) -> (r: Option<Key>)
    ensures
        r == keyword_key(s@),
{
    if is_word(s, "space") {
        Some(Key::Char(' '))
    } else if is_word(s, "backspace") {
        Some(Key::Backspace)
    } else if is_word(s, "left") {
        Some(Key::Left)
    } else if is_word(s, "right") {
        Some(Key::Right)
    } else if is_word(s, "up") {
        Some(Key::Up)
    } else if is_word(s, "down") {
        Some(Key::Down)
    } else if is_word(s, "home") {
        Some(Key::Home)
    } else if is_word(s, "end") {
        Some(Key::End)
    } else if is_word(s, "page_up") {
        Some(Key::PageUp)
    } else if is_word(s, "page_down") {
        Some(Key::PageDown)
    } else if is_word(s, "delete") {
        Some(Key::Delete)
    } else if is_word(s, "insert") {
        Some(Key::Insert)
    } else if is_word(s, "escape") {
        Some(Key::Esc)
    } else if is_word(s, "tab") {
        Some(Key::Tab)
    } else if is_word(s, "enter") {
        Some(Key::Enter)
    } else if is_word(s, "f1") {
        Some(Key::F1)
    } else if is_word(s, "f2") {
        Some(Key::F2)
    } else if is_word(s, "f3") {
        Some(Key::F3)
    } else if is_word(s, "f4") {
        Some(Key::F4)
    } else if is_word(s, "f5") {
        Some(Key::F5)
    } else if is_word(s, "f6") {
        Some(Key::F6)
    } else if is_word(s, "f7") {
        Some(Key::F7)
    } else if is_word(s, "f8") {
        Some(Key::F8)
    } else if is_word(s, "f9") {
        Some(Key::F9)
    } else if is_word(s, "f10") {
        Some(Key::F10)
    } else if is_word(s, "f11") {
        Some(Key::F11)
    } else if is_word(s, "f12") {
        Some(Key::F12)
    } else if is_word(s, "_") {
        Some(Key::AnyChar)
    } else {
        None
    }
}

/// Reads a key name such as `k`, `ctrl-r` or `page_up`.
pub fn parse_key(data: &str) -> (r: Result<Key, KeyParseError>)
    ensures
        match key_name(data@) {
            KeyName::Valid(k) => r == Ok::<Key, KeyParseError>(k),
            KeyName::BadKey(t) => r matches Err(KeyParseError::InvalidKey(s)) && s@ == t,
            KeyName::BadModifier(t) => r matches Err(KeyParseError::InvalidModifier(s)) && s@ == t,
        },
{
    let s = to_chars(data);
    match first_index(&s, '-') {
        Some(h) => {
            assert(h < s.len());
            let component = sub_chars(&s, 0, h);
            let rest = sub_chars(&s, h + 1, s.len());
            assert(component@ == s@.take(h as int));
            assert(rest@ == s@.skip(h + 1));
            if rest.len() == 0 {
                return Err(KeyParseError::InvalidKey(string_from_chars(rest)));
            }
            let c = rest[0];
            if is_word(&component, "ctrl") {
                Ok(Key::Ctrl(c))
            } else if is_word(&component, "alt") {
                Ok(Key::Alt(c))
            } else {
                Err(KeyParseError::InvalidModifier(string_from_chars(component)))
            }
        },
        None => match keyword_exec(&s) {
            Some(k) => Ok(k),
            None => {
                if s.len() > 0 {
                    Ok(Key::Char(s[0]))
                } else {
                    Err(KeyParseError::InvalidKey(string_from_chars(s)))
                }
            },
        },
    }
}

/// A node of a tree of key sequences: the commands a sequence runs, or the keys that
/// may follow it.
#[derive(Debug)]
pub enum LeaderNode {
    Command(Vec<String>),
    Subtree(Vec<(Key, LeaderNode)>),
}

/// What a sequence of keys reaches in a tree, as plain values.
pub enum Lookup {
    Found(Seq<Seq<char>>),
    Prefix,
    NoMatch,
}

/// What a sequence of keys reaches in a tree.
#[derive(Debug, Clone, PartialEq, Eq)]
pub enum LeaderLookup {
    /// The commands at the end of the sequence.
    Found(Vec<String>),
    /// The sequence leads further: wait for more keys.
    Prefix,
    /// No binding starts with the sequence.
    NoMatch,
}

pub open spec fn names_view(c: Vec<String>) -> Seq<Seq<char>> {
    c@.map_values(|s: String| s@)
}

pub open spec fn lookup_view(l: LeaderLookup) -> Lookup {
    match l {
        LeaderLookup::Found(c) => Lookup::Found(names_view(c)),
        LeaderLookup::Prefix => Lookup::Prefix,
        LeaderLookup::NoMatch => Lookup::NoMatch,
    }
}

/// Where key `k` is bound among `entries`: the last entry for it, or -1.
pub open spec fn entry_index<T>(entries: Seq<(Key, T)>, k: Key) -> int
    decreases entries.len(),
{
    if entries.len() == 0 {
        -1
    } else if entries.last().0 == k {
        entries.len() - 1
    } else {
        entry_index(entries.drop_last(), k)
    }
}

pub proof fn lemma_entry_index<T>(entries: Seq<(Key, T)>, k: Key)
    ensures
        -1 <= entry_index(entries, k) < entries.len(),
        entry_index(entries, k) >= 0 ==> entries[entry_index(entries, k)].0 == k,
        entry_index(entries, k) < 0 ==> forall|j: int| 0 <= j < entries.len() ==> #[trigger] entries[j].0 != k,
    decreases entries.len(),
{
    if entries.len() > 0 {
        lemma_entry_index(entries.drop_last(), k);
        assert forall|j: int| 0 <= j < entries.len() - 1 implies #[trigger] entries[j] == entries.drop_last()[j] by {}
    }
}

/// What the key sequence `keys` reaches in a tree: the commands of a leaf it ends on, a
/// subtree it ends in (or no keys at all), or no match.
pub open spec fn tree_lookup(entries: Seq<(Key, LeaderNode)>, keys: Seq<Key>) -> Lookup
    decreases keys.len(),
{
    if keys.len() == 0 {
        Lookup::Prefix
    } else {
        let j = entry_index(entries, keys[0]);
        if j < 0 {
            Lookup::NoMatch
        } else {
            match entries[j].1 {
                LeaderNode::Command(c) => if keys.len() == 1 {
                    Lookup::Found(names_view(c))
                } else {
                    Lookup::NoMatch
                },
                LeaderNode::Subtree(sub) => if keys.len() == 1 {
                    Lookup::Prefix
                } else {
                    tree_lookup(sub@, keys.skip(1))
                },
            }
        }
    }
}

fn find_entry<T>(entries: &Vec<(Key, T)>, k: Key) -> (r: Option<usize>)
    ensures
        match r {
            Some(j) => entry_index(entries@, k) == j as int,
            None => entry_index(entries@, k) == -1,
        },
{
    let mut i = entries.len();
    assert(entries@.take(i as int) =~= entries@);
    while i > 0
        invariant
            i <= entries@.len(),
            entry_index(entries@, k) == entry_index(entries@.take(i as int), k),
        decreases i,
    {
        assert(entries@.take(i as int).drop_last() =~= entries@.take(i - 1));
        if entries[i - 1].0 == k {
            return Some(i - 1);
        }
        i = i - 1;
    }
    None
}

/// A copy of a list of command names.
pub fn clone_names(c: &Vec<String>) -> (r: Vec<String>)
    ensures
        names_view(r) == names_view(*c),
{
    let mut r: Vec<String> = Vec::new();
    let mut i: usize = 0;
    while i < c.len()
        invariant
            i <= c@.len(),
            names_view(r) == names_view(*c).take(i as int),
        decreases c@.len() - i,
    {
        let ghost before = names_view(r);
        let s = c[i].clone();
        assert(s@ == c@[i as int]@);
        r.push(s);
        assert(names_view(r) =~= before.push(c@[i as int]@));
        i = i + 1;
        assert(names_view(r) =~= names_view(*c).take(i as int));
    }
    assert(names_view(*c).take(c@.len() as int) =~= names_view(*c));
    r
}

/// Walks a tree with a key sequence.
pub fn walk_tree(root: &Vec<(Key, LeaderNode)>, keys: &[Key]) -> (r: LeaderLookup)
    ensures
        lookup_view(r) == tree_lookup(root@, keys@),
{
    let mut current = root;
    let mut i: usize = 0;
    assert(keys@.skip(0) =~= keys@);
    while i < keys.len()
        invariant
            i <= keys@.len(),
            tree_lookup(root@, keys@) == tree_lookup(current@, keys@.skip(i as int)),
        decreases keys@.len() - i,
    {
        let k = keys[i];
        assert(keys@.skip(i as int)[0] == k);
        match find_entry(current, k) {
            None => return LeaderLookup::NoMatch,
            Some(j) => {
                proof {
                    lemma_entry_index(current@, k);
                }
                match &current[j].1 {
                    LeaderNode::Command(cmds) => {
                        if i == keys.len() - 1 {
                            return LeaderLookup::Found(clone_names(cmds));
                        } else {
                            return LeaderLookup::NoMatch;
                        }
                    },
                    LeaderNode::Subtree(sub) => {
                        if i == keys.len() - 1 {
                            return LeaderLookup::Prefix;
                        }
                        assert(keys@.skip(i as int).skip(1) =~= keys@.skip(i + 1));
                        current = sub;
                    },
                }
            },
        }
        i = i + 1;
    }
    assert(keys@.skip(i as int).len() == 0);
    LeaderLookup::Prefix
}

/// The bindings of one mode: keys and the commands each runs, the last binding of a
/// key counting.
pub type Bindings = Vec<(Key, Vec<String>)>;

/// Where mode `m` is among the modes: the last entry for it, or -1.
pub open spec fn mode_index(modes: Seq<(String, Bindings)>, m: Seq<char>) -> int
    decreases modes.len(),
{
    if modes.len() == 0 {
        -1
    } else if modes.last().0@ == m {
        modes.len() - 1
    } else {
        mode_index(modes.drop_last(), m)
    }
}

pub proof fn lemma_mode_index(modes: Seq<(String, Bindings)>, m: Seq<char>)
    ensures
        -1 <= mode_index(modes, m) < modes.len(),
        mode_index(modes, m) >= 0 ==> modes[mode_index(modes, m)].0@ == m,
        mode_index(modes, m) < 0 ==> forall|j: int| 0 <= j < modes.len() ==> (#[trigger] modes[j]).0@ != m,
    decreases modes.len(),
{
    if modes.len() > 0 {
        lemma_mode_index(modes.drop_last(), m);
        assert forall|j: int| 0 <= j < modes.len() - 1 implies #[trigger] modes[j] == modes.drop_last()[j] by {}
    }
}

/// The commands key `k` is bound to in bindings `b`, if any.
pub open spec fn bound(b: Seq<(Key, Vec<String>)>, k: Key) -> Option<Seq<Seq<char>>> {
    let i = entry_index(b, k);
    if i < 0 {
        None
    } else {
        Some(names_view(b[i].1))
    }
}

/// The commands key `k` is bound to in mode `m`, if any.
pub open spec fn mode_binding(modes: Seq<(String, Bindings)>, m: Seq<char>, k: Key) -> Option<Seq<Seq<char>>> {
    let j = mode_index(modes, m);
    if j < 0 {
        None
    } else {
        bound(modes[j].1@, k)
    }
}

/// The key bindings of every mode, and the trees after the leader key, `d` and `g`.
pub struct KeyMap {
    modes: Vec<(String, Bindings)>,
    leader: Vec<(Key, LeaderNode)>,
    pending_delete: Vec<(Key, LeaderNode)>,
    pending_g: Vec<(Key, LeaderNode)>,
}

pub open spec fn option_names(r: Option<Vec<String>>) -> Option<Seq<Seq<char>>> {
    match r {
        Some(v) => Some(names_view(v)),
        None => None,
    }
}

impl KeyMap {
    pub closed spec fn modes_view(&self) -> Seq<(String, Bindings)> {
        self.modes@
    }

    pub closed spec fn leader_tree(&self) -> Seq<(Key, LeaderNode)> {
        self.leader@
    }

    pub closed spec fn pending_delete_tree(&self) -> Seq<(Key, LeaderNode)> {
        self.pending_delete@
    }

    pub closed spec fn pending_g_tree(&self) -> Seq<(Key, LeaderNode)> {
        self.pending_g@
    }

    /// Whether the key map has bindings for mode `m`.
    pub open spec fn has_mode(&self, m: Seq<char>) -> bool {
        mode_index(self.modes_view(), m) >= 0
    }

    /// The commands key `k` is bound to in mode `m`, if any.
    pub open spec fn binding(&self, m: Seq<char>, k: Key) -> Option<Seq<Seq<char>>> {
        mode_binding(self.modes_view(), m, k)
    }

    /// What `commands_for` finds: the key's own binding, and for a character key
    /// without one, the binding of any character.
    pub open spec fn spec_commands_for(&self, m: Seq<char>, k: Key) -> Option<Seq<Seq<char>>> {
        match k {
            Key::Char(_) => match self.binding(m, k) {
                Some(c) => Some(c),
                None => self.binding(m, Key::AnyChar),
            },
            _ => self.binding(m, k),
        }
    }

    /// A key map with no bindings at all.
    pub fn new() -> (r: KeyMap)
        ensures
            r.modes_view().len() == 0,
            r.leader_tree().len() == 0,
            r.pending_delete_tree().len() == 0,
            r.pending_g_tree().len() == 0,
    {
        KeyMap { modes: Vec::new(), leader: Vec::new(), pending_delete: Vec::new(), pending_g: Vec::new() }
    }

    fn find_mode(&self, mode: &str) -> (r: Option<usize>)
        ensures
            match r {
                Some(j) => mode_index(self.modes@, mode@) == j as int,
                None => mode_index(self.modes@, mode@) == -1,
            },
    {
        let mut i = self.modes.len();
        assert(self.modes@.take(i as int) =~= self.modes@);
        while i > 0
            invariant
                i <= self.modes@.len(),
                mode_index(self.modes@, mode@) == mode_index(self.modes@.take(i as int), mode@),
            decreases i,
        {
            assert(self.modes@.take(i as int).drop_last() =~= self.modes@.take(i - 1));
            if crate::text::str_eq(self.modes[i - 1].0.as_str(), mode) {
                return Some(i - 1);
            }
            i = i - 1;
        }
        None
    }

    /// The commands that `key` runs in `mode`; a character key without a binding of its
    /// own falls back to the binding of any character.
    pub fn commands_for(&self, mode: &str, key: &Key) -> (r: Option<Vec<String>>)
        ensures
            option_names(r) == self.spec_commands_for(mode@, *key),
    {
        let j = match self.find_mode(mode) {
            Some(j) => j,
            None => return None,
        };
        proof {
            lemma_mode_index(self.modes@, mode@);
        }
        let bindings = &self.modes[j].1;
        let found = match find_entry(bindings, *key) {
            Some(i) => {
                proof {
                    lemma_entry_index(bindings@, *key);
                }
                Some(clone_names(&bindings[i].1))
            },
            None => None,
        };
        match key {
            Key::Char(_) => match found {
                Some(c) => Some(c),
                None => match find_entry(bindings, Key::AnyChar) {
                    Some(i) => {
                        proof {
                            lemma_entry_index(bindings@, Key::AnyChar);
                        }
                        Some(clone_names(&bindings[i].1))
                    },
                    None => None,
                },
            },
            _ => found,
        }
    }

    /// What the keys pressed after the leader key reach.
    pub fn leader_lookup(&self, keys: &[Key]) -> (r: LeaderLookup)
        ensures
            lookup_view(r) == tree_lookup(self.leader_tree(), keys@),
    {
        walk_tree(&self.leader, keys)
    }

    /// What the keys pressed after `g` reach.
    pub fn pending_g_lookup(&self, keys: &[Key]) -> (r: LeaderLookup)
        ensures
            lookup_view(r) == tree_lookup(self.pending_g_tree(), keys@),
    {
        walk_tree(&self.pending_g, keys)
    }

    /// What the keys pressed after `d` reach.
    pub fn pending_delete_lookup(&self, keys: &[Key]) -> (r: LeaderLookup)
        ensures
            lookup_view(r) == tree_lookup(self.pending_delete_tree(), keys@),
    {
        walk_tree(&self.pending_delete, keys)
    }
}

/// A later binding of a key hides an earlier one.
pub proof fn lemma_bound_append(a: Seq<(Key, Vec<String>)>, b: Seq<(Key, Vec<String>)>, k: Key)
    ensures
        bound(a + b, k) == match bound(b, k) {
            Some(c) => Some(c),
            None => bound(a, k),
        },
    decreases b.len(),
{
    if b.len() == 0 {
        assert(a + b =~= a);
    } else {
        let ab = a + b;
        assert(ab.drop_last() =~= a + b.drop_last());
        assert(ab.last() == b.last());
        lemma_bound_append(a, b.drop_last(), k);
        if b.last().0 != k {
            assert(entry_index(ab, k) == entry_index(a + b.drop_last(), k));
            assert(entry_index(b, k) == entry_index(b.drop_last(), k));
            lemma_entry_index(a + b.drop_last(), k);
            lemma_entry_index(b.drop_last(), k);
            let i = entry_index(ab, k);
            if i >= 0 {
                assert(ab[i] == (a + b.drop_last())[i]);
            }
            let jb = entry_index(b, k);
            if jb >= 0 {
                assert(b[jb] == b.drop_last()[jb]);
            }
        }
    }
}

/// The bindings of base entry `j` after merging the first `i` entries of `other`: the
/// bindings of the last of them for the same mode follow, if `j` is the base's last
/// entry for that mode.
pub open spec fn merged_bindings(base: Seq<(String, Bindings)>, other: Seq<(String, Bindings)>, i: int, j: int) -> Seq<(Key, Vec<String>)> {
    let m = base[j].0@;
    let t = mode_index(other, m);
    if 0 <= t < i && mode_index(base, m) == j {
        base[j].1@ + other[t].1@
    } else {
        base[j].1@
    }
}

/// Whether an entry of `entries` from `from` on names mode `name`.
fn later_mode(entries: &Vec<(String, Bindings)>, from: usize, name: &str) -> (r: bool)
    ensures
        r == exists|t: int| from <= t < entries@.len() && (#[trigger] entries@[t]).0@ == name@,
{
    let mut t = from;
    while t < entries.len()
        invariant
            from <= t,
            forall|u: int| from <= u < t && u < entries@.len() ==> (#[trigger] entries@[u]).0@ != name@,
        decreases entries@.len() - t,
    {
        if crate::text::str_eq(entries[t].0.as_str(), name) {
            assert(entries@[t as int].0@ == name@);
            return true;
        }
        t = t + 1;
    }
    false
}

/// Mode lists with the same names find a mode at the same place.
proof fn lemma_names_same_index(a: Seq<(String, Bindings)>, b: Seq<(String, Bindings)>)
    requires
        a.len() == b.len(),
        forall|j: int| 0 <= j < a.len() ==> (#[trigger] a[j]).0@ == b[j].0@,
    ensures
        forall|m: Seq<char>| #[trigger] mode_index(a, m) == mode_index(b, m),
    decreases a.len(),
{
    if a.len() > 0 {
        assert forall|j: int| 0 <= j < a.len() - 1 implies (#[trigger] a.drop_last()[j]).0@ == b.drop_last()[j].0@ by {
            assert(a.drop_last()[j] == a[j]);
            assert(b.drop_last()[j] == b[j]);
        }
        lemma_names_same_index(a.drop_last(), b.drop_last());
        assert(a.last().0@ == b.last().0@) by {
            assert(a[a.len() - 1].0@ == b[a.len() - 1].0@);
        }
        assert forall|m: Seq<char>| #[trigger] mode_index(a, m) == mode_index(b, m) by {
            assert(mode_index(a.drop_last(), m) == mode_index(b.drop_last(), m));
        }
    }
}

/// The last entry for a mode is no earlier than any entry for it.
proof fn lemma_mode_index_at_least(s: Seq<(String, Bindings)>, m: Seq<char>, t: int)
    requires
        0 <= t < s.len(),
        s[t].0@ == m,
    ensures
        mode_index(s, m) >= t,
    decreases s.len(),
{
    if t < s.len() - 1 && s.last().0@ != m {
        assert(s.drop_last()[t] == s[t]);
        lemma_mode_index_at_least(s.drop_last(), m, t);
    }
}

/// An entry no later entry shares a mode with is the last for that mode.
proof fn lemma_mode_index_last(s: Seq<(String, Bindings)>, m: Seq<char>, i: int)
    requires
        0 <= i < s.len(),
        s[i].0@ == m,
        forall|t: int| i < t < s.len() ==> (#[trigger] s[t]).0@ != m,
    ensures
        mode_index(s, m) == i,
    decreases s.len(),
{
    if s.len() - 1 > i {
        assert forall|t: int| i < t < s.len() - 1 implies (#[trigger] s.drop_last()[t]).0@ != m by {
            assert(s.drop_last()[t] == s[t]);
        }
        lemma_mode_index_last(s.drop_last(), m, i);
    }
}

impl KeyMap {
    /// Takes over the other map's bindings for the modes this one has, a key bound in
    /// both running the other map's commands; modes this one lacks are left out.
    fn merge_modes(&mut self, other: Vec<(String, Bindings)>)
        ensures
            final(self).modes_view().len() == old(self).modes_view().len(),
            forall|j: int| 0 <= j < old(self).modes_view().len() ==> (#[trigger] final(self).modes_view()[j]).0@
                == old(self).modes_view()[j].0@ && final(self).modes_view()[j].1@ == merged_bindings(
                old(self).modes_view(),
                other@,
                other@.len() as int,
                j,
            ),
            final(self).leader_tree() == old(self).leader_tree(),
            final(self).pending_delete_tree() == old(self).pending_delete_tree(),
            final(self).pending_g_tree() == old(self).pending_g_tree(),
    {
        let ghost base0 = self.modes@;
        let ghost om = other@;
        let mut rest = other;
        let n = rest.len();
        let mut i: usize = 0;
        while i < n
            invariant
                i <= n,
                n == om.len(),
                rest@.len() == n,
                forall|t: int| i <= t < n ==> #[trigger] rest@[t] == om[t],
                self.modes@.len() == base0.len(),
                forall|j: int| 0 <= j < base0.len() ==> (#[trigger] self.modes@[j]).0@ == base0[j].0@
                    && self.modes@[j].1@ == merged_bindings(base0, om, i as int, j),
                self.leader@ == old(self).leader@,
                self.pending_delete@ == old(self).pending_delete@,
                self.pending_g@ == old(self).pending_g@,
            decreases n - i,
        {
            let mut entry: (String, Bindings) = (String::new(), Vec::new());
            rest.set_and_swap(i, &mut entry);
            assert(entry == om[i as int]);
            let later = later_mode(&rest, i + 1, entry.0.as_str());
            proof {
                lemma_names_same_index(self.modes@, base0);
                lemma_mode_index(base0, entry.0@);
                lemma_mode_index(om, entry.0@);
                if !later {
                    assert forall|t: int| i < t < om.len() implies (#[trigger] om[t]).0@ != entry.0@ by {
                        assert(rest@[t] == om[t]);
                    }
                    lemma_mode_index_last(om, entry.0@, i as int);
                }
            }
            if !later {
                match self.find_mode(entry.0.as_str()) {
                    Some(j) => {
                        let ghost before = self.modes@;
                        let mut slot: (String, Bindings) = (String::new(), Vec::new());
                        self.modes.set_and_swap(j, &mut slot);
                        let (name, mut list) = slot;
                        let (_, mut extra) = entry;
                        list.append(&mut extra);
                        self.modes.set(j, (name, list));
                        proof {
                            assert forall|jj: int| 0 <= jj < base0.len() implies (#[trigger] self.modes@[jj]).0@ == base0[jj].0@
                                && self.modes@[jj].1@ == merged_bindings(base0, om, i + 1, jj) by {
                                lemma_mode_index(om, base0[jj].0@);
                                lemma_mode_index(base0, base0[jj].0@);
                                if jj != j {
                                    assert(self.modes@[jj] == before[jj]);
                                    if base0[jj].0@ == om[i as int].0@ {
                                        assert(mode_index(base0, base0[jj].0@) == j);
                                    }
                                }
                            }
                        }
                    },
                    None => {
                        proof {
                            assert forall|jj: int| 0 <= jj < base0.len() implies (#[trigger] self.modes@[jj]).0@ == base0[jj].0@
                                && self.modes@[jj].1@ == merged_bindings(base0, om, i + 1, jj) by {
                                lemma_mode_index(om, base0[jj].0@);
                                assert(base0[jj].0@ != om[i as int].0@);
                            }
                        }
                    },
                }
            } else {
                proof {
                    assert forall|jj: int| 0 <= jj < base0.len() implies (#[trigger] self.modes@[jj]).0@ == base0[jj].0@
                        && self.modes@[jj].1@ == merged_bindings(base0, om, i + 1, jj) by {
                        lemma_mode_index(om, base0[jj].0@);
                        if base0[jj].0@ == om[i as int].0@ {
                            let t = choose|t: int| i + 1 <= t < rest@.len() && (#[trigger] rest@[t]).0@ == entry.0@;
                            assert(rest@[t] == om[t]);
                            lemma_mode_index_at_least(om, entry.0@, t);
                            assert(mode_index(om, base0[jj].0@) > i);
                        }
                    }
                }
            }
            i = i + 1;
        }
    }
}

/// What key sequence `ks` reaches once overlay node `node`, bound to `ks[0]`, has been
/// merged into `base`: a leaf of the overlay wins; a subtree of the overlay merges into a
/// subtree of the base, or takes the place of whatever the base had.
pub open spec fn merged_at(base: Seq<(Key, LeaderNode)>, node: LeaderNode, ks: Seq<Key>) -> Lookup
    decreases ks.len(), 0int,
{
    match node {
        LeaderNode::Command(c) => if ks.len() == 1 {
            Lookup::Found(names_view(c))
        } else {
            Lookup::NoMatch
        },
        LeaderNode::Subtree(os) => if ks.len() <= 1 {
            Lookup::Prefix
        } else {
            let jb = entry_index(base, ks[0]);
            if jb >= 0 {
                match base[jb].1 {
                    LeaderNode::Subtree(bs) => merged_lookup(bs@, os@, ks.skip(1)),
                    LeaderNode::Command(_) => tree_lookup(os@, ks.skip(1)),
                }
            } else {
                tree_lookup(os@, ks.skip(1))
            }
        },
    }
}

/// What key sequence `ks` reaches in the tree `base` with `overlay` merged into it.
pub open spec fn merged_lookup(base: Seq<(Key, LeaderNode)>, overlay: Seq<(Key, LeaderNode)>, ks: Seq<Key>) -> Lookup
    decreases ks.len(), 1int,
{
    if ks.len() == 0 {
        Lookup::Prefix
    } else {
        let jo = entry_index(overlay, ks[0]);
        if jo < 0 {
            tree_lookup(base, ks)
        } else {
            merged_at(base, overlay[jo].1, ks)
        }
    }
}

/// A lookup only sees the entry for the first key.
proof fn lemma_lookup_same_entry(a: Seq<(Key, LeaderNode)>, b: Seq<(Key, LeaderNode)>, ks: Seq<Key>)
    requires
        ks.len() > 0,
        entry_index(a, ks[0]) == -1 <==> entry_index(b, ks[0]) == -1,
        entry_index(a, ks[0]) >= 0 ==> a[entry_index(a, ks[0])] == b[entry_index(b, ks[0])],
    ensures
        tree_lookup(a, ks) == tree_lookup(b, ks),
{
    lemma_entry_index(a, ks[0]);
    lemma_entry_index(b, ks[0]);
}

/// Adding an entry for another key leaves a key's entry where it was.
proof fn lemma_entry_index_push<T>(s: Seq<(Key, T)>, e: (Key, T), k: Key)
    ensures
        e.0 != k ==> entry_index(s.push(e), k) == entry_index(s, k),
        e.0 == k ==> entry_index(s.push(e), k) == s.len(),
{
    assert(s.push(e).drop_last() =~= s);
}

/// Replacing an entry by one for the same key leaves every key's entry where it was.
proof fn lemma_entry_index_update<T>(s: Seq<(Key, T)>, j: int, e: (Key, T), k: Key)
    requires
        0 <= j < s.len(),
        s[j].0 == e.0,
    ensures
        entry_index(s.update(j, e), k) == entry_index(s, k),
    decreases s.len(),
{
    let u = s.update(j, e);
    if j < s.len() - 1 {
        assert(u.drop_last() =~= s.drop_last().update(j, e));
        lemma_entry_index_update(s.drop_last(), j, e, k);
    } else {
        assert(u.drop_last() =~= s.drop_last());
    }
}

/// Whether an entry of `entries` from `from` on binds key `k`.
fn later_key(entries: &Vec<(Key, LeaderNode)>, from: usize, k: Key) -> (r: bool)
    ensures
        r == exists|t: int| from <= t < entries@.len() && (#[trigger] entries@[t]).0 == k,
{
    let mut t = from;
    while t < entries.len()
        invariant
            from <= t,
            forall|u: int| from <= u < t && u < entries@.len() ==> (#[trigger] entries@[u]).0 != k,
        decreases entries@.len() - t,
    {
        if entries[t].0 == k {
            return true;
        }
        t = t + 1;
    }
    false
}

proof fn lemma_entry_index_last<T>(s: Seq<(Key, T)>, k: Key, i: int)
    requires
        0 <= i < s.len(),
        s[i].0 == k,
        forall|t: int| i < t < s.len() ==> (#[trigger] s[t]).0 != k,
    ensures
        entry_index(s, k) == i,
    decreases s.len(),
{
    if s.len() - 1 > i {
        assert forall|t: int| i < t < s.len() - 1 implies (#[trigger] s.drop_last()[t]).0 != k by {
            assert(s.drop_last()[t] == s[t]);
        }
        lemma_entry_index_last(s.drop_last(), k, i);
    }
}

proof fn lemma_entry_index_at_least<T>(s: Seq<(Key, T)>, k: Key, t: int)
    requires
        0 <= t < s.len(),
        s[t].0 == k,
    ensures
        entry_index(s, k) >= t,
    decreases s.len(),
{
    if t < s.len() - 1 && s.last().0 != k {
        assert(s.drop_last()[t] == s[t]);
        lemma_entry_index_at_least(s.drop_last(), k, t);
    }
}

/// The loop facts of a tree merge after `i` entries of the overlay: keys whose overlay
/// entry is still to come keep the base's entry, and keys already merged look up as
/// the merge says.
pub open spec fn merge_progress(base0: Seq<(Key, LeaderNode)>, ov: Seq<(Key, LeaderNode)>, cur: Seq<(Key, LeaderNode)>, i: int) -> bool {
    &&& forall|k: Key| {
        let jo = #[trigger] entry_index(ov, k);
        (jo < 0 || jo >= i) ==> entry_index(cur, k) == entry_index(base0, k) && (entry_index(base0, k) >= 0
            ==> cur[entry_index(cur, k)] == base0[entry_index(base0, k)])
    }
    &&& forall|ks: Seq<Key>| ks.len() > 0 && 0 <= entry_index(ov, ks[0]) < i ==> #[trigger] tree_lookup(cur, ks)
        == merged_at(base0, ov[entry_index(ov, ks[0])].1, ks)
}

/// Adding the overlay's last entry for `k` (its `i`-th) at the end of the tree.
proof fn lemma_step_push(
    base0: Seq<(Key, LeaderNode)>,
    ov: Seq<(Key, LeaderNode)>,
    before: Seq<(Key, LeaderNode)>,
    after: Seq<(Key, LeaderNode)>,
    i: int,
    k: Key,
)
    requires
        0 <= i < ov.len(),
        entry_index(ov, k) == i,
        merge_progress(base0, ov, before, i),
        after == before.push((k, ov[i].1)),
        ov[i].1 is Subtree ==> entry_index(base0, k) < 0,
    ensures
        merge_progress(base0, ov, after, i + 1),
{
    lemma_entry_index(ov, k);
    assert(entry_index(before, k) == entry_index(base0, k));
    assert forall|k2: Key| {
        let jo = #[trigger] entry_index(ov, k2);
        (jo < 0 || jo >= i + 1) ==> entry_index(after, k2) == entry_index(base0, k2) && (entry_index(base0, k2) >= 0
            ==> after[entry_index(after, k2)] == base0[entry_index(base0, k2)])
    } by {
        lemma_entry_index_push(before, (k, ov[i].1), k2);
        lemma_entry_index(before, k2);
    }
    assert forall|ks: Seq<Key>| ks.len() > 0 && 0 <= entry_index(ov, ks[0]) < i + 1 implies #[trigger] tree_lookup(after, ks)
        == merged_at(base0, ov[entry_index(ov, ks[0])].1, ks) by {
        lemma_entry_index_push(before, (k, ov[i].1), ks[0]);
        lemma_entry_index(before, ks[0]);
        lemma_entry_index(after, ks[0]);
        lemma_entry_index(ov, ks[0]);
        if ks[0] != k {
            assert(entry_index(ov, ks[0]) < i);
            lemma_lookup_same_entry(after, before, ks);
        } else {
            assert(after[entry_index(after, k)] == (k, ov[i].1));
        }
    }
}

/// Putting a node for the overlay's last entry for `k` (its `i`-th) in place of the
/// base's entry `jb` for `k`.
proof fn lemma_step_set(
    base0: Seq<(Key, LeaderNode)>,
    ov: Seq<(Key, LeaderNode)>,
    before: Seq<(Key, LeaderNode)>,
    after: Seq<(Key, LeaderNode)>,
    i: int,
    jb: int,
    k: Key,
    node: LeaderNode,
)
    requires
        0 <= i < ov.len(),
        entry_index(ov, k) == i,
        merge_progress(base0, ov, before, i),
        entry_index(before, k) == jb,
        jb >= 0,
        after == before.update(jb, (k, node)),
        forall|ks: Seq<Key>| ks.len() > 0 && ks[0] == k ==> #[trigger] tree_lookup(after, ks) == merged_at(base0, ov[i].1, ks),
    ensures
        merge_progress(base0, ov, after, i + 1),
{
    lemma_entry_index(ov, k);
    lemma_entry_index(before, k);
    assert forall|k2: Key| {
        let jo = #[trigger] entry_index(ov, k2);
        (jo < 0 || jo >= i + 1) ==> entry_index(after, k2) == entry_index(base0, k2) && (entry_index(base0, k2) >= 0
            ==> after[entry_index(after, k2)] == base0[entry_index(base0, k2)])
    } by {
        lemma_entry_index_update(before, jb, (k, node), k2);
        lemma_entry_index(before, k2);
    }
    assert forall|ks: Seq<Key>| ks.len() > 0 && 0 <= entry_index(ov, ks[0]) < i + 1 implies #[trigger] tree_lookup(after, ks)
        == merged_at(base0, ov[entry_index(ov, ks[0])].1, ks) by {
        if ks[0] != k {
            lemma_entry_index(ov, ks[0]);
            assert(entry_index(ov, ks[0]) < i);
            lemma_entry_index_update(before, jb, (k, node), ks[0]);
            lemma_entry_index(before, ks[0]);
            lemma_lookup_same_entry(after, before, ks);
        }
    }
}

/// Merges the tree `overlay` into `base`, deeply: a leaf of the overlay replaces what
/// the base binds its key to, and a subtree merges into a subtree of the base or
/// replaces a leaf.
pub fn merge_tree(base: &mut Vec<(Key, LeaderNode)>, overlay: Vec<(Key, LeaderNode)>)
    ensures
        forall|ks: Seq<Key>| #[trigger] tree_lookup(final(base)@, ks) == merged_lookup(old(base)@, overlay@, ks),
    decreases overlay,
{
    let ghost base0 = base@;
    let ghost ov = overlay@;
    let mut rest = overlay;
    let n = rest.len();
    let mut i: usize = 0;
    while i < n
        invariant
            i <= n,
            n == ov.len(),
            rest@.len() == n,
            ov == overlay@,
            forall|t: int| i <= t < n ==> #[trigger] rest@[t] == ov[t],
            merge_progress(base0, ov, base@, i as int),
        decreases n - i,
    {
        let mut entry: (Key, LeaderNode) = (Key::Esc, LeaderNode::Command(Vec::new()));
        rest.set_and_swap(i, &mut entry);
        assert(entry == ov[i as int]);
        let k = entry.0;
        let later = later_key(&rest, i + 1, k);
        if later {
            proof {
                let t = choose|t: int| i + 1 <= t < rest@.len() && (#[trigger] rest@[t]).0 == k;
                assert(rest@[t] == ov[t]);
                lemma_entry_index_at_least(ov, k, t);
                assert forall|ks: Seq<Key>| ks.len() > 0 && 0 <= entry_index(ov, ks[0]) < i + 1 implies #[trigger] tree_lookup(base@, ks)
                    == merged_at(base0, ov[entry_index(ov, ks[0])].1, ks) by {
                    lemma_entry_index(ov, ks[0]);
                }
            }
        } else {
            proof {
                assert forall|t: int| i < t < ov.len() implies (#[trigger] ov[t]).0 != k by {
                    assert(rest@[t] == ov[t]);
                }
                lemma_entry_index_last(ov, k, i as int);
            }
            let ghost before = base@;
            let (_, node) = entry;
            match node {
                LeaderNode::Command(c) => {
                    base.push((k, LeaderNode::Command(c)));
                    proof {
                        lemma_step_push(base0, ov, before, base@, i as int, k);
                    }
                },
                LeaderNode::Subtree(os) => {
                    match find_entry(base, k) {
                        Some(jb) => {
                            proof {
                                lemma_entry_index(base@, k);
                            }
                            let mut slot: (Key, LeaderNode) = (Key::Esc, LeaderNode::Command(Vec::new()));
                            base.set_and_swap(jb, &mut slot);
                            let (sk, old_node) = slot;
                            match old_node {
                                LeaderNode::Subtree(mut bs) => {
                                    proof {
                                        assert(decreases_to!(overlay => overlay@));
                                        assert(decreases_to!(overlay@ => overlay@[i as int]));
                                        assert(decreases_to!(overlay@[i as int] => overlay@[i as int].1));
                                    }
                                    let ghost bs0 = bs@;
                                    let ghost os0 = os@;
                                    merge_tree(&mut bs, os);
                                    base.set(jb, (sk, LeaderNode::Subtree(bs)));
                                    proof {
                                        lemma_entry_index(before, k);
                                        let node = base@[jb as int].1;
                                        assert(base@ == before.update(jb as int, (k, node)));
                                        lemma_entry_index_update(before, jb as int, (k, node), k);
                                        assert forall|ks: Seq<Key>| ks.len() > 0 && ks[0] == k implies #[trigger] tree_lookup(base@, ks)
                                            == merged_at(base0, ov[i as int].1, ks) by {
                                            if ks.len() > 1 {
                                                assert(tree_lookup(bs@, ks.skip(1)) == merged_lookup(bs0, os0, ks.skip(1)));
                                            }
                                        }
                                        lemma_step_set(base0, ov, before, base@, i as int, jb as int, k, node);
                                    }
                                },
                                LeaderNode::Command(_) => {
                                    base.set(jb, (sk, LeaderNode::Subtree(os)));
                                    proof {
                                        lemma_entry_index(before, k);
                                        let node = base@[jb as int].1;
                                        assert(base@ == before.update(jb as int, (k, node)));
                                        lemma_entry_index_update(before, jb as int, (k, node), k);
                                        lemma_step_set(base0, ov, before, base@, i as int, jb as int, k, node);
                                    }
                                },
                            }
                        },
                        None => {
                            base.push((k, LeaderNode::Subtree(os)));
                            proof {
                                lemma_step_push(base0, ov, before, base@, i as int, k);
                            }
                        },
                    }
                },
            }
        }
        i = i + 1;
    }
    proof {
        assert forall|ks: Seq<Key>| #[trigger] tree_lookup(base@, ks) == merged_lookup(base0, ov, ks) by {
            if ks.len() > 0 {
                lemma_entry_index(ov, ks[0]);
                if entry_index(ov, ks[0]) < 0 {
                    lemma_entry_index(base0, ks[0]);
                    lemma_lookup_same_entry(base@, base0, ks);
                }
            }
        }
    }
}

impl KeyMap {
    /// Merges another key map into this one: for the modes this map has, the other
    /// map's key bindings win (modes only the other map has are left out); the trees
    /// after the leader key, `d` and `g` are merged deeply.
    pub fn merge(&mut self, other: KeyMap)
        ensures
            forall|m: Seq<char>| #[trigger] final(self).has_mode(m) == old(self).has_mode(m),
            forall|m: Seq<char>, k: Key| #[trigger] final(self).binding(m, k) == if old(self).has_mode(m) && other.binding(m, k) is Some {
                other.binding(m, k)
            } else {
                old(self).binding(m, k)
            },
            forall|ks: Seq<Key>| #[trigger] tree_lookup(final(self).leader_tree(), ks) == merged_lookup(old(self).leader_tree(), other.leader_tree(), ks),
            forall|ks: Seq<Key>| #[trigger] tree_lookup(final(self).pending_delete_tree(), ks) == merged_lookup(old(self).pending_delete_tree(), other.pending_delete_tree(), ks),
            forall|ks: Seq<Key>| #[trigger] tree_lookup(final(self).pending_g_tree(), ks) == merged_lookup(old(self).pending_g_tree(), other.pending_g_tree(), ks),
    {
        let ghost base0 = self.modes@;
        let ghost om = other.modes@;
        let KeyMap { modes, leader, pending_delete, pending_g } = other;
        self.merge_modes(modes);
        merge_tree(&mut self.leader, leader);
        merge_tree(&mut self.pending_delete, pending_delete);
        merge_tree(&mut self.pending_g, pending_g);
        proof {
            assert forall|j: int| 0 <= j < self.modes@.len() implies (#[trigger] self.modes@[j]).0@ == base0[j].0@ by {}
            lemma_names_same_index(self.modes@, base0);
            assert forall|m: Seq<char>, k: Key| #[trigger] mode_binding(self.modes@, m, k) == if mode_index(base0, m) >= 0 && mode_binding(om, m, k) is Some {
                mode_binding(om, m, k)
            } else {
                mode_binding(base0, m, k)
            } by {
                lemma_mode_index(base0, m);
                lemma_mode_index(om, m);
                let j = mode_index(base0, m);
                if j >= 0 {
                    let t = mode_index(om, m);
                    if t >= 0 {
                        lemma_bound_append(base0[j].1@, om[t].1@, k);
                    }
                }
            }
        }
    }
}

/// A YAML value, as much of it as a key map reads.
#[derive(Debug)]
pub enum YamlNode {
    Text(String),
    List(Vec<YamlNode>),
    Mapping(Vec<(YamlNode, YamlNode)>),
    /// A number, a boolean, null or anything else.
    Other,
}

/// What is wrong with a binding.
#[derive(Debug, Clone, PartialEq, Eq)]
pub enum BindingFault {
    /// The bindings (or a tree node) are not a map.
    NotMap,
    /// A key is not text.
    KeyNotText,
    /// A key name does not read.
    Key(KeyParseError),
    /// A command that the editor does not have.
    UnknownCommand(String),
    /// A list of commands holds something other than text.
    CommandNotText,
    /// A binding is neither a command, a list of commands, nor (in a tree) a map.
    BadCommand,
}

/// Why a key map could not be read.
#[derive(Debug, Clone, PartialEq, Eq)]
pub enum KeyMapError {
    /// A mode name is not text.
    ModeNotText,
    /// The bindings of a mode.
    InMode(String, BindingFault),
    /// The tree after the leader key, `d` or `g`.
    InTree(BindingFault),
}

/// A binding fault as plain values.
pub enum Fault {
    NotMap,
    KeyNotText,
    BadKey(Seq<char>),
    BadModifier(Seq<char>),
    UnknownCommand(Seq<char>),
    CommandNotText,
    BadCommand,
}

pub open spec fn fault_view(f: BindingFault) -> Fault {
    match f {
        BindingFault::NotMap => Fault::NotMap,
        BindingFault::KeyNotText => Fault::KeyNotText,
        BindingFault::Key(KeyParseError::InvalidKey(s)) => Fault::BadKey(s@),
        BindingFault::Key(KeyParseError::InvalidModifier(s)) => Fault::BadModifier(s@),
        BindingFault::UnknownCommand(s) => Fault::UnknownCommand(s@),
        BindingFault::CommandNotText => Fault::CommandNotText,
        BindingFault::BadCommand => Fault::BadCommand,
    }
}

/// The commands a list names, each one the editor has; the first fault otherwise.
pub open spec fn list_commands(items: Seq<YamlNode>, known: Seq<Seq<char>>) -> Result<Seq<Seq<char>>, Fault>
    decreases items.len(),
{
    if items.len() == 0 {
        Ok(Seq::empty())
    } else {
        match list_commands(items.drop_last(), known) {
            Err(f) => Err(f),
            Ok(cs) => match items.last() {
                YamlNode::Text(c) => if known.contains(c@) {
                    Ok(cs.push(c@))
                } else {
                    Err(Fault::UnknownCommand(c@))
                },
                _ => Err(Fault::CommandNotText),
            },
        }
    }
}

/// The commands a binding names: one command, or a list of them.
pub open spec fn node_commands(n: YamlNode, known: Seq<Seq<char>>) -> Result<Seq<Seq<char>>, Fault> {
    match n {
        YamlNode::Text(c) => if known.contains(c@) {
            Ok(seq![c@])
        } else {
            Err(Fault::UnknownCommand(c@))
        },
        YamlNode::List(items) => list_commands(items@, known),
        _ => Err(Fault::BadCommand),
    }
}

/// The key a binding's key names.
pub open spec fn node_key(n: YamlNode) -> Result<Key, Fault> {
    match n {
        YamlNode::Text(s) => match key_name(s@) {
            KeyName::Valid(k) => Ok(k),
            KeyName::BadKey(t) => Err(Fault::BadKey(t)),
            KeyName::BadModifier(t) => Err(Fault::BadModifier(t)),
        },
        _ => Err(Fault::KeyNotText),
    }
}

/// The bindings of a mode, in order; the first fault otherwise.
pub open spec fn mode_entries(es: Seq<(YamlNode, YamlNode)>, known: Seq<Seq<char>>) -> Result<Seq<(Key, Seq<Seq<char>>)>, Fault>
    decreases es.len(),
{
    if es.len() == 0 {
        Ok(Seq::empty())
    } else {
        match mode_entries(es.drop_last(), known) {
            Err(f) => Err(f),
            Ok(bs) => match node_key(es.last().0) {
                Err(f) => Err(f),
                Ok(k) => match node_commands(es.last().1, known) {
                    Err(f) => Err(f),
                    Ok(cs) => Ok(bs.push((k, cs))),
                },
            },
        }
    }
}

pub open spec fn bindings_view(b: Seq<(Key, Vec<String>)>) -> Seq<(Key, Seq<Seq<char>>)> {
    b.map_values(|e: (Key, Vec<String>)| (e.0, names_view(e.1)))
}

fn read_commands(n: &YamlNode, known: &Vec<String>) -> (r: Result<Vec<String>, BindingFault>)
    ensures
        match node_commands(*n, known@.map_values(|s: String| s@)) {
            Ok(cs) => r matches Ok(v) && names_view(v) == cs,
            Err(f) => r matches Err(e) && fault_view(e) == f,
        },
{
    let ghost kv = known@.map_values(|s: String| s@);
    match n {
        YamlNode::Text(c) => {
            if is_known(known, c.as_str()) {
                let mut v: Vec<String> = Vec::new();
                v.push(c.clone());
                assert(names_view(v) =~= seq![c@]);
                Ok(v)
            } else {
                Err(BindingFault::UnknownCommand(c.clone()))
            }
        },
        YamlNode::List(items) => {
            let mut v: Vec<String> = Vec::new();
            let mut i: usize = 0;
            assert(items@.take(0) =~= Seq::<YamlNode>::empty());
            assert(names_view(v) =~= Seq::<Seq<char>>::empty());
            while i < items.len()
                invariant
                    i <= items@.len(),
                    *n == YamlNode::List(*items),
                    kv == known@.map_values(|s: String| s@),
                    list_commands(items@.take(i as int), kv) == Ok::<Seq<Seq<char>>, Fault>(names_view(v)),
                decreases items@.len() - i,
            {
                assert(items@.take(i + 1).drop_last() =~= items@.take(i as int));
                match &items[i] {
                    YamlNode::Text(c) => {
                        if !is_known(known, c.as_str()) {
                            proof {
                                lemma_list_stops(items@, kv, i as int + 1);
                            }
                            return Err(BindingFault::UnknownCommand(c.clone()));
                        }
                        let ghost before = names_view(v);
                        v.push(c.clone());
                        assert(names_view(v) =~= before.push(c@));
                    },
                    _ => {
                        proof {
                            lemma_list_stops(items@, kv, i as int + 1);
                        }
                        return Err(BindingFault::CommandNotText);
                    },
                }
                i = i + 1;
            }
            assert(items@.take(items@.len() as int) =~= items@);
            Ok(v)
        },
        _ => Err(BindingFault::BadCommand),
    }
}

/// Once a list item is at fault, the later ones do not matter.
proof fn lemma_list_stops(items: Seq<YamlNode>, known: Seq<Seq<char>>, k: int)
    requires
        0 <= k <= items.len(),
        list_commands(items.take(k), known) is Err,
    ensures
        list_commands(items, known) == list_commands(items.take(k), known),
    decreases items.len() - k,
{
    if k < items.len() {
        assert(items.take(k + 1).drop_last() =~= items.take(k));
        lemma_list_stops(items, known, k + 1);
    } else {
        assert(items.take(k) =~= items);
    }
}

/// Whether the editor has a command of this name.
fn is_known(known: &Vec<String>, name: &str) -> (r: bool)
    ensures
        r == known@.map_values(|s: String| s@).contains(name@),
{
    let ghost kv = known@.map_values(|s: String| s@);
    let mut i: usize = 0;
    while i < known.len()
        invariant
            i <= known@.len(),
            kv == known@.map_values(|s: String| s@),
            forall|j: int| 0 <= j < i ==> kv[j] != name@,
        decreases known@.len() - i,
    {
        if crate::text::str_eq(known[i].as_str(), name) {
            assert(kv[i as int] == name@);
            return true;
        }
        i = i + 1;
    }
    false
}

fn read_key(n: &YamlNode) -> (r: Result<Key, BindingFault>)
    ensures
        match node_key(*n) {
            Ok(k) => r == Ok::<Key, BindingFault>(k),
            Err(f) => r matches Err(e) && fault_view(e) == f,
        },
{
    match n {
        YamlNode::Text(s) => match parse_key(s.as_str()) {
            Ok(k) => Ok(k),
            Err(e) => Err(BindingFault::Key(e)),
        },
        _ => Err(BindingFault::KeyNotText),
    }
}

fn read_bindings(n: &YamlNode, known: &Vec<String>) -> (r: Result<Bindings, BindingFault>)
    ensures
        match *n {
            YamlNode::Mapping(es) => match mode_entries(es@, known@.map_values(|s: String| s@)) {
                Ok(bs) => r matches Ok(b) && bindings_view(b@) == bs,
                Err(f) => r matches Err(e) && fault_view(e) == f,
            },
            _ => r == Err::<Bindings, BindingFault>(BindingFault::NotMap),
        },
{
    let ghost kv = known@.map_values(|s: String| s@);
    match n {
        YamlNode::Mapping(es) => {
            let mut b: Bindings = Vec::new();
            let mut i: usize = 0;
            assert(es@.take(0) =~= Seq::<(YamlNode, YamlNode)>::empty());
            assert(bindings_view(b@) =~= Seq::<(Key, Seq<Seq<char>>)>::empty());
            while i < es.len()
                invariant
                    i <= es@.len(),
                    *n == YamlNode::Mapping(*es),
                    kv == known@.map_values(|s: String| s@),
                    mode_entries(es@.take(i as int), kv) == Ok::<Seq<(Key, Seq<Seq<char>>)>, Fault>(bindings_view(b@)),
                decreases es@.len() - i,
            {
                assert(es@.take(i + 1).drop_last() =~= es@.take(i as int));
                assert(es@.take(i + 1).last() == es@[i as int]);
                let k = match read_key(&es[i].0) {
                    Ok(k) => k,
                    Err(e) => {
                        proof {
                            lemma_mode_entries_stop(es@, kv, i as int + 1);
                        }
                        return Err(e);
                    },
                };
                let cmds = match read_commands(&es[i].1, known) {
                    Ok(c) => c,
                    Err(e) => {
                        proof {
                            lemma_mode_entries_stop(es@, kv, i as int + 1);
                        }
                        return Err(e);
                    },
                };
                let ghost before = bindings_view(b@);
                let ghost cv = names_view(cmds);
                b.push((k, cmds));
                assert(bindings_view(b@) =~= before.push((k, cv)));
                i = i + 1;
            }
            assert(es@.take(es@.len() as int) =~= es@);
            Ok(b)
        },
        _ => Err(BindingFault::NotMap),
    }
}

proof fn lemma_mode_entries_stop(es: Seq<(YamlNode, YamlNode)>, known: Seq<Seq<char>>, k: int)
    requires
        0 <= k <= es.len(),
        mode_entries(es.take(k), known) is Err,
    ensures
        mode_entries(es, known) == mode_entries(es.take(k), known),
    decreases es.len() - k,
{
    if k < es.len() {
        assert(es.take(k + 1).drop_last() =~= es.take(k));
        lemma_mode_entries_stop(es, known, k + 1);
    } else {
        assert(es.take(k) =~= es);
    }
}

/// The first fault of a tree's entries, read in order, each subtree where it comes.
pub open spec fn tree_fault(es: Seq<(YamlNode, YamlNode)>, known: Seq<Seq<char>>) -> Option<Fault>
    decreases es,
{
    if es.len() == 0 {
        None
    } else {
        match tree_fault(es.drop_last(), known) {
            Some(f) => Some(f),
            None => match node_key(es.last().0) {
                Err(f) => Some(f),
                Ok(_) => match es.last().1 {
                    YamlNode::Mapping(sub) => tree_fault(sub@, known),
                    YamlNode::Other => Some(Fault::BadCommand),
                    y => match node_commands(y, known) {
                        Err(f) => Some(f),
                        Ok(_) => None,
                    },
                },
            },
        }
    }
}

/// Whether tree `t` is what the entries `es` describe: one entry each, in order, with
/// the key each names, and a leaf of its commands or the subtree its map describes.
pub open spec fn tree_built(t: Seq<(Key, LeaderNode)>, es: Seq<(YamlNode, YamlNode)>, known: Seq<Seq<char>>) -> bool
    decreases es,
{
    &&& t.len() == es.len()
    &&& es.len() > 0 ==> {
        &&& tree_built(t.drop_last(), es.drop_last(), known)
        &&& node_key(es.last().0) == Ok::<Key, Fault>(t.last().0)
        &&& match es.last().1 {
            YamlNode::Mapping(sub) => match t.last().1 {
                LeaderNode::Subtree(st) => tree_built(st@, sub@, known),
                LeaderNode::Command(_) => false,
            },
            y => match t.last().1 {
                LeaderNode::Command(c) => node_commands(y, known) == Ok::<Seq<Seq<char>>, Fault>(names_view(c)),
                LeaderNode::Subtree(_) => false,
            },
        }
    }
}

proof fn lemma_tree_stop(es: Seq<(YamlNode, YamlNode)>, known: Seq<Seq<char>>, k: int)
    requires
        0 <= k <= es.len(),
        tree_fault(es.take(k), known) is Some,
    ensures
        tree_fault(es, known) == tree_fault(es.take(k), known),
    decreases es.len() - k,
{
    if k < es.len() {
        assert(es.take(k + 1).drop_last() =~= es.take(k));
        lemma_tree_stop(es, known, k + 1);
    } else {
        assert(es.take(k) =~= es);
    }
}

fn read_tree(n: &YamlNode, known: &Vec<String>) -> (r: Result<Vec<(Key, LeaderNode)>, BindingFault>)
    ensures
        match *n {
            YamlNode::Mapping(es) => match tree_fault(es@, known@.map_values(|s: String| s@)) {
                None => r matches Ok(t) && tree_built(t@, es@, known@.map_values(|s: String| s@)),
                Some(f) => r matches Err(e) && fault_view(e) == f,
            },
            _ => r == Err::<Vec<(Key, LeaderNode)>, BindingFault>(BindingFault::NotMap),
        },
    decreases n,
{
    let ghost kv = known@.map_values(|s: String| s@);
    match n {
        YamlNode::Mapping(es) => {
            let mut t: Vec<(Key, LeaderNode)> = Vec::new();
            let mut i: usize = 0;
            assert(es@.take(0) =~= Seq::<(YamlNode, YamlNode)>::empty());
            while i < es.len()
                invariant
                    i <= es@.len(),
                    *n == YamlNode::Mapping(*es),
                    kv == known@.map_values(|s: String| s@),
                    tree_fault(es@.take(i as int), kv) is None,
                    tree_built(t@, es@.take(i as int), kv),
                decreases es@.len() - i,
            {
                let ghost upto = es@.take(i + 1);
                assert(upto.drop_last() =~= es@.take(i as int));
                assert(upto.last() == es@[i as int]);
                let k = match read_key(&es[i].0) {
                    Ok(k) => k,
                    Err(e) => {
                        proof {
                            lemma_tree_stop(es@, kv, i as int + 1);
                        }
                        return Err(e);
                    },
                };
                let node = match &es[i].1 {
                    YamlNode::Mapping(_) => {
                        proof {
                            assert(decreases_to!(*n => *es));
                            assert(decreases_to!(*es => es@));
                            assert(decreases_to!(es@ => es@[i as int]));
                            assert(decreases_to!(es@[i as int] => es@[i as int].1));
                        }
                        match read_tree(&es[i].1, known) {
                            Ok(sub) => LeaderNode::Subtree(sub),
                            Err(e) => {
                                proof {
                                    lemma_tree_stop(es@, kv, i as int + 1);
                                }
                                return Err(e);
                            },
                        }
                    },
                    YamlNode::Other => {
                        proof {
                            lemma_tree_stop(es@, kv, i as int + 1);
                        }
                        return Err(BindingFault::BadCommand);
                    },
                    _ => match read_commands(&es[i].1, known) {
                        Ok(c) => LeaderNode::Command(c),
                        Err(e) => {
                            proof {
                                lemma_tree_stop(es@, kv, i as int + 1);
                            }
                            return Err(e);
                        },
                    },
                };
                let ghost before = t@;
                t.push((k, node));
                proof {
                    assert(t@.drop_last() =~= before);
                }
                i = i + 1;
            }
            assert(es@.take(es@.len() as int) =~= es@);
            Ok(t)
        },
        _ => Err(BindingFault::NotMap),
    }
}

/// Why a key map does not read, as plain values.
pub enum MapFault {
    ModeNotText,
    InMode(Seq<char>, Fault),
    InTree(Fault),
}

pub open spec fn error_view(e: KeyMapError) -> MapFault {
    match e {
        KeyMapError::ModeNotText => MapFault::ModeNotText,
        KeyMapError::InMode(m, f) => MapFault::InMode(m@, fault_view(f)),
        KeyMapError::InTree(f) => MapFault::InTree(fault_view(f)),
    }
}

/// The modes whose bindings are trees rather than single keys.
pub open spec fn is_tree_mode(m: Seq<char>) -> bool {
    m == "leader"@ || m == "pending_delete"@ || m == "pending_g"@
}

/// The first fault of a key map document, its modes read in order.
pub open spec fn doc_fault(doc: Seq<(YamlNode, YamlNode)>, known: Seq<Seq<char>>) -> Option<MapFault>
    decreases doc.len(),
{
    if doc.len() == 0 {
        None
    } else {
        match doc_fault(doc.drop_last(), known) {
            Some(f) => Some(f),
            None => match doc.last().0 {
                YamlNode::Text(m) => if is_tree_mode(m@) {
                    match doc.last().1 {
                        YamlNode::Mapping(es) => match tree_fault(es@, known) {
                            Some(f) => Some(MapFault::InTree(f)),
                            None => None,
                        },
                        _ => Some(MapFault::InTree(Fault::NotMap)),
                    }
                } else {
                    match doc.last().1 {
                        YamlNode::Mapping(es) => match mode_entries(es@, known) {
                            Err(f) => Some(MapFault::InMode(m@, f)),
                            Ok(_) => None,
                        },
                        _ => Some(MapFault::InMode(m@, Fault::NotMap)),
                    }
                },
                _ => Some(MapFault::ModeNotText),
            },
        }
    }
}

/// The modes a key map document binds single keys in, in order, with their bindings.
pub open spec fn doc_modes(doc: Seq<(YamlNode, YamlNode)>, known: Seq<Seq<char>>) -> Seq<(Seq<char>, Seq<(Key, Seq<Seq<char>>)>)>
    decreases doc.len(),
{
    if doc.len() == 0 {
        Seq::empty()
    } else {
        let before = doc_modes(doc.drop_last(), known);
        match (doc.last().0, doc.last().1) {
            (YamlNode::Text(m), YamlNode::Mapping(es)) => if is_tree_mode(m@) {
                before
            } else {
                match mode_entries(es@, known) {
                    Ok(bs) => before.push((m@, bs)),
                    Err(_) => before,
                }
            },
            _ => before,
        }
    }
}

/// The entries of the last tree of mode `name` in a key map document (none without one).
pub open spec fn doc_tree(doc: Seq<(YamlNode, YamlNode)>, name: Seq<char>) -> Seq<(YamlNode, YamlNode)>
    decreases doc.len(),
{
    if doc.len() == 0 {
        Seq::empty()
    } else {
        match (doc.last().0, doc.last().1) {
            (YamlNode::Text(m), YamlNode::Mapping(es)) => if m@ == name {
                es@
            } else {
                doc_tree(doc.drop_last(), name)
            },
            _ => doc_tree(doc.drop_last(), name),
        }
    }
}

pub open spec fn modes_plain(modes: Seq<(String, Bindings)>) -> Seq<(Seq<char>, Seq<(Key, Seq<Seq<char>>)>)> {
    modes.map_values(|e: (String, Bindings)| (e.0@, bindings_view(e.1@)))
}

proof fn lemma_doc_stop(doc: Seq<(YamlNode, YamlNode)>, known: Seq<Seq<char>>, k: int)
    requires
        0 <= k <= doc.len(),
        doc_fault(doc.take(k), known) is Some,
    ensures
        doc_fault(doc, known) == doc_fault(doc.take(k), known),
    decreases doc.len() - k,
{
    if k < doc.len() {
        assert(doc.take(k + 1).drop_last() =~= doc.take(k));
        lemma_doc_stop(doc, known, k + 1);
    } else {
        assert(doc.take(k) =~= doc);
    }
}

impl KeyMap {
    /// Reads a key map document: for each mode, in order, the key bindings (a key name
    /// and a command or a list of commands, each one in `known`); for the modes
    /// `leader`, `pending_delete` and `pending_g`, a tree of key sequences. The first
    /// fault stops the reading.
    pub fn from(doc: &Vec<(YamlNode, YamlNode)>, known: &Vec<String>) -> (r: Result<KeyMap, KeyMapError>)
        ensures
            ({
                let kv = known@.map_values(|s: String| s@);
                match doc_fault(doc@, kv) {
                    Some(f) => r matches Err(e) && error_view(e) == f,
                    None => r matches Ok(km) && modes_plain(km.modes_view()) == doc_modes(doc@, kv)
                        && tree_built(km.leader_tree(), doc_tree(doc@, "leader"@), kv)
                        && tree_built(km.pending_delete_tree(), doc_tree(doc@, "pending_delete"@), kv)
                        && tree_built(km.pending_g_tree(), doc_tree(doc@, "pending_g"@), kv),
                }
            }),
    {
        let ghost kv = known@.map_values(|s: String| s@);
        let mut km = KeyMap::new();
        let mut i: usize = 0;
        proof {
            assert(doc@.take(0) =~= Seq::<(YamlNode, YamlNode)>::empty());
            assert(modes_plain(km.modes@) =~= Seq::<(Seq<char>, Seq<(Key, Seq<Seq<char>>)>)>::empty());
        }
        while i < doc.len()
            invariant
                i <= doc@.len(),
                kv == known@.map_values(|s: String| s@),
                doc_fault(doc@.take(i as int), kv) is None,
                modes_plain(km.modes@) == doc_modes(doc@.take(i as int), kv),
                tree_built(km.leader@, doc_tree(doc@.take(i as int), "leader"@), kv),
                tree_built(km.pending_delete@, doc_tree(doc@.take(i as int), "pending_delete"@), kv),
                tree_built(km.pending_g@, doc_tree(doc@.take(i as int), "pending_g"@), kv),
            decreases doc@.len() - i,
        {
            let ghost upto = doc@.take(i + 1);
            assert(upto.drop_last() =~= doc@.take(i as int));
            assert(upto.last() == doc@[i as int]);
            let mode = match &doc[i].0 {
                YamlNode::Text(m) => m,
                _ => {
                    proof {
                        lemma_doc_stop(doc@, kv, i as int + 1);
                    }
                    return Err(KeyMapError::ModeNotText);
                },
            };
            let is_leader = crate::text::str_eq(mode.as_str(), "leader");
            let is_delete = crate::text::str_eq(mode.as_str(), "pending_delete");
            let is_g = crate::text::str_eq(mode.as_str(), "pending_g");
            if is_leader || is_delete || is_g {
                let tree = match read_tree(&doc[i].1, known) {
                    Ok(t) => t,
                    Err(e) => {
                        proof {
                            lemma_doc_stop(doc@, kv, i as int + 1);
                        }
                        return Err(KeyMapError::InTree(e));
                    },
                };
                proof {
                    reveal_strlit("leader");
                    reveal_strlit("pending_delete");
                    reveal_strlit("pending_g");
                }
                proof {
                    assert("leader"@.len() == 6);
                    assert("pending_delete"@.len() == 14);
                    assert("pending_g"@.len() == 9);
                    assert(doc_tree(upto, mode@) == match doc@[i as int].1 {
                        YamlNode::Mapping(es) => es@,
                        _ => doc_tree(doc@.take(i as int), mode@),
                    });
                }
                if is_leader {
                    km.leader = tree;
                    assert(doc_tree(upto, "pending_delete"@) == doc_tree(doc@.take(i as int), "pending_delete"@));
                    assert(doc_tree(upto, "pending_g"@) == doc_tree(doc@.take(i as int), "pending_g"@));
                } else if is_delete {
                    km.pending_delete = tree;
                    assert(doc_tree(upto, "leader"@) == doc_tree(doc@.take(i as int), "leader"@));
                    assert(doc_tree(upto, "pending_g"@) == doc_tree(doc@.take(i as int), "pending_g"@));
                } else {
                    km.pending_g = tree;
                    assert(doc_tree(upto, "leader"@) == doc_tree(doc@.take(i as int), "leader"@));
                    assert(doc_tree(upto, "pending_delete"@) == doc_tree(doc@.take(i as int), "pending_delete"@));
                }
            } else {
                let b = match read_bindings(&doc[i].1, known) {
                    Ok(b) => b,
                    Err(e) => {
                        proof {
                            lemma_doc_stop(doc@, kv, i as int + 1);
                        }
                        return Err(KeyMapError::InMode(mode.clone(), e));
                    },
                };
                let ghost before = modes_plain(km.modes@);
                let ghost entry = (mode@, bindings_view(b@));
                km.modes.push((mode.clone(), b));
                assert(modes_plain(km.modes@) =~= before.push(entry));
            }
            i = i + 1;
        }
        assert(doc@.take(doc@.len() as int) =~= doc@);
        Ok(km)
    }
}

/// Merging an empty tree into a tree leaves every lookup as it was.
pub proof fn law_merge_empty_overlay(base: Seq<(Key, LeaderNode)>, ks: Seq<Key>)
    ensures
        merged_lookup(base, Seq::empty(), ks) == tree_lookup(base, ks),
{
}

/// Merging a tree into an empty tree gives the merged tree's lookups.
pub proof fn law_merge_into_empty(overlay: Seq<(Key, LeaderNode)>, ks: Seq<Key>)
    ensures
        merged_lookup(Seq::empty(), overlay, ks) == tree_lookup(overlay, ks),
{
    if ks.len() > 0 {
        lemma_entry_index(overlay, ks[0]);
    }
}

/// A leaf of the overlay always wins over what the base binds the same key to.
pub proof fn law_overlay_leaf_wins(base: Seq<(Key, LeaderNode)>, overlay: Seq<(Key, LeaderNode)>, k: Key)
    requires
        entry_index(overlay, k) >= 0,
        overlay[entry_index(overlay, k)].1 is Command,
    ensures
        merged_lookup(base, overlay, seq![k]) == tree_lookup(overlay, seq![k]),
{
}

/// What `char::to_uppercase` gives for a character (one or more characters).
pub uninterp spec fn uppercase(c: char) -> Seq<char>;

/// `char::to_uppercase`, collected.
#[verifier::external_body]
fn char_to_uppercase(c: char) -> (r: Vec<char>)
    ensures
        r@ == uppercase(c),
{
    c.to_uppercase().collect()
}

/// Where the last `::` of `s` starts, looking at its first `n` characters; -1 if none.
pub open spec fn last_separator(s: Seq<char>, n: int) -> int
    decreases n,
{
    if n < 2 {
        -1
    } else if s[n - 2] == ':' && s[n - 1] == ':' {
        n - 2
    } else {
        last_separator(s, n - 1)
    }
}

/// A command's name without its module: what follows its last `::`.
pub open spec fn bare_name(name: Seq<char>) -> Seq<char> {
    let i = last_separator(name, name.len() as int);
    if i < 0 {
        name
    } else {
        name.skip(i + 2)
    }
}

/// What the `i`th character of a snake-case name becomes in words: a space for `_`,
/// the uppercase form of a word's first character, else itself.
pub open spec fn title_piece(s: Seq<char>, i: int) -> Seq<char> {
    if s[i] == '_' {
        seq![' ']
    } else if i == 0 || s[i - 1] == '_' {
        uppercase(s[i])
    } else {
        seq![s[i]]
    }
}

/// The first `n` characters of a snake-case name as words, each capitalised.
pub open spec fn title_words(s: Seq<char>, n: int) -> Seq<char>
    decreases n,
{
    if n <= 0 {
        Seq::empty()
    } else {
        title_words(s, n - 1) + title_piece(s, n - 1)
    }
}

/// How a command is shown to the user: `cursor::move_up` as `Move Up`.
pub open spec fn command_title(name: Seq<char>) -> Seq<char> {
    let b = bare_name(name);
    title_words(b, b.len() as int)
}

/// Commands that run along with others and say nothing of what a key does.
pub open spec fn is_housekeeping(name: Seq<char>) -> bool {
    name == "application::switch_to_normal_mode"@ || name == "view::scroll_to_cursor"@
        || name == "application::handle_input"@ || name == "application::switch_to_insert_mode"@
}

/// The titles of the commands that are not housekeeping, in order.
pub open spec fn primary_titles(names: Seq<Seq<char>>) -> Seq<Seq<char>>
    decreases names.len(),
{
    if names.len() == 0 {
        Seq::empty()
    } else if is_housekeeping(names.last()) {
        primary_titles(names.drop_last())
    } else {
        primary_titles(names.drop_last()).push(command_title(names.last()))
    }
}

/// `→` between neighbours.
pub open spec fn arrow_separator() -> Seq<char> {
    seq![' ', '\u{2192}', ' ']
}

/// Texts joined with ` → `.
pub open spec fn join_arrows(parts: Seq<Seq<char>>) -> Seq<char>
    decreases parts.len(),
{
    if parts.len() == 0 {
        Seq::empty()
    } else if parts.len() == 1 {
        parts[0]
    } else {
        join_arrows(parts.drop_last()) + arrow_separator() + parts.last()
    }
}

/// What a key's commands are described as: the titles of those that are not
/// housekeeping, joined by arrows; when all are housekeeping, the title of the first.
pub open spec fn describe_commands(names: Seq<Seq<char>>) -> Seq<char> {
    let p = primary_titles(names);
    if p.len() == 0 {
        if names.len() == 0 {
            Seq::empty()
        } else {
            command_title(names[0])
        }
    } else {
        join_arrows(p)
    }
}

/// What a key that ends a sequence is described as.
pub open spec fn cancel_text() -> Seq<char> {
    seq!['C', 'a', 'n', 'c', 'e', 'l']
}

/// What a key that leads further into a tree is described as.
pub open spec fn more_text() -> Seq<char> {
    seq!['\u{2026}']
}

/// The hints for the first `n` bindings of a mode: each key bound last at its place,
/// but the binding of any character, with what its commands do (`Cancel` for escape);
/// keys whose description is empty are left out.
pub open spec fn binding_hints(b: Seq<(Key, Vec<String>)>, n: int) -> Seq<(Key, Seq<char>)>
    decreases n,
{
    if n <= 0 {
        Seq::empty()
    } else {
        let prev = binding_hints(b, n - 1);
        let k = b[n - 1].0;
        if entry_index(b, k) != n - 1 || k == Key::AnyChar {
            prev
        } else if k == Key::Esc {
            prev.push((k, cancel_text()))
        } else {
            let d = describe_commands(names_view(b[n - 1].1));
            if d.len() == 0 {
                prev
            } else {
                prev.push((k, d))
            }
        }
    }
}

/// The hints for the first `n` entries of a tree: as for bindings, and `…` for a key
/// that leads to a subtree.
pub open spec fn node_hints(t: Seq<(Key, LeaderNode)>, n: int) -> Seq<(Key, Seq<char>)>
    decreases n,
{
    if n <= 0 {
        Seq::empty()
    } else {
        let prev = node_hints(t, n - 1);
        let k = t[n - 1].0;
        if entry_index(t, k) != n - 1 || k == Key::AnyChar {
            prev
        } else if k == Key::Esc {
            prev.push((k, cancel_text()))
        } else {
            match t[n - 1].1 {
                LeaderNode::Subtree(_) => prev.push((k, more_text())),
                LeaderNode::Command(c) => {
                    let d = describe_commands(names_view(c));
                    if d.len() == 0 {
                        prev
                    } else {
                        prev.push((k, d))
                    }
                },
            }
        }
    }
}

/// The subtree that a key sequence leads to, when every key of it names a subtree.
pub open spec fn subtree_at(t: Seq<(Key, LeaderNode)>, keys: Seq<Key>) -> Option<Seq<(Key, LeaderNode)>>
    decreases keys.len(),
{
    if keys.len() == 0 {
        Some(t)
    } else {
        let j = entry_index(t, keys[0]);
        if j < 0 {
            None
        } else {
            match t[j].1 {
                LeaderNode::Subtree(sub) => subtree_at(sub@, keys.skip(1)),
                LeaderNode::Command(_) => None,
            }
        }
    }
}

/// The hints shown after a key sequence in a tree: those of the subtree it leads to,
/// none when it leads nowhere.
pub open spec fn tree_hints(t: Seq<(Key, LeaderNode)>, keys: Seq<Key>) -> Seq<(Key, Seq<char>)> {
    match subtree_at(t, keys) {
        Some(sub) => node_hints(sub, sub.len() as int),
        None => Seq::empty(),
    }
}

pub open spec fn hints_view(r: Vec<(Key, String)>) -> Seq<(Key, Seq<char>)> {
    r@.map_values(|e: (Key, String)| (e.0, e.1@))
}

/// A command's name as the user reads it.
pub fn format_command_name(name: &str) -> (r: String)
    ensures
        r@ == command_title(name@),
{
    let s = to_chars(name);
    let mut n = s.len();
    while n >= 2 && !(s[n - 2] == ':' && s[n - 1] == ':')
        invariant
            n <= s@.len(),
            last_separator(s@, s@.len() as int) == last_separator(s@, n as int),
        decreases n,
    {
        n = n - 1;
    }
    let start: usize = if n >= 2 { n } else { 0 };
    let ghost i = last_separator(s@, s@.len() as int);
    assert(start == 0 ==> i < 0);
    assert(start > 0 ==> i == start - 2);
    let b = sub_chars(&s, start, s.len());
    assert(b@ == bare_name(name@)) by {
        if i < 0 {
            assert(b@ =~= s@);
        }
    }
    let mut out: Vec<char> = Vec::new();
    let mut k: usize = 0;
    while k < b.len()
        invariant
            k <= b@.len(),
            out@ == title_words(b@, k as int),
        decreases b@.len() - k,
    {
        let c = b[k];
        if c == '_' {
            out.push(' ');
        } else if k == 0 || b[k - 1] == '_' {
            let up = char_to_uppercase(c);
            push_chars(&mut out, &up);
        } else {
            out.push(c);
        }
        k = k + 1;
    }
    string_from_chars(out)
}

/// Whether a command is one that only accompanies others.
pub fn is_housekeeping_command(name: &str) -> (r: bool)
    ensures
        r == is_housekeeping(name@),
{
    str_eq(name, "application::switch_to_normal_mode") || str_eq(name, "view::scroll_to_cursor")
        || str_eq(name, "application::handle_input") || str_eq(name, "application::switch_to_insert_mode")
}

/// What a list of commands is described as.
pub fn describe(cmds: &Vec<String>) -> (r: Vec<char>)
    ensures
        r@ == describe_commands(names_view(*cmds)),
{
    let ghost names = names_view(*cmds);
    let mut count: usize = 0;
    let mut out: Vec<char> = Vec::new();
    let mut i: usize = 0;
    while i < cmds.len()
        invariant
            i <= cmds@.len(),
            names == names_view(*cmds),
            count <= i,
            count == primary_titles(names.take(i as int)).len(),
            out@ == join_arrows(primary_titles(names.take(i as int))),
        decreases cmds@.len() - i,
    {
        assert(names.take(i + 1).drop_last() =~= names.take(i as int));
        assert(names.take(i + 1).last() == cmds@[i as int]@);
        if !is_housekeeping_command(cmds[i].as_str()) {
            let title = format_command_name(cmds[i].as_str());
            let t = to_chars(title.as_str());
            if count > 0 {
                out.push(' ');
                out.push('\u{2192}');
                out.push(' ');
            }
            push_chars(&mut out, &t);
            proof {
                let p = primary_titles(names.take(i + 1));
                assert(p.drop_last() == primary_titles(names.take(i as int)));
                if count > 0 {
                    assert(p.len() >= 2);
                }
            }
            count = count + 1;
        }
        i = i + 1;
    }
    assert(names.take(cmds@.len() as int) =~= names);
    if count == 0 && cmds.len() > 0 {
        let title = format_command_name(cmds[0].as_str());
        return to_chars(title.as_str());
    }
    out
}

/// The hint for one key, when it has one.
fn key_hint(k: Key, cmds: &Vec<String>) -> (r: Option<(Key, String)>)
    requires
        k != Key::AnyChar,
    ensures
        match r {
            Some(e) => e.0 == k && e.1@ == (if k == Key::Esc { cancel_text() } else { describe_commands(names_view(*cmds)) })
                && e.1@.len() > 0,
            None => k != Key::Esc && describe_commands(names_view(*cmds)).len() == 0,
        },
{
    if k == Key::Esc {
        let text = string_from_chars(vec!['C', 'a', 'n', 'c', 'e', 'l']);
        assert(text@ == cancel_text());
        return Some((k, text));
    }
    let d = describe(cmds);
    if d.len() == 0 {
        None
    } else {
        Some((k, string_from_chars(d)))
    }
}

/// The hints for the entries of a tree.
fn node_hint_list(t: &Vec<(Key, LeaderNode)>) -> (r: Vec<(Key, String)>)
    ensures
        hints_view(r) == node_hints(t@, t@.len() as int),
{
    let mut r: Vec<(Key, String)> = Vec::new();
    let mut i: usize = 0;
    while i < t.len()
        invariant
            i <= t@.len(),
            hints_view(r) == node_hints(t@, i as int),
        decreases t@.len() - i,
    {
        let ghost before = hints_view(r);
        let k = t[i].0;
        let own = match find_entry(t, k) {
            Some(j) => j == i,
            None => false,
        };
        if own && k != Key::AnyChar {
            if k == Key::Esc {
                let text = string_from_chars(vec!['C', 'a', 'n', 'c', 'e', 'l']);
                assert(text@ == cancel_text());
                r.push((k, text));
                assert(hints_view(r) =~= before.push((k, cancel_text())));
            } else {
                match &t[i].1 {
                    LeaderNode::Subtree(_) => {
                        let text = string_from_chars(vec!['\u{2026}']);
                        assert(text@ == more_text());
                        r.push((k, text));
                        assert(hints_view(r) =~= before.push((k, more_text())));
                    },
                    LeaderNode::Command(cmds) => {
                        match key_hint(k, cmds) {
                            Some(e) => {
                                r.push(e);
                                assert(hints_view(r) =~= before.push((k, describe_commands(names_view(*cmds)))));
                            },
                            None => {},
                        }
                    },
                }
            }
        }
        i = i + 1;
    }
    r
}

/// The hints shown after a key sequence in a tree.
fn tree_hint_list(root: &Vec<(Key, LeaderNode)>, keys: &[Key]) -> (r: Vec<(Key, String)>)
    ensures
        hints_view(r) == tree_hints(root@, keys@),
{
    let mut current = root;
    let mut i: usize = 0;
    assert(keys@.skip(0) =~= keys@);
    while i < keys.len()
        invariant
            i <= keys@.len(),
            subtree_at(root@, keys@) == subtree_at(current@, keys@.skip(i as int)),
        decreases keys@.len() - i,
    {
        let k = keys[i];
        assert(keys@.skip(i as int)[0] == k);
        match find_entry(current, k) {
            None => return Vec::new(),
            Some(j) => {
                proof {
                    lemma_entry_index(current@, k);
                }
                match &current[j].1 {
                    LeaderNode::Command(_) => return Vec::new(),
                    LeaderNode::Subtree(sub) => {
                        assert(keys@.skip(i as int).skip(1) =~= keys@.skip(i + 1));
                        current = sub;
                    },
                }
            },
        }
        i = i + 1;
    }
    assert(keys@.skip(i as int).len() == 0);
    node_hint_list(current)
}

impl KeyMap {
    /// The hints for a mode: its keys and what each does, in the order they were bound.
    pub fn which_key_entries(&self, mode: &str) -> (r: Vec<(Key, String)>)
        ensures
            hints_view(r) == (if self.has_mode(mode@) {
                binding_hints(self.modes_view()[mode_index(self.modes_view(), mode@)].1@,
                    self.modes_view()[mode_index(self.modes_view(), mode@)].1@.len() as int)
            } else {
                Seq::empty()
            }),
    {
        let j = match self.find_mode(mode) {
            Some(j) => j,
            None => return Vec::new(),
        };
        proof {
            lemma_mode_index(self.modes@, mode@);
        }
        let b = &self.modes[j].1;
        let mut r: Vec<(Key, String)> = Vec::new();
        let mut i: usize = 0;
        while i < b.len()
            invariant
                i <= b@.len(),
                hints_view(r) == binding_hints(b@, i as int),
            decreases b@.len() - i,
        {
            let ghost before = hints_view(r);
            let k = b[i].0;
            let own = match find_entry(b, k) {
                Some(x) => x == i,
                None => false,
            };
            if own && k != Key::AnyChar {
                match key_hint(k, &b[i].1) {
                    Some(e) => {
                        r.push(e);
                        assert(hints_view(r) =~= before.push(
                            (k, if k == Key::Esc { cancel_text() } else { describe_commands(names_view(b@[i as int].1)) }),
                        ));
                    },
                    None => {},
                }
            }
            i = i + 1;
        }
        r
    }

    /// The hints after the leader key and the keys pressed since.
    pub fn which_key_leader_entries(&self, keys: &[Key]) -> (r: Vec<(Key, String)>)
        ensures
            hints_view(r) == tree_hints(self.leader_tree(), keys@),
    {
        tree_hint_list(&self.leader, keys)
    }

    /// The hints after `g` and the keys pressed since.
    pub fn which_key_pending_g_entries(&self, keys: &[Key]) -> (r: Vec<(Key, String)>)
        ensures
            hints_view(r) == tree_hints(self.pending_g_tree(), keys@),
    {
        tree_hint_list(&self.pending_g, keys)
    }

    /// The hints after `d` and the keys pressed since.
    pub fn which_key_pending_delete_entries(&self, keys: &[Key]) -> (r: Vec<(Key, String)>)
        ensures
            hints_view(r) == tree_hints(self.pending_delete_tree(), keys@),
    {
        tree_hint_list(&self.pending_delete, keys)
    }
}

/// Declares `yaml_rust::Yaml`, the value `YamlLoader` reads, for the wrapper below.
#[verifier::external_type_specification]
#[verifier::external_body]
pub struct ExYaml(yaml_rust::Yaml);

/// The top-level mapping of the first document of a YAML text, as `yaml_rust` reads
/// it, in the order its entries are written: `None` when the text does not parse, has
/// no document, or its first document is not a mapping.
pub uninterp spec fn yaml_mapping(text: Seq<char>) -> Option<Seq<(YamlNode, YamlNode)>>;

/// A `yaml_rust::Yaml` value as a `YamlNode`: text, lists and mappings as they are,
/// every other kind of value as `Other`.
#[verifier::external_body]
fn yaml_node(y: &yaml_rust::Yaml) -> YamlNode {
    match y {
        yaml_rust::Yaml::String(s) => YamlNode::Text(s.clone()),
        yaml_rust::Yaml::Array(items) => YamlNode::List(items.iter().map(yaml_node).collect()),
        yaml_rust::Yaml::Hash(h) => YamlNode::Mapping(h.iter().map(|(k, v)| (yaml_node(k), yaml_node(v))).collect()),
        _ => YamlNode::Other,
    }
}

/// `yaml_rust::YamlLoader::load_from_str`, then the first document's mapping.
#[verifier::external_body]
pub fn parse_yaml_mapping(text: &str) -> (r: Option<Vec<(YamlNode, YamlNode)>>)
    ensures
        match r {
            Some(v) => yaml_mapping(text@) == Some(v@),
            None => yaml_mapping(text@) is None,
        },
{
    let docs = yaml_rust::YamlLoader::load_from_str(text).ok()?;
    let first = docs.into_iter().next()?;
    match first {
        yaml_rust::Yaml::Hash(h) => Some(h.iter().map(|(k, v)| (yaml_node(k), yaml_node(v))).collect()),
        _ => None,
    }
}

/// What reading the key map document `doc` gives, with `known` the editor's commands:
/// the first fault, or a key map that holds the document's bindings and trees.
pub open spec fn read_as(doc: Seq<(YamlNode, YamlNode)>, known: Seq<Seq<char>>, r: Result<KeyMap, KeyMapError>) -> bool {
    match doc_fault(doc, known) {
        Some(f) => r matches Err(e) && error_view(e) == f,
        None => r matches Ok(km) && modes_plain(km.modes_view()) == doc_modes(doc, known)
            && tree_built(km.leader_tree(), doc_tree(doc, "leader"@), known)
            && tree_built(km.pending_delete_tree(), doc_tree(doc, "pending_delete"@), known)
            && tree_built(km.pending_g_tree(), doc_tree(doc, "pending_g"@), known),
    }
}

/// Reads a key map from YAML text: `None` when the text is not a YAML mapping, else
/// what `KeyMap::from` makes of the mapping.
pub fn key_map_from_yaml(text: &str, known: &Vec<String>) -> (r: Option<Result<KeyMap, KeyMapError>>)
    ensures
        yaml_mapping(text@) is None ==> r is None,
        yaml_mapping(text@) matches Some(doc) ==> (r matches Some(k) && read_as(doc, known@.map_values(|s: String| s@), k)),
{
    match parse_yaml_mapping(text) {
        None => None,
        Some(doc) => Some(KeyMap::from(&doc, known)),
    }
}

} // verus!
