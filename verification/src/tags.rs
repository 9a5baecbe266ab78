//! Tags: reading a ctags file, the word under the cursor that a tag jump looks up,
//! and opening the tag list for a query.
use vstd::prelude::*;
use crate::pickers::{TagEntry, TagJumpMode};
use crate::records::{DefinitionResult, SymbolResult};
use crate::search_select::SearchSelectConfig;
use crate::text::{
    chars_start_with, push_chars, seq_starts_with, spec_lines, str_lines, string_from_chars, sub_chars, to_chars,
};
use crate::words::{is_word_char, word_char};

verus! {

/// What `char::is_alphabetic` says of a character (Unicode `Alphabetic`).
pub uninterp spec fn alphabetic(c: char) -> bool;

/// `char::is_alphabetic`.
#[verifier::external_body]
fn is_alphabetic(c: char) -> (r: bool)
    ensures
        r == alphabetic(c),
{
    c.is_alphabetic()
}

/// The path that `Path::join` makes of two paths on Unix: an absolute second path
/// takes the place of the first; otherwise the first, a `/` when it is not empty and
/// does not already end in one, and the second.
pub open spec fn path_join(base: Seq<char>, rel: Seq<char>) -> Seq<char> {
    if is_absolute(rel) {
        rel
    } else if base.len() > 0 && base.last() != '/' {
        base + seq!['/'] + rel
    } else {
        base + rel
    }
}

/// Joins two paths as `Path::join` does on Unix.
pub fn join_path(base: &str, rel: &str) -> (r: String)
    ensures
        r@ == path_join(base@, rel@),
{
    let b = to_chars(base);
    let r = to_chars(rel);
    if r.len() > 0 && r[0] == '/' {
        return string_from_chars(r);
    }
    let mut out = b;
    if out.len() > 0 && out[out.len() - 1] != '/' {
        out.push('/');
    }
    push_chars(&mut out, &r);
    string_from_chars(out)
}

/// A path that starts at the root.
pub open spec fn is_absolute(p: Seq<char>) -> bool {
    p.len() > 0 && p[0] == '/'
}

/// The value of a decimal digit character.
pub open spec fn digit_value(c: char) -> int {
    (c as u32) - 48
}

pub open spec fn is_digit(c: char) -> bool {
    48 <= (c as u32) <= 57
}

/// The number that a run of decimal digits spells.
pub open spec fn digits_value(s: Seq<char>) -> nat
    decreases s.len(),
{
    if s.len() == 0 {
        0
    } else {
        (digits_value(s.drop_last()) * 10 + digit_value(s.last())) as nat
    }
}

pub open spec fn all_digits(s: Seq<char>) -> bool {
    forall|i: int| 0 <= i < s.len() ==> is_digit(#[trigger] s[i])
}

/// What `str::parse::<usize>` gives: an optional `+`, then one or more decimal digits,
/// whose value fits in a `usize`.
pub open spec fn parse_usize(s: Seq<char>) -> Option<usize> {
    let digits = if s.len() > 0 && s[0] == '+' { s.skip(1) } else { s };
    if digits.len() > 0 && all_digits(digits) && digits_value(digits) <= usize::MAX {
        Some(digits_value(digits) as usize)
    } else {
        None
    }
}

pub proof fn lemma_digits_value_monotone(s: Seq<char>, i: int)
    requires
        0 <= i <= s.len(),
        all_digits(s),
    ensures
        digits_value(s.take(i)) <= digits_value(s),
    decreases s.len() - i,
{
    if i < s.len() {
        lemma_digits_value_monotone(s, i + 1);
        assert(s.take(i + 1).drop_last() == s.take(i));
        assert(is_digit(s[i]));
    } else {
        assert(s.take(i) == s);
    }
}

/// The number a decimal text spells, as `str::parse::<usize>` reads it.
pub fn parse_decimal(s: &Vec<char>) -> (r: Option<usize>)
    ensures
        r == parse_usize(s@),
{
    let start: usize = if s.len() > 0 && s[0] == '+' { 1 } else { 0 };
    let ghost digits = if s@.len() > 0 && s@[0] == '+' { s@.skip(1) } else { s@ };
    assert(digits == s@.skip(start as int));
    if start >= s.len() {
        return None;
    }
    let mut value: usize = 0;
    let mut i = start;
    while i < s.len()
        invariant
            start <= i <= s@.len(),
            start == (if s@.len() > 0 && s@[0] == '+' { 1usize } else { 0usize }),
            digits == (if s@.len() > 0 && s@[0] == '+' { s@.skip(1) } else { s@ }),
            digits == s@.skip(start as int),
            all_digits(s@.subrange(start as int, i as int)),
            value == digits_value(s@.subrange(start as int, i as int)),
        decreases s@.len() - i,
    {
        let c = s[i];
        let u = c as u32;
        if u < 48 || u > 57 {
            assert(s@.skip(start as int)[i - start] == s@[i as int]);
            assert(!is_digit(digits[i - start]));
            assert(!all_digits(digits));
            return None;
        }
        let d = (u - 48) as usize;
        assert(s@.subrange(start as int, i + 1).drop_last() == s@.subrange(start as int, i as int));
        assert(s@.subrange(start as int, i + 1).last() == c);
        assert(digits_value(s@.subrange(start as int, i + 1)) == value * 10 + d);
        if value > (usize::MAX - d) / 10 {
            proof {
                assert(all_digits(s@.subrange(start as int, i + 1)));
                assert(digits_value(s@.subrange(start as int, i + 1)) > usize::MAX) by (nonlinear_arith)
                    requires
                        value > (usize::MAX - d) / 10,
                        digits_value(s@.subrange(start as int, i + 1)) == value * 10 + d,
                        d <= 9;
                if all_digits(digits) {
                    assert(s@.subrange(start as int, i + 1) == digits.take(i + 1 - start));
                    lemma_digits_value_monotone(digits, i + 1 - start);
                }
            }
            return None;
        }
        assert(value * 10 + d <= usize::MAX) by (nonlinear_arith)
            requires
                value <= (usize::MAX - d) / 10,
                d <= 9;
        value = value * 10 + d;
        i = i + 1;
    }
    assert(s@.subrange(start as int, s@.len() as int) == digits);
    Some(value)
}

/// The pieces of `s` between tab characters.
pub open spec fn split_tabs(s: Seq<char>) -> Seq<Seq<char>>
    decreases s.len(),
{
    if s.len() == 0 {
        seq![seq![]]
    } else {
        let before = split_tabs(s.drop_last());
        if s.last() == '\t' {
            before.push(seq![])
        } else {
            before.update(before.len() - 1, before.last().push(s.last()))
        }
    }
}

proof fn lemma_split_tabs_nonempty(s: Seq<char>)
    ensures
        split_tabs(s).len() > 0,
    decreases s.len(),
{
    if s.len() > 0 {
        lemma_split_tabs_nonempty(s.drop_last());
    }
}

/// Splits `s` at its tab characters.
fn split_at_tabs(s: &Vec<char>) -> (r: Vec<Vec<char>>)
    ensures
        r@.map_values(|t: Vec<char>| t@) == split_tabs(s@),
{
    let mut parts: Vec<Vec<char>> = Vec::new();
    let mut cur: Vec<char> = Vec::new();
    let mut i: usize = 0;
    while i < s.len()
        invariant
            i <= s@.len(),
            parts@.map_values(|t: Vec<char>| t@).push(cur@) == split_tabs(s@.take(i as int)),
        decreases s@.len() - i,
    {
        proof {
            lemma_split_tabs_nonempty(s@.take(i as int));
            assert(s@.take(i + 1).drop_last() == s@.take(i as int));
        }
        let ghost before = parts@.map_values(|t: Vec<char>| t@);
        if s[i] == '\t' {
            let done = cur;
            cur = Vec::new();
            parts.push(done);
            assert(parts@.map_values(|t: Vec<char>| t@) =~= before.push(split_tabs(s@.take(i as int)).last()));
        } else {
            cur.push(s[i]);
        }
        i = i + 1;
        assert(parts@.map_values(|t: Vec<char>| t@).push(cur@) =~= split_tabs(s@.take(i as int)));
    }
    assert(s@.take(s@.len() as int) == s@);
    let ghost before = parts@.map_values(|t: Vec<char>| t@);
    let ghost last = cur@;
    parts.push(cur);
    assert(parts@.map_values(|t: Vec<char>| t@) =~= before.push(last));
    parts
}

/// The line number of a tag address: a number, or a number before a `;`.
pub open spec fn tag_address(address: Seq<char>) -> Option<usize> {
    match parse_usize(address) {
        Some(n) => Some(n),
        None => {
            let semi = first_index_of(address, ';');
            if semi >= 0 {
                parse_usize(address.take(semi))
            } else {
                None
            }
        },
    }
}

/// The index of the first `c` in `s`, or -1.
pub open spec fn first_index_of(s: Seq<char>, c: char) -> int
    decreases s.len(),
{
    if s.len() == 0 {
        -1
    } else if first_index_of(s.drop_last(), c) >= 0 {
        first_index_of(s.drop_last(), c)
    } else if s.last() == c {
        s.len() - 1
    } else {
        -1
    }
}

pub fn first_index(s: &Vec<char>, c: char) -> (r: Option<usize>)
    ensures
        match r {
            Some(i) => i < s@.len() && i == first_index_of(s@, c),
            None => first_index_of(s@, c) == -1,
        },
{
    let mut i: usize = 0;
    while i < s.len()
        invariant
            i <= s@.len(),
            first_index_of(s@.take(i as int), c) == -1,
        decreases s@.len() - i,
    {
        assert(s@.take(i + 1).drop_last() == s@.take(i as int));
        if s[i] == c {
            proof {
                lemma_first_index_prefix(s@, i as int, c);
            }
            return Some(i);
        }
        i = i + 1;
    }
    assert(s@.take(s@.len() as int) == s@);
    None
}

pub proof fn lemma_first_index_prefix(s: Seq<char>, i: int, c: char)
    requires
        0 <= i < s.len(),
        first_index_of(s.take(i), c) == -1,
        s[i] == c,
    ensures
        first_index_of(s, c) == i,
    decreases s.len(),
{
    if s.len() > i + 1 {
        assert(s.drop_last().take(i) == s.take(i));
        assert(s.drop_last()[i] == s[i]);
        lemma_first_index_prefix(s.drop_last(), i, c);
    } else {
        assert(s.drop_last() == s.take(i));
    }
}

/// Reads a tag address.
fn parse_address(address: &Vec<char>) -> (r: Option<usize>)
    ensures
        r == tag_address(address@),
{
    match parse_decimal(address) {
        Some(n) => Some(n),
        None => match first_index(address, ';') {
            Some(semi) => parse_decimal(&sub_chars(address, 0, semi)),
            None => None,
        },
    }
}

/// An explicit `kind:` (or `kind` and a BEL) field: the text after its five characters.
pub open spec fn kind_field(f: Seq<char>) -> bool {
    seq_starts_with(f, "kind:"@) || seq_starts_with(f, seq!['k', 'i', 'n', 'd', '\x07'])
}

/// A bare one-letter kind field.
pub open spec fn letter_field(f: Seq<char>) -> bool {
    !seq_starts_with(f, "kind:"@) && !seq_starts_with(f, "line:"@) && !seq_starts_with(f, "language:"@)
        && f.len() == 1 && (f[0] as u32) < 0x80 && alphabetic(f[0])
}

/// The first field from position `from` on that `pred` accepts.
pub open spec fn first_field_from(fields: Seq<Seq<char>>, from: int, pred: spec_fn(Seq<char>) -> bool) -> Option<Seq<char>>
    decreases fields.len() - from,
{
    if from < 0 || from >= fields.len() {
        None
    } else if pred(fields[from]) {
        Some(fields[from])
    } else {
        first_field_from(fields, from + 1, pred)
    }
}

/// The kind of a tag, from its extension fields (those after the third): an explicit
/// kind field's value, else a bare one-letter field.
pub open spec fn tag_kind(fields: Seq<Seq<char>>) -> Option<Seq<char>> {
    match first_field_from(fields, 3, |f: Seq<char>| kind_field(f)) {
        Some(f) => Some(f.skip(5)),
        None => first_field_from(fields, 3, |f: Seq<char>| letter_field(f)),
    }
}

/// A tag as plain values: name, file, zero-based line, kind.
pub open spec fn tag_line_fields(line: Seq<char>, workspace: Seq<char>) -> Option<(Seq<char>, Seq<char>, usize, Option<Seq<char>>)> {
    let parts = split_tabs(line);
    if parts.len() < 3 {
        None
    } else {
        match tag_address(parts[2]) {
            None => None,
            Some(n) => Some((
                parts[0],
                if is_absolute(parts[1]) { parts[1] } else { path_join(workspace, parts[1]) },
                if n > 0 { (n - 1) as usize } else { 0usize },
                tag_kind(parts),
            )),
        }
    }
}

pub open spec fn tag_view(t: TagEntry) -> (Seq<char>, Seq<char>, usize, Option<Seq<char>>) {
    (t.name@, t.file@, t.line, t.kind_view())
}

fn find_field(fields: &Vec<Vec<char>>, letter: bool) -> (r: Option<usize>)
    ensures
        ({
            let fv = fields@.map_values(|t: Vec<char>| t@);
            let pred = if letter { |f: Seq<char>| letter_field(f) } else { |f: Seq<char>| kind_field(f) };
            match r {
                Some(i) => 3 <= i < fv.len() && first_field_from(fv, 3, pred) == Some(fv[i as int])
                    && (letter ==> letter_field(fv[i as int])) && (!letter ==> kind_field(fv[i as int])),
                None => first_field_from(fv, 3, pred) is None,
            }
        }),
{
    let ghost fv = fields@.map_values(|t: Vec<char>| t@);
    let ghost pred = if letter { |f: Seq<char>| letter_field(f) } else { |f: Seq<char>| kind_field(f) };
    let mut i: usize = 3;
    while i < fields.len()
        invariant
            fv == fields@.map_values(|t: Vec<char>| t@),
            pred == if letter { |f: Seq<char>| letter_field(f) } else { |f: Seq<char>| kind_field(f) },
            3 <= i,
            first_field_from(fv, i as int, pred) == first_field_from(fv, 3, pred),
        decreases fields@.len() - i,
    {
        let f = &fields[i];
        let ok = if letter {
            !chars_start_with(f, &to_chars("kind:")) && !chars_start_with(f, &to_chars("line:"))
                && !chars_start_with(f, &to_chars("language:")) && f.len() == 1 && (f[0] as u32) < 0x80
                && is_alphabetic(f[0])
        } else {
            chars_start_with(f, &to_chars("kind:")) || chars_start_with(f, &vec!['k', 'i', 'n', 'd', '\x07'])
        };
        if ok {
            return Some(i);
        }
        i = i + 1;
    }
    None
}

/// Reads one line of a ctags file; `None` for a line with fewer than three fields or an
/// unreadable address. Relative files are taken from `workspace_path`.
pub fn parse_tag_line(line: &str, workspace_path: &str) -> (r: Option<TagEntry>)
    ensures
        match tag_line_fields(line@, workspace_path@) {
            Some(v) => r matches Some(t) && tag_view(t) == v,
            None => r is None,
        },
{
    let chars = to_chars(line);
    let parts = split_at_tabs(&chars);
    let ghost pv = parts@.map_values(|t: Vec<char>| t@);
    if parts.len() < 3 {
        return None;
    }
    let line_num = match parse_address(&parts[2]) {
        Some(n) => n,
        None => return None,
    };
    let name = string_from_chars(crate::order::vec_clone_chars(&parts[0]));
    let file_part = &parts[1];
    let file = if file_part.len() > 0 && file_part[0] == '/' {
        string_from_chars(crate::order::vec_clone_chars(file_part))
    } else {
        join_path(workspace_path, string_from_chars(crate::order::vec_clone_chars(file_part)).as_str())
    };
    let kind = match find_field(&parts, false) {
        Some(i) => {
            let f = &parts[i];
            proof {
                reveal_strlit("kind:");
                assert(f@ == pv[i as int]);
            }
            Some(string_from_chars(sub_chars(f, 5, f.len())))
        },
        None => match find_field(&parts, true) {
            Some(i) => Some(string_from_chars(crate::order::vec_clone_chars(&parts[i]))),
            None => None,
        },
    };
    Some(TagEntry { name, file, line: if line_num > 0 { line_num - 1 } else { 0 }, kind })
}

/// The metadata lines of a tags file start with this.
pub open spec fn is_meta_line(line: Seq<char>) -> bool {
    seq_starts_with(line, "!_TAG"@)
}

/// The tags of a ctags file's lines, metadata lines and unreadable lines skipped.
pub open spec fn parsed_tags(lines: Seq<Seq<char>>, workspace: Seq<char>) -> Seq<(Seq<char>, Seq<char>, usize, Option<Seq<char>>)>
    decreases lines.len(),
{
    if lines.len() == 0 {
        seq![]
    } else {
        let before = parsed_tags(lines.drop_last(), workspace);
        if is_meta_line(lines.last()) {
            before
        } else {
            match tag_line_fields(lines.last(), workspace) {
                Some(v) => before.push(v),
                None => before,
            }
        }
    }
}

/// Reads the tags of a ctags file.
pub fn parse_tags(content: &str, workspace_path: &str) -> (r: Vec<TagEntry>)
    ensures
        r@.map_values(|t: TagEntry| tag_view(t)) == parsed_tags(spec_lines(content@), workspace_path@),
{
    let lines = str_lines(content);
    let ghost ls = spec_lines(content@);
    let mut out: Vec<TagEntry> = Vec::new();
    let mut i: usize = 0;
    while i < lines.len()
        invariant
            lines@.map_values(|l: &str| l@) == ls,
            i <= lines@.len(),
            out@.map_values(|t: TagEntry| tag_view(t)) == parsed_tags(ls.take(i as int), workspace_path@),
        decreases lines@.len() - i,
    {
        assert(ls.take(i + 1).drop_last() == ls.take(i as int));
        assert(lines@[i as int]@ == ls[i as int]);
        let line = lines[i];
        let meta = chars_start_with(&to_chars(line), &to_chars("!_TAG"));
        if !meta {
            let ghost before = out@;
            match parse_tag_line(line, workspace_path) {
                Some(t) => {
                    out.push(t);
                    assert(out@.map_values(|t: TagEntry| tag_view(t)) =~= before.map_values(|t: TagEntry| tag_view(t)).push(tag_view(out@.last())));
                },
                None => {},
            }
        }
        i = i + 1;
    }
    assert(ls.take(lines@.len() as int) == ls);
    out
}

/// The word (letters, digits, `_`) at `offset` of a line, or the one that ends right
/// before it.
pub open spec fn word_at(chars: Seq<char>, offset: int) -> Option<Seq<char>> {
    if offset < 0 || offset >= chars.len() {
        None
    } else {
        let at = if is_word_char(chars[offset]) {
            offset
        } else if offset > 0 && is_word_char(chars[offset - 1]) {
            offset - 1
        } else {
            -1
        };
        if at < 0 {
            None
        } else {
            Some(chars.subrange(word_run_start(chars, at), word_run_end(chars, at)))
        }
    }
}

/// Where the run of word characters through `at` begins.
pub open spec fn word_run_start(chars: Seq<char>, at: int) -> int
    decreases at,
{
    if at > 0 && is_word_char(chars[at - 1]) {
        word_run_start(chars, at - 1)
    } else {
        at
    }
}

/// Where the run of word characters through `at` ends (exclusive).
pub open spec fn word_run_end(chars: Seq<char>, at: int) -> int
    decreases chars.len() - at,
{
    if at + 1 < chars.len() && is_word_char(chars[at + 1]) {
        word_run_end(chars, at + 1)
    } else {
        at + 1
    }
}

/// The word under (or just before) `offset` in `line`.
pub fn extract_word_at(line: &str, offset: usize) -> (r: Option<String>)
    ensures
        match word_at(line@, offset as int) {
            Some(w) => r matches Some(s) && s@ == w,
            None => r is None,
        },
{
    let chars = to_chars(line);
    if offset >= chars.len() {
        return None;
    }
    let start_offset = if word_char(chars[offset]) {
        offset
    } else if offset > 0 && word_char(chars[offset - 1]) {
        offset - 1
    } else {
        return None;
    };
    let mut word_start = start_offset;
    while word_start > 0 && word_char(chars[word_start - 1])
        invariant
            word_start <= start_offset < chars@.len(),
            word_run_start(chars@, word_start as int) == word_run_start(chars@, start_offset as int),
        decreases word_start,
    {
        word_start = word_start - 1;
    }
    let mut word_end = start_offset + 1;
    while word_end < chars.len() && word_char(chars[word_end])
        invariant
            start_offset < word_end <= chars@.len(),
            word_run_end(chars@, word_end - 1) == word_run_end(chars@, start_offset as int),
        decreases chars@.len() - word_end,
    {
        word_end = word_end + 1;
    }
    Some(string_from_chars(sub_chars(&chars, word_start, word_end)))
}

/// Why the tag list could not open.
#[derive(Debug, Clone, PartialEq, Eq)]
pub enum TagError {
    /// No tags at all, for this query.
    NoTags(String),
}

/// The tags for workspace symbols: each symbol's path is relative to the repository root.
pub fn symbols_to_tags(root: &str, symbols: Vec<SymbolResult>) -> (r: Vec<TagEntry>)
    ensures
        r@.len() == symbols@.len(),
        forall|i: int| 0 <= i < r@.len() ==> {
            &&& (#[trigger] r@[i]).name@ == symbols@[i].name@
            &&& r@[i].file@ == path_join(root@, symbols@[i].relative_path@)
            &&& r@[i].line == symbols@[i].line
            &&& r@[i].kind_view() == match symbols@[i].kind {
                Some(k) => Some(k@),
                None => None,
            }
        },
{
    let mut r: Vec<TagEntry> = Vec::new();
    let mut i: usize = 0;
    while i < symbols.len()
        invariant
            i <= symbols@.len(),
            r@.len() == i,
            forall|j: int| 0 <= j < i ==> {
                &&& (#[trigger] r@[j]).name@ == symbols@[j].name@
                &&& r@[j].file@ == path_join(root@, symbols@[j].relative_path@)
                &&& r@[j].line == symbols@[j].line
                &&& r@[j].kind_view() == match symbols@[j].kind {
                    Some(k) => Some(k@),
                    None => None,
                }
            },
        decreases symbols@.len() - i,
    {
        let s = &symbols[i];
        let kind = match &s.kind {
            Some(k) => Some(k.clone()),
            None => None,
        };
        r.push(TagEntry { name: s.name.clone(), file: join_path(root, s.relative_path.as_str()), line: s.line, kind });
        i = i + 1;
    }
    r
}

/// Opens the tag list on `tags` with `query` searched; `Ok(true)` when exactly one tag is
/// shown, which the caller then jumps to.
pub fn tag(mode: &mut TagJumpMode, tags: Vec<TagEntry>, query: &str, config: SearchSelectConfig) -> (r: Result<bool, TagError>)
    ensures
        tags@.len() == 0 ==> (r matches Err(TagError::NoTags(q)) && q@ == query@),
        tags@.len() > 0 ==> {
            &&& final(mode).query_view() == query@
            &&& final(mode).names_view() == tags@.map_values(|t: TagEntry| t.name@)
            &&& final(mode).offset() == 0
            &&& final(mode).cursor() == 0
            &&& final(mode).matches() == if query@.len() == 0 {
                crate::pickers::all_positions(tags@.len())
            } else {
                crate::pickers::ranked_positions(
                    crate::pickers::fuzzy_matches(query@, tags@.map_values(|t: TagEntry| t.name@)),
                    tags@.map_values(|t: TagEntry| t.name@),
                )
            }
            &&& r == Ok::<bool, TagError>(final(mode).shown().len() == 1)
        },
{
    if tags.len() == 0 {
        return Err(TagError::NoTags(string_from_chars(to_chars(query))));
    }
    mode.reset(tags, config);
    mode.set_query(string_from_chars(to_chars(query)));
    Ok(mode.shown_count() == 1)
}

/// Where a go-to-definition leads.
pub enum DefinitionJump {
    /// No definition: search the tags instead.
    SearchTags,
    /// One definition: open its file (joined to the repository root) at its place.
    Open { file: String, line: usize, column: usize },
    /// Several: list them as tags named after the word, each with its display text (or
    /// the word) as its kind.
    Choose(Vec<TagEntry>),
}

/// What the tag daemon's definitions of `word` lead to: nothing, one place to open, or
/// a list to choose from.
pub fn definition_jump(root: &str, word: &str, defs: &Vec<DefinitionResult>) -> (r: DefinitionJump)
    ensures
        defs@.len() == 0 ==> r is SearchTags,
        defs@.len() == 1 ==> (r matches DefinitionJump::Open { file, line, column } && file@ == path_join(root@, defs@[0].file@)
            && line == defs@[0].line && column == defs@[0].column),
        defs@.len() > 1 ==> (r matches DefinitionJump::Choose(tags) && tags@.len() == defs@.len() && forall|i: int|
            0 <= i < defs@.len() ==> {
                let t = #[trigger] tags@[i];
                &&& t.name@ == word@
                &&& t.file@ == path_join(root@, defs@[i].file@)
                &&& t.line == defs@[i].line
                &&& t.kind_view() == Some(match defs@[i].display {
                    Some(d) => d@,
                    None => word@,
                })
            }),
{
    if defs.len() == 0 {
        return DefinitionJump::SearchTags;
    }
    if defs.len() == 1 {
        return DefinitionJump::Open { file: join_path(root, defs[0].file.as_str()), line: defs[0].line, column: defs[0].column };
    }
    let mut tags: Vec<TagEntry> = Vec::new();
    let mut i: usize = 0;
    while i < defs.len()
        invariant
            i <= defs@.len(),
            tags@.len() == i,
            forall|j: int| 0 <= j < i ==> {
                let t = #[trigger] tags@[j];
                &&& t.name@ == word@
                &&& t.file@ == path_join(root@, defs@[j].file@)
                &&& t.line == defs@[j].line
                &&& t.kind_view() == Some(match defs@[j].display {
                    Some(d) => d@,
                    None => word@,
                })
            },
        decreases defs@.len() - i,
    {
        let kind = match &defs[i].display {
            Some(d) => d.clone(),
            None => word.to_owned(),
        };
        tags.push(TagEntry { name: word.to_owned(), file: join_path(root, defs[i].file.as_str()), line: defs[i].line, kind: Some(kind) });
        i = i + 1;
    }
    DefinitionJump::Choose(tags)
}

/// Where the cursor lands for a jump to `line` and `offset` in a buffer of `line_count`
/// lines: the line no further than the last, the offset no further than that line's
/// length in bytes.
pub open spec fn clamped_position(data: Seq<char>, line_count: nat, line: nat, offset: nat) -> (nat, nat) {
    let last = if line_count > 0 { (line_count - 1) as nat } else { 0nat };
    let ln = if line < last { line } else { last };
    let ls = spec_lines(data);
    let len = if ln < ls.len() { crate::words::byte_len(ls[ln as int]) } else { 0 };
    (ln, if offset < len { offset } else { len })
}

/// The place a tag jump (or a jump back) puts the cursor in the buffer it opened.
pub fn clamp_position(data: &str, line_count: usize, line: usize, offset: usize) -> (r: (usize, usize))
    ensures
        (r.0 as nat, r.1 as nat) == clamped_position(data@, line_count as nat, line as nat, offset as nat),
{
    let last = if line_count > 0 { line_count - 1 } else { 0 };
    let ln = if line < last { line } else { last };
    let lines = str_lines(data);
    let len: u128 = if ln < lines.len() {
        crate::words::byte_length(&to_chars(lines[ln]))
    } else {
        0
    };
    let col: usize = if (offset as u128) < len { offset } else { len as usize };
    (ln, col)
}

/// `s` without the slashes at its end.
pub open spec fn without_trailing_slashes(s: Seq<char>) -> Seq<char>
    decreases s.len(),
{
    if s.len() > 0 && s.last() == '/' {
        without_trailing_slashes(s.drop_last())
    } else {
        s
    }
}

/// A repository root as the tag daemon knows it: `/a/b` and `/a/b/` are the same root.
pub fn normalize_repo_root(path: &str) -> (r: String)
    ensures
        r@ == without_trailing_slashes(path@),
{
    let s = to_chars(path);
    let mut end = s.len();
    assert(s@.take(end as int) =~= s@);
    while end > 0 && s[end - 1] == '/'
        invariant
            end <= s@.len(),
            without_trailing_slashes(s@.take(end as int)) == without_trailing_slashes(s@),
        decreases end,
    {
        assert(s@.take(end as int).drop_last() =~= s@.take(end - 1));
        end = end - 1;
    }
    string_from_chars(sub_chars(&s, 0, end))
}

} // verus!
