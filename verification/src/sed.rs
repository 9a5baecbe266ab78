//! `:sed`: finding every occurrence of a text across files, the review buffer that
//! lists them, toggling which ones apply, and applying the chosen ones to a file.
use vstd::prelude::*;
use vstd::relations::*;
use vstd::seq_lib::*;
use crate::records::SedChange;
use crate::status_line::{decimal, decimal_chars};
use crate::text::{
    push_chars, push_str, chars_eq, chars_start_with, concat_chars, is_white, seq_starts_with, spec_lines, str_lines,
    string_from_chars, strip_leading, sub_chars, to_chars, trim, trim_white,
};
use crate::rg::digit_run;
use crate::tags::{first_index, first_index_of, parse_decimal, parse_usize};
use crate::words::{byte_len, char_width, is_word_char, word_char};

verus! {

/// The pieces of `s` between runs of white space (no empty pieces).
pub open spec fn split_white(s: Seq<char>) -> Seq<Seq<char>> {
    let (done, cur) = scan_white(s);
    if cur.len() > 0 {
        done.push(cur)
    } else {
        done
    }
}

pub open spec fn scan_white(s: Seq<char>) -> (Seq<Seq<char>>, Seq<char>)
    decreases s.len(),
{
    if s.len() == 0 {
        (seq![], seq![])
    } else {
        let (done, cur) = scan_white(s.drop_last());
        if is_white(s.last()) {
            if cur.len() > 0 {
                (done.push(cur), seq![])
            } else {
                (done, seq![])
            }
        } else {
            (done, cur.push(s.last()))
        }
    }
}

/// The arguments of `:sed [-w] old new [glob]`.
pub struct SedArgs {
    pub word_only: bool,
    pub old_pattern: String,
    pub new_pattern: String,
    pub glob_pattern: String,
}

/// Why `:sed` could not run or apply.
#[derive(Debug, Clone, PartialEq, Eq)]
pub enum SedError {
    /// No text to search for.
    Usage,
    /// No occurrences at all.
    NoOccurrences,
    /// No occurrence at word boundaries, with `-w`.
    NoWordOccurrences(String),
    /// Every change is excluded.
    AllExcluded,
    /// The file no longer holds the old text where a change expects it.
    ContentMismatch(usize),
}

/// The `i`-th piece, or nothing.
pub open spec fn piece(pieces: Seq<Seq<char>>, i: int) -> Seq<char> {
    if 0 <= i < pieces.len() {
        pieces[i]
    } else {
        Seq::empty()
    }
}

fn split_white_exec(s: &Vec<char>) -> (r: Vec<Vec<char>>)
    ensures
        r@.map_values(|t: Vec<char>| t@) == split_white(s@),
{
    let mut done: Vec<Vec<char>> = Vec::new();
    let mut cur: Vec<char> = Vec::new();
    let mut i: usize = 0;
    while i < s.len()
        invariant
            i <= s@.len(),
            (done@.map_values(|t: Vec<char>| t@), cur@) == scan_white(s@.take(i as int)),
        decreases s@.len() - i,
    {
        assert(s@.take(i + 1).drop_last() == s@.take(i as int));
        let ghost before = done@.map_values(|t: Vec<char>| t@);
        if crate::text::is_whitespace(s[i]) {
            if cur.len() > 0 {
                let word = cur;
                cur = Vec::new();
                let ghost wv = word@;
                done.push(word);
                assert(done@.map_values(|t: Vec<char>| t@) =~= before.push(wv));
            }
        } else {
            cur.push(s[i]);
        }
        i = i + 1;
    }
    assert(s@.take(s@.len() as int) == s@);
    if cur.len() > 0 {
        let ghost before = done@.map_values(|t: Vec<char>| t@);
        let ghost wv = cur@;
        done.push(cur);
        assert(done@.map_values(|t: Vec<char>| t@) =~= before.push(wv));
    }
    done
}

fn piece_exec(pieces: &Vec<Vec<char>>, i: usize) -> (r: Vec<char>)
    ensures
        r@ == piece(pieces@.map_values(|t: Vec<char>| t@), i as int),
{
    if i < pieces.len() {
        crate::order::vec_clone_chars(&pieces[i])
    } else {
        Vec::new()
    }
}

/// Parse arguments, supporting optional -w flag
pub fn parse_args(args: &str) -> (r: Result<SedArgs, SedError>)
    ensures
        ({
            let tokens = split_white(args@);
            let word_only = tokens.len() > 0 && tokens[0] == "-w"@;
            let start = if word_only { 1int } else { 0int };
            let old = piece(tokens, start);
            if old.len() == 0 {
                r == Err::<SedArgs, SedError>(SedError::Usage)
            } else {
                r matches Ok(a) && a.word_only == word_only && a.old_pattern@ == old && a.new_pattern@ == piece(
                    tokens,
                    start + 1,
                ) && a.glob_pattern@ == piece(tokens, start + 2)
            }
        }),
{
    let tokens = split_white_exec(&to_chars(args));
    let word_only = tokens.len() > 0 && chars_eq(&tokens[0], &to_chars("-w"));
    let start: usize = if word_only { 1 } else { 0 };
    let old = piece_exec(&tokens, start);
    if old.len() == 0 {
        return Err(SedError::Usage);
    }
    Ok(SedArgs {
        word_only,
        old_pattern: string_from_chars(old),
        new_pattern: string_from_chars(piece_exec(&tokens, start + 1)),
        glob_pattern: string_from_chars(piece_exec(&tokens, start + 2)),
    })
}

/// The files that `rg -l` listed: non-empty lines, leading `./` removed.
pub open spec fn strip_dot_slash(s: Seq<char>) -> Seq<char>
    decreases s.len(),
{
    if s.len() >= 2 && s[0] == '.' && s[1] == '/' {
        strip_dot_slash(s.skip(2))
    } else {
        s
    }
}

pub open spec fn listed_files(lines: Seq<Seq<char>>) -> Seq<Seq<char>>
    decreases lines.len(),
{
    if lines.len() == 0 {
        seq![]
    } else if lines.last().len() == 0 {
        listed_files(lines.drop_last())
    } else {
        listed_files(lines.drop_last()).push(strip_dot_slash(lines.last()))
    }
}

/// The files that `rg -l` listed.
pub fn rg_file_list(stdout: &str) -> (r: Vec<String>)
    ensures
        r@.map_values(|s: String| s@) == listed_files(spec_lines(stdout@)),
{
    let lines = str_lines(stdout);
    let ghost ls = spec_lines(stdout@);
    let mut r: Vec<String> = Vec::new();
    let mut i: usize = 0;
    while i < lines.len()
        invariant
            i <= lines@.len(),
            lines@.map_values(|l: &str| l@) == ls,
            r@.map_values(|s: String| s@) == listed_files(ls.take(i as int)),
        decreases lines@.len() - i,
    {
        assert(ls.take(i + 1).drop_last() == ls.take(i as int));
        let line = to_chars(lines[i]);
        assert(line@ == ls[i as int]);
        if line.len() > 0 {
            let mut k: usize = 0;
            assert(line@.skip(0) == line@);
            while k < line.len() && line.len() - k >= 2 && line[k] == '.' && line[k + 1] == '/'
                invariant
                    k <= line@.len(),
                    strip_dot_slash(line@.skip(k as int)) == strip_dot_slash(line@),
                decreases line@.len() - k,
            {
                assert(line@.skip(k as int).skip(2) == line@.skip(k + 2));
                k = k + 2;
            }
            let ghost before = r@.map_values(|s: String| s@);
            r.push(string_from_chars(sub_chars(&line, k, line.len())));
            assert(r@.map_values(|s: String| s@) =~= before.push(strip_dot_slash(line@)));
        }
        i = i + 1;
    }
    assert(ls.take(lines@.len() as int) == ls);
    r
}

/// Whether `pattern` occurs in `text` at character `k`.
pub open spec fn occurs_at_char(text: Seq<char>, pattern: Seq<char>, k: int) -> bool {
    0 <= k && k + pattern.len() <= text.len() && text.subrange(k, k + pattern.len()) == pattern
}

/// The first occurrence of `pattern` at or after character `from`.
pub open spec fn next_occurrence(text: Seq<char>, pattern: Seq<char>, from: int) -> Option<int>
    decreases text.len() - from,
{
    if from < 0 || from >= text.len() || from + pattern.len() > text.len() {
        None
    } else if occurs_at_char(text, pattern, from) {
        Some(from)
    } else {
        next_occurrence(text, pattern, from + 1)
    }
}

/// The occurrences of a non-empty `pattern` from `from` on, left to right and not
/// overlapping, as character positions.
pub open spec fn occurrences_from(text: Seq<char>, pattern: Seq<char>, from: int) -> Seq<int>
    decreases text.len() - from,
{
    if pattern.len() == 0 || from < 0 {
        seq![]
    } else {
        match next_occurrence(text, pattern, from) {
            None => seq![],
            Some(k) => {
                proof {
                    lemma_next_occurrence(text, pattern, from);
                }
                seq![k] + occurrences_from(text, pattern, k + pattern.len())
            },
        }
    }
}

/// A found occurrence lies at or after where the search began, and is one.
pub proof fn lemma_next_occurrence(text: Seq<char>, pattern: Seq<char>, from: int)
    requires
        from >= 0,
    ensures
        next_occurrence(text, pattern, from) matches Some(k) ==> from <= k && occurs_at_char(text, pattern, k),
        pattern.len() > 0 && next_occurrence(text, pattern, from) is None ==> forall|j: int| from <= j ==> !occurs_at_char(text, pattern, j),
    decreases text.len() - from,
{
    if from < text.len() && from + pattern.len() <= text.len() && !occurs_at_char(text, pattern, from) {
        lemma_next_occurrence(text, pattern, from + 1);
    }
}

/// The number of line breaks in `s`.
pub open spec fn newlines(s: Seq<char>) -> nat
    decreases s.len(),
{
    if s.len() == 0 {
        0
    } else {
        newlines(s.drop_last()) + if s.last() == '\n' { 1nat } else { 0nat }
    }
}

/// The characters after the last line break of `s` (all of `s` without one).
pub open spec fn after_last_newline(s: Seq<char>) -> Seq<char>
    decreases s.len(),
{
    if s.len() == 0 {
        seq![]
    } else if s.last() == '\n' {
        seq![]
    } else {
        after_last_newline(s.drop_last()).push(s.last())
    }
}

/// Whether an occurrence at characters `k..k + m` stands between word boundaries.
pub open spec fn at_word_boundary(text: Seq<char>, k: int, m: int) -> bool {
    (k == 0 || !is_word_char(text[k - 1])) && (k + m >= text.len() || !is_word_char(text[k + m]))
}

/// The shortest start of `s` whose UTF-8 length reaches `bytes`.
pub open spec fn prefix_reaching(s: Seq<char>, bytes: nat, j: int) -> Seq<char>
    decreases s.len() - j,
{
    if j < 0 || j >= s.len() || byte_len(s.take(j)) >= bytes {
        s.take(if j < 0 { 0 } else if j > s.len() { s.len() as int } else { j })
    } else {
        prefix_reaching(s, bytes, j + 1)
    }
}

/// A source line as the review buffer shows it: trimmed, and cut at the first
/// character boundary from byte 77 on, with `...`, when longer than 80 bytes.
pub open spec fn shown_line(raw: Seq<char>) -> Seq<char> {
    let t = trim_white(raw);
    if byte_len(t) > 80 {
        prefix_reaching(t, 77, 0) + "..."@
    } else {
        t
    }
}

/// The `line`-th line of a text as the review buffer shows it (empty past the end).
pub open spec fn context_line(text: Seq<char>, line: int) -> Seq<char> {
    let ls = spec_lines(text);
    shown_line(if 0 <= line < ls.len() { ls[line] } else { Seq::empty() })
}

/// A change as plain values: file, byte start, byte end, line, column, old, new,
/// confirmed, context, word boundary.
pub open spec fn change_view(c: SedChange) -> (Seq<char>, usize, usize, usize, usize, Seq<char>, Seq<char>, bool, Seq<char>, bool) {
    (c.file@, c.byte_start, c.byte_end, c.line, c.column, c.old_text@, c.new_text@, c.confirmed, c.context_line@, c.word_boundary)
}

/// The change for an occurrence at character `k`.
pub open spec fn change_at(file: Seq<char>, text: Seq<char>, old: Seq<char>, new: Seq<char>, k: int) -> (Seq<char>, usize, usize, usize, usize, Seq<char>, Seq<char>, bool, Seq<char>, bool) {
    let start = byte_len(text.take(k));
    let line = newlines(text.take(k));
    (
        file,
        start as usize,
        (start + byte_len(old)) as usize,
        line as usize,
        byte_len(after_last_newline(text.take(k))) as usize,
        old,
        new,
        true,
        context_line(text, line as int),
        at_word_boundary(text, k, old.len() as int),
    )
}

/// The changes for the occurrences at positions `ks`, those off word boundaries dropped
/// when `word_only`.
pub open spec fn changes_for(file: Seq<char>, text: Seq<char>, old: Seq<char>, new: Seq<char>, word_only: bool, ks: Seq<int>) -> Seq<(Seq<char>, usize, usize, usize, usize, Seq<char>, Seq<char>, bool, Seq<char>, bool)>
    decreases ks.len(),
{
    if ks.len() == 0 {
        seq![]
    } else {
        let before = changes_for(file, text, old, new, word_only, ks.drop_last());
        let k = ks.last();
        if word_only && !at_word_boundary(text, k, old.len() as int) {
            before
        } else {
            before.push(change_at(file, text, old, new, k))
        }
    }
}


fn occurs_at_exec(text: &Vec<char>, pattern: &Vec<char>, k: usize) -> (r: bool)
    requires
        k + pattern@.len() <= text@.len(),
    ensures
        r == occurs_at_char(text@, pattern@, k as int),
{
    let mut j: usize = 0;
    while j < pattern.len()
        invariant
            j <= pattern@.len(),
            k + pattern@.len() <= text@.len(),
            forall|t: int| 0 <= t < j ==> text@[k + t] == pattern@[t],
        decreases pattern@.len() - j,
    {
        assert(k + j < text.len());
        if text[k + j] != pattern[j] {
            assert(text@.subrange(k as int, k + pattern@.len())[j as int] != pattern@[j as int]);
            return false;
        }
        j = j + 1;
    }
    assert(text@.subrange(k as int, k + pattern@.len()) =~= pattern@);
    true
}

fn next_occurrence_exec(text: &Vec<char>, pattern: &Vec<char>, from: usize) -> (r: Option<usize>)
    ensures
        match r {
            Some(k) => next_occurrence(text@, pattern@, from as int) == Some(k as int),
            None => next_occurrence(text@, pattern@, from as int) is None,
        },
{
    let mut j = from;
    while j < text.len() && pattern.len() <= text.len() - j
        invariant
            from <= j,
            next_occurrence(text@, pattern@, j as int) == next_occurrence(text@, pattern@, from as int),
        decreases text@.len() - j,
    {
        if occurs_at_exec(text, pattern, j) {
            return Some(j);
        }
        j = j + 1;
    }
    None
}

/// The character positions where a non-empty `pattern` occurs in `text`, left to right
/// and not overlapping.
pub fn find_all_occurrences(text: &Vec<char>, pattern: &Vec<char>) -> (r: Vec<usize>)
    requires
        pattern@.len() > 0,
    ensures
        r@.map_values(|k: usize| k as int) == occurrences_from(text@, pattern@, 0),
{
    let mut r: Vec<usize> = Vec::new();
    let mut from: usize = 0;
    loop
        invariant
            pattern@.len() > 0,
            from <= text@.len(),
            r@.map_values(|k: usize| k as int) + occurrences_from(text@, pattern@, from as int)
                == occurrences_from(text@, pattern@, 0),
        decreases text@.len() - from,
    {
        match next_occurrence_exec(text, pattern, from) {
            None => {
                assert(r@.map_values(|k: usize| k as int) + occurrences_from(text@, pattern@, from as int)
                    == r@.map_values(|k: usize| k as int));
                return r;
            },
            Some(k) => {
                proof {
                    lemma_next_occurrence(text@, pattern@, from as int);
                    assert(occurs_at_char(text@, pattern@, k as int));
                    assert(k + pattern.len() <= text.len());
                }
                let ghost before = r@.map_values(|k: usize| k as int);
                let ghost rest = occurrences_from(text@, pattern@, k + pattern@.len());
                assert(occurrences_from(text@, pattern@, from as int) == seq![k as int] + rest);
                r.push(k);
                assert(r@.map_values(|k: usize| k as int) =~= before.push(k as int));
                assert(before + (seq![k as int] + rest) =~= before.push(k as int) + rest);
                from = k + pattern.len();
            },
        }
    }
}

/// UTF-8 lengths add up over concatenation.
pub proof fn lemma_byte_len_concat(a: Seq<char>, b: Seq<char>)
    ensures
        byte_len(a + b) == byte_len(a) + byte_len(b),
    decreases b.len(),
{
    if b.len() == 0 {
        assert(a + b =~= a);
    } else {
        assert((a + b).drop_last() =~= a + b.drop_last());
        lemma_byte_len_concat(a, b.drop_last());
    }
}

/// A prefix is no longer in UTF-8 than the whole.
pub proof fn lemma_byte_len_take(s: Seq<char>, i: int)
    requires
        0 <= i <= s.len(),
    ensures
        byte_len(s.take(i)) <= byte_len(s),
{
    lemma_byte_len_concat(s.take(i), s.skip(i));
    assert(s.take(i) + s.skip(i) =~= s);
}

/// Counting line breaks and the bytes since the last one, one character further.
proof fn lemma_position_step(s: Seq<char>, i: int)
    requires
        0 <= i < s.len(),
    ensures
        s.take(i + 1).drop_last() == s.take(i),
        s.take(i + 1).last() == s[i],
        byte_len(s.take(i + 1)) == byte_len(s.take(i)) + char_width(s[i]),
        newlines(s.take(i + 1)) == newlines(s.take(i)) + if s[i] == '\n' { 1nat } else { 0nat },
        after_last_newline(s.take(i + 1)) == if s[i] == '\n' {
            Seq::<char>::empty()
        } else {
            after_last_newline(s.take(i)).push(s[i])
        },
{
    assert(s.take(i + 1).drop_last() =~= s.take(i));
}

proof fn lemma_after_last_newline_len(s: Seq<char>)
    ensures
        byte_len(after_last_newline(s)) <= byte_len(s),
        newlines(s) <= s.len(),
    decreases s.len(),
{
    if s.len() > 0 {
        lemma_after_last_newline_len(s.drop_last());
        if s.last() != '\n' {
            assert(after_last_newline(s).drop_last() =~= after_last_newline(s.drop_last()));
        }
    }
}

/// The UTF-8 width of `c`.
fn char_bytes(c: char) -> (w: usize)
    ensures
        w == char_width(c),
{
    let u = c as u32;
    if u < 0x80 {
        1
    } else if u < 0x800 {
        2
    } else if u < 0x10000 {
        3
    } else {
        4
    }
}

/// Where character `k` of a text lies: its byte offset, line and byte column.
#[derive(Clone, Copy)]
struct TextPosition {
    chars: usize,
    bytes: usize,
    line: usize,
    column: usize,
}

spec fn position_of(text: Seq<char>, p: TextPosition) -> bool {
    &&& p.chars <= text.len()
    &&& p.bytes == byte_len(text.take(p.chars as int))
    &&& p.line == newlines(text.take(p.chars as int))
    &&& p.column == byte_len(after_last_newline(text.take(p.chars as int)))
}

fn advance(text: &Vec<char>, p: TextPosition, to: usize) -> (q: TextPosition)
    requires
        position_of(text@, p),
        p.chars <= to <= text@.len(),
        byte_len(text@) <= usize::MAX,
    ensures
        position_of(text@, q),
        q.chars == to,
{
    let mut q = p;
    while q.chars < to
        invariant
            position_of(text@, q),
            q.chars <= to <= text@.len(),
            byte_len(text@) <= usize::MAX,
        decreases to - q.chars,
    {
        let c = text[q.chars];
        proof {
            lemma_position_step(text@, q.chars as int);
            lemma_byte_len_take(text@, q.chars + 1);
            lemma_after_last_newline_len(text@.take(q.chars + 1));
            assert(text@.take(q.chars + 1).len() == q.chars + 1);
            let a = after_last_newline(text@.take(q.chars as int));
            assert(a.push(text@[q.chars as int]).drop_last() =~= a);
        }
        let w = char_bytes(c);
        let bytes = q.bytes + w;
        let line = if c == '\n' { q.line + 1 } else { q.line };
        let column = if c == '\n' { 0 } else { q.column + w };
        q = TextPosition { chars: q.chars + 1, bytes, line, column };
    }
    q
}

/// The occurrences lie in the text, in order, without overlapping.
pub proof fn lemma_occurrences_in_order(text: Seq<char>, pattern: Seq<char>, from: int)
    ensures
        forall|i: int| 0 <= i < occurrences_from(text, pattern, from).len() ==> from <= #[trigger] occurrences_from(text, pattern, from)[i]
            && occurs_at_char(text, pattern, occurrences_from(text, pattern, from)[i]),
        forall|i: int| 0 <= i < occurrences_from(text, pattern, from).len() - 1 ==>
            #[trigger] occurrences_from(text, pattern, from)[i] + pattern.len() <= occurrences_from(text, pattern, from)[i + 1],
    decreases text.len() - from,
{
    if pattern.len() > 0 && from >= 0 {
        lemma_next_occurrence(text, pattern, from);
        match next_occurrence(text, pattern, from) {
            None => {},
            Some(k) => {
                let rest = occurrences_from(text, pattern, k + pattern.len());
                lemma_occurrences_in_order(text, pattern, k + pattern.len());
                let all = occurrences_from(text, pattern, from);
                assert(all == seq![k] + rest);
                assert forall|i: int| 0 <= i < all.len() - 1 implies #[trigger] all[i] + pattern.len() <= all[i + 1] by {
                    if i > 0 {
                        assert(all[i] == rest[i - 1] && all[i + 1] == rest[i]);
                    } else if rest.len() > 0 {
                        assert(all[1] == rest[0]);
                    }
                }
                assert forall|i: int| 0 <= i < all.len() implies from <= #[trigger] all[i] && occurs_at_char(text, pattern, all[i]) by {
                    if i > 0 {
                        assert(all[i] == rest[i - 1]);
                    }
                }
            },
        }
    }
}

/// Whether the occurrence at characters `k..k + m` stands between word boundaries.
fn boundary_exec(text: &Vec<char>, k: usize, m: usize) -> (r: bool)
    requires
        k + m <= text.len(),
    ensures
        r == at_word_boundary(text@, k as int, m as int),
{
    let before = k == 0 || !word_char(text[k - 1]);
    let after = k + m >= text.len() || !word_char(text[k + m]);
    before && after
}

fn cut_to(t: &Vec<char>, bytes: u128) -> (r: Vec<char>)
    ensures
        r@ == prefix_reaching(t@, bytes as nat, 0),
{
    let mut j: usize = 0;
    let mut acc: u128 = 0;
    while j < t.len() && acc < bytes
        invariant
            j <= t@.len(),
            acc == byte_len(t@.take(j as int)),
            acc <= 4 * j,
            prefix_reaching(t@, bytes as nat, j as int) == prefix_reaching(t@, bytes as nat, 0),
        decreases t@.len() - j,
    {
        proof {
            assert(t@.take(j + 1).drop_last() =~= t@.take(j as int));
        }
        let w = char_bytes(t[j]);
        acc = acc + w as u128;
        j = j + 1;
    }
    sub_chars(t, 0, j)
}

/// A source line as the review buffer shows it.
fn shown_line_exec(raw: &str) -> (r: String)
    ensures
        r@ == shown_line(raw@),
{
    let t = trim(&to_chars(raw));
    if crate::words::byte_length(&t) > 80 {
        let cut = cut_to(&t, 77);
        string_from_chars(concat_chars(&cut, &to_chars("...")))
    } else {
        string_from_chars(t)
    }
}

/// The changes for one file: one per occurrence of `old`, those off word boundaries
/// left out when `word_only`, each confirmed.
pub fn file_changes(file: &str, content: &str, old: &str, new: &str, word_only: bool) -> (r: Vec<SedChange>)
    requires
        old@.len() > 0,
        byte_len(content@) <= usize::MAX,
    ensures
        r@.map_values(|c: SedChange| change_view(c)) == changes_for(
            file@,
            content@,
            old@,
            new@,
            word_only,
            occurrences_from(content@, old@, 0),
        ),
{
    let text = to_chars(content);
    let pattern = to_chars(old);
    let lines = str_lines(content);
    let ks = find_all_occurrences(&text, &pattern);
    let ghost kv = ks@.map_values(|k: usize| k as int);
    let ghost old_bytes = byte_len(old@);
    let mut r: Vec<SedChange> = Vec::new();
    let mut pos = TextPosition { chars: 0, bytes: 0, line: 0, column: 0 };
    proof {
        assert(text@.take(0) =~= Seq::<char>::empty());
    }
    let mut i: usize = 0;
    while i < ks.len()
        invariant
            i <= ks@.len(),
            text@ == content@,
            pattern@ == old@,
            old@.len() > 0,
            byte_len(content@) <= usize::MAX,
            lines@.map_values(|l: &str| l@) == spec_lines(content@),
            kv == ks@.map_values(|k: usize| k as int),
            kv == occurrences_from(content@, old@, 0),
            position_of(text@, pos),
            i < ks@.len() ==> pos.chars <= ks@[i as int],
            r@.map_values(|c: SedChange| change_view(c)) == changes_for(
                file@,
                content@,
                old@,
                new@,
                word_only,
                kv.take(i as int),
            ),
        decreases ks@.len() - i,
    {
        let k = ks[i];
        let m = pattern.len();
        proof {
            lemma_occurrences_in_order(content@, old@, 0);
            assert(kv[i as int] == k);
            assert(occurs_at_char(content@, old@, k as int));
            assert(k + m <= text.len());
            assert(kv.take(i + 1).drop_last() =~= kv.take(i as int));
            assert(kv.take(i + 1).last() == k);
            if i + 1 < ks@.len() {
                assert(kv[i as int] + m <= kv[i + 1]);
            }
        }
        let at = advance(&text, pos, k);
        let end = advance(&text, at, k + m);
        proof {
            lemma_byte_len_concat(text@.take(k as int), old@);
            assert(text@.take(k + m) =~= text@.take(k as int) + old@);
        }
        let wb = boundary_exec(&text, k, m);
        if !(word_only && !wb) {
            let context = if at.line < lines.len() {
                shown_line_exec(lines[at.line])
            } else {
                shown_line_exec("")
            };
            proof {
                reveal_strlit("");
                assert(context@ == context_line(content@, at.line as int));
            }
            let change = SedChange {
                file: file.to_owned(),
                byte_start: at.bytes,
                byte_end: end.bytes,
                line: at.line,
                column: at.column,
                old_text: old.to_owned(),
                new_text: new.to_owned(),
                confirmed: true,
                context_line: context,
                word_boundary: wb,
            };
            let ghost before = r@.map_values(|c: SedChange| change_view(c));
            assert(change_view(change) == change_at(file@, content@, old@, new@, k as int));
            r.push(change);
            assert(r@.map_values(|c: SedChange| change_view(c)) =~= before.push(change_view(change)));
        }
        pos = end;
        i = i + 1;
    }
    assert(kv.take(ks@.len() as int) =~= kv);
    r
}

/// The changes over several files, in the order the files come.
pub open spec fn all_changes(files: Seq<(Seq<char>, Seq<char>)>, old: Seq<char>, new: Seq<char>, word_only: bool) -> Seq<(Seq<char>, usize, usize, usize, usize, Seq<char>, Seq<char>, bool, Seq<char>, bool)>
    decreases files.len(),
{
    if files.len() == 0 {
        seq![]
    } else {
        let (file, content) = files.last();
        all_changes(files.drop_last(), old, new, word_only) + changes_for(
            file,
            content,
            old,
            new,
            word_only,
            occurrences_from(content, old, 0),
        )
    }
}

/// The changes that `:sed` proposes over the files that hold the old text (each with
/// its content); an error when there are none.
pub fn collect_changes(files: &Vec<(String, String)>, args: &SedArgs) -> (r: Result<Vec<SedChange>, SedError>)
    requires
        args.old_pattern@.len() > 0,
        forall|i: int| 0 <= i < files@.len() ==> byte_len(#[trigger] files@[i].1@) <= usize::MAX,
    ensures
        ({
            let all = all_changes(
                files@.map_values(|f: (String, String)| (f.0@, f.1@)),
                args.old_pattern@,
                args.new_pattern@,
                args.word_only,
            );
            if all.len() == 0 {
                if args.word_only {
                    r matches Err(SedError::NoWordOccurrences(p)) && p@ == args.old_pattern@
                } else {
                    r matches Err(SedError::NoOccurrences)
                }
            } else {
                r matches Ok(v) && v@.map_values(|c: SedChange| change_view(c)) == all
            }
        }),
{
    let ghost fv = files@.map_values(|f: (String, String)| (f.0@, f.1@));
    let mut out: Vec<SedChange> = Vec::new();
    let mut i: usize = 0;
    while i < files.len()
        invariant
            i <= files@.len(),
            fv == files@.map_values(|f: (String, String)| (f.0@, f.1@)),
            args.old_pattern@.len() > 0,
            forall|j: int| 0 <= j < files@.len() ==> byte_len(#[trigger] files@[j].1@) <= usize::MAX,
            out@.map_values(|c: SedChange| change_view(c)) == all_changes(
                fv.take(i as int),
                args.old_pattern@,
                args.new_pattern@,
                args.word_only,
            ),
        decreases files@.len() - i,
    {
        assert(fv.take(i + 1).drop_last() =~= fv.take(i as int));
        assert(byte_len(files@[i as int].1@) <= usize::MAX);
        let mut more = file_changes(
            files[i].0.as_str(),
            files[i].1.as_str(),
            args.old_pattern.as_str(),
            args.new_pattern.as_str(),
            args.word_only,
        );
        let ghost before = out@.map_values(|c: SedChange| change_view(c));
        let ghost added = more@.map_values(|c: SedChange| change_view(c));
        out.append(&mut more);
        assert(out@.map_values(|c: SedChange| change_view(c)) =~= before + added);
        i = i + 1;
    }
    assert(fv.take(files@.len() as int) =~= fv);
    if out.len() == 0 {
        if args.word_only {
            return Err(SedError::NoWordOccurrences(args.old_pattern.clone()));
        }
        return Err(SedError::NoOccurrences);
    }
    Ok(out)
}

/// The mark that says whether a change applies.
pub open spec fn marker(confirmed: bool) -> Seq<char> {
    if confirmed {
        "[y]"@
    } else {
        "[ ]"@
    }
}

/// The review line of the change numbered `idx`.
pub open spec fn change_row(c: SedChange, idx: nat) -> Seq<char> {
    marker(c.confirmed) + " #"@ + decimal(idx) + " L"@ + decimal((c.line + 1) as nat) + ":C"@ + decimal((c.column + 1) as nat)
        + (if c.word_boundary { ""@ } else { " \u{26a0}"@ }) + "  "@ + c.context_line@ + "\n"@
}

/// The review lines of all changes, each file's changes under a heading with its
/// name, files apart by an empty line.
pub open spec fn review_rows(cs: Seq<SedChange>) -> Seq<char>
    decreases cs.len(),
{
    if cs.len() == 0 {
        seq![]
    } else {
        let n = cs.len() - 1;
        let c = cs[n];
        let heading = if n == 0 {
            c.file@ + ":\n"@
        } else if cs[n - 1].file@ != c.file@ {
            "\n"@ + c.file@ + ":\n"@
        } else {
            Seq::empty()
        };
        review_rows(cs.drop_last()) + heading + change_row(c, n as nat)
    }
}

/// The three lines above the changes: what is replaced by what, and the keys.
pub open spec fn review_header(cs: Seq<SedChange>) -> Seq<char> {
    (if cs.len() > 0 {
        "Sed: '"@ + cs[0].old_text@ + "' -> '"@ + cs[0].new_text@ + "'\n"@
    } else {
        "Sed: (no changes)\n"@
    }) + "<SPC>: exclude  a: toggle all  w: apply  q: cancel\n\n"@
}

/// The number of lines above the first change in the review buffer.
pub const REVIEW_HEADER_LINES: usize = 3;

fn push_row(out: &mut Vec<char>, c: &SedChange, idx: usize)
    requires
        c.line < usize::MAX,
        c.column < usize::MAX,
    ensures
        final(out)@ == old(out)@ + change_row(*c, idx as nat),
{
    let ghost start = out@;
    push_str(out, if c.confirmed { "[y]" } else { "[ ]" });
    push_str(out, " #");
    push_chars(out, &decimal_chars(idx));
    push_str(out, " L");
    push_chars(out, &decimal_chars(c.line + 1));
    push_str(out, ":C");
    push_chars(out, &decimal_chars(c.column + 1));
    push_str(out, if c.word_boundary { "" } else { " \u{26a0}" });
    push_str(out, "  ");
    push_str(out, c.context_line.as_str());
    push_str(out, "\n");
    assert(out@ =~= start + change_row(*c, idx as nat));
}

/// The review buffer's text for `changes`, and the number of header lines above them.
pub fn build_buffer_content(changes: &Vec<SedChange>) -> (r: (String, usize))
    requires
        forall|i: int| 0 <= i < changes@.len() ==> #[trigger] changes@[i].line < usize::MAX
            && changes@[i].column < usize::MAX,
    ensures
        r.0@ == review_header(changes@) + review_rows(changes@),
        r.1 == REVIEW_HEADER_LINES,
{
    let mut out: Vec<char> = Vec::new();
    if changes.len() > 0 {
        push_str(&mut out, "Sed: '");
        push_str(&mut out, changes[0].old_text.as_str());
        push_str(&mut out, "' -> '");
        push_str(&mut out, changes[0].new_text.as_str());
        push_str(&mut out, "'\n");
    } else {
        push_str(&mut out, "Sed: (no changes)\n");
    }
    push_str(&mut out, "<SPC>: exclude  a: toggle all  w: apply  q: cancel\n\n");
    let ghost header = out@;
    assert(header == review_header(changes@));
    let mut i: usize = 0;
    while i < changes.len()
        invariant
            i <= changes@.len(),
            forall|j: int| 0 <= j < changes@.len() ==> #[trigger] changes@[j].line < usize::MAX
                && changes@[j].column < usize::MAX,
            header == review_header(changes@),
            out@ == header + review_rows(changes@.take(i as int)),
        decreases changes@.len() - i,
    {
        let ghost cs = changes@.take(i + 1);
        assert(cs.drop_last() =~= changes@.take(i as int));
        let ghost before = out@;
        let c = &changes[i];
        if i == 0 {
            push_str(&mut out, c.file.as_str());
            push_str(&mut out, ":\n");
        } else if !crate::text::str_eq(changes[i - 1].file.as_str(), c.file.as_str()) {
            push_str(&mut out, "\n");
            push_str(&mut out, c.file.as_str());
            push_str(&mut out, ":\n");
        }
        let ghost after_heading = out@;
        push_row(&mut out, c, i);
        proof {
            assert(cs[i as int] == changes@[i as int]);
            assert(out@ =~= header + review_rows(cs));
        }
        i = i + 1;
    }
    assert(changes@.take(changes@.len() as int) =~= changes@);
    (string_from_chars(out), REVIEW_HEADER_LINES)
}

/// The number `parse::<usize>` reads from the digits right after the first `#` of a
/// review line: `None` without a `#`, without digits there, or when it overflows.
pub open spec fn change_index(line: Seq<char>) -> Option<usize> {
    let h = first_index_of(line, '#');
    if h < 0 {
        None
    } else {
        let after = line.skip(h + 1);
        parse_usize(after.take(digit_run(after)))
    }
}

/// The number of the change a review line shows.
pub fn parse_change_index(line: &str) -> (r: Option<usize>)
    ensures
        r == change_index(line@),
{
    let s = to_chars(line);
    match first_index(&s, '#') {
        None => None,
        Some(h) => {
            assert(h < s.len());
            let start = h + 1;
            let mut j = start;
            let ghost after = s@.skip(start as int);
            assert(s@.skip(j as int) == after);
            while j < s.len() && (s[j] as u32) >= 48 && (s[j] as u32) <= 57
                invariant
                    start <= j <= s@.len(),
                    after == s@.skip(start as int),
                    digit_run(after) == (j - start) + digit_run(s@.skip(j as int)),
                decreases s@.len() - j,
            {
                assert(s@.skip(j as int).skip(1) =~= s@.skip(j + 1));
                j = j + 1;
            }
            assert(digit_run(s@.skip(j as int)) == 0);
            assert(after.take(digit_run(after)) =~= s@.subrange(start as int, j as int));
            parse_decimal(&sub_chars(&s, start, j))
        },
    }
}

/// `c` with its confirmation flipped.
pub open spec fn flipped(c: SedChange) -> (Seq<char>, usize, usize, usize, usize, Seq<char>, Seq<char>, bool, Seq<char>, bool) {
    let v = change_view(c);
    (v.0, v.1, v.2, v.3, v.4, v.5, v.6, !v.7, v.8, v.9)
}

/// `c` with its confirmation set to `b`.
pub open spec fn with_confirmed(c: SedChange, b: bool) -> (Seq<char>, usize, usize, usize, usize, Seq<char>, Seq<char>, bool, Seq<char>, bool) {
    let v = change_view(c);
    (v.0, v.1, v.2, v.3, v.4, v.5, v.6, b, v.8, v.9)
}

fn copy_with(c: &SedChange, confirmed: bool) -> (r: SedChange)
    ensures
        change_view(r) == with_confirmed(*c, confirmed),
{
    SedChange {
        file: c.file.clone(),
        byte_start: c.byte_start,
        byte_end: c.byte_end,
        line: c.line,
        column: c.column,
        old_text: c.old_text.clone(),
        new_text: c.new_text.clone(),
        confirmed,
        context_line: c.context_line.clone(),
        word_boundary: c.word_boundary,
    }
}

/// `after` is `before` with the change that `line` names flipped, if it names one.
pub open spec fn toggled(before: Seq<SedChange>, after: Seq<SedChange>, line: Seq<char>) -> bool {
    let hit = change_index(line) matches Some(i) && i < before.len();
    &&& after.len() == before.len()
    &&& forall|j: int| 0 <= j < before.len() ==> change_view(#[trigger] after[j]) == if hit && change_index(line)
        == Some(j as usize) {
        flipped(before[j])
    } else {
        change_view(before[j])
    }
}

/// Flips whether the change that a review line shows applies; `true` when there was
/// such a change.
pub fn toggle_change(changes: &mut Vec<SedChange>, line: &str) -> (r: bool)
    ensures
        r == (change_index(line@) matches Some(i) && i < old(changes)@.len()),
        toggled(old(changes)@, final(changes)@, line@),
{
    match parse_change_index(line) {
        Some(i) => {
            if i < changes.len() {
                let c = copy_with(&changes[i], !changes[i].confirmed);
                changes.set(i, c);
                true
            } else {
                false
            }
        },
        None => false,
    }
}

/// Whether any change is left out.
pub open spec fn any_excluded(cs: Seq<SedChange>) -> bool {
    exists|j: int| 0 <= j < cs.len() && !(#[trigger] cs[j]).confirmed
}

/// `after` is `before` with every change confirmed when any was left out, else with
/// every change left out.
pub open spec fn all_toggled(before: Seq<SedChange>, after: Seq<SedChange>) -> bool {
    &&& after.len() == before.len()
    &&& forall|j: int| 0 <= j < before.len() ==> change_view(#[trigger] after[j]) == with_confirmed(
        before[j],
        any_excluded(before),
    )
}

/// Confirms every change when any is left out, else leaves every change out.
pub fn toggle_all(changes: &mut Vec<SedChange>)
    ensures
        all_toggled(old(changes)@, final(changes)@),
{
    let mut any = false;
    let mut i: usize = 0;
    while i < changes.len()
        invariant
            i <= changes@.len(),
            any == exists|j: int| 0 <= j < i && !(#[trigger] changes@[j]).confirmed,
        decreases changes@.len() - i,
    {
        if !changes[i].confirmed {
            any = true;
        }
        i = i + 1;
    }
    let ghost start = changes@;
    let mut i: usize = 0;
    while i < changes.len()
        invariant
            i <= changes@.len(),
            changes@.len() == start.len(),
            any == any_excluded(start),
            forall|j: int| i <= j < start.len() ==> #[trigger] changes@[j] == start[j],
            forall|j: int| 0 <= j < i ==> change_view(#[trigger] changes@[j]) == with_confirmed(start[j], any),
        decreases changes@.len() - i,
    {
        let c = copy_with(&changes[i], any);
        changes.set(i, c);
        i = i + 1;
    }
}

/// A line of the review buffer that shows a change.
pub open spec fn is_marker_line(line: Seq<char>) -> bool {
    seq_starts_with(line, "[ ]"@) || seq_starts_with(line, "[y]"@)
}

/// Going down from line `current` and wrapping round, the first line from the
/// `i`-th one on that shows a change.
pub open spec fn marker_from(lines: Seq<Seq<char>>, current: int, i: int) -> Option<int>
    decreases lines.len() + 1 - i,
{
    if i < 1 || i > lines.len() {
        None
    } else if is_marker_line(lines[(current + i) % (lines.len() as int)]) {
        Some((current + i) % (lines.len() as int))
    } else {
        marker_from(lines, current, i + 1)
    }
}

/// The next line below `current` (wrapping round) that shows a change.
pub fn next_marker_line(data: &str, current: usize) -> (r: Option<usize>)
    requires
        current + spec_lines(data@).len() <= usize::MAX,
    ensures
        match r {
            Some(l) => marker_from(spec_lines(data@), current as int, 1) == Some(l as int),
            None => marker_from(spec_lines(data@), current as int, 1) is None,
        },
{
    let lines = str_lines(data);
    let ghost ls = spec_lines(data@);
    let n = lines.len();
    let mut i: usize = 0;
    while i < n
        invariant
            i <= n,
            n == ls.len(),
            ls == spec_lines(data@),
            lines@.map_values(|l: &str| l@) == ls,
            current + n <= usize::MAX,
            marker_from(ls, current as int, i + 1) == marker_from(ls, current as int, 1),
        decreases n - i,
    {
        let check = (current + i + 1) % n;
        let t = to_chars(lines[check]);
        assert(t@ == ls[check as int]);
        let unchecked = to_chars("[ ]");
        let checked = to_chars("[y]");
        if chars_start_with(&t, &unchecked) || chars_start_with(&t, &checked) {
            assert(is_marker_line(ls[check as int]));
            assert(check as int == (current + (i + 1)) % (ls.len() as int));
            assert(marker_from(ls, current as int, i + 1) == Some(check as int));
            return Some(check);
        }
        i = i + 1;
    }
    None
}

/// The character index at which byte offset `b` of `s` falls, searching from character
/// `i` on; -1 when `b` is not a character boundary of `s`.
pub open spec fn boundary_index(s: Seq<char>, b: int, i: int) -> int
    decreases s.len() + 1 - i,
{
    if i < 0 || i > s.len() || byte_len(s.take(i)) > b {
        -1
    } else if byte_len(s.take(i)) == b {
        i
    } else {
        boundary_index(s, b, i + 1)
    }
}

/// The text after one change, or `None` when the text does not hold the change's old
/// text at its byte range.
pub open spec fn replace_step(content: Seq<char>, c: SedChange) -> Option<Seq<char>> {
    let i = boundary_index(content, c.byte_start as int, 0);
    let j = boundary_index(content, c.byte_end as int, 0);
    if byte_len(content) < c.byte_end || i < 0 || j < 0 || i > j || content.subrange(i, j) != c.old_text@ {
        None
    } else {
        Some(content.take(i) + c.new_text@ + content.skip(j))
    }
}

/// The text after the changes numbered by `order`, one after the other; at the first
/// one that does not fit, the byte offset where it should have stood.
pub open spec fn apply_in_order(content: Seq<char>, cs: Seq<SedChange>, order: Seq<usize>) -> Result<Seq<char>, usize>
    decreases order.len(),
{
    if order.len() == 0 {
        Ok(content)
    } else {
        match apply_in_order(content, cs, order.drop_last()) {
            Err(b) => Err(b),
            Ok(t) => match replace_step(t, cs[order.last() as int]) {
                None => Err(cs[order.last() as int].byte_start),
                Some(u) => Ok(u),
            },
        }
    }
}

/// Changes further into the file first; among changes at the same place, the earlier
/// numbered first.
pub open spec fn later_first(cs: Seq<SedChange>) -> spec_fn(usize, usize) -> bool {
    |a: usize, b: usize|
        cs[a as int].byte_start > cs[b as int].byte_start || (cs[a as int].byte_start == cs[b as int].byte_start
            && a <= b)
}

proof fn lemma_later_first_total(cs: Seq<SedChange>)
    ensures
        total_ordering(later_first(cs)),
{
}

fn later_first_exec(cs: &Vec<SedChange>, a: usize, b: usize) -> (r: bool)
    requires
        a < cs@.len(),
        b < cs@.len(),
    ensures
        r == later_first(cs@)(a, b),
{
    cs[a].byte_start > cs[b].byte_start || (cs[a].byte_start == cs[b].byte_start && a <= b)
}

/// The change numbers in the order they are applied: further into the file first.
pub fn application_order(cs: &Vec<SedChange>, indices: &Vec<usize>) -> (r: Vec<usize>)
    requires
        forall|j: int| 0 <= j < indices@.len() ==> #[trigger] indices@[j] < cs@.len(),
    ensures
        forall|j: int| 0 <= j < r@.len() ==> #[trigger] r@[j] < cs@.len(),
        r@ == indices@.sort_by(later_first(cs@)),
{
    let ghost ord = later_first(cs@);
    let mut out: Vec<usize> = Vec::new();
    let mut k: usize = 0;
    proof {
        lemma_later_first_total(cs@);
        assert(out@ =~= indices@.take(0));
    }
    while k < indices.len()
        invariant
            k <= indices@.len(),
            ord == later_first(cs@),
            total_ordering(ord),
            forall|j: int| 0 <= j < indices@.len() ==> #[trigger] indices@[j] < cs@.len(),
            forall|j: int| 0 <= j < out@.len() ==> #[trigger] out@[j] < cs@.len(),
            sorted_by(out@, ord),
            out@.to_multiset() == indices@.take(k as int).to_multiset(),
        decreases indices@.len() - k,
    {
        let x = indices[k];
        let mut pos: usize = 0;
        while pos < out.len() && later_first_exec(cs, out[pos], x)
            invariant
                pos <= out@.len(),
                x < cs@.len(),
                ord == later_first(cs@),
                forall|j: int| 0 <= j < out@.len() ==> #[trigger] out@[j] < cs@.len(),
                forall|j: int| 0 <= j < pos ==> ord(#[trigger] out@[j], x),
            decreases out@.len() - pos,
        {
            pos = pos + 1;
        }
        let ghost before = out@;
        proof {
            if pos < out@.len() {
                assert(!ord(out@[pos as int], x));
                assert(ord(out@[pos as int], x) || ord(x, out@[pos as int]));
            }
        }
        out.insert(pos, x);
        proof {
            assert(indices@.take(k + 1) == indices@.take(k as int).push(x));
            to_multiset_build(indices@.take(k as int), x);
            to_multiset_insert(before, pos as int, x);
            assert forall|i1: int, j1: int| 0 <= i1 < j1 < out@.len() implies #[trigger] ord(out@[i1], out@[j1]) by {
                if j1 < pos {
                    assert(out@[i1] == before[i1] && out@[j1] == before[j1]);
                } else if j1 == pos {
                    assert(out@[i1] == before[i1]);
                } else if i1 < pos {
                    assert(out@[i1] == before[i1] && out@[j1] == before[j1 - 1]);
                    assert(ord(before[i1], before[j1 - 1]));
                } else if i1 == pos {
                    assert(out@[j1] == before[j1 - 1]);
                    assert(ord(before[pos as int], before[j1 - 1]));
                    assert(ord(x, before[pos as int]));
                } else {
                    assert(out@[i1] == before[i1 - 1] && out@[j1] == before[j1 - 1]);
                    assert(ord(before[i1 - 1], before[j1 - 1]));
                }
            }
        }
        k = k + 1;
    }
    proof {
        assert(indices@.take(indices@.len() as int) == indices@);
        indices@.lemma_sort_by_ensures(ord);
        lemma_sorted_unique(out@, indices@.sort_by(ord), ord);
    }
    out
}

fn boundary_exec_index(s: &Vec<char>, b: usize) -> (r: Option<usize>)
    ensures
        match r {
            Some(i) => boundary_index(s@, b as int, 0) == i as int,
            None => boundary_index(s@, b as int, 0) == -1,
        },
{
    let mut i: usize = 0;
    let mut acc: u128 = 0;
    assert(s@.take(0) =~= Seq::<char>::empty());
    loop
        invariant
            i <= s@.len(),
            acc == byte_len(s@.take(i as int)),
            acc <= b,
            acc <= 4 * i,
            boundary_index(s@, b as int, i as int) == boundary_index(s@, b as int, 0),
        decreases s@.len() - i,
    {
        if acc == b as u128 {
            return Some(i);
        }
        if i == s.len() {
            assert(boundary_index(s@, b as int, (i + 1) as int) == -1);
            return None;
        }
        proof {
            lemma_position_step(s@, i as int);
        }
        let ghost prev = i as int;
        acc = acc + char_bytes(s[i]) as u128;
        i = i + 1;
        assert(boundary_index(s@, b as int, prev) == boundary_index(s@, b as int, i as int));
        if acc > b as u128 {
            assert(boundary_index(s@, b as int, i as int) == -1);
            return None;
        }
    }
}

fn replace_step_exec(content: &Vec<char>, c: &SedChange) -> (r: Option<Vec<char>>)
    ensures
        match r {
            Some(t) => replace_step(content@, *c) == Some(t@),
            None => replace_step(content@, *c) is None,
        },
{
    if crate::words::byte_length(content) < c.byte_end as u128 {
        return None;
    }
    let i = match boundary_exec_index(content, c.byte_start) {
        Some(i) => i,
        None => return None,
    };
    let j = match boundary_exec_index(content, c.byte_end) {
        Some(j) => j,
        None => return None,
    };
    if i > j {
        return None;
    }
    proof {
        assert(i <= j <= content@.len()) by {
            assert(boundary_index(content@, c.byte_end as int, 0) == j);
            lemma_boundary_index_range(content@, c.byte_end as int, 0);
        }
    }
    let old = to_chars(c.old_text.as_str());
    let piece = sub_chars(content, i, j);
    if !chars_eq(&piece, &old) {
        return None;
    }
    let mut out = sub_chars(content, 0, i);
    push_str(&mut out, c.new_text.as_str());
    let rest = sub_chars(content, j, content.len());
    push_chars(&mut out, &rest);
    Some(out)
}

proof fn lemma_boundary_index_range(s: Seq<char>, b: int, i: int)
    ensures
        boundary_index(s, b, i) == -1 || (i <= boundary_index(s, b, i) <= s.len()),
    decreases s.len() + 1 - i,
{
    if !(i < 0 || i > s.len() || byte_len(s.take(i)) > b) && byte_len(s.take(i)) != b {
        lemma_boundary_index_range(s, b, i + 1);
    }
}

/// One file's text after its confirmed changes, applied further into the file first;
/// an error with the byte offset of the first change whose old text is no longer where
/// it was found.
pub fn apply_file_changes(original: &str, changes: &Vec<SedChange>, indices: &Vec<usize>) -> (r: Result<String, SedError>)
    requires
        forall|j: int| 0 <= j < indices@.len() ==> #[trigger] indices@[j] < changes@.len(),
    ensures
        match apply_in_order(original@, changes@, indices@.sort_by(later_first(changes@))) {
            Ok(t) => r matches Ok(s) && s@ == t,
            Err(b) => r == Err::<String, SedError>(SedError::ContentMismatch(b)),
        },
{
    let order = application_order(changes, indices);
    let mut content = to_chars(original);
    let mut k: usize = 0;
    assert(order@.take(0) =~= Seq::<usize>::empty());
    while k < order.len()
        invariant
            k <= order@.len(),
            forall|j: int| 0 <= j < order@.len() ==> #[trigger] order@[j] < changes@.len(),
            order@ == indices@.sort_by(later_first(changes@)),
            apply_in_order(original@, changes@, order@.take(k as int)) == Ok::<Seq<char>, usize>(content@),
        decreases order@.len() - k,
    {
        assert(order@.take(k + 1).drop_last() =~= order@.take(k as int));
        let idx = order[k];
        assert(idx < changes@.len());
        match replace_step_exec(&content, &changes[idx]) {
            None => {
                let b = changes[idx].byte_start;
                proof {
                    assert(apply_in_order(original@, changes@, order@.take(k + 1)) == Err::<Seq<char>, usize>(b));
                    lemma_apply_stops(original@, changes@, order@, k + 1);
                    assert(apply_in_order(original@, changes@, order@) == Err::<Seq<char>, usize>(b));
                }
                return Err(SedError::ContentMismatch(b));
            },
            Some(t) => {
                content = t;
            },
        }
        k = k + 1;
    }
    assert(order@.take(order@.len() as int) =~= order@);
    Ok(string_from_chars(content))
}

/// Once a change does not fit, the later ones are not tried.
proof fn lemma_apply_stops(content: Seq<char>, cs: Seq<SedChange>, order: Seq<usize>, k: int)
    requires
        0 <= k <= order.len(),
        apply_in_order(content, cs, order.take(k)) is Err,
    ensures
        apply_in_order(content, cs, order) == apply_in_order(content, cs, order.take(k)),
    decreases order.len() - k,
{
    if k < order.len() {
        assert(order.take(k + 1).drop_last() =~= order.take(k));
        lemma_apply_stops(content, cs, order, k + 1);
    } else {
        assert(order.take(k) =~= order);
    }
}

/// The place of file `f` among the groups, or -1.
pub open spec fn group_index(groups: Seq<(Seq<char>, Seq<usize>)>, f: Seq<char>) -> int
    decreases groups.len(),
{
    if groups.len() == 0 {
        -1
    } else if group_index(groups.drop_last(), f) >= 0 {
        group_index(groups.drop_last(), f)
    } else if groups.last().0 == f {
        groups.len() - 1
    } else {
        -1
    }
}

proof fn lemma_group_index(groups: Seq<(Seq<char>, Seq<usize>)>, f: Seq<char>)
    ensures
        -1 <= group_index(groups, f) < groups.len(),
        group_index(groups, f) >= 0 ==> groups[group_index(groups, f)].0 == f,
        group_index(groups, f) == -1 ==> forall|j: int| 0 <= j < groups.len() ==> #[trigger] groups[j].0 != f,
    decreases groups.len(),
{
    if groups.len() > 0 {
        lemma_group_index(groups.drop_last(), f);
        assert forall|j: int| 0 <= j < groups.len() - 1 implies #[trigger] groups[j] == groups.drop_last()[j] by {}
    }
}

/// The confirmed changes by file: each file once, in the order it first comes, with
/// the numbers of its confirmed changes in order.
pub open spec fn confirmed_groups(cs: Seq<SedChange>) -> Seq<(Seq<char>, Seq<usize>)>
    decreases cs.len(),
{
    if cs.len() == 0 {
        seq![]
    } else {
        let g = confirmed_groups(cs.drop_last());
        let c = cs.last();
        let n = (cs.len() - 1) as usize;
        if !c.confirmed {
            g
        } else {
            let j = group_index(g, c.file@);
            if j >= 0 {
                g.update(j, (g[j].0, g[j].1.push(n)))
            } else {
                g.push((c.file@, seq![n]))
            }
        }
    }
}

/// The confirmed changes grouped by file, ready to apply; an error when every change
/// is left out.
pub fn confirmed_by_file(changes: &Vec<SedChange>) -> (r: Result<Vec<(String, Vec<usize>)>, SedError>)
    ensures
        confirmed_groups(changes@).len() == 0 ==> r == Err::<Vec<(String, Vec<usize>)>, SedError>(SedError::AllExcluded),
        confirmed_groups(changes@).len() > 0 ==> (r matches Ok(g) && g@.map_values(|e: (String, Vec<usize>)| (e.0@, e.1@))
            == confirmed_groups(changes@)),
{
    let mut files: Vec<String> = Vec::new();
    let mut lists: Vec<Vec<usize>> = Vec::new();
    let mut i: usize = 0;
    while i < changes.len()
        invariant
            i <= changes@.len(),
            files@.len() == lists@.len(),
            confirmed_groups(changes@.take(i as int)) == Seq::new(
                files@.len(),
                |j: int| (files@[j]@, lists@[j]@),
            ),
        decreases changes@.len() - i,
    {
        let ghost g = confirmed_groups(changes@.take(i as int));
        assert(changes@.take(i + 1).drop_last() =~= changes@.take(i as int));
        assert(changes@.take(i + 1).last() == changes@[i as int]);
        if changes[i].confirmed {
            let f = &changes[i].file;
            proof {
                lemma_group_index(g, f@);
            }
            let mut j: usize = 0;
            while j < files.len() && !crate::text::str_eq(files[j].as_str(), f.as_str())
                invariant
                    j <= files@.len(),
                    files@.len() == lists@.len(),
                    g == Seq::new(files@.len(), |t: int| (files@[t]@, lists@[t]@)),
                    forall|t: int| 0 <= t < j ==> #[trigger] files@[t]@ != f@,
                decreases files@.len() - j,
            {
                j = j + 1;
            }
            proof {
                lemma_group_index_first(g, f@, j as int);
            }
            if j < files.len() {
                let mut list: Vec<usize> = Vec::new();
                lists.set_and_swap(j, &mut list);
                list.push(i);
                lists.set(j, list);
                proof {
                    let ng = Seq::new(files@.len(), |t: int| (files@[t]@, lists@[t]@));
                    assert(ng =~= g.update(j as int, (g[j as int].0, g[j as int].1.push(i))));
                }
            } else {
                let mut single: Vec<usize> = Vec::new();
                single.push(i);
                files.push(f.clone());
                lists.push(single);
                proof {
                    let ng = Seq::new(files@.len(), |t: int| (files@[t]@, lists@[t]@));
                    assert(ng[j as int] == (f@, seq![i]));
                    assert(ng =~= g.push((f@, seq![i])));
                }
            }
        } else {
        }
        i = i + 1;
    }
    assert(changes@.take(changes@.len() as int) =~= changes@);
    if files.len() == 0 {
        return Err(SedError::AllExcluded);
    }
    let mut out: Vec<(String, Vec<usize>)> = Vec::new();
    let ghost target = confirmed_groups(changes@);
    let mut files = files;
    let mut lists = lists;
    while files.len() > 0
        invariant
            files@.len() == lists@.len(),
            out@.len() + files@.len() == target.len(),
            forall|t: int| 0 <= t < out@.len() ==> (#[trigger] out@[t]).0@ == target[t].0 && out@[t].1@ == target[t].1,
            forall|t: int| 0 <= t < files@.len() ==> (#[trigger] files@[t])@ == target[out@.len() + t].0
                && lists@[t]@ == target[out@.len() + t].1,
        decreases files@.len(),
    {
        let ghost fs = files@;
        let ghost ls = lists@;
        let ghost k = out@.len();
        let f = files.remove(0);
        let l = lists.remove(0);
        assert(f@ == target[k as int].0 && l@ == target[k as int].1);
        out.push((f, l));
        proof {
            assert(files@ =~= fs.skip(1));
            assert(lists@ =~= ls.skip(1));
            assert forall|t: int| 0 <= t < files@.len() implies (#[trigger] files@[t])@ == target[out@.len() + t].0
                && lists@[t]@ == target[out@.len() + t].1 by {
                assert(files@[t] == fs[t + 1]);
                assert(lists@[t] == ls[t + 1]);
            }
        }
    }
    assert(out@.map_values(|e: (String, Vec<usize>)| (e.0@, e.1@)) =~= target);
    Ok(out)
}

/// The first group of file `f` is where a left-to-right search stops.
proof fn lemma_group_index_first(g: Seq<(Seq<char>, Seq<usize>)>, f: Seq<char>, j: int)
    requires
        0 <= j <= g.len(),
        forall|t: int| 0 <= t < j ==> #[trigger] g[t].0 != f,
        j < g.len() ==> g[j].0 == f,
    ensures
        group_index(g, f) == if j < g.len() { j } else { -1 },
    decreases g.len(),
{
    if g.len() > 0 {
        if j < g.len() {
            if j < g.len() - 1 {
                lemma_group_index_first(g.drop_last(), f, j);
            } else {
                lemma_group_index_first(g.drop_last(), f, j);
            }
        } else {
            lemma_group_index_first(g.drop_last(), f, j - 1);
        }
    }
}

/// Two changes that agree in every field.
pub open spec fn same_changes(a: Seq<SedChange>, b: Seq<SedChange>) -> bool {
    a.len() == b.len() && forall|j: int| 0 <= j < a.len() ==> change_view(#[trigger] a[j]) == change_view(b[j])
}

/// Toggling from the same review line twice gives back the changes as they were.
pub proof fn law_toggle_twice(
    first: Seq<SedChange>,
    second: Seq<SedChange>,
    third: Seq<SedChange>,
    line: Seq<char>,
)
    requires
        toggled(first, second, line),
        toggled(second, third, line),
    ensures
        same_changes(first, third),
{
    assert forall|j: int| 0 <= j < first.len() implies change_view(#[trigger] first[j]) == change_view(third[j]) by {
        assert(change_view(second[j]) == change_view(second[j]));
    }
}

/// After toggling all, every change has the same flag: confirmed exactly when some
/// change was left out before.
pub proof fn law_toggle_all_uniform(before: Seq<SedChange>, after: Seq<SedChange>)
    requires
        all_toggled(before, after),
    ensures
        forall|j: int| 0 <= j < after.len() ==> (#[trigger] after[j]).confirmed == any_excluded(before),
{
    assert forall|j: int| 0 <= j < after.len() implies (#[trigger] after[j]).confirmed == any_excluded(before) by {
        assert(change_view(after[j]).7 == after[j].confirmed);
    }
}

/// From a list where every change is confirmed, toggling all twice gives it back.
pub proof fn law_toggle_all_twice(first: Seq<SedChange>, second: Seq<SedChange>, third: Seq<SedChange>)
    requires
        !any_excluded(first),
        all_toggled(first, second),
        all_toggled(second, third),
    ensures
        same_changes(first, third),
{
    if first.len() > 0 {
        assert(first[0].confirmed);
        assert(change_view(second[0]) == with_confirmed(first[0], false));
        assert(!second[0].confirmed);
        assert(any_excluded(second));
    }
    assert forall|j: int| 0 <= j < first.len() implies change_view(#[trigger] first[j]) == change_view(third[j]) by {
        assert(first[j].confirmed);
    }
}

/// What the editor reports after applying: how many changes in how many files.
pub open spec fn applied_summary(count: nat, files: nat) -> Seq<char> {
    decimal(count) + " change(s) across "@ + decimal(files) + " file(s)"@
}

/// The report after applying `count` changes across `files` files.
pub fn applied_message(count: usize, files: usize) -> (r: String)
    ensures
        r@ == applied_summary(count as nat, files as nat),
{
    let mut out = decimal_chars(count);
    push_str(&mut out, " change(s) across ");
    push_chars(&mut out, &decimal_chars(files));
    push_str(&mut out, " file(s)");
    string_from_chars(out)
}

/// `text` from character `from` on, with every occurrence of a non-empty `old`, left
/// to right and without overlapping, replaced by `new`.
pub open spec fn replaced_from(text: Seq<char>, old: Seq<char>, new: Seq<char>, from: int) -> Seq<char>
    decreases text.len() - from,
{
    if old.len() == 0 || from < 0 || from > text.len() {
        text
    } else {
        match next_occurrence(text, old, from) {
            None => text.skip(from),
            Some(k) => {
                proof {
                    lemma_next_occurrence(text, old, from);
                }
                text.subrange(from, k) + new + replaced_from(text, old, new, k + old.len())
            },
        }
    }
}

/// `text` with every occurrence of `old` replaced by `new`.
pub open spec fn replace_all(text: Seq<char>, old: Seq<char>, new: Seq<char>) -> Seq<char> {
    replaced_from(text, old, new, 0)
}

/// The occurrences found from `from` start with the next one, and those after each one
/// are the ones found past it.
proof fn lemma_occurrences_chain(text: Seq<char>, old: Seq<char>, from: int)
    requires
        old.len() > 0,
        0 <= from,
    ensures
        occurrences_from(text, old, from).len() == 0 <==> next_occurrence(text, old, from) is None,
        occurrences_from(text, old, from).len() > 0 ==> next_occurrence(text, old, from) == Some(occurrences_from(text, old, from)[0]),
        forall|i: int| 0 <= i < occurrences_from(text, old, from).len() ==>
            occurrences_from(text, old, #[trigger] occurrences_from(text, old, from)[i] + old.len())
                == occurrences_from(text, old, from).skip(i + 1),
    decreases text.len() - from,
{
    lemma_next_occurrence(text, old, from);
    match next_occurrence(text, old, from) {
        None => {},
        Some(k) => {
            let ks = occurrences_from(text, old, from);
            let rest = occurrences_from(text, old, k + old.len());
            assert(ks == seq![k] + rest);
            lemma_occurrences_chain(text, old, k + old.len());
            assert forall|i: int| 0 <= i < ks.len() implies
                occurrences_from(text, old, #[trigger] ks[i] + old.len()) == ks.skip(i + 1) by {
                if i == 0 {
                    assert(ks.skip(1) =~= rest);
                } else {
                    assert(ks[i] == rest[i - 1]);
                    assert(ks.skip(i + 1) =~= rest.skip(i));
                }
            }
        },
    }
}

/// Without word boundaries to respect, there is one change per occurrence.
proof fn lemma_changes_for_all(file: Seq<char>, text: Seq<char>, old: Seq<char>, new: Seq<char>, ks: Seq<int>)
    ensures
        changes_for(file, text, old, new, false, ks).len() == ks.len(),
        forall|i: int| 0 <= i < ks.len() ==> #[trigger] changes_for(file, text, old, new, false, ks)[i]
            == change_at(file, text, old, new, ks[i]),
    decreases ks.len(),
{
    if ks.len() > 0 {
        lemma_changes_for_all(file, text, old, new, ks.drop_last());
        let before = changes_for(file, text, old, new, false, ks.drop_last());
        assert(changes_for(file, text, old, new, false, ks) == before.push(change_at(file, text, old, new, ks.last())));
        assert forall|i: int| 0 <= i < ks.len() implies #[trigger] changes_for(file, text, old, new, false, ks)[i]
            == change_at(file, text, old, new, ks[i]) by {
            if i < ks.len() - 1 {
                assert(ks.drop_last()[i] == ks[i]);
            }
        }
    }
}

/// A longer start of a text is longer in UTF-8 too.
proof fn lemma_byte_len_grows(s: Seq<char>, i: int, k: int)
    requires
        0 <= i < k <= s.len(),
    ensures
        byte_len(s.take(i)) < byte_len(s.take(k)),
    decreases k - i,
{
    assert(s.take(k).drop_last() =~= s.take(k - 1));
    if i < k - 1 {
        lemma_byte_len_grows(s, i, k - 1);
    }
}

/// The UTF-8 length of the first `k` characters is a character boundary, found at `k`.
proof fn lemma_boundary_at(s: Seq<char>, k: int, i: int)
    requires
        0 <= i <= k <= s.len(),
    ensures
        boundary_index(s, byte_len(s.take(k)) as int, i) == k,
    decreases k - i,
{
    if i < k {
        lemma_byte_len_grows(s, i, k);
        lemma_boundary_at(s, k, i + 1);
    }
}

/// Indices that run down strictly, each in `0..m`, `m` of them, are `m - 1` down to 0.
proof fn lemma_strictly_down(s: Seq<usize>, m: int, i: int, j: int)
    requires
        s.len() == m,
        forall|a: int, b: int| 0 <= a < b < m ==> s[a] > s[b],
        0 <= i <= j < m,
    ensures
        s[i] >= s[j] + (j - i),
    decreases j - i,
{
    if i < j {
        lemma_strictly_down(s, m, i + 1, j);
    }
}

/// The order in which changes at increasing places are applied: the last first.
proof fn lemma_order_is_reversed(cs: Seq<SedChange>)
    requires
        cs.len() <= usize::MAX,
        forall|a: int, b: int| 0 <= a < b < cs.len() ==> cs[a].byte_start < cs[b].byte_start,
    ensures
        Seq::new(cs.len(), |i: int| i as usize).sort_by(later_first(cs))
            == Seq::new(cs.len(), |i: int| (cs.len() - 1 - i) as usize),
{
    broadcast use vstd::seq_lib::group_to_multiset_ensures;

    let m = cs.len() as int;
    let idx = Seq::new(cs.len(), |i: int| i as usize);
    let leq = later_first(cs);
    lemma_later_first_total(cs);
    idx.lemma_sort_by_ensures(leq);
    let s = idx.sort_by(leq);
    assert forall|a: int, b: int| 0 <= a < idx.len() && 0 <= b < idx.len() && a != b implies idx[a] != idx[b] by {
        assert(idx[a] == a as usize && idx[b] == b as usize);
    }
    assert(idx.no_duplicates());
    idx.lemma_multiset_has_no_duplicates();
    assert forall|x: usize| s.to_multiset().contains(x) implies s.to_multiset().count(x) == 1 by {
        assert(idx.to_multiset().contains(x));
    }
    s.lemma_multiset_has_no_duplicates_conv();
    assert(s.len() == m) by {
        assert(s.to_multiset().len() == s.len());
        assert(idx.to_multiset().len() == idx.len());
        assert(s.to_multiset() == idx.to_multiset());
    }
    assert forall|a: int| 0 <= a < m implies #[trigger] s[a] < m by {
        assert(s.contains(s[a]));
        assert(s.to_multiset().count(s[a]) > 0);
        assert(idx.contains(s[a]));
    }
    assert forall|a: int, b: int| 0 <= a < b < m implies s[a] > s[b] by {
        assert(leq(s[a], s[b]));
        assert(s[a] != s[b]);
        if s[a] < s[b] {
            assert(cs[s[a] as int].byte_start < cs[s[b] as int].byte_start);
        }
    }
    assert forall|i: int| 0 <= i < m implies #[trigger] s[i] == (m - 1 - i) as usize by {
        lemma_strictly_down(s, m, 0, i);
        lemma_strictly_down(s, m, i, m - 1);
    }
    assert(s =~= Seq::new(cs.len(), |i: int| (cs.len() - 1 - i) as usize));
}

/// What the text is once the changes for occurrences `i` on have been applied.
spec fn applied_from(text: Seq<char>, old: Seq<char>, new: Seq<char>, ks: Seq<int>, i: int) -> Seq<char> {
    if i >= ks.len() {
        text
    } else {
        text.take(ks[i]) + replaced_from(text, old, new, ks[i])
    }
}

/// The change listed for occurrence `i` stands at its bytes, holding its texts.
proof fn lemma_change_located(file: Seq<char>, text: Seq<char>, old: Seq<char>, new: Seq<char>, cs: Seq<SedChange>, i: int)
    requires
        old.len() > 0,
        byte_len(text) <= usize::MAX,
        cs.map_values(|c: SedChange| change_view(c)) == changes_for(file, text, old, new, false, occurrences_from(text, old, 0)),
        0 <= i < occurrences_from(text, old, 0).len(),
    ensures
        cs.len() == occurrences_from(text, old, 0).len(),
        cs[i].byte_start == byte_len(text.take(occurrences_from(text, old, 0)[i])),
        cs[i].byte_end == byte_len(text.take(occurrences_from(text, old, 0)[i] + old.len())),
        cs[i].old_text@ == old,
        cs[i].new_text@ == new,
{
    let ks = occurrences_from(text, old, 0);
    lemma_changes_for_all(file, text, old, new, ks);
    assert(cs.map_values(|c: SedChange| change_view(c)).len() == cs.len());
    assert(change_view(cs[i]) == cs.map_values(|c: SedChange| change_view(c))[i]);
    assert(change_view(cs[i]) == change_at(file, text, old, new, ks[i]));
    let k = ks[i];
    lemma_occurrences_at_least(text, old, ks, i);
    assert(occurs_at_char(text, old, k)) by {
        lemma_occurrences_in_order(text, old, 0);
    }
    assert(text.take(k + old.len()) =~= text.take(k) + text.subrange(k, k + old.len()));
    lemma_byte_len_concat(text.take(k), old);
    lemma_byte_len_take(text, k + old.len());
    lemma_byte_len_take(text, k);
}

/// Applying every change found for `old` in `text`, as the review lists them and all
/// confirmed, gives `text` with every occurrence of `old` replaced by `new`: each
/// change is applied where it was found, the last first, so that none moves another.
pub proof fn law_applying_every_change_replaces_all(
    file: Seq<char>,
    text: Seq<char>,
    old: Seq<char>,
    new: Seq<char>,
    cs: Seq<SedChange>,
)
    requires
        old.len() > 0,
        byte_len(text) <= usize::MAX,
        cs.map_values(|c: SedChange| change_view(c)) == changes_for(file, text, old, new, false, occurrences_from(text, old, 0)),
    ensures
        apply_in_order(text, cs, Seq::new(cs.len(), |i: int| i as usize).sort_by(later_first(cs)))
            == Ok::<Seq<char>, usize>(replace_all(text, old, new)),
{
    let ks = occurrences_from(text, old, 0);
    let m = ks.len() as int;
    assert(cs.len() == m) by {
        lemma_changes_for_all(file, text, old, new, ks);
        assert(cs.map_values(|c: SedChange| change_view(c)).len() == cs.len());
    }
    assert forall|i: int| 0 <= i < m implies {
        &&& (#[trigger] cs[i]).byte_start == byte_len(text.take(ks[i]))
        &&& cs[i].byte_end == byte_len(text.take(ks[i] + old.len()))
        &&& cs[i].old_text@ == old
        &&& cs[i].new_text@ == new
    } by {
        lemma_change_located(file, text, old, new, cs, i);
    }
    assert forall|a: int, b: int| 0 <= a < b < m implies cs[a].byte_start < cs[b].byte_start by {
        lemma_occurrences_order_far(text, old, ks, a, b);
        lemma_occurrences_at_least(text, old, ks, a);
        lemma_occurrences_at_least(text, old, ks, b);
        lemma_byte_len_grows(text, ks[a], ks[b]);
    }
    assert(m <= usize::MAX) by {
        if m > 0 {
            lemma_occurrences_at_least(text, old, ks, m - 1);
            lemma_len_le_byte_len(text);
        }
    }
    lemma_order_is_reversed(cs);
    lemma_apply_prefix(text, old, new, ks, cs, m);
    let ord = Seq::new(cs.len(), |i: int| (cs.len() - 1 - i) as usize);
    assert(ord.take(m) =~= ord);
    // With every change applied, every occurrence is replaced.
    assert(applied_from(text, old, new, ks, 0) == replace_all(text, old, new)) by {
        lemma_occurrences_chain(text, old, 0);
        if m == 0 {
            assert(text.skip(0) =~= text);
        } else {
            lemma_replaced_step(text, old, new, ks, 0);
            assert(text.subrange(0, ks[0]) =~= text.take(ks[0]));
            assert(replace_all(text, old, new)
                == text.subrange(0, ks[0]) + new + replaced_from(text, old, new, ks[0] + old.len()));
            assert(text.subrange(0, ks[0]) + new + replaced_from(text, old, new, ks[0] + old.len())
                =~= text.take(ks[0]) + replaced_from(text, old, new, ks[0]));
        }
    }
}

/// Applying the first `j` changes of the order, the last occurrence first.
proof fn lemma_apply_prefix(text: Seq<char>, old: Seq<char>, new: Seq<char>, ks: Seq<int>, cs: Seq<SedChange>, j: int)
    requires
        old.len() > 0,
        ks == occurrences_from(text, old, 0),
        cs.len() == ks.len(),
        cs.len() <= usize::MAX,
        0 <= j <= ks.len(),
        forall|i: int| 0 <= i < ks.len() ==> {
            &&& (#[trigger] cs[i]).byte_start == byte_len(text.take(ks[i]))
            &&& cs[i].byte_end == byte_len(text.take(ks[i] + old.len()))
            &&& cs[i].old_text@ == old
            &&& cs[i].new_text@ == new
        },
    ensures
        apply_in_order(text, cs, Seq::new(cs.len(), |i: int| (cs.len() - 1 - i) as usize).take(j))
            == Ok::<Seq<char>, usize>(applied_from(text, old, new, ks, ks.len() - j)),
    decreases j,
{
    let m = ks.len() as int;
    let ord = Seq::new(cs.len(), |i: int| (cs.len() - 1 - i) as usize);
    if j == 0 {
        assert(ord.take(0) =~= Seq::<usize>::empty());
    } else {
        lemma_apply_prefix(text, old, new, ks, cs, j - 1);
        let i = m - j;
        assert(ord.take(j).drop_last() =~= ord.take(j - 1));
        assert(ord[j - 1] == (cs.len() - 1 - (j - 1)) as usize);
        assert(ord.take(j).last() == ord[j - 1]);
        assert(ord.take(j).last() as int == i);
        lemma_apply_one(text, old, new, ks, cs[i], i);
    }
}

/// The `i`th occurrence lies at character `i` or later.
proof fn lemma_occurrences_at_least(text: Seq<char>, old: Seq<char>, ks: Seq<int>, i: int)
    requires
        ks == occurrences_from(text, old, 0),
        old.len() > 0,
        0 <= i < ks.len(),
    ensures
        i <= ks[i],
        ks[i] + old.len() <= text.len(),
    decreases i,
{
    lemma_occurrences_in_order(text, old, 0);
    assert(occurs_at_char(text, old, ks[i]));
    if i > 0 {
        lemma_occurrences_at_least(text, old, ks, i - 1);
        assert(ks[i - 1] + old.len() <= ks[i]);
    }
}

/// Every character takes at least one byte.
proof fn lemma_len_le_byte_len(s: Seq<char>)
    ensures
        s.len() <= byte_len(s),
    decreases s.len(),
{
    if s.len() > 0 {
        lemma_len_le_byte_len(s.drop_last());
    }
}

/// Occurrences further apart in the list lie further apart in the text.
proof fn lemma_occurrences_order_far(text: Seq<char>, old: Seq<char>, ks: Seq<int>, a: int, b: int)
    requires
        ks == occurrences_from(text, old, 0),
        old.len() > 0,
        0 <= a < b < ks.len(),
    ensures
        ks[a] + old.len() <= ks[b],
    decreases b - a,
{
    lemma_occurrences_in_order(text, old, 0);
    if a + 1 < b {
        lemma_occurrences_order_far(text, old, ks, a + 1, b);
    }
    assert(ks[a] + old.len() <= ks[a + 1]);
}

/// Replacing from an occurrence on: its new text, then the rest replaced; and the rest
/// is the text up to the next occurrence and the replacement from there, or the end of
/// the text after the last one.
proof fn lemma_replaced_step(text: Seq<char>, old: Seq<char>, new: Seq<char>, ks: Seq<int>, i: int)
    requires
        old.len() > 0,
        ks == occurrences_from(text, old, 0),
        0 <= i < ks.len(),
    ensures
        replaced_from(text, old, new, ks[i]) == new + replaced_from(text, old, new, ks[i] + old.len()),
        i + 1 < ks.len() ==> replaced_from(text, old, new, ks[i] + old.len())
            == text.subrange(ks[i] + old.len(), ks[i + 1]) + replaced_from(text, old, new, ks[i + 1]),
        i + 1 == ks.len() ==> replaced_from(text, old, new, ks[i] + old.len()) == text.skip(ks[i] + old.len()),
{
    let k = ks[i];
    let e = k + old.len();
    assert(occurs_at_char(text, old, k)) by {
        lemma_occurrences_in_order(text, old, 0);
    }
    assert(next_occurrence(text, old, k) == Some(k));
    assert(text.subrange(k, k) =~= Seq::<char>::empty());
    assert(occurrences_from(text, old, e) == ks.skip(i + 1)) by {
        lemma_occurrences_chain(text, old, 0);
    }
    lemma_occurrences_chain(text, old, e);
    if i + 1 < ks.len() {
        let k2 = ks[i + 1];
        assert(ks.skip(i + 1)[0] == k2);
        assert(next_occurrence(text, old, e) == Some(k2));
        assert(occurs_at_char(text, old, k2)) by {
            lemma_occurrences_in_order(text, old, 0);
        }
        assert(next_occurrence(text, old, k2) == Some(k2));
        assert(text.subrange(k2, k2) =~= Seq::<char>::empty());
        assert(replaced_from(text, old, new, k2) == new + replaced_from(text, old, new, k2 + old.len()));
        assert(replaced_from(text, old, new, e) == text.subrange(e, k2) + new + replaced_from(text, old, new, k2 + old.len()));
        assert(text.subrange(e, k2) + new + replaced_from(text, old, new, k2 + old.len())
            =~= text.subrange(e, k2) + replaced_from(text, old, new, k2));
    } else {
        assert(ks.skip(i + 1).len() == 0);
    }
}

/// Once the changes after occurrence `i` are applied, the text is as found up to the
/// end of that occurrence.
proof fn lemma_applied_keeps_start(text: Seq<char>, old: Seq<char>, new: Seq<char>, ks: Seq<int>, i: int)
    requires
        old.len() > 0,
        ks == occurrences_from(text, old, 0),
        0 <= i < ks.len(),
    ensures
        ks[i] + old.len() <= applied_from(text, old, new, ks, i + 1).len(),
        applied_from(text, old, new, ks, i + 1).take(ks[i] + old.len()) == text.take(ks[i] + old.len()),
        applied_from(text, old, new, ks, i + 1).take(ks[i]) == text.take(ks[i]),
        i + 1 < ks.len() ==> applied_from(text, old, new, ks, i + 1).skip(ks[i] + old.len())
            == text.subrange(ks[i] + old.len(), ks[i + 1]) + replaced_from(text, old, new, ks[i + 1]),
        i + 1 == ks.len() ==> applied_from(text, old, new, ks, i + 1) == text,
{
    let e = ks[i] + old.len();
    let st = applied_from(text, old, new, ks, i + 1);
    lemma_occurrences_at_least(text, old, ks, i);
    if i + 1 < ks.len() {
        lemma_occurrences_order_far(text, old, ks, i, i + 1);
        lemma_occurrences_at_least(text, old, ks, i + 1);
        let k2 = ks[i + 1];
        assert(st == text.take(k2) + replaced_from(text, old, new, k2));
        assert(st.take(e) =~= text.take(e));
        assert(st.take(ks[i]) =~= text.take(ks[i]));
        assert(st.skip(e) =~= text.subrange(e, k2) + replaced_from(text, old, new, k2));
    }
}

/// Applying the change for occurrence `i` once those after it are applied.
proof fn lemma_apply_one(text: Seq<char>, old: Seq<char>, new: Seq<char>, ks: Seq<int>, c: SedChange, i: int)
    requires
        old.len() > 0,
        ks == occurrences_from(text, old, 0),
        0 <= i < ks.len(),
        c.byte_start == byte_len(text.take(ks[i])),
        c.byte_end == byte_len(text.take(ks[i] + old.len())),
        c.old_text@ == old,
        c.new_text@ == new,
    ensures
        replace_step(applied_from(text, old, new, ks, i + 1), c) == Some(applied_from(text, old, new, ks, i)),
{
    let k = ks[i];
    let e = k + old.len();
    let st = applied_from(text, old, new, ks, i + 1);
    lemma_applied_keeps_start(text, old, new, ks, i);
    lemma_replaced_step(text, old, new, ks, i);
    assert(occurs_at_char(text, old, k)) by {
        lemma_occurrences_in_order(text, old, 0);
    }
    assert(boundary_index(st, c.byte_start as int, 0) == k) by {
        lemma_boundary_at(st, k, 0);
    }
    assert(boundary_index(st, c.byte_end as int, 0) == e) by {
        lemma_boundary_at(st, e, 0);
    }
    assert(byte_len(st) >= c.byte_end) by {
        lemma_byte_len_take(st, e);
    }
    assert(st.subrange(k, e) =~= text.subrange(k, e)) by {
        assert(st.subrange(k, e) =~= st.take(e).subrange(k, e));
        assert(text.subrange(k, e) =~= text.take(e).subrange(k, e));
    }
    assert(st.take(k) + new + st.skip(e) =~= applied_from(text, old, new, ks, i));
}

/// A text without the character `c` has no first `c`.
proof fn lemma_char_absent(s: Seq<char>, c: char)
    requires
        forall|i: int| 0 <= i < s.len() ==> s[i] != c,
    ensures
        first_index_of(s, c) == -1,
    decreases s.len(),
{
    if s.len() > 0 {
        lemma_char_absent(s.drop_last(), c);
    }
}

/// The digits at the start of `d + rest` are those of `d`, when `rest` starts with
/// something else.
proof fn lemma_digit_run_concat(d: Seq<char>, rest: Seq<char>)
    requires
        crate::tags::all_digits(d),
        rest.len() > 0,
        !crate::tags::is_digit(rest[0]),
    ensures
        digit_run(d + rest) == d.len(),
    decreases d.len(),
{
    if d.len() > 0 {
        assert((d + rest).skip(1) =~= d.skip(1) + rest);
        assert(crate::tags::is_digit(d[0]));
        lemma_digit_run_concat(d.skip(1), rest);
    } else {
        assert(d + rest =~= rest);
    }
}

/// The review line of change number `idx` reads back as `idx`, so that a key pressed on
/// that line acts on that change.
pub proof fn law_review_row_reads_back(c: SedChange, idx: usize)
    ensures
        change_index(change_row(c, idx as nat)) == Some(idx),
{
    reveal_strlit("[y]");
    reveal_strlit("[ ]");
    reveal_strlit(" #");
    reveal_strlit(" L");
    let d = decimal(idx as nat);
    crate::positions::lemma_decimal_digits(idx as nat);
    crate::positions::lemma_parse_decimal(idx as nat);
    let head = marker(c.confirmed) + " #"@;
    let tail = " L"@ + decimal((c.line + 1) as nat) + ":C"@ + decimal((c.column + 1) as nat)
        + (if c.word_boundary { ""@ } else { " \u{26a0}"@ }) + "  "@ + c.context_line@ + "\n"@;
    let row = change_row(c, idx as nat);
    assert(row =~= head + (d + tail));
    assert(head.len() == 5);
    assert(row[4] == '#');
    assert(first_index_of(row.take(4), '#') == -1) by {
        lemma_char_absent(row.take(4), '#');
    }
    crate::tags::lemma_first_index_prefix(row, 4, '#');
    let after = row.skip(5);
    assert(after =~= d + tail);
    assert(tail[0] == ' ');
    lemma_digit_run_concat(d, tail);
    assert(after.take(digit_run(after)) =~= d);
}

} // verus!
