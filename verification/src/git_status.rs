//! The git status buffer: its text, made from the output of `git status --short`,
//! `git branch` and `git stash list`, and reading the file or stash a line names.
use vstd::prelude::*;
use crate::ex_mode::{history_view, ExMode};
use crate::search_select::seq_contains;
use crate::status_line::{decimal, decimal_chars};
use crate::text::{
    chars_start_with, concat_chars, push_chars, push_str, seq_starts_with, spec_lines, str_lines, string_from_chars, sub_chars,
    to_chars, trim, trim_start_white, trim_white,
};

verus! {

/// The rule under each section title.
pub open spec fn separator() -> Seq<char> {
    "  ────────────────────────────────────────"@
}

/// The file of a `git status --short` line: after its three-character prefix, and after
/// ` -> ` for a rename.
pub open spec fn short_path(line: Seq<char>) -> Seq<char> {
    let rest = line.skip(3);
    let arrow = first_arrow(rest);
    if arrow >= 0 {
        rest.skip(arrow + 4)
    } else {
        rest
    }
}

/// Where ` -> ` first occurs in `s`, or -1.
pub open spec fn first_arrow(s: Seq<char>) -> int {
    first_arrow_from(s, 0)
}

pub open spec fn first_arrow_from(s: Seq<char>, i: int) -> int
    decreases s.len() - i,
{
    if i < 0 || i + 4 > s.len() {
        -1
    } else if s.subrange(i, i + 4) == " -> "@ {
        i
    } else {
        first_arrow_from(s, i + 1)
    }
}

/// The status lines sorted into staged lines, unstaged lines and untracked paths. Lines
/// shorter than four bytes are skipped; a `??` line gives its path (if any).
pub open spec fn classify(lines: Seq<Seq<char>>) -> (Seq<Seq<char>>, Seq<Seq<char>>, Seq<Seq<char>>)
    decreases lines.len(),
{
    if lines.len() == 0 {
        (seq![], seq![], seq![])
    } else {
        let (staged, unstaged, untracked) = classify(lines.drop_last());
        let line = lines.last();
        if vstd::utf8::encode_utf8(line).len() < 4 {
            (staged, unstaged, untracked)
        } else if line.len() > 1 && line[0] == '?' && line[1] == '?' {
            let path = short_path(line);
            (staged, unstaged, if path.len() > 0 { untracked.push(path) } else { untracked })
        } else {
            (
                if line[0] != ' ' && line[0] != '?' { staged.push(line) } else { staged },
                if line.len() > 1 && line[1] != ' ' && line[1] != '?' { unstaged.push(line) } else { unstaged },
                untracked,
            )
        }
    }
}

/// The indented entries of a section, or `(none)`.
pub open spec fn section_items(items: Seq<Seq<char>>) -> Seq<char>
    decreases items.len(),
{
    if items.len() == 0 {
        "    (none)\n"@
    } else {
        listed(items)
    }
}

/// Each entry indented by four spaces, on its own line.
pub open spec fn listed(items: Seq<Seq<char>>) -> Seq<char>
    decreases items.len(),
{
    if items.len() == 0 {
        seq![]
    } else {
        listed(items.drop_last()) + "    "@ + items.last() + seq!['\n']
    }
}

/// A titled section: title and count, the rule, the entries, a blank line.
pub open spec fn section(title: Seq<char>, items: Seq<Seq<char>>) -> Seq<char> {
    "  "@ + title + " ("@ + decimal(items.len()) + ")\n"@ + separator() + seq!['\n'] + section_items(items)
        + seq!['\n']
}

/// The first five branch lines, trimmed; the current branch (`*`) indented by four
/// spaces, the others by six.
pub open spec fn branch_lines(lines: Seq<Seq<char>>) -> Seq<char>
    decreases lines.len(),
{
    if lines.len() == 0 {
        seq![]
    } else {
        let t = trim_white(lines.last());
        branch_lines(lines.drop_last()) + (if t.len() > 0 && t[0] == '*' { "    "@ } else { "      "@ }) + t
            + seq!['\n']
    }
}

/// The first five entries of `lines`.
pub open spec fn first_five(lines: Seq<Seq<char>>) -> Seq<Seq<char>> {
    if lines.len() <= 5 {
        lines
    } else {
        lines.take(5)
    }
}

/// The git status buffer's text.
pub open spec fn status_text(
    status: Seq<char>,
    branches: Seq<char>,
    stashes: Seq<char>,
    pending_stash: Option<Seq<char>>,
) -> Seq<char> {
    let (staged, unstaged, untracked) = classify(spec_lines(status));
    section("Stage Changes"@, staged) + section("Unstage Changes"@, unstaged) + section(
        "Untracked Files"@,
        untracked,
    ) + (if staged.len() == 0 && unstaged.len() == 0 && untracked.len() == 0 {
        "  Nothing to commit, working tree clean\n\n"@
    } else {
        seq![]
    }) + "  ------ Branch ------\n"@ + separator() + seq!['\n'] + branch_lines(first_five(spec_lines(branches)))
        + seq!['\n'] + "  ------ Stash ------\n"@ + separator() + seq!['\n'] + section_items(
        first_five(spec_lines(stashes)),
    ) + seq!['\n'] + separator() + seq!['\n'] + match pending_stash {
        Some(r) => "  "@ + r + " (p)pop (d)drop (a)apply (other)dismiss\n"@,
        None => "  [s] Toggle staged  [Enter] Open file  [z] stash  [q] Close\n"@,
    }
}

/// Every line's byte length fits in a `usize`, and lines whose byte length is at least
/// four and that start with `??` have a one-byte third character (as `git status --short`
/// writes them).
pub open spec fn well_formed_status(status: Seq<char>) -> bool {
    forall|i: int|
        0 <= i < spec_lines(status).len() ==> {
            let line = #[trigger] spec_lines(status)[i];
            &&& vstd::utf8::encode_utf8(line).len() <= usize::MAX
            &&& vstd::utf8::encode_utf8(line).len() >= 4 && line.len() > 1 && line[0] == '?' && line[1] == '?'
                ==> line.len() >= 3 && (line[2] as u32) < 0x80
        }
}

fn first_arrow_exec(s: &Vec<char>) -> (r: Option<usize>)
    ensures
        match r {
            Some(i) => i == first_arrow(s@) && i + 4 <= s@.len(),
            None => first_arrow(s@) == -1,
        },
{
    let arrow = to_chars(" -> ");
    proof {
        reveal_strlit(" -> ");
    }
    let mut i: usize = 0;
    while s.len() >= 4 && i <= s.len() - 4
        invariant
            arrow@ == " -> "@,
            first_arrow_from(s@, i as int) == first_arrow(s@),
        decreases s@.len() - i,
    {
        let window = sub_chars(s, i, i + 4);
        if crate::text::chars_eq(&window, &arrow) {
            return Some(i);
        }
        i = i + 1;
    }
    None
}

fn short_path_exec(line: &Vec<char>) -> (r: Vec<char>)
    requires
        line@.len() >= 3,
    ensures
        r@ == short_path(line@),
{
    let rest = sub_chars(line, 3, line.len());
    match first_arrow_exec(&rest) {
        Some(a) => sub_chars(&rest, a + 4, rest.len()),
        None => rest,
    }
}

fn push_listed(out: &mut Vec<char>, items: &Vec<Vec<char>>)
    ensures
        final(out)@ == old(out)@ + listed(items@.map_values(|t: Vec<char>| t@)),
{
    let ghost iv = items@.map_values(|t: Vec<char>| t@);
    let ghost start = out@;
    let mut i: usize = 0;
    while i < items.len()
        invariant
            i <= items@.len(),
            iv == items@.map_values(|t: Vec<char>| t@),
            out@ == start + listed(iv.take(i as int)),
        decreases items@.len() - i,
    {
        push_str(out, "    ");
        push_chars(out, &items[i]);
        out.push('\n');
        assert(iv.take(i + 1).drop_last() == iv.take(i as int));
        i = i + 1;
        assert(out@ =~= start + listed(iv.take(i as int)));
    }
    assert(iv.take(items@.len() as int) == iv);
}

fn push_section_items(out: &mut Vec<char>, items: &Vec<Vec<char>>)
    ensures
        final(out)@ == old(out)@ + section_items(items@.map_values(|t: Vec<char>| t@)),
{
    if items.len() == 0 {
        push_str(out, "    (none)\n");
    } else {
        push_listed(out, items);
    }
}

fn push_section(out: &mut Vec<char>, title: &str, items: &Vec<Vec<char>>)
    ensures
        final(out)@ == old(out)@ + section(title@, items@.map_values(|t: Vec<char>| t@)),
{
    let ghost start = out@;
    push_str(out, "  ");
    push_str(out, title);
    push_str(out, " (");
    push_chars(out, &decimal_chars(items.len()));
    push_str(out, ")\n");
    push_str(out, "  ────────────────────────────────────────");
    out.push('\n');
    push_section_items(out, items);
    out.push('\n');
    assert(out@ =~= start + section(title@, items@.map_values(|t: Vec<char>| t@)));
}

fn lines_of(text: &str) -> (r: Vec<Vec<char>>)
    ensures
        r@.map_values(|t: Vec<char>| t@) == spec_lines(text@),
{
    let lines = str_lines(text);
    let mut r: Vec<Vec<char>> = Vec::new();
    let mut i: usize = 0;
    while i < lines.len()
        invariant
            i <= lines@.len(),
            lines@.map_values(|l: &str| l@) == spec_lines(text@),
            r@.map_values(|t: Vec<char>| t@) == spec_lines(text@).take(i as int),
        decreases lines@.len() - i,
    {
        let ghost before = r@;
        r.push(to_chars(lines[i]));
        assert(r@.map_values(|t: Vec<char>| t@) =~= before.map_values(|t: Vec<char>| t@).push(spec_lines(text@)[i as int]));
        i = i + 1;
        assert(r@.map_values(|t: Vec<char>| t@) =~= spec_lines(text@).take(i as int));
    }
    assert(spec_lines(text@).take(lines@.len() as int) == spec_lines(text@));
    r
}

fn first_five_exec(lines: Vec<Vec<char>>) -> (r: Vec<Vec<char>>)
    ensures
        r@.map_values(|t: Vec<char>| t@) == first_five(lines@.map_values(|t: Vec<char>| t@)),
{
    let mut r: Vec<Vec<char>> = Vec::new();
    let n = if lines.len() <= 5 { lines.len() } else { 5 };
    let ghost lv = lines@.map_values(|t: Vec<char>| t@);
    let mut i: usize = 0;
    while i < n
        invariant
            n <= lines@.len(),
            n == if lines@.len() <= 5 { lines@.len() } else { 5 },
            lv == lines@.map_values(|t: Vec<char>| t@),
            i <= n,
            r@.map_values(|t: Vec<char>| t@) == lv.take(i as int),
        decreases n - i,
    {
        let ghost before = r@;
        r.push(crate::order::vec_clone_chars(&lines[i]));
        assert(r@.map_values(|t: Vec<char>| t@) =~= before.map_values(|t: Vec<char>| t@).push(lv[i as int]));
        i = i + 1;
        assert(r@.map_values(|t: Vec<char>| t@) =~= lv.take(i as int));
    }
    assert(lines@.len() <= 5 ==> lv.take(n as int) == lv);
    r
}

/// The text of the git status buffer, from the output of `git status --short`, of
/// `git branch` (most recent first) and of `git stash list`, and the stash awaiting
/// confirmation, if any.
pub fn status_buffer_content(status: &str, branches: &str, stashes: &str, pending_stash: Option<&str>) -> (r: String)
    requires
        well_formed_status(status@),
    ensures
        r@ == status_text(status@, branches@, stashes@, match pending_stash {
            Some(s) => Some(s@),
            None => None,
        }),
{
    let status_lines = str_lines(status);
    let ghost sl = spec_lines(status@);
    let mut staged: Vec<Vec<char>> = Vec::new();
    let mut unstaged: Vec<Vec<char>> = Vec::new();
    let mut untracked: Vec<Vec<char>> = Vec::new();
    let mut i: usize = 0;
    while i < status_lines.len()
        invariant
            i <= status_lines@.len(),
            status_lines@.map_values(|l: &str| l@) == sl,
            sl == spec_lines(status@),
            well_formed_status(status@),
            (staged@.map_values(|t: Vec<char>| t@), unstaged@.map_values(|t: Vec<char>| t@), untracked@.map_values(
                |t: Vec<char>| t@,
            )) == classify(sl.take(i as int)),
        decreases status_lines@.len() - i,
    {
        assert(sl.take(i + 1).drop_last() == sl.take(i as int));
        assert(status_lines@[i as int]@ == sl[i as int]);
        assert(spec_lines(status@)[i as int] == sl[i as int]);
        let byte_len = status_lines[i].len();
        let line = to_chars(status_lines[i]);
        let ghost (s0, u0, t0) = classify(sl.take(i as int));
        let ghost sb = staged@;
        let ghost ub = unstaged@;
        let ghost tb = untracked@;
        if byte_len >= 4 {
            proof {
                assert(vstd::utf8::encode_utf8(line@).len() >= 4);
                if line@.len() == 0 {
                    assert(vstd::utf8::encode_utf8(line@) == Seq::<u8>::empty());
                }
                assert(sl[i as int] == line@);
            }
            if line.len() > 1 && line[0] == '?' && line[1] == '?' {
                assert(spec_lines(status@)[i as int] == line@);
                let path = short_path_exec(&line);
                if path.len() > 0 {
                    untracked.push(path);
                    assert(untracked@.map_values(|t: Vec<char>| t@) =~= tb.map_values(|t: Vec<char>| t@).push(short_path(line@)));
                }
            } else {
                if line[0] != ' ' && line[0] != '?' {
                    staged.push(crate::order::vec_clone_chars(&line));
                    assert(staged@.map_values(|t: Vec<char>| t@) =~= sb.map_values(|t: Vec<char>| t@).push(line@));
                }
                if line.len() > 1 && line[1] != ' ' && line[1] != '?' {
                    unstaged.push(line);
                    assert(unstaged@.map_values(|t: Vec<char>| t@) =~= ub.map_values(|t: Vec<char>| t@).push(sl[i as int]));
                }
            }
        }
        proof {
            let t1 = sl.take(i + 1);
            assert(t1.drop_last() == sl.take(i as int));
            assert(t1.last() == line@);
            assert(vstd::utf8::encode_utf8(line@).len() == byte_len);
        }
        i = i + 1;
    }
    assert(sl.take(status_lines@.len() as int) == sl);
    let mut out: Vec<char> = Vec::new();
    push_section(&mut out, "Stage Changes", &staged);
    push_section(&mut out, "Unstage Changes", &unstaged);
    push_section(&mut out, "Untracked Files", &untracked);
    if staged.len() == 0 && unstaged.len() == 0 && untracked.len() == 0 {
        push_str(&mut out, "  Nothing to commit, working tree clean\n\n");
    }
    let ghost before_branches = out@;
    push_str(&mut out, "  ------ Branch ------\n");
    push_str(&mut out, "  ────────────────────────────────────────");
    out.push('\n');
    let branch_list = first_five_exec(lines_of(branches));
    let ghost bv = branch_list@.map_values(|t: Vec<char>| t@);
    let ghost branch_start = out@;
    let mut k: usize = 0;
    while k < branch_list.len()
        invariant
            k <= branch_list@.len(),
            bv == branch_list@.map_values(|t: Vec<char>| t@),
            out@ == branch_start + branch_lines(bv.take(k as int)),
        decreases branch_list@.len() - k,
    {
        let t = trim(&branch_list[k]);
        if t.len() > 0 && t[0] == '*' {
            push_str(&mut out, "    ");
        } else {
            push_str(&mut out, "      ");
        }
        push_chars(&mut out, &t);
        out.push('\n');
        assert(bv.take(k + 1).drop_last() == bv.take(k as int));
        k = k + 1;
        assert(out@ =~= branch_start + branch_lines(bv.take(k as int)));
    }
    assert(bv.take(branch_list@.len() as int) == bv);
    out.push('\n');
    push_str(&mut out, "  ------ Stash ------\n");
    push_str(&mut out, "  ────────────────────────────────────────");
    out.push('\n');
    let stash_list = first_five_exec(lines_of(stashes));
    push_section_items(&mut out, &stash_list);
    out.push('\n');
    push_str(&mut out, "  ────────────────────────────────────────");
    out.push('\n');
    match pending_stash {
        Some(stash_ref) => {
            push_str(&mut out, "  ");
            push_str(&mut out, stash_ref);
            push_str(&mut out, " (p)pop (d)drop (a)apply (other)dismiss\n");
        },
        None => {
            push_str(&mut out, "  [s] Toggle staged  [Enter] Open file  [z] stash  [q] Close\n");
        },
    }
    assert(out@ =~= status_text(status@, branches@, stashes@, match pending_stash {
        Some(s) => Some(s@),
        None => None,
    }));
    string_from_chars(out)
}

/// A status code character of `git status --short`.
pub open spec fn is_status_code(c: char) -> bool {
    (65 <= (c as u32) <= 90) || c == '?' || c == ' '
}

/// Lines of the status buffer that name no file.
pub open spec fn is_decoration(t: Seq<char>) -> bool {
    ||| seq_starts_with(t, "Stage Changes"@)
    ||| seq_starts_with(t, "Unstage Changes"@)
    ||| seq_starts_with(t, "Untracked Files"@)
    ||| seq_starts_with(t, "──"@)
    ||| seq_starts_with(t, "------"@)
    ||| seq_starts_with(t, "["@)
    ||| seq_contains(t, "Nothing to commit"@)
    ||| seq_starts_with(t, "stash@{"@)
    ||| seq_contains(t, "Pop stash@{"@)
    ||| seq_starts_with(t, "*"@)
}

/// The file a status buffer line names: after a two-character status code (and the
/// spaces that follow it), and after ` -> ` for a rename; a plain name as it is.
pub open spec fn file_path_of(line: Seq<char>) -> Option<Seq<char>> {
    let t = trim_white(line);
    if t.len() == 0 || t == "(none)"@ || is_decoration(t) {
        None
    } else if t.len() >= 3 && is_status_code(t[0]) && is_status_code(t[1]) && !(t[0] == ' ' && t[1] == ' ') {
        let rest = trim_start_white(t.skip(2));
        if rest.len() == 0 {
            None
        } else if first_arrow(rest) >= 0 {
            Some(rest.skip(first_arrow(rest) + 4))
        } else {
            Some(rest)
        }
    } else {
        Some(t)
    }
}

fn is_status_code_exec(c: char) -> (r: bool)
    ensures
        r == is_status_code(c),
{
    let u = c as u32;
    (65 <= u && u <= 90) || c == '?' || c == ' '
}

fn starts(t: &Vec<char>, p: &str) -> (r: bool)
    ensures
        r == seq_starts_with(t@, p@),
{
    chars_start_with(t, &to_chars(p))
}

fn holds(t: &Vec<char>, p: &str) -> (r: bool)
    ensures
        r == seq_contains(t@, p@),
{
    crate::search_select::chars_contain(t, &to_chars(p))
}

fn trim_start_exec(s: &Vec<char>) -> (r: Vec<char>)
    ensures
        r@ == trim_start_white(s@),
{
    let mut start: usize = 0;
    assert(s@.skip(0) == s@);
    while start < s.len() && crate::text::is_whitespace(s[start])
        invariant
            start <= s@.len(),
            trim_start_white(s@.skip(start as int)) == trim_start_white(s@),
        decreases s@.len() - start,
    {
        assert(s@.skip(start as int).skip(1) == s@.skip(start + 1));
        start = start + 1;
    }
    sub_chars(s, start, s.len())
}

/// The file a status buffer line names, if any.
pub fn extract_file_path(line: &str) -> (r: Option<String>)
    ensures
        match file_path_of(line@) {
            Some(p) => r matches Some(s) && s@ == p,
            None => r is None,
        },
{
    let t = trim(&to_chars(line));
    if t.len() == 0 || crate::text::chars_eq(&t, &to_chars("(none)")) {
        return None;
    }
    if starts(&t, "Stage Changes") || starts(&t, "Unstage Changes") || starts(&t, "Untracked Files")
        || starts(&t, "──") || starts(&t, "------") || starts(&t, "[") || holds(&t, "Nothing to commit")
        || starts(&t, "stash@{") || holds(&t, "Pop stash@{") || starts(&t, "*") {
        return None;
    }
    if t.len() >= 3 && is_status_code_exec(t[0]) && is_status_code_exec(t[1]) && !(t[0] == ' ' && t[1] == ' ') {
        let rest = trim_start_exec(&sub_chars(&t, 2, t.len()));
        if rest.len() == 0 {
            return None;
        }
        return match first_arrow_exec(&rest) {
            Some(a) => Some(string_from_chars(sub_chars(&rest, a + 4, rest.len()))),
            None => Some(string_from_chars(rest)),
        };
    }
    Some(string_from_chars(t))
}

/// The stash a status buffer line names: the trimmed line up to its first `:`, when it
/// starts with `stash@{`.
pub open spec fn stash_ref_of(line: Seq<char>) -> Option<Seq<char>> {
    let t = trim_white(line);
    if !seq_starts_with(t, "stash@{"@) {
        None
    } else {
        let colon = crate::tags::first_index_of(t, ':');
        Some(if colon >= 0 { t.take(colon) } else { t })
    }
}

/// The stash a status buffer line names, if any.
pub fn extract_stash_ref(line: &str) -> (r: Option<String>)
    ensures
        match stash_ref_of(line@) {
            Some(p) => r matches Some(s) && s@ == p,
            None => r is None,
        },
{
    let t = trim(&to_chars(line));
    if !starts(&t, "stash@{") {
        return None;
    }
    match crate::tags::first_index(&t, ':') {
        Some(c) => Some(string_from_chars(sub_chars(&t, 0, c))),
        None => Some(string_from_chars(t)),
    }
}

/// The parts of the status buffer.
#[derive(Debug, Clone, Copy, PartialEq, Eq, Structural)]
pub enum Section {
    Staged,
    Unstaged,
    Untracked,
    Stash,
    Info,
}

/// The section a title line opens, if it is one.
pub open spec fn section_title(line: Seq<char>) -> Option<Section> {
    if seq_contains(line, "Stage Changes"@) {
        Some(Section::Staged)
    } else if seq_contains(line, "Unstage Changes"@) {
        Some(Section::Unstaged)
    } else if seq_contains(line, "Untracked Files"@) {
        Some(Section::Untracked)
    } else if seq_contains(line, "Stash"@) {
        Some(Section::Stash)
    } else if seq_contains(line, "Branch"@) {
        Some(Section::Info)
    } else {
        None
    }
}

/// The section that line `i` is in: the nearest title at or above it.
pub open spec fn section_at(lines: Seq<Seq<char>>, i: int) -> Option<Section>
    decreases i + 1,
{
    if i < 0 {
        None
    } else if i < lines.len() && section_title(lines[i]) is Some {
        section_title(lines[i])
    } else {
        section_at(lines, i - 1)
    }
}

/// The section that line `line_idx` of the status buffer is in.
pub fn current_section(data: &str, line_idx: usize) -> (r: Option<Section>)
    ensures
        r == section_at(spec_lines(data@), line_idx as int),
{
    let lines = str_lines(data);
    let ghost ls = spec_lines(data@);
    let mut i = line_idx;
    loop
        invariant
            lines@.map_values(|l: &str| l@) == ls,
            ls == spec_lines(data@),
            i <= line_idx,
            section_at(ls, i as int) == section_at(ls, line_idx as int),
        decreases i,
    {
        if i < lines.len() {
            let line = to_chars(lines[i]);
            assert(line@ == ls[i as int]);
            if holds(&line, "Stage Changes") {
                return Some(Section::Staged);
            } else if holds(&line, "Unstage Changes") {
                return Some(Section::Unstaged);
            } else if holds(&line, "Untracked Files") {
                return Some(Section::Untracked);
            } else if holds(&line, "Stash") {
                return Some(Section::Stash);
            } else if holds(&line, "Branch") {
                return Some(Section::Info);
            }
            assert(section_title(ls[i as int]) is None);
        }
        assert(section_at(ls, i as int) == section_at(ls, i - 1));
        if i == 0 {
            assert(section_at(ls, -1) is None);
            return None;
        }
        i = i - 1;
    }
}

/// What a status buffer line points at.
#[derive(Debug, Clone, PartialEq, Eq)]
pub enum StatusTarget {
    /// A stash, which then awaits confirmation.
    Stash(String),
    /// A file, and the section it is listed in.
    File(String, Option<Section>),
}

/// Why a status buffer line points at nothing.
#[derive(Debug, Clone, Copy, PartialEq, Eq, Structural)]
pub enum GitStatusError {
    /// The cursor is past the last line.
    NoLine,
    /// The line names no file.
    NoFilePath,
    /// The line is in the branch or stash part.
    NoFileOnLine,
}

/// What line `line_idx` of the status buffer points at: a stash (when `stashes` is set),
/// else a file outside the branch and stash parts.
pub fn status_target(data: &str, line_idx: usize, stashes: bool) -> (r: Result<StatusTarget, GitStatusError>)
    ensures
        ({
            let ls = spec_lines(data@);
            if line_idx >= ls.len() {
                r == Err::<StatusTarget, GitStatusError>(GitStatusError::NoLine)
            } else {
                let line = ls[line_idx as int];
                if stashes && stash_ref_of(line) is Some {
                    r matches Ok(StatusTarget::Stash(s)) && s@ == stash_ref_of(line)->0
                } else {
                    match file_path_of(line) {
                        None => r == Err::<StatusTarget, GitStatusError>(GitStatusError::NoFilePath),
                        Some(p) => {
                            let sec = section_at(ls, line_idx as int);
                            if sec == Some(Section::Info) || sec == Some(Section::Stash) {
                                r == Err::<StatusTarget, GitStatusError>(GitStatusError::NoFileOnLine)
                            } else {
                                r matches Ok(StatusTarget::File(f, s)) && f@ == p && s == sec
                            }
                        },
                    }
                }
            }
        }),
{
    let lines = str_lines(data);
    if line_idx >= lines.len() {
        return Err(GitStatusError::NoLine);
    }
    let line = lines[line_idx];
    if stashes {
        match extract_stash_ref(line) {
            Some(s) => return Ok(StatusTarget::Stash(s)),
            None => {},
        }
    }
    let path = match extract_file_path(line) {
        Some(p) => p,
        None => return Err(GitStatusError::NoFilePath),
    };
    let section = current_section(data, line_idx);
    if section == Some(Section::Info) || section == Some(Section::Stash) {
        return Err(GitStatusError::NoFileOnLine);
    }
    Ok(StatusTarget::File(path, section))
}

/// The first line of the status buffer that names `path`.
pub fn line_of_path(data: &str, path: &str) -> (r: Option<usize>)
    ensures
        match r {
            Some(i) => i < spec_lines(data@).len() && file_path_of(spec_lines(data@)[i as int]) == Some(path@)
                && forall|j: int| 0 <= j < i ==> file_path_of(#[trigger] spec_lines(data@)[j]) != Some(path@),
            None => forall|j: int| 0 <= j < spec_lines(data@).len() ==> file_path_of(#[trigger] spec_lines(data@)[j]) != Some(path@),
        },
{
    let lines = str_lines(data);
    let ghost ls = spec_lines(data@);
    let target = to_chars(path);
    let mut i: usize = 0;
    while i < lines.len()
        invariant
            lines@.map_values(|l: &str| l@) == ls,
            ls == spec_lines(data@),
            target@ == path@,
            i <= lines@.len(),
            forall|j: int| 0 <= j < i ==> file_path_of(#[trigger] ls[j]) != Some(path@),
        decreases lines@.len() - i,
    {
        assert(lines@[i as int]@ == ls[i as int]);
        match extract_file_path(lines[i]) {
            Some(p) => {
                if crate::text::chars_eq(&to_chars(p.as_str()), &target) {
                    return Some(i);
                }
            },
            None => {},
        }
        i = i + 1;
    }
    None
}

/// Switch to ex mode with `:stash ` pre-filled so user can type a description.
pub fn prompt_stash(mode: &mut ExMode)
    ensures
        final(mode).input@ == ":stash "@,
        final(mode).completions@.len() == 0,
        final(mode).completion_selection is None,
        history_view(final(mode).history@) == history_view(old(mode).history@),
        final(mode).history_index == old(mode).history@.len(),
{
    mode.reset();
    mode.input = string_from_chars(to_chars(":stash "));
}

/// What to do with a stash that awaits confirmation.
#[derive(Debug, Clone, Copy, PartialEq, Eq, Structural)]
pub enum StashAction {
    Pop,
    Drop,
    Apply,
}

/// The arguments of `git` that stash the work tree: with `-m` and the message, unless
/// it is empty.
pub fn stash_push_args(message: &str) -> (r: Vec<String>)
    ensures
        r@.map_values(|s: String| s@) == if message@.len() == 0 {
            seq!["stash"@, "push"@]
        } else {
            seq!["stash"@, "push"@, "-m"@, message@]
        },
{
    let mut r: Vec<String> = Vec::new();
    r.push("stash".to_owned());
    r.push("push".to_owned());
    if to_chars(message).len() > 0 {
        r.push("-m".to_owned());
        r.push(message.to_owned());
    }
    proof {
        if message@.len() == 0 {
            assert(r@.map_values(|s: String| s@) =~= seq!["stash"@, "push"@]);
        } else {
            assert(r@.map_values(|s: String| s@) =~= seq!["stash"@, "push"@, "-m"@, message@]);
        }
    }
    r
}

/// The arguments of `git` that pop, drop or apply the stash `stash_ref`.
pub fn stash_action_args(action: StashAction, stash_ref: &str) -> (r: Vec<String>)
    ensures
        r@.map_values(|s: String| s@) == seq![
            "stash"@,
            match action {
                StashAction::Pop => "pop"@,
                StashAction::Drop => "drop"@,
                StashAction::Apply => "apply"@,
            },
            stash_ref@,
        ],
{
    let mut r: Vec<String> = Vec::new();
    r.push("stash".to_owned());
    r.push(
        match action {
            StashAction::Pop => "pop",
            StashAction::Drop => "drop",
            StashAction::Apply => "apply",
        }.to_owned(),
    );
    r.push(stash_ref.to_owned());
    assert(r@.map_values(|s: String| s@) =~= seq![
        "stash"@,
        match action {
            StashAction::Pop => "pop"@,
            StashAction::Drop => "drop"@,
            StashAction::Apply => "apply"@,
        },
        stash_ref@,
    ]);
    r
}

} // verus!
