//! The status line: the mode's label, the git branch, the buffer's file name, and on
//! the right the buffer's change summary against git and whether it has unsaved edits.
use vstd::prelude::*;
use crate::diff::GitGutterStatus;
use crate::records::{Alignment, StatusColors, StatusLineData};
use crate::text::{concat_chars, string_from_chars, to_chars};

verus! {

/// The parts of a file's git status that the status line shows.
#[derive(Clone, Copy, Debug, PartialEq, Eq, Structural)]
pub struct FileStatus {
    /// New in the work tree (untracked).
    pub wt_new: bool,
    /// New in the index.
    pub index_new: bool,
    /// Modified in the work tree.
    pub wt_modified: bool,
    /// Modified in the index.
    pub index_modified: bool,
}

/// The short word for a file's git status.
pub open spec fn short_status(s: FileStatus) -> Seq<char> {
    if s.wt_new {
        if s.index_new {
            "partial"@
        } else {
            "new"@
        }
    } else if s.index_new {
        "staged"@
    } else if s.wt_modified {
        if s.index_modified {
            "partial"@
        } else {
            "mod"@
        }
    } else if s.index_modified {
        "staged"@
    } else {
        "ok"@
    }
}

pub fn presentable_status_short(status: &FileStatus) -> (r: &'static str)
    ensures
        r@ == short_status(*status),
{
    if status.wt_new {
        if status.index_new {
            "partial"
        } else {
            "new"
        }
    } else if status.index_new {
        "staged"
    } else if status.wt_modified {
        if status.index_modified {
            "partial"
        } else {
            "mod"
        }
    } else if status.index_modified {
        "staged"
    } else {
        "ok"
    }
}

/// How many lines carry gutter status `t`.
pub open spec fn count_status(s: Seq<GitGutterStatus>, t: GitGutterStatus) -> nat
    decreases s.len(),
{
    if s.len() == 0 {
        0
    } else {
        count_status(s.drop_last(), t) + if s.last() == t { 1nat } else { 0nat }
    }
}

fn count_exec(s: &[GitGutterStatus], t: GitGutterStatus) -> (n: usize)
    ensures
        n == count_status(s@, t),
{
    let mut n: usize = 0;
    let mut i: usize = 0;
    while i < s.len()
        invariant
            i <= s@.len(),
            n == count_status(s@.take(i as int), t),
            n <= i,
        decreases s@.len() - i,
    {
        assert(s@.take(i + 1).drop_last() == s@.take(i as int));
        if s[i] == t {
            n = n + 1;
        }
        i = i + 1;
    }
    assert(s@.take(s@.len() as int) == s@);
    n
}

/// The decimal digits of `n`.
pub open spec fn decimal(n: nat) -> Seq<char>
    decreases n,
{
    if n < 10 {
        seq![((48 + n) as u8) as char]
    } else {
        decimal(n / 10).push(((48 + n % 10) as u8) as char)
    }
}

/// The decimal digits of `n`.
pub fn decimal_chars(n: usize) -> (r: Vec<char>)
    ensures
        r@ == decimal(n as nat),
    decreases n,
{
    if n < 10 {
        let d = (48 + n) as u8;
        vec![d as char]
    } else {
        let mut v = decimal_chars(n / 10);
        let d = (48 + n % 10) as u8;
        v.push(d as char);
        v
    }
}

/// `mark` followed by the decimal digits of `n`.
pub open spec fn counted(mark: char, n: nat) -> Seq<char> {
    seq![mark] + decimal(n)
}

/// The non-zero counts of added, modified and deleted lines, each after its mark.
pub open spec fn change_parts(added: nat, modified: nat, deleted: nat) -> Seq<Seq<char>> {
    (if added > 0 { seq![counted('+', added)] } else { seq![] }) + (if modified > 0 {
        seq![counted('~', modified)]
    } else {
        seq![]
    }) + (if deleted > 0 { seq![counted('-', deleted)] } else { seq![] })
}

/// The parts, a space between each two.
pub open spec fn join_spaced(parts: Seq<Seq<char>>) -> Seq<char>
    decreases parts.len(),
{
    if parts.len() == 0 {
        seq![]
    } else if parts.len() == 1 {
        parts[0]
    } else {
        join_spaced(parts.drop_last()) + seq![' '] + parts.last()
    }
}

/// ` [` then `text`, a `*` for unsaved edits, then `] `.
pub open spec fn bracketed(text: Seq<char>, modified: bool) -> Seq<char> {
    seq![' ', '['] + text + (if modified { seq!['*'] } else { seq![] }) + seq![']', ' ']
}

/// The change summary: for an untracked file `new`; else the counts of added, modified
/// and deleted lines; else `+mod` for unsaved edits; else the file's git status word;
/// nothing without one.
pub open spec fn status_content(
    modified: bool,
    file_status: Option<FileStatus>,
    gutter: Seq<GitGutterStatus>,
) -> Seq<char> {
    let untracked = match file_status {
        Some(s) => s.wt_new,
        None => false,
    };
    let a = count_status(gutter, GitGutterStatus::Added);
    let m = count_status(gutter, GitGutterStatus::Modified);
    let d = count_status(gutter, GitGutterStatus::Deleted);
    if untracked {
        bracketed("new"@, modified)
    } else if a > 0 || m > 0 || d > 0 {
        bracketed(join_spaced(change_parts(a, m, d)), modified)
    } else if modified {
        bracketed("+mod"@, false)
    } else {
        match file_status {
            Some(s) => bracketed(short_status(s), false),
            None => seq![],
        }
    }
}

/// Whether `s` holds `c`.
pub open spec fn has_char(s: Seq<char>, c: char) -> bool {
    exists|i: int| 0 <= i < s.len() && s[i] == c
}

fn contains_char(s: &Vec<char>, c: char) -> (r: bool)
    ensures
        r == has_char(s@, c),
{
    let mut i: usize = 0;
    while i < s.len()
        invariant
            i <= s@.len(),
            forall|j: int| 0 <= j < i ==> s@[j] != c,
        decreases s@.len() - i,
    {
        if s[i] == c {
            return true;
        }
        i = i + 1;
    }
    false
}

fn bracketed_exec(text: &Vec<char>, modified: bool) -> (r: Vec<char>)
    ensures
        r@ == bracketed(text@, modified),
{
    let open: Vec<char> = vec![' ', '['];
    let mut r = concat_chars(&open, text);
    if modified {
        r.push('*');
    }
    r.push(']');
    r.push(' ');
    assert(r@ =~= bracketed(text@, modified));
    r
}

fn push_part(joined: &mut Vec<char>, count: &mut usize, mark: char, n: usize)
    requires
        *old(count) < usize::MAX,
    ensures
        *final(count) == *old(count) + 1,
        *old(count) == 0 ==> final(joined)@ == counted(mark, n as nat),
        *old(count) > 0 ==> final(joined)@ == old(joined)@ + seq![' '] + counted(mark, n as nat),
{
    let digits = decimal_chars(n);
    let part = concat_chars(&vec![mark], &digits);
    assert(part@ =~= counted(mark, n as nat));
    if *count > 0 {
        joined.push(' ');
        let all = concat_chars(joined, &part);
        *joined = all;
    } else {
        *joined = part;
    }
    *count = *count + 1;
}

/// The change summary of the status line; it asks for attention when the buffer has
/// unsaved edits or the summary shows changed lines.
pub fn modified_status_line_data(
    modified: bool,
    file_status: Option<FileStatus>,
    gutter: Option<&[GitGutterStatus]>,
) -> (r: StatusLineData)
    ensures
        ({
            let g = match gutter {
                Some(s) => s@,
                None => Seq::empty(),
            };
            let content = status_content(modified, file_status, g);
            let untracked = match file_status {
                Some(s) => s.wt_new,
                None => false,
            };
            &&& r.content@ == content
            &&& r.alignment == Alignment::Right
            &&& r.colors == if modified || (!untracked && has_char(content, '+') || has_char(content, '~')
                || has_char(content, '-')) {
                StatusColors::Warning
            } else {
                StatusColors::Focused
            }
        }),
{
    let untracked = match file_status {
        Some(s) => s.wt_new,
        None => false,
    };
    let (a, m, d) = match gutter {
        Some(s) => (
            count_exec(s, GitGutterStatus::Added),
            count_exec(s, GitGutterStatus::Modified),
            count_exec(s, GitGutterStatus::Deleted),
        ),
        None => (0, 0, 0),
    };
    let content: Vec<char> = if untracked {
        bracketed_exec(&to_chars("new"), modified)
    } else if a > 0 || m > 0 || d > 0 {
        let mut joined: Vec<char> = Vec::new();
        let mut count: usize = 0;
        let ghost parts = change_parts(a as nat, m as nat, d as nat);
        if a > 0 {
            push_part(&mut joined, &mut count, '+', a);
        }
        assert(joined@ == join_spaced((if a > 0 { seq![counted('+', a as nat)] } else { seq![] })));
        let ghost p1 = if a > 0 { seq![counted('+', a as nat)] } else { Seq::<Seq<char>>::empty() };
        assert(count == p1.len());
        if m > 0 {
            push_part(&mut joined, &mut count, '~', m);
        }
        let ghost p2 = p1 + if m > 0 { seq![counted('~', m as nat)] } else { Seq::<Seq<char>>::empty() };
        assert(p2.len() == 0 || p2.drop_last() == p1 || p2 == p1);
        assert(joined@ == join_spaced(p2)) by {
            if m > 0 && p1.len() > 0 {
                assert(p2.drop_last() == p1);
            } else if m > 0 {
                assert(p2 =~= seq![counted('~', m as nat)]);
            } else {
                assert(p2 =~= p1);
            }
        }
        if d > 0 {
            push_part(&mut joined, &mut count, '-', d);
        }
        assert(joined@ == join_spaced(parts)) by {
            let p3 = p2 + if d > 0 { seq![counted('-', d as nat)] } else { Seq::<Seq<char>>::empty() };
            assert(p3 =~= parts);
            if d > 0 && p2.len() > 0 {
                assert(p3.drop_last() == p2);
            } else if d > 0 {
                assert(p3 =~= seq![counted('-', d as nat)]);
            } else {
                assert(p3 =~= p2);
            }
        }
        bracketed_exec(&joined, modified)
    } else if modified {
        bracketed_exec(&to_chars("+mod"), false)
    } else {
        match file_status {
            Some(s) => bracketed_exec(&to_chars(presentable_status_short(&s)), false),
            None => Vec::new(),
        }
    };
    let warn = modified || (!untracked && contains_char(&content, '+') || contains_char(&content, '~')
        || contains_char(&content, '-'));
    StatusLineData {
        content: string_from_chars(content),
        colors: if warn { StatusColors::Warning } else { StatusColors::Focused },
        alignment: Alignment::Right,
    }
}

/// The branch piece of the status line: ` ⎇  branch `, or nothing outside a repository
/// or without a named head.
pub fn git_branch_line_data(branch: Option<&str>) -> (r: StatusLineData)
    ensures
        r.content@ == match branch {
            Some(b) => seq![' ', '\u{2387}', ' ', ' '] + b@ + seq![' '],
            None => Seq::empty(),
        },
        r.colors == StatusColors::Focused,
        r.alignment == Alignment::Left,
{
    let content = match branch {
        Some(b) => {
            let mut out: Vec<char> = vec![' ', '\u{2387}', ' ', ' '];
            out = concat_chars(&out, &to_chars(b));
            out.push(' ');
            string_from_chars(out)
        },
        None => string_from_chars(Vec::new()),
    };
    StatusLineData { content, colors: StatusColors::Focused, alignment: Alignment::Left }
}

/// The file name piece of the status line, which takes the room left: the path with
/// two spaces before it and one after, or nothing for a buffer without a path.
pub fn filename_line_data(path: Option<&str>) -> (r: StatusLineData)
    ensures
        r.content@ == match path {
            Some(p) => seq![' ', ' '] + p@ + seq![' '],
            None => Seq::empty(),
        },
        r.colors == StatusColors::Focused,
        r.alignment == Alignment::Expand,
{
    let content = match path {
        Some(p) => {
            let mut out: Vec<char> = vec![' ', ' '];
            out = concat_chars(&out, &to_chars(p));
            out.push(' ');
            string_from_chars(out)
        },
        None => string_from_chars(Vec::new()),
    };
    StatusLineData { content, colors: StatusColors::Focused, alignment: Alignment::Expand }
}

/// The status line most modes show: the mode's label in its colours, the branch, the
/// file name, and the change summary.
pub fn standard_status_line(
    mode_label: &str,
    mode_colors: StatusColors,
    branch: Option<&str>,
    path: Option<&str>,
    modified: bool,
    file_status: Option<FileStatus>,
    gutter: Option<&[GitGutterStatus]>,
) -> (r: Vec<StatusLineData>)
    ensures
        r@.len() == 4,
        r@[0].content@ == seq![' '] + mode_label@ + seq![' '],
        r@[0].colors == mode_colors,
        r@[0].alignment == Alignment::Left,
        r@[1].content@ == match branch {
            Some(b) => seq![' ', '\u{2387}', ' ', ' '] + b@ + seq![' '],
            None => Seq::empty(),
        },
        r@[1].colors == StatusColors::Focused && r@[1].alignment == Alignment::Left,
        r@[2].content@ == match path {
            Some(p) => seq![' ', ' '] + p@ + seq![' '],
            None => Seq::empty(),
        },
        r@[2].colors == StatusColors::Focused && r@[2].alignment == Alignment::Expand,
        ({
            let g = match gutter {
                Some(s) => s@,
                None => Seq::empty(),
            };
            let content = status_content(modified, file_status, g);
            let untracked = match file_status {
                Some(s) => s.wt_new,
                None => false,
            };
            &&& r@[3].content@ == content
            &&& r@[3].alignment == Alignment::Right
            &&& r@[3].colors == if modified || (!untracked && has_char(content, '+') || has_char(content, '~')
                || has_char(content, '-')) {
                StatusColors::Warning
            } else {
                StatusColors::Focused
            }
        }),
{
    let mut label: Vec<char> = vec![' '];
    label = concat_chars(&label, &to_chars(mode_label));
    label.push(' ');
    let first = StatusLineData { content: string_from_chars(label), colors: mode_colors, alignment: Alignment::Left };
    let branch_data = git_branch_line_data(branch);
    let file_data = filename_line_data(path);
    let modified_data = modified_status_line_data(modified, file_status, gutter);
    let mut r: Vec<StatusLineData> = Vec::new();
    r.push(first);
    r.push(branch_data);
    r.push(file_data);
    r.push(modified_data);
    r
}

} // verus!
