//! Links to a file of the repository on GitHub.
use vstd::prelude::*;
use crate::status_line::{decimal, decimal_chars};
use crate::text::{push_chars, push_str, string_from_chars, to_chars};

verus! {

/// The text that group `group` of the first match of the regular expression `pattern`
/// captures in `text`; `None` when the pattern does not compile, nothing matches, or
/// the group takes no part in the match.
pub uninterp spec fn regex_group(pattern: Seq<char>, text: Seq<char>, group: nat) -> Option<Seq<char>>;

/// `regex::Regex::new(pattern)` then `captures(text)` and the group's text.
#[verifier::external_body]
fn capture_group(pattern: &str, text: &str, group: usize) -> (r: Option<String>)
    ensures
        match regex_group(pattern@, text@, group as nat) {
            Some(g) => r matches Some(s) && s@ == g,
            None => r is None,
        },
{
    let re = match regex::Regex::new(pattern) {
        Ok(re) => re,
        Err(_) => return None,
    };
    match re.captures(text) {
        Some(caps) => match caps.get(group) {
            Some(m) => Some(m.as_str().to_string()),
            None => None,
        },
        None => None,
    }
}

/// The pattern of a GitHub remote URL, over SSH or HTTPS; its first group is the
/// repository's path.
pub open spec fn remote_pattern() -> Seq<char> {
    "^(?:https://|git@)github.com(?::|/)(.*?)(?:.git)?$"@
}

/// The `owner/repository` path of a GitHub remote URL.
pub fn get_gh_path(url: &str) -> (r: Option<String>)
    ensures
        match regex_group(remote_pattern(), url@, 1) {
            Some(g) => r matches Some(s) && s@ == g,
            None => r is None,
        },
{
    capture_group("^(?:https://|git@)github.com(?::|/)(.*?)(?:.git)?$", url, 1)
}

/// The anchor of a range of lines, numbered from one: `#L3` for one line, `#L3-L7`
/// for several, the smaller number first.
pub open spec fn line_anchor(a: nat, b: nat) -> Seq<char> {
    if a == b {
        "#L"@ + decimal(a)
    } else if a < b {
        "#L"@ + decimal(a) + "-L"@ + decimal(b)
    } else {
        "#L"@ + decimal(b) + "-L"@ + decimal(a)
    }
}

/// The link to a file of the repository at commit `oid`, with the anchor of the
/// selected lines (zero-based `cursor_line` and `anchor_line`) when lines are
/// selected.
pub open spec fn blob_url(gh_path: Seq<char>, oid: Seq<char>, path: Seq<char>, lines: Option<(usize, usize)>) -> Seq<char> {
    "https://github.com/"@ + gh_path + "/blob/"@ + oid + "/"@ + path + match lines {
        Some((c, a)) => line_anchor((c + 1) as nat, (a + 1) as nat),
        None => Seq::empty(),
    }
}

/// The link to a file of the repository at a commit.
pub fn github_url(gh_path: &str, oid: &str, path: &str, lines: Option<(usize, usize)>) -> (r: String)
    requires
        lines matches Some((c, a)) ==> c < usize::MAX && a < usize::MAX,
    ensures
        r@ == blob_url(gh_path@, oid@, path@, lines),
{
    let mut out = to_chars("https://github.com/");
    push_str(&mut out, gh_path);
    push_str(&mut out, "/blob/");
    push_str(&mut out, oid);
    push_str(&mut out, "/");
    push_str(&mut out, path);
    match lines {
        Some((c, a)) => {
            let first = c + 1;
            let second = a + 1;
            push_str(&mut out, "#L");
            if first == second {
                push_chars(&mut out, &decimal_chars(first));
            } else if first < second {
                push_chars(&mut out, &decimal_chars(first));
                push_str(&mut out, "-L");
                push_chars(&mut out, &decimal_chars(second));
            } else {
                push_chars(&mut out, &decimal_chars(second));
                push_str(&mut out, "-L");
                push_chars(&mut out, &decimal_chars(first));
            }
        },
        None => {},
    }
    string_from_chars(out)
}

} // verus!
