//! Where popups stand on the screen and what they show: the which-key hints in the
//! bottom right corner, message boxes centred above the status line, and the file
//! picker's box and scrolling. Widths are
//! counted in grapheme clusters, as the terminal shows them.
use vstd::prelude::*;
use crate::text::{push_chars, string_from_chars, to_chars, trim_end, trim_end_white};
use crate::truncate::{concat_all, grapheme_clusters, graphemes};

verus! {

/// The narrowest which-key popup.
pub const WHICH_KEY_MIN_WIDTH: usize = 30;

/// The most rows a which-key popup shows.
pub const WHICH_KEY_MAX_ROWS: usize = 10;

/// The most lines a message box shows.
pub const POPUP_MAX_LINES: usize = 8;

/// A popup's place and contents.
pub struct PopupLayout {
    /// The screen row of the top border.
    pub row0: usize,
    /// The screen column of the left border.
    pub col0: usize,
    /// Width and height, borders included.
    pub box_w: usize,
    pub box_h: usize,
    /// The width of the key column of a which-key popup; 0 for a message box.
    pub key_w: usize,
    /// The keys of a which-key popup's rows; none for a message box.
    pub keys: Vec<String>,
    /// The text of each row: the descriptions of a which-key popup, or the lines of a
    /// message box.
    pub lines: Vec<String>,
}

/// How many grapheme clusters a text shows as.
pub open spec fn cluster_count(s: Seq<char>) -> nat {
    grapheme_clusters(s).len()
}

/// `a - b`, or 0 when `b` is larger.
pub open spec fn sat_sub(a: int, b: int) -> int {
    if a >= b { a - b } else { 0 }
}

/// The larger of two numbers.
pub open spec fn larger(a: int, b: int) -> int {
    if a >= b { a } else { b }
}

/// The widest key among the entries.
pub open spec fn widest_key(es: Seq<(String, String)>) -> nat
    decreases es.len(),
{
    if es.len() == 0 {
        0
    } else {
        larger(widest_key(es.drop_last()) as int, cluster_count(es.last().0@) as int) as nat
    }
}

/// The widest description among the entries.
pub open spec fn widest_desc(es: Seq<(String, String)>) -> nat
    decreases es.len(),
{
    if es.len() == 0 {
        0
    } else {
        larger(widest_desc(es.drop_last()) as int, cluster_count(es.last().1@) as int) as nat
    }
}

/// The number of rows shown of `n`, at most `max`.
pub open spec fn shown_rows(n: nat, max: nat) -> nat {
    if n <= max { n } else { max }
}

fn cluster_count_exec(s: &str) -> (n: usize)
    ensures
        n == cluster_count(s@),
{
    let g = graphemes(s);
    assert(g@.map_values(|x: String| x@).len() == g@.len());
    g.len()
}

/// The which-key popup for hints of a screen `width` by `height`: nothing without
/// hints; else the first ten hints, a key column as wide as the widest key (at least
/// three), a box at least thirty wide that holds key, a gap of two, the description,
/// two spaces each side and the borders, and one row per hint between the borders,
/// set in the bottom right corner with its bottom border on the row above the status
/// line. A width past the largest `usize` is held at it.
pub fn which_key_layout(width: usize, height: usize, entries: &Vec<(String, String)>) -> (r: Option<PopupLayout>)
    ensures
        r is None <==> entries@.len() == 0,
        r matches Some(l) ==> {
            let n = shown_rows(entries@.len(), WHICH_KEY_MAX_ROWS as nat);
            let shown = entries@.take(n as int);
            &&& l.keys@.len() == n
            &&& l.lines@.len() == n
            &&& forall|i: int| 0 <= i < n ==> (#[trigger] l.keys@[i])@ == entries@[i].0@ && l.lines@[i]@ == entries@[i].1@
            &&& l.key_w == larger(3, widest_key(shown) as int)
            &&& l.box_w == larger(
                WHICH_KEY_MIN_WIDTH as int,
                if l.key_w + widest_desc(shown) + 8 <= usize::MAX { l.key_w + widest_desc(shown) + 8 } else { usize::MAX as int },
            )
            &&& l.box_h == n + 2
            &&& l.row0 == sat_sub(sat_sub(height as int, 2), (n + 1) as int)
            &&& l.col0 == sat_sub(width as int, l.box_w as int)
        },
{
    if entries.len() == 0 {
        return None;
    }
    let n = if entries.len() <= WHICH_KEY_MAX_ROWS { entries.len() } else { WHICH_KEY_MAX_ROWS };
    let mut keys: Vec<String> = Vec::new();
    let mut lines: Vec<String> = Vec::new();
    let mut key_w: usize = 0;
    let mut desc_w: usize = 0;
    let mut i: usize = 0;
    while i < n
        invariant
            n <= entries@.len(),
            i <= n,
            keys@.len() == i,
            lines@.len() == i,
            forall|j: int| 0 <= j < i ==> (#[trigger] keys@[j])@ == entries@[j].0@ && lines@[j]@ == entries@[j].1@,
            key_w == widest_key(entries@.take(i as int)),
            desc_w == widest_desc(entries@.take(i as int)),
        decreases n - i,
    {
        assert(entries@.take(i + 1).drop_last() =~= entries@.take(i as int));
        let kc = cluster_count_exec(entries[i].0.as_str());
        let dc = cluster_count_exec(entries[i].1.as_str());
        if kc > key_w {
            key_w = kc;
        }
        if dc > desc_w {
            desc_w = dc;
        }
        keys.push(entries[i].0.clone());
        lines.push(entries[i].1.clone());
        i = i + 1;
    }
    let key_col: usize = if key_w > 3 { key_w } else { 3 };
    let content = key_col.saturating_add(desc_w).saturating_add(8);
    let box_w = if content > WHICH_KEY_MIN_WIDTH { content } else { WHICH_KEY_MIN_WIDTH };
    let box_h = n + 2;
    let row0 = height.saturating_sub(2).saturating_sub(box_h - 1);
    let col0 = width.saturating_sub(box_w);
    Some(PopupLayout { row0, col0, box_w, box_h, key_w: key_col, keys, lines })
}

/// A line cut to `max` clusters: the first `max - 1` and `…` when it is longer.
pub open spec fn fitted_line(s: Seq<char>, max: nat) -> Seq<char> {
    let g = grapheme_clusters(s);
    if g.len() > max {
        concat_all(g.take(sat_sub(max as int, 1))) + seq!['\u{2026}']
    } else {
        s
    }
}

/// The lines a message box shows before fitting them to its width: the first eight,
/// the last of them trimmed at the end and followed by `…` when there were more.
pub open spec fn box_line(lines: Seq<Seq<char>>, i: int) -> Seq<char> {
    if lines.len() > POPUP_MAX_LINES && i == POPUP_MAX_LINES - 1 {
        trim_end_white(lines[i]) + seq!['\u{2026}']
    } else {
        lines[i]
    }
}

fn fit_line(s: &Vec<char>, max: usize) -> (r: String)
    ensures
        r@ == fitted_line(s@, max as nat),
{
    let text = string_from_chars(s.clone());
    let g = graphemes(text.as_str());
    let ghost gv = g@.map_values(|x: String| x@);
    if g.len() <= max {
        return text;
    }
    let keep: usize = if max >= 1 { max - 1 } else { 0 };
    let mut out: Vec<char> = Vec::new();
    let mut i: usize = 0;
    while i < keep
        invariant
            keep <= g@.len(),
            i <= keep,
            gv == g@.map_values(|x: String| x@),
            out@ == concat_all(gv.take(i as int)),
        decreases keep - i,
    {
        assert(gv.take(i + 1).drop_last() =~= gv.take(i as int));
        let part = to_chars(g[i].as_str());
        push_chars(&mut out, &part);
        i = i + 1;
    }
    out.push('\u{2026}');
    string_from_chars(out)
}

/// The message box of `lines` under `title`, `box_w` wide (the caller works out the
/// width from the screen), on a screen `width` by `height`: nothing when there is
/// neither a line nor a title; else at most eight lines (see `box_line`), each cut to
/// the width inside the borders and two spaces of padding each side (see
/// `fitted_line`), one row each between the borders, centred across the screen with
/// its bottom border on the row above the status line.
pub fn popup_box_layout(width: usize, height: usize, box_w: usize, title: &str, lines: &Vec<String>) -> (r: Option<PopupLayout>)
    ensures
        r is None <==> lines@.len() == 0 && title@.len() == 0,
        r matches Some(l) ==> {
            let n = shown_rows(lines@.len(), POPUP_MAX_LINES as nat);
            let ls = lines@.map_values(|s: String| s@);
            &&& l.lines@.len() == n
            &&& forall|i: int| 0 <= i < n ==> (#[trigger] l.lines@[i])@ == fitted_line(box_line(ls, i), sat_sub(box_w as int, 6) as nat)
            &&& l.keys@.len() == 0
            &&& l.key_w == 0
            &&& l.box_w == box_w
            &&& l.box_h == n + 2
            &&& l.row0 == sat_sub(sat_sub(height as int, 2), (n + 1) as int)
            &&& l.col0 == sat_sub(width as int, box_w as int) / 2
        },
{
    let title_chars = to_chars(title);
    if lines.len() == 0 && title_chars.len() == 0 {
        return None;
    }
    let ghost ls = lines@.map_values(|s: String| s@);
    let n = if lines.len() <= POPUP_MAX_LINES { lines.len() } else { POPUP_MAX_LINES };
    let inner = box_w.saturating_sub(6);
    let mut out: Vec<String> = Vec::new();
    let mut i: usize = 0;
    while i < n
        invariant
            n <= lines@.len(),
            n == shown_rows(lines@.len(), POPUP_MAX_LINES as nat),
            ls == lines@.map_values(|s: String| s@),
            inner == sat_sub(box_w as int, 6),
            i <= n,
            out@.len() == i,
            forall|j: int| 0 <= j < i ==> (#[trigger] out@[j])@ == fitted_line(box_line(ls, j), inner as nat),
        decreases n - i,
    {
        let mut line = to_chars(lines[i].as_str());
        assert(line@ == ls[i as int]);
        if lines.len() > POPUP_MAX_LINES && i == POPUP_MAX_LINES - 1 {
            line = trim_end(&line);
            line.push('\u{2026}');
        }
        assert(line@ == box_line(ls, i as int));
        out.push(fit_line(&line, inner));
        i = i + 1;
    }
    let box_h = n + 2;
    let row0 = height.saturating_sub(2).saturating_sub(box_h - 1);
    let col0 = width.saturating_sub(box_w) / 2;
    proof {
        if lines@.len() == 0 {
            assert(title@.len() != 0);
        }
    }
    Some(PopupLayout { row0, col0, box_w, box_h, key_w: 0, keys: Vec::new(), lines: out })
}

/// The rows of results the file picker shows.
pub const PICKER_BODY_LINES: usize = 12;

/// The first result the file picker shows once the selection is brought into view:
/// the list scrolls up to a selection above it, down just far enough for one below
/// it, and stays put otherwise; the selection is then always among the rows shown.
pub fn file_picker_scroll(selected: usize, scroll_offset: usize) -> (r: usize)
    ensures
        r == if selected < scroll_offset {
            selected as int
        } else if selected >= scroll_offset + PICKER_BODY_LINES {
            selected - (PICKER_BODY_LINES - 1)
        } else {
            scroll_offset as int
        },
        r <= selected < r + PICKER_BODY_LINES,
{
    if selected < scroll_offset {
        selected
    } else if selected - scroll_offset >= PICKER_BODY_LINES {
        selected - (PICKER_BODY_LINES - 1)
    } else {
        scroll_offset
    }
}

/// Where the file picker's box stands: `box_w` wide (the caller works it out from the
/// screen) and as high as its rows of results, the query line and the borders,
/// centred on the screen above the status line.
pub fn file_picker_frame(width: usize, height: usize, box_w: usize) -> (r: (usize, usize, usize))
    ensures
        r.0 == sat_sub(sat_sub(height as int, 1), (PICKER_BODY_LINES + 3) as int) / 2,
        r.1 == sat_sub(width as int, box_w as int) / 2,
        r.2 == PICKER_BODY_LINES + 3,
{
    let box_h = PICKER_BODY_LINES + 3;
    (height.saturating_sub(1).saturating_sub(box_h) / 2, width.saturating_sub(box_w) / 2, box_h)
}

} // verus!
