use vstd::prelude::*;
use vstd::slice::{slice_subrange, slice_to_vec};
use vstd::utf8::*;
use crate::text::string_from_chars;

verus! {

/// A key press, as the terminal reports it and as key maps name it.
#[derive(Debug, Clone, Copy, PartialEq, Eq, Hash, Structural)]
pub enum Key {
    Backspace,
    Left,
    Right,
    Up,
    Down,
    Home,
    End,
    PageUp,
    PageDown,
    Delete,
    Insert,
    Esc,
    Tab,
    Enter,
    F1,
    F2,
    F3,
    F4,
    F5,
    F6,
    F7,
    F8,
    F9,
    F10,
    F11,
    F12,
    Char(char),
    Alt(char),
    Ctrl(char),
    AnyChar,
}

/// What the terminal input stream yields: a key, or a bracketed paste.
#[derive(Debug, Clone, PartialEq, Eq)]
pub enum Event {
    Key(Key),
    Paste(String),
}

/// An event seen as plain values: the key, or the pasted text.
pub open spec fn event_view(e: Option<Event>) -> (Option<Key>, Option<Seq<char>>) {
    match e {
        None => (None, None),
        Some(Event::Key(k)) => (Some(k), None),
        Some(Event::Paste(s)) => (None, Some(s@)),
    }
}

/// `ESC [ 2 0 0 ~`, which opens a bracketed paste.
pub open spec fn paste_start() -> Seq<u8> {
    seq![0x1bu8, 0x5bu8, 0x32u8, 0x30u8, 0x30u8, 0x7eu8]
}

/// `ESC [ 2 0 1 ~`, which closes a bracketed paste.
pub open spec fn paste_end() -> Seq<u8> {
    seq![0x1bu8, 0x5bu8, 0x32u8, 0x30u8, 0x31u8, 0x7eu8]
}

pub open spec fn spec_starts_with(haystack: Seq<u8>, needle: Seq<u8>) -> bool {
    haystack.len() >= needle.len() && haystack.take(needle.len() as int) == needle
}

pub open spec fn occurs_at(haystack: Seq<u8>, needle: Seq<u8>, pos: int) -> bool {
    0 <= pos && pos + needle.len() <= haystack.len() && haystack.subrange(
        pos,
        pos + needle.len(),
    ) == needle
}

/// The first position at or after `from` where `needle` occurs in `haystack`.
pub open spec fn first_occurrence_from(haystack: Seq<u8>, needle: Seq<u8>, from: int) -> Option<
    int,
>
    decreases haystack.len() - from,
{
    if from < 0 || from >= haystack.len() || from + needle.len() > haystack.len() {
        None
    } else if occurs_at(haystack, needle, from) {
        Some(from)
    } else {
        first_occurrence_from(haystack, needle, from + 1)
    }
}

pub open spec fn first_occurrence(haystack: Seq<u8>, needle: Seq<u8>) -> Option<int> {
    first_occurrence_from(haystack, needle, 0)
}

/// A position found is an occurrence, and nothing between `from` and it is one.
pub proof fn lemma_first_occurrence_from(haystack: Seq<u8>, needle: Seq<u8>, from: int)
    requires
        from >= 0,
    ensures
        first_occurrence_from(haystack, needle, from) matches Some(p) ==> {
            &&& from <= p
            &&& occurs_at(haystack, needle, p)
            &&& forall|q: int| from <= q < p ==> !occurs_at(haystack, needle, q)
        },
        first_occurrence_from(haystack, needle, from) is None && needle.len() > 0 ==> forall|q: int|
            from <= q ==> !occurs_at(haystack, needle, q),
    decreases haystack.len() - from,
{
    if from >= haystack.len() || from + needle.len() > haystack.len() {
    } else if occurs_at(haystack, needle, from) {
    } else {
        lemma_first_occurrence_from(haystack, needle, from + 1);
    }
}

/// Whether the last `len` bytes of `data` are the first `len` bytes of `pattern`.
pub open spec fn suffix_is_prefix(data: Seq<u8>, pattern: Seq<u8>, len: int) -> bool {
    0 <= len <= data.len() && len <= pattern.len() && data.subrange(data.len() - len, data.len() as int)
        == pattern.take(len)
}

/// The longest `len <= max`, at least 1, such that the last `len` bytes of `data` begin
/// `pattern`; 0 where there is none.
pub open spec fn longest_partial_from(data: Seq<u8>, pattern: Seq<u8>, max: int) -> int
    decreases max,
{
    if max <= 0 {
        0
    } else if suffix_is_prefix(data, pattern, max) {
        max
    } else {
        longest_partial_from(data, pattern, max - 1)
    }
}

/// The number of bytes at the end of `data` that could be the start of `pattern`
/// (never all of `pattern`).
pub open spec fn partial_match_len(data: Seq<u8>, pattern: Seq<u8>) -> int {
    if data.len() == 0 || pattern.len() <= 1 {
        0
    } else {
        let max = if data.len() < pattern.len() - 1 {
            data.len() as int
        } else {
            pattern.len() - 1
        };
        longest_partial_from(data, pattern, max)
    }
}

proof fn lemma_longest_partial_bound(data: Seq<u8>, pattern: Seq<u8>, max: int)
    ensures
        0 <= longest_partial_from(data, pattern, max),
        max >= 0 ==> longest_partial_from(data, pattern, max) <= max,
    decreases max,
{
    if max > 0 {
        lemma_longest_partial_bound(data, pattern, max - 1);
    }
}

/// The length of the UTF-8 sequence that a leading byte announces; 0 for a byte that
/// leads none.
pub open spec fn utf8_width(first: u8) -> usize {
    if 0xC2 <= first <= 0xDF {
        2
    } else if 0xE0 <= first <= 0xEF {
        3
    } else if 0xF0 <= first <= 0xF4 {
        4
    } else {
        0
    }
}

/// The character that `bytes` begins with, and its length, when the leading byte's
/// sequence is complete and well-formed.
pub open spec fn decode_utf8_char(bytes: Seq<u8>) -> Option<(char, usize)> {
    let w = utf8_width(bytes[0]);
    if bytes.len() == 0 || w == 0 || bytes.len() < w {
        None
    } else if valid_utf8(bytes.take(w as int)) && decode_utf8(bytes.take(w as int)).len() > 0 {
        Some((decode_utf8(bytes.take(w as int))[0], w))
    } else {
        None
    }
}

/// The key that a terminal sequence starting with `ESC [` names, with its length.
pub open spec fn csi_key(s: Seq<u8>) -> Option<(Key, usize)> {
    if s.len() >= 3 && s[2] == 0x41 {
        Some((Key::Up, 3))
    } else if s.len() >= 3 && s[2] == 0x42 {
        Some((Key::Down, 3))
    } else if s.len() >= 3 && s[2] == 0x43 {
        Some((Key::Right, 3))
    } else if s.len() >= 3 && s[2] == 0x44 {
        Some((Key::Left, 3))
    } else if s.len() >= 3 && s[2] == 0x48 {
        Some((Key::Home, 3))
    } else if s.len() >= 3 && s[2] == 0x46 {
        Some((Key::End, 3))
    } else if s.len() >= 4 && s[3] == 0x7e && s[2] == 0x32 {
        Some((Key::Insert, 4))
    } else if s.len() >= 4 && s[3] == 0x7e && s[2] == 0x33 {
        Some((Key::Delete, 4))
    } else if s.len() >= 4 && s[3] == 0x7e && s[2] == 0x35 {
        Some((Key::PageUp, 4))
    } else if s.len() >= 4 && s[3] == 0x7e && s[2] == 0x36 {
        Some((Key::PageDown, 4))
    } else if s.len() >= 5 && s[4] == 0x7e {
        function_key(s[2], s[3])
    } else {
        None
    }
}

/// `ESC [ a b ~` for the function keys.
pub open spec fn function_key(a: u8, b: u8) -> Option<(Key, usize)> {
    if a == 0x31 && b == 0x31 {
        Some((Key::F1, 5))
    } else if a == 0x31 && b == 0x32 {
        Some((Key::F2, 5))
    } else if a == 0x31 && b == 0x33 {
        Some((Key::F3, 5))
    } else if a == 0x31 && b == 0x34 {
        Some((Key::F4, 5))
    } else if a == 0x31 && b == 0x35 {
        Some((Key::F5, 5))
    } else if a == 0x31 && b == 0x37 {
        Some((Key::F6, 5))
    } else if a == 0x31 && b == 0x38 {
        Some((Key::F7, 5))
    } else if a == 0x31 && b == 0x39 {
        Some((Key::F8, 5))
    } else if a == 0x32 && b == 0x30 {
        Some((Key::F9, 5))
    } else if a == 0x32 && b == 0x31 {
        Some((Key::F10, 5))
    } else if a == 0x32 && b == 0x33 {
        Some((Key::F11, 5))
    } else if a == 0x32 && b == 0x34 {
        Some((Key::F12, 5))
    } else {
        None
    }
}

/// The key that input beginning with `ESC` stands for, with its length; `None` when an
/// Alt-modified character is not complete yet.
pub open spec fn escape_key(s: Seq<u8>) -> Option<(Key, usize)> {
    if s.len() >= 2 && s[1] == 0x5b && csi_key(s) is Some {
        csi_key(s)
    } else if s.len() >= 2 && 0x20 <= s[1] <= 0x7e {
        Some((Key::Alt(s[1] as char), 2))
    } else if s.len() >= 2 && 0x80 <= s[1] {
        match decode_utf8_char(s.skip(1)) {
            Some((c, n)) => Some((Key::Alt(c), (n + 1) as usize)),
            None => None,
        }
    } else {
        Some((Key::Esc, 1))
    }
}

/// The key that non-empty input begins with, and how many bytes it takes; `None` when
/// the input names no key yet.
pub open spec fn decode_key(s: Seq<u8>) -> Option<(Key, usize)> {
    let b = s[0];
    if b == 0x1b {
        escape_key(s)
    } else if b == 0x1c {
        Some((Key::Ctrl('\\'), 1))
    } else if b == 0x1d {
        Some((Key::Ctrl(']'), 1))
    } else if b == 0x1e {
        Some((Key::Ctrl('^'), 1))
    } else if b == 0x1f {
        Some((Key::Ctrl('_'), 1))
    } else if b == 0x7f || b == 0x08 {
        Some((Key::Backspace, 1))
    } else if b == 0x0a || b == 0x0d {
        Some((Key::Enter, 1))
    } else if b == 0x09 {
        Some((Key::Tab, 1))
    } else if 0x01 <= b <= 0x1a {
        Some((Key::Ctrl((b + 0x60) as char), 1))
    } else if 0x20 <= b <= 0x7e {
        Some((Key::Char(b as char), 1))
    } else if 0x80 <= b {
        match decode_utf8_char(s) {
            Some((c, n)) => Some((Key::Char(c), n)),
            None => None,
        }
    } else {
        None
    }
}

/// Line endings of pasted text made uniform: each `\r` becomes `\n`, and a `\n` right
/// after a `\r` is dropped.
pub open spec fn normalize_line_endings(s: Seq<char>) -> Seq<char>
    decreases s.len(),
{
    if s.len() == 0 {
        seq![]
    } else {
        let init = s.drop_last();
        if s.last() == '\n' && init.len() > 0 && init.last() == '\r' {
            normalize_line_endings(init)
        } else if s.last() == '\r' {
            normalize_line_endings(init).push('\n')
        } else {
            normalize_line_endings(init).push(s.last())
        }
    }
}

/// What the bytes of `bytes` decode to, invalid sequences replaced.
pub uninterp spec fn utf8_lossy(bytes: Seq<u8>) -> Seq<char>;

/// The text of some bytes: what well-formed UTF-8 encodes, else the lossy decoding.
pub open spec fn decoded_text(bytes: Seq<u8>) -> Seq<char> {
    if valid_utf8(bytes) {
        decode_utf8(bytes)
    } else {
        utf8_lossy(bytes)
    }
}

/// The text that a bracketed paste of these bytes hands over.
pub open spec fn paste_text(bytes: Seq<u8>) -> Seq<char> {
    normalize_line_endings(decoded_text(bytes))
}

/// One step inside a bracketed paste: the event, the input left, and the paste buffer.
pub open spec fn paste_step(pending: Seq<u8>, buffer: Seq<u8>) -> (
    (Option<Key>, Option<Seq<char>>),
    Seq<u8>,
    Option<Seq<u8>>,
) {
    match first_occurrence(pending, paste_end()) {
        Some(p) => (
            (None, Some(paste_text(buffer + pending.take(p as int)))),
            pending.skip(p + paste_end().len()),
            None,
        ),
        None => {
            let n = pending.len() - partial_match_len(pending, paste_end());
            ((None, None), pending.skip(n), Some(buffer + pending.take(n)))
        },
    }
}

/// One step of the parser: the event, the input left, and the paste buffer.
pub open spec fn parser_step(pending: Seq<u8>, paste: Option<Seq<u8>>) -> (
    (Option<Key>, Option<Seq<char>>),
    Seq<u8>,
    Option<Seq<u8>>,
) {
    match paste {
        Some(buffer) => paste_step(pending, buffer),
        None => if pending.len() == 0 {
            ((None, None), seq![], None)
        } else if spec_starts_with(pending, paste_start()) {
            paste_step(pending.skip(paste_start().len() as int), seq![])
        } else {
            match decode_key(pending) {
                Some((k, n)) => ((Some(k), None), pending.skip(n as int), None),
                None => ((None, None), pending, None),
            }
        },
    }
}

/// Whether `s` holds a carriage return.
pub open spec fn has_carriage_return(s: Seq<char>) -> bool {
    exists|i: int| 0 <= i < s.len() && s[i] == '\r'
}

proof fn lemma_normalized_has_no_carriage_return(s: Seq<char>)
    ensures
        !has_carriage_return(normalize_line_endings(s)),
    decreases s.len(),
{
    if s.len() > 0 {
        let init = s.drop_last();
        lemma_normalized_has_no_carriage_return(init);
        let prev = normalize_line_endings(init);
        let out = normalize_line_endings(s);
        assert forall|i: int| 0 <= i < out.len() implies out[i] != '\r' by {
            if i < prev.len() {
                assert(prev[i] != '\r');
            }
        }
    }
}

/// Pasted text never holds a carriage return, whatever bytes were pasted.
pub proof fn law_paste_text_has_no_carriage_return(bytes: Seq<u8>)
    ensures
        !has_carriage_return(paste_text(bytes)),
{
    lemma_normalized_has_no_carriage_return(decoded_text(bytes));
}

/// Input that begins a multi-byte character but stops short of its end yields no event
/// and is kept whole until the rest arrives.
pub proof fn law_incomplete_character_waits(pending: Seq<u8>)
    requires
        pending.len() > 0,
        utf8_width(pending[0]) > pending.len(),
    ensures
        parser_step(pending, None) == ((None::<Key>, None::<Seq<char>>), pending, None::<Seq<u8>>),
{
}

/// A printable ASCII byte outside a paste is one character key, and takes one byte.
pub proof fn law_printable_byte_is_char_key(pending: Seq<u8>)
    requires
        pending.len() > 0,
        0x20 <= pending[0] <= 0x7e,
    ensures
        parser_step(pending, None) == ((Some(Key::Char(pending[0] as char)), None::<Seq<char>>), pending.skip(1), None::<Seq<u8>>),
{
    assert(!spec_starts_with(pending, paste_start()) || pending[0] == 0x1b) by {
        if spec_starts_with(pending, paste_start()) {
            assert(pending.take(6)[0] == paste_start()[0]);
        }
    }
}

/// `std::str::from_utf8`: succeeds exactly on well-formed UTF-8, and gives the text
/// that the bytes encode.
#[verifier::external_body]
fn str_from_utf8(bytes: &[u8]) -> (r: Option<&str>)
    ensures
        r is Some <==> valid_utf8(bytes@),
        r matches Some(s) ==> s@ == decode_utf8(bytes@),
{
    std::str::from_utf8(bytes).ok()
}

/// `String::from_utf8_lossy`: the text of the bytes with each invalid sequence replaced;
/// for well-formed UTF-8 that is exactly the text that the bytes encode.
#[verifier::external_body]
fn string_from_utf8_lossy(bytes: &[u8]) -> (s: String)
    ensures
        s@ == utf8_lossy(bytes@),
        valid_utf8(bytes@) ==> s@ == decode_utf8(bytes@),
{
    String::from_utf8_lossy(bytes).into_owned()
}

/// Makes the line endings of `text` uniform (see `normalize_line_endings`).
pub fn normalize_newlines(text: &str) -> (out: String)
    ensures
        out@ == normalize_line_endings(text@),
{
    let mut chars: Vec<char> = Vec::new();
    let mut after_cr = false;
    for c in it: text.chars()
        invariant
            it.seq() == text@,
            chars@ == normalize_line_endings(text@.take(it.index() as int)),
            after_cr == (it.index() > 0 && text@[it.index() - 1] == '\r'),
    {
        let ghost i = it.index() as int;
        proof {
            assert(text@.take(i + 1).drop_last() == text@.take(i));
        }
        if c == '\n' && after_cr {
        } else if c == '\r' {
            chars.push('\n');
        } else {
            chars.push(c);
        }
        after_cr = c == '\r';
    }
    proof {
        assert(text@.take(text@.len() as int) == text@);
    }
    string_from_chars(chars)
}

fn paste_start_bytes() -> (v: Vec<u8>)
    ensures
        v@ == paste_start(),
{
    let v: Vec<u8> = vec![0x1b, 0x5b, 0x32, 0x30, 0x30, 0x7e];
    assert(v@ == paste_start());
    v
}

fn paste_end_bytes() -> (v: Vec<u8>)
    ensures
        v@ == paste_end(),
{
    let v: Vec<u8> = vec![0x1b, 0x5b, 0x32, 0x30, 0x31, 0x7e];
    assert(v@ == paste_end());
    v
}

/// Whether `haystack` begins with `needle`.
pub fn starts_with(haystack: &[u8], needle: &[u8]) -> (r: bool)
    ensures
        r == spec_starts_with(haystack@, needle@),
{
    if haystack.len() < needle.len() {
        return false;
    }
    let mut i: usize = 0;
    while i < needle.len()
        invariant
            needle@.len() <= haystack@.len(),
            i <= needle@.len(),
            forall|j: int| 0 <= j < i ==> haystack@[j] == needle@[j],
        decreases needle@.len() - i,
    {
        if haystack[i] != needle[i] {
            assert(haystack@.take(needle@.len() as int)[i as int] != needle@[i as int]);
            return false;
        }
        i = i + 1;
    }
    assert(haystack@.take(needle@.len() as int) == needle@);
    true
}

/// Whether `needle` occurs in `haystack` at `pos`.
fn occurs_at_exec(haystack: &[u8], needle: &[u8], pos: usize) -> (r: bool)
    requires
        pos + needle@.len() <= haystack@.len(),
    ensures
        r == occurs_at(haystack@, needle@, pos as int),
{
    let mut i: usize = 0;
    while i < needle.len()
        invariant
            pos + needle@.len() <= haystack@.len(),
            haystack@.len() == haystack.len(),
            i <= needle@.len(),
            forall|j: int| 0 <= j < i ==> haystack@[pos + j] == needle@[j],
        decreases needle@.len() - i,
    {
        if haystack[pos + i] != needle[i] {
            assert(haystack@.subrange(pos as int, pos + needle@.len())[i as int] != needle@[i as int]);
            return false;
        }
        i = i + 1;
    }
    assert(haystack@.subrange(pos as int, pos + needle@.len()) == needle@);
    true
}

/// The first position where `needle` occurs in `haystack`.
pub fn find_subsequence(haystack: &[u8], needle: &[u8]) -> (r: Option<usize>)
    requires
        needle@.len() > 0,
    ensures
        r matches Some(p) ==> first_occurrence(haystack@, needle@) == Some(p as int),
        r is None ==> first_occurrence(haystack@, needle@) is None,
{
    if needle.len() > haystack.len() {
        return None;
    }
    let last = haystack.len() - needle.len();
    let mut pos: usize = 0;
    while pos <= last
        invariant
            needle@.len() > 0,
            last == haystack@.len() - needle@.len(),
            haystack@.len() == haystack.len(),
            pos <= last + 1,
            first_occurrence(haystack@, needle@) == first_occurrence_from(haystack@, needle@, pos as int),
        decreases last + 1 - pos,
    {
        if occurs_at_exec(haystack, needle, pos) {
            assert(first_occurrence(haystack@, needle@) == Some(pos as int));
            return Some(pos);
        }
        pos = pos + 1;
    }
    None
}

/// Returns the number of bytes at the end of `data` that could be
/// the start of `pattern`. This prevents consuming bytes that are
/// part of a split escape sequence.
pub fn keep_partial_match(data: &[u8], pattern: &[u8]) -> (r: usize)
    ensures
        r == partial_match_len(data@, pattern@),
        r <= data@.len(),
{
    if data.len() == 0 || pattern.len() <= 1 {
        return 0;
    }
    proof {
        let max = if data@.len() < pattern@.len() - 1 {
            data@.len() as int
        } else {
            pattern@.len() - 1
        };
        lemma_longest_partial_bound(data@, pattern@, max);
    }
    let max_check = if data.len() < pattern.len() - 1 {
        data.len()
    } else {
        pattern.len() - 1
    };
    let mut len = max_check;
    while len > 0
        invariant
            len <= max_check,
            partial_match_len(data@, pattern@) <= data@.len(),
            max_check <= data@.len(),
            max_check < pattern@.len(),
            partial_match_len(data@, pattern@) == longest_partial_from(data@, pattern@, len as int),
        decreases len,
    {
        let start = data.len() - len;
        let mut i: usize = 0;
        let mut same = true;
        while i < len
            invariant
                len <= data@.len(),
                data@.len() == data.len(),
                len < pattern@.len(),
                start == data@.len() - len,
                i <= len,
                same == (forall|j: int| 0 <= j < i ==> data@[start + j] == pattern@[j]),
            decreases len - i,
        {
            if data[start + i] != pattern[i] {
                same = false;
            }
            i = i + 1;
        }
        proof {
            let suffix = data@.subrange(data@.len() - len, data@.len() as int);
            if same {
                assert(suffix == pattern@.take(len as int));
            } else {
                let j = choose|j: int| 0 <= j < len && data@[start + j] != pattern@[j];
                assert(suffix[j] != pattern@.take(len as int)[j]);
            }
        }
        if same {
            return len;
        }
        len = len - 1;
    }
    0
}

/// The character that `slice` begins with and its length in bytes, `first_byte` being
/// its first byte; `None` while the sequence is incomplete or where it is malformed.
pub fn utf8_char(slice: &[u8], first_byte: u8) -> (r: Option<(Key, usize)>)
    requires
        slice@.len() > 0,
        first_byte == slice@[0],
    ensures
        r == (match decode_utf8_char(slice@) {
            Some((c, n)) => Some((Key::Char(c), n)),
            None => None,
        }),
{
    let len: usize = if 0xC2 <= first_byte && first_byte <= 0xDF {
        2
    } else if 0xE0 <= first_byte && first_byte <= 0xEF {
        3
    } else if 0xF0 <= first_byte && first_byte <= 0xF4 {
        4
    } else {
        return None;
    };
    if slice.len() < len {
        return None;
    }
    let data = slice_subrange(slice, 0, len);
    assert(data@ == slice@.take(len as int));
    match str_from_utf8(data) {
        Some(text) => {
            if text.unicode_len() == 0 {
                return None;
            }
            let character = text.get_char(0);
            Some((Key::Char(character), len))
        },
        None => None,
    }
}

/// The function key that `ESC [ a b ~` names.
fn function_key_exec(a: u8, b: u8) -> (r: Option<(Key, usize)>)
    ensures
        r == function_key(a, b),
{
    if a == 0x31 {
        if b == 0x31 {
            Some((Key::F1, 5))
        } else if b == 0x32 {
            Some((Key::F2, 5))
        } else if b == 0x33 {
            Some((Key::F3, 5))
        } else if b == 0x34 {
            Some((Key::F4, 5))
        } else if b == 0x35 {
            Some((Key::F5, 5))
        } else if b == 0x37 {
            Some((Key::F6, 5))
        } else if b == 0x38 {
            Some((Key::F7, 5))
        } else if b == 0x39 {
            Some((Key::F8, 5))
        } else {
            None
        }
    } else if a == 0x32 {
        if b == 0x30 {
            Some((Key::F9, 5))
        } else if b == 0x31 {
            Some((Key::F10, 5))
        } else if b == 0x33 {
            Some((Key::F11, 5))
        } else if b == 0x34 {
            Some((Key::F12, 5))
        } else {
            None
        }
    } else {
        None
    }
}

/// The key that an `ESC [` sequence names.
fn csi_key_exec(s: &[u8]) -> (r: Option<(Key, usize)>)
    requires
        s@.len() >= 2,
    ensures
        r == csi_key(s@),
{
    let n = s.len();
    if n >= 3 {
        let c = s[2];
        if c == 0x41 {
            return Some((Key::Up, 3));
        } else if c == 0x42 {
            return Some((Key::Down, 3));
        } else if c == 0x43 {
            return Some((Key::Right, 3));
        } else if c == 0x44 {
            return Some((Key::Left, 3));
        } else if c == 0x48 {
            return Some((Key::Home, 3));
        } else if c == 0x46 {
            return Some((Key::End, 3));
        }
    }
    if n >= 4 && s[3] == 0x7e {
        let c = s[2];
        if c == 0x32 {
            return Some((Key::Insert, 4));
        } else if c == 0x33 {
            return Some((Key::Delete, 4));
        } else if c == 0x35 {
            return Some((Key::PageUp, 4));
        } else if c == 0x36 {
            return Some((Key::PageDown, 4));
        }
    }
    if n >= 5 && s[4] == 0x7e {
        return function_key_exec(s[2], s[3]);
    }
    None
}

/// The key that non-empty input begins with, and how many bytes it takes.
pub fn parse_key_bytes(s: &[u8]) -> (r: Option<(Key, usize)>)
    requires
        s@.len() > 0,
    ensures
        r == decode_key(s@),
        r matches Some((k, n)) ==> 1 <= n <= s@.len(),
{
    let b = s[0];
    if b == 0x1b {
        if s.len() >= 2 {
            let c = s[1];
            if c == 0x5b {
                let csi = csi_key_exec(s);
                if csi.is_some() {
                    return csi;
                }
            }
            if 0x20 <= c && c <= 0x7e {
                return Some((Key::Alt(c as char), 2));
            }
            if 0x80 <= c {
                let rest = slice_subrange(s, 1, s.len());
                assert(rest@ == s@.skip(1));
                return match utf8_char(rest, c) {
                    Some((Key::Char(ch), n)) => Some((Key::Alt(ch), n + 1)),
                    _ => None,
                };
            }
        }
        return Some((Key::Esc, 1));
    }
    if b == 0x1c {
        Some((Key::Ctrl('\\'), 1))
    } else if b == 0x1d {
        Some((Key::Ctrl(']'), 1))
    } else if b == 0x1e {
        Some((Key::Ctrl('^'), 1))
    } else if b == 0x1f {
        Some((Key::Ctrl('_'), 1))
    } else if b == 0x7f || b == 0x08 {
        Some((Key::Backspace, 1))
    } else if b == 0x0a || b == 0x0d {
        Some((Key::Enter, 1))
    } else if b == 0x09 {
        Some((Key::Tab, 1))
    } else if 0x01 <= b && b <= 0x1a {
        Some((Key::Ctrl((b + 0x60) as char), 1))
    } else if 0x20 <= b && b <= 0x7e {
        Some((Key::Char(b as char), 1))
    } else if 0x80 <= b {
        utf8_char(s, b)
    } else {
        None
    }
}

/// Turns the bytes that the terminal sends into key and paste events.
pub struct InputParser {
    data: Vec<u8>,
    offset: usize,
    // When Some, we're collecting a bracketed paste.
    paste_buffer: Option<Vec<u8>>,
}

impl InputParser {
    /// The position in the buffered input is never past its end.
    pub closed spec fn wf(&self) -> bool {
        self.offset <= self.data@.len()
    }

    /// The input received and not yet turned into events.
    pub closed spec fn pending(&self) -> Seq<u8> {
        self.data@.subrange(self.offset as int, self.data@.len() as int)
    }

    /// The bytes of a bracketed paste collected so far, while one is open.
    pub closed spec fn paste(&self) -> Option<Seq<u8>> {
        match self.paste_buffer {
            Some(buffer) => Some(buffer@),
            None => None,
        }
    }

    pub fn new() -> (parser: InputParser)
        ensures
            parser.wf(),
            parser.pending() == Seq::<u8>::empty(),
            parser.paste() is None,
    {
        InputParser { data: Vec::new(), offset: 0, paste_buffer: None }
    }

    /// Appends bytes read from the terminal to the pending input.
    pub fn feed(&mut self, data: &[u8])
        requires
            old(self).wf(),
        ensures
            final(self).wf(),
            final(self).pending() == old(self).pending() + data@,
            final(self).paste() == old(self).paste(),
    {
        self.data.extend_from_slice(data);
        assert(self.pending() == old(self).pending() + data@);
    }

    fn continue_paste(&mut self) -> (r: Option<Event>)
        requires
            old(self).wf(),
            old(self).paste() is Some,
        ensures
            final(self).wf(),
            (event_view(r), final(self).pending(), final(self).paste()) == paste_step(
                old(self).pending(),
                old(self).paste()->0,
            ),
    {
        let end = paste_end_bytes();
        let data_len = self.data.len();
        let slice = slice_subrange(self.data.as_slice(), self.offset, data_len);
        assert(slice@ == old(self).pending());
        match find_subsequence(slice, end.as_slice()) {
            Some(end_pos) => {
                proof {
                    lemma_first_occurrence_from(slice@, end@, 0);
                }
                let mut paste_content = self.paste_buffer.take().unwrap();
                let content = slice_subrange(slice, 0, end_pos);
                paste_content.extend_from_slice(content);
                assert(paste_content@ == old(self).paste()->0 + slice@.take(end_pos as int));
                self.offset = self.offset + end_pos + 6;
                if self.offset >= self.data.len() {
                    self.data.clear();
                    self.offset = 0;
                }
                assert(self.pending() == slice@.skip(end_pos + 6));
                let text = string_from_utf8_lossy(paste_content.as_slice());
                let normalized = normalize_newlines(text.as_str());
                Some(Event::Paste(normalized))
            },
            None => {
                let keep = keep_partial_match(slice, end.as_slice());
                let consumed = slice.len() - keep;
                let mut buffer = self.paste_buffer.take().unwrap();
                buffer.extend_from_slice(slice_subrange(slice, 0, consumed));
                if keep > 0 {
                    let remaining = slice_to_vec(slice_subrange(slice, consumed, slice.len()));
                    self.data = remaining;
                } else {
                    self.data.clear();
                }
                self.offset = 0;
                self.paste_buffer = Some(buffer);
                assert(self.pending() == slice@.skip(consumed as int));
                None
            },
        }
    }

    /// The next event in the pending input, consuming its bytes; `None` when the input
    /// holds no complete event yet.
    pub fn next(&mut self) -> (r: Option<Event>)
        requires
            old(self).wf(),
        ensures
            final(self).wf(),
            (event_view(r), final(self).pending(), final(self).paste()) == parser_step(
                old(self).pending(),
                old(self).paste(),
            ),
    {
        if self.paste_buffer.is_some() {
            return self.continue_paste();
        }
        if self.offset >= self.data.len() {
            self.data.clear();
            self.offset = 0;
            return None;
        }
        let data_len = self.data.len();
        let start = paste_start_bytes();
        let is_paste = starts_with(slice_subrange(self.data.as_slice(), self.offset, data_len), start.as_slice());
        if is_paste {
            self.offset = self.offset + 6;
            self.paste_buffer = Some(Vec::new());
            assert(self.pending() == old(self).pending().skip(6));
            return self.continue_paste();
        }
        let parsed = parse_key_bytes(slice_subrange(self.data.as_slice(), self.offset, data_len));
        match parsed {
            Some((key, consumed)) => {
                self.offset = self.offset + consumed;
                assert(self.pending() == old(self).pending().skip(consumed as int));
                Some(Event::Key(key))
            },
            None => None,
        }
    }
}

/// The cursor keys: outside a paste, `ESC [ A`, `ESC [ B`, `ESC [ C` and `ESC [ D` are
/// the up, down, right and left keys, and `ESC [ H` and `ESC [ F` are home and end, each
/// taking three bytes, whatever follows them.
pub proof fn law_cursor_key_sequences(pending: Seq<u8>)
    requires
        pending.len() >= 3,
        pending[0] == 0x1b,
        pending[1] == 0x5b,
    ensures
        pending[2] == 0x41 ==> parser_step(pending, None) == ((Some(Key::Up), None::<Seq<char>>), pending.skip(3), None::<Seq<u8>>),
        pending[2] == 0x42 ==> parser_step(pending, None) == ((Some(Key::Down), None::<Seq<char>>), pending.skip(3), None::<Seq<u8>>),
        pending[2] == 0x43 ==> parser_step(pending, None) == ((Some(Key::Right), None::<Seq<char>>), pending.skip(3), None::<Seq<u8>>),
        pending[2] == 0x44 ==> parser_step(pending, None) == ((Some(Key::Left), None::<Seq<char>>), pending.skip(3), None::<Seq<u8>>),
        pending[2] == 0x48 ==> parser_step(pending, None) == ((Some(Key::Home), None::<Seq<char>>), pending.skip(3), None::<Seq<u8>>),
        pending[2] == 0x46 ==> parser_step(pending, None) == ((Some(Key::End), None::<Seq<char>>), pending.skip(3), None::<Seq<u8>>),
{
    if (0x41 <= pending[2] <= 0x44) || pending[2] == 0x48 || pending[2] == 0x46 {
        assert(!spec_starts_with(pending, paste_start())) by {
            if spec_starts_with(pending, paste_start()) {
                assert(pending.take(6)[2] == paste_start()[2]);
            }
        }
    }
}

} // verus!
