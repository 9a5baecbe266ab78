use amp::truncate::{truncate_graphemes, truncate_popup_graphemes};

#[test]
fn short_texts_stay_whole() {
    assert_eq!(truncate_graphemes("abc", 3), "abc");
    assert_eq!(truncate_graphemes("", 0), "");
}

#[test]
fn long_texts_end_in_a_tilde() {
    assert_eq!(truncate_graphemes("abcdef", 4), "abc~");
    assert_eq!(truncate_graphemes("abcdef", 1), "~");
    assert_eq!(truncate_graphemes("abcdef", 0), "");
}

#[test]
fn clusters_count_as_one() {
    assert_eq!(truncate_graphemes("e\u{301}e\u{301}e\u{301}", 2), "e\u{301}~");
    assert_eq!(truncate_popup_graphemes("a\r\nb", 2), "a~");
    assert_eq!(truncate_popup_graphemes("a\r\nb", 3), "a\r\nb");
}
