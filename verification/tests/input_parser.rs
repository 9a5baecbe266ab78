use amp::input::{Event, InputParser, Key};

#[test]
fn parses_utf8_character_input() {
    let mut parser = InputParser::new();
    parser.feed("é".as_bytes());
    assert_eq!(parser.next(), Some(Event::Key(Key::Char('é'))));
    assert_eq!(parser.next(), None);
}

#[test]
fn waits_for_complete_utf8_character_input() {
    let mut parser = InputParser::new();
    parser.feed(&[0xC3]);
    assert_eq!(parser.next(), None);
    parser.feed(&[0xA9]);
    assert_eq!(parser.next(), Some(Event::Key(Key::Char('é'))));
    assert_eq!(parser.next(), None);
}

#[test]
fn parses_utf8_character_followed_by_ascii_input() {
    let mut parser = InputParser::new();
    parser.feed("éa".as_bytes());
    assert_eq!(parser.next(), Some(Event::Key(Key::Char('é'))));
    assert_eq!(parser.next(), Some(Event::Key(Key::Char('a'))));
    assert_eq!(parser.next(), None);
}

#[test]
fn parses_bracketed_paste() {
    let mut parser = InputParser::new();
    let paste_data = b"\x1b[200~hello world\x1b[201~";
    parser.feed(paste_data);
    assert_eq!(parser.next(), Some(Event::Paste("hello world".to_string())));
    assert_eq!(parser.next(), None);
}

#[test]
fn parses_bracketed_paste_with_newlines() {
    let mut parser = InputParser::new();
    let paste_data = b"\x1b[200~line1\r\nline2\r\nline3\x1b[201~";
    parser.feed(paste_data);
    assert_eq!(
        parser.next(),
        Some(Event::Paste("line1\nline2\nline3".to_string()))
    );
    assert_eq!(parser.next(), None);
}

#[test]
fn parses_bracketed_paste_followed_by_key() {
    let mut parser = InputParser::new();
    let paste_data = b"\x1b[200~paste\x1b[201~a";
    parser.feed(paste_data);
    assert_eq!(parser.next(), Some(Event::Paste("paste".to_string())));
    assert_eq!(parser.next(), Some(Event::Key(Key::Char('a'))));
    assert_eq!(parser.next(), None);
}

#[test]
fn handles_split_bracketed_paste() {
    let mut parser = InputParser::new();
    parser.feed(b"\x1b[200~hel");
    assert_eq!(parser.next(), None);
    parser.feed(b"lo\x1b[201~");
    assert_eq!(parser.next(), Some(Event::Paste("hello".to_string())));
    assert_eq!(parser.next(), None);
}

#[test]
fn handles_partial_end_sequence_at_buffer_boundary() {
    let mut parser = InputParser::new();
    parser.feed(b"\x1b[200~content\x1b[20");
    assert_eq!(parser.next(), None);
    parser.feed(b"1~");
    assert_eq!(parser.next(), Some(Event::Paste("content".to_string())));
    assert_eq!(parser.next(), None);
}

#[test]
fn normal_keys_after_paste() {
    let mut parser = InputParser::new();
    parser.feed(b"\x1b[200~abc\x1b[201~\x1b[A");
    assert_eq!(parser.next(), Some(Event::Paste("abc".to_string())));
    assert_eq!(parser.next(), Some(Event::Key(Key::Up)));
    assert_eq!(parser.next(), None);
}

#[test]
fn lone_carriage_return_in_paste_becomes_newline() {
    let mut parser = InputParser::new();
    parser.feed(b"\x1b[200~a\rb\x1b[201~");
    assert_eq!(parser.next(), Some(Event::Paste("a\nb".to_string())));
}

#[test]
fn printable_ascii_byte_is_a_char_key() {
    let mut parser = InputParser::new();
    parser.feed(b"z");
    assert_eq!(parser.next(), Some(Event::Key(Key::Char('z'))));
}
