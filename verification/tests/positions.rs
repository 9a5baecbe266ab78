use amp::modes::Position;
use amp::positions::{parse_positions, parse_record, remember_position, serialize_positions, BufferPosition, MAX_ENTRIES};

fn bp(line: usize, offset: usize, last_used: u64) -> BufferPosition {
    BufferPosition { position: Position { line, offset }, last_used }
}

#[test]
fn records_in_both_formats() {
    assert_eq!(parse_record("1700000000:12:4:/src/a.rs"), Some(("/src/a.rs".to_string(), bp(12, 4, 1700000000))));
    assert_eq!(parse_record("3:7:/src/b.rs"), Some(("/src/b.rs".to_string(), bp(3, 7, 0))));
    assert_eq!(parse_record("3:7:/src/b:c.rs"), None);
    assert_eq!(parse_record("+3:7:1:/p"), Some(("/p".to_string(), bp(7, 1, 3))));
    assert_eq!(parse_record("5:1:2:/x:y"), Some(("/x:y".to_string(), bp(1, 2, 5))));
    assert_eq!(parse_record("1:2:[Ripgrep Results]"), None);
    assert_eq!(parse_record("1:2:3:"), None);
    assert_eq!(parse_record("x:2:/a"), None);
    assert_eq!(parse_record("/only/path"), None);
}

#[test]
fn later_lines_replace_earlier_ones() {
    let entries = parse_positions("10:1:1:/a\n20:2:2:/b\nbad line\n30:3:3:/a\n");
    assert_eq!(entries, vec![("/a".to_string(), bp(3, 3, 30)), ("/b".to_string(), bp(2, 2, 20))]);
}

#[test]
fn saving_lists_the_most_recent_first() {
    let entries = vec![
        ("/old".to_string(), bp(1, 0, 5)),
        ("/new".to_string(), bp(9, 2, 50)),
        ("/tie".to_string(), bp(4, 4, 5)),
    ];
    assert_eq!(serialize_positions(&entries), "50:9:2:/new\n5:1:0:/old\n5:4:4:/tie\n");
}

#[test]
fn saving_keeps_a_hundred() {
    let mut entries = Vec::new();
    for i in 0..150u64 {
        remember_position(&mut entries, format!("/f{}", i), bp(0, 0, i));
    }
    let text = serialize_positions(&entries);
    assert_eq!(text.lines().count(), MAX_ENTRIES);
    assert!(text.starts_with("149:0:0:/f149\n"));
    assert_eq!(parse_positions(&text).len(), MAX_ENTRIES);
}

#[test]
fn written_positions_read_back() {
    let entries = vec![("/a b/c.rs".to_string(), bp(3, 1, 7)), ("/d".to_string(), bp(0, 0, 9))];
    let back = parse_positions(&serialize_positions(&entries));
    assert_eq!(back, vec![("/d".to_string(), bp(0, 0, 9)), ("/a b/c.rs".to_string(), bp(3, 1, 7))]);
}

#[test]
fn remembering_replaces_in_place() {
    let mut entries = vec![("/a".to_string(), bp(1, 1, 1))];
    remember_position(&mut entries, "/b".to_string(), bp(2, 2, 2));
    remember_position(&mut entries, "/a".to_string(), bp(3, 3, 3));
    assert_eq!(entries, vec![("/a".to_string(), bp(3, 3, 3)), ("/b".to_string(), bp(2, 2, 2))]);
}
