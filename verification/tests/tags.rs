use amp::records::DefinitionResult;
use amp::tags::{clamp_position, definition_jump, normalize_repo_root, DefinitionJump};
use amp::records::SymbolResult;
use amp::tags::{extract_word_at, parse_tag_line, parse_tags, symbols_to_tags};

#[test]
fn tag_line_with_relative_file_and_kind() {
    let t = parse_tag_line("main\tsrc/main.rs\t12;\"\tkind:function", "/work").unwrap();
    assert_eq!(t.name, "main");
    assert_eq!(t.file, "/work/src/main.rs");
    assert_eq!(t.line, 11);
    assert_eq!(t.kind, Some("function".to_string()));
}

#[test]
fn tag_line_with_absolute_file_and_letter_kind() {
    let t = parse_tag_line("Foo\t/abs/x.rs\t3\ts\tline:3", "/work").unwrap();
    assert_eq!(t.file, "/abs/x.rs");
    assert_eq!(t.line, 2);
    assert_eq!(t.kind, Some("s".to_string()));
}

#[test]
fn tag_line_address_zero_saturates() {
    let t = parse_tag_line("z\tf\t0", "/w").unwrap();
    assert_eq!(t.line, 0);
    assert_eq!(t.kind, None);
}

#[test]
fn unreadable_tag_lines() {
    assert!(parse_tag_line("only\ttwo", "/w").is_none());
    assert!(parse_tag_line("name\tfile\t/pattern/", "/w").is_none());
}

#[test]
fn tags_file_skips_meta_lines() {
    let content = "!_TAG_FILE_FORMAT\t2\t/extended/\na\tf.rs\t1\nbad\nb\tg.rs\t2;\"\tf\n";
    let tags = parse_tags(content, "/w");
    assert_eq!(tags.len(), 2);
    assert_eq!(tags[0].name, "a");
    assert_eq!(tags[1].name, "b");
    assert_eq!(tags[1].kind, Some("f".to_string()));
}

#[test]
fn word_at_offset() {
    assert_eq!(extract_word_at("fn foo_bar()", 4), Some("foo_bar".to_string()));
    assert_eq!(extract_word_at("fn foo_bar()", 10), Some("foo_bar".to_string()));
    assert_eq!(extract_word_at("a  b", 2), None);
    assert_eq!(extract_word_at("abc", 3), None);
    assert_eq!(extract_word_at("héllo wörld", 8), Some("wörld".to_string()));
}

#[test]
fn symbols_become_tags_under_the_root() {
    let symbols = vec![SymbolResult {
        name: "run".to_string(),
        relative_path: "src/lib.rs".to_string(),
        line: 41,
        kind: Some("function".to_string()),
    }];
    let tags = symbols_to_tags("/repo", symbols);
    assert_eq!(tags.len(), 1);
    assert_eq!(tags[0].file, "/repo/src/lib.rs");
    assert_eq!(tags[0].line, 41);
    assert_eq!(tags[0].kind, Some("function".to_string()));
}

#[test]
fn one_definition_opens_it() {
    let defs = vec![DefinitionResult { file: "src/a.rs".to_string(), line: 3, column: 7, display: None }];
    match definition_jump("/repo", "run", &defs) {
        DefinitionJump::Open { file, line, column } => {
            assert_eq!(file, "/repo/src/a.rs");
            assert_eq!((line, column), (3, 7));
        }
        _ => panic!("expected one place to open"),
    }
    assert!(matches!(definition_jump("/repo", "run", &Vec::new()), DefinitionJump::SearchTags));
}

#[test]
fn several_definitions_are_listed() {
    let defs = vec![
        DefinitionResult { file: "a.rs".to_string(), line: 1, column: 0, display: Some("fn run()".to_string()) },
        DefinitionResult { file: "b.rs".to_string(), line: 2, column: 0, display: None },
    ];
    match definition_jump("/r", "run", &defs) {
        DefinitionJump::Choose(tags) => {
            assert_eq!(tags.len(), 2);
            assert_eq!(tags[0].kind, Some("fn run()".to_string()));
            assert_eq!(tags[1].kind, Some("run".to_string()));
            assert_eq!(tags[1].file, "/r/b.rs");
        }
        _ => panic!("expected a list"),
    }
}

#[test]
fn jump_positions_are_clamped() {
    assert_eq!(clamp_position("ab\ncdé\n", 3, 10, 10), (2, 0));
    assert_eq!(clamp_position("ab\ncdé\n", 3, 1, 10), (1, 4));
    assert_eq!(clamp_position("ab\ncdé\n", 3, 0, 1), (0, 1));
    assert_eq!(clamp_position("", 0, 5, 5), (0, 0));
}

#[test]
fn repo_roots_lose_trailing_slashes() {
    assert_eq!(normalize_repo_root("/opt/ai/gh/amp/"), "/opt/ai/gh/amp");
    assert_eq!(normalize_repo_root("/opt/ai/gh/amp//"), "/opt/ai/gh/amp");
    assert_eq!(normalize_repo_root("/opt"), "/opt");
}

#[test]
fn paths_join_as_on_unix() {
    assert_eq!(amp::tags::join_path("/repo", "src/a.rs"), "/repo/src/a.rs");
    assert_eq!(amp::tags::join_path("/repo/", "src/a.rs"), "/repo/src/a.rs");
    assert_eq!(amp::tags::join_path("/repo", "/etc/x"), "/etc/x");
    assert_eq!(amp::tags::join_path("", "a"), "a");
    assert_eq!(amp::tags::join_path("a", ""), "a/");
    for (b, r) in [("/repo", "src"), ("/repo/", "x"), ("", "a"), ("a", ""), ("/r", "/abs"), ("a//", "b")] {
        let std_join = std::path::Path::new(b).join(r).to_string_lossy().into_owned();
        assert_eq!(amp::tags::join_path(b, r), std_join);
    }
}
