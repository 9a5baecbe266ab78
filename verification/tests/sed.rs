use amp::records::SedChange;
use amp::sed::{
    applied_message, apply_file_changes, build_buffer_content, collect_changes, confirmed_by_file,
    file_changes, find_all_occurrences, next_marker_line, parse_args, parse_change_index,
    rg_file_list, toggle_all, toggle_change, SedArgs, SedError,
};

fn chars(s: &str) -> Vec<char> {
    s.chars().collect()
}

fn args(word_only: bool, old: &str, new: &str) -> SedArgs {
    SedArgs {
        word_only,
        old_pattern: old.to_string(),
        new_pattern: new.to_string(),
        glob_pattern: String::new(),
    }
}

#[test]
fn parse_args_reads_patterns_and_glob() {
    let a = parse_args("foo bar *.rs").ok().unwrap();
    assert!(!a.word_only);
    assert_eq!(a.old_pattern, "foo");
    assert_eq!(a.new_pattern, "bar");
    assert_eq!(a.glob_pattern, "*.rs");
}

#[test]
fn parse_args_reads_word_flag() {
    let a = parse_args("  -w  foo\tbar ").ok().unwrap();
    assert!(a.word_only);
    assert_eq!(a.old_pattern, "foo");
    assert_eq!(a.new_pattern, "bar");
    assert_eq!(a.glob_pattern, "");
}

#[test]
fn parse_args_without_old_text_is_usage_error() {
    assert_eq!(parse_args("").err(), Some(SedError::Usage));
    assert_eq!(parse_args("-w").err(), Some(SedError::Usage));
}

#[test]
fn rg_file_list_strips_dot_slash_and_empty_lines() {
    let files = rg_file_list("./src/a.rs\n\nsrc/b.rs\n./././c.rs\n");
    assert_eq!(files, vec!["src/a.rs".to_string(), "src/b.rs".to_string(), "c.rs".to_string()]);
}

#[test]
fn occurrences_do_not_overlap() {
    assert_eq!(find_all_occurrences(&chars("aaaa"), &chars("aa")), vec![0, 2]);
    assert_eq!(find_all_occurrences(&chars("xaxa"), &chars("a")), vec![1, 3]);
    assert_eq!(find_all_occurrences(&chars("abc"), &chars("d")), Vec::<usize>::new());
}

#[test]
fn file_changes_records_bytes_lines_and_columns() {
    let content = "let foo = 1;\n  é foo\n";
    let cs = file_changes("a.rs", content, "foo", "bar", false);
    assert_eq!(cs.len(), 2);
    assert_eq!((cs[0].byte_start, cs[0].byte_end, cs[0].line, cs[0].column), (4, 7, 0, 4));
    assert_eq!(cs[0].context_line, "let foo = 1;");
    assert!(cs[0].word_boundary);
    assert!(cs[0].confirmed);
    // "  é " is five bytes: the second match starts at byte 13 + 5 = 18.
    assert_eq!((cs[1].byte_start, cs[1].byte_end, cs[1].line, cs[1].column), (18, 21, 1, 5));
    assert_eq!(cs[1].context_line, "é foo");
    assert_eq!(cs[1].file, "a.rs");
    assert_eq!(cs[1].old_text, "foo");
    assert_eq!(cs[1].new_text, "bar");
}

#[test]
fn word_flag_drops_matches_inside_words() {
    let content = "foo food _foo foo";
    let all = file_changes("f", content, "foo", "x", false);
    assert_eq!(all.len(), 4);
    assert_eq!(
        all.iter().map(|c| c.word_boundary).collect::<Vec<_>>(),
        vec![true, false, false, true]
    );
    let words = file_changes("f", content, "foo", "x", true);
    assert_eq!(words.iter().map(|c| c.byte_start).collect::<Vec<_>>(), vec![0, 14]);
}

#[test]
fn long_context_lines_are_cut() {
    let long = "x".repeat(100);
    let cs = file_changes("f", &long, "x", "y", false);
    assert_eq!(cs[0].context_line, format!("{}...", "x".repeat(77)));
}

#[test]
fn collect_changes_reports_missing_occurrences() {
    let files = vec![("a".to_string(), "nothing here".to_string())];
    assert_eq!(collect_changes(&files, &args(false, "zzz", "y")).err(), Some(SedError::NoOccurrences));
    assert_eq!(
        collect_changes(&files, &args(true, "thing", "y")).err(),
        Some(SedError::NoWordOccurrences("thing".to_string()))
    );
}

#[test]
fn collect_changes_keeps_file_order() {
    let files = vec![
        ("b.rs".to_string(), "one two".to_string()),
        ("a.rs".to_string(), "two".to_string()),
    ];
    let cs = collect_changes(&files, &args(false, "two", "2")).ok().unwrap();
    assert_eq!(cs.iter().map(|c| c.file.clone()).collect::<Vec<_>>(), vec!["b.rs", "a.rs"]);
}

fn sample_changes() -> Vec<SedChange> {
    let mut cs = file_changes("src/a.rs", "foo\nfoox\n", "foo", "bar", false);
    cs.extend(file_changes("src/b.rs", "  foo  \n", "foo", "bar", false));
    cs
}

#[test]
fn review_buffer_lists_changes_by_file() {
    let (content, header) = build_buffer_content(&sample_changes());
    assert_eq!(header, 3);
    assert_eq!(
        content,
        "Sed: 'foo' -> 'bar'\n<SPC>: exclude  a: toggle all  w: apply  q: cancel\n\n\
src/a.rs:\n[y] #0 L1:C1  foo\n[y] #1 L2:C1 \u{26a0}  foox\n\nsrc/b.rs:\n[y] #2 L1:C3  foo\n"
    );
}

#[test]
fn review_buffer_without_changes() {
    let (content, _) = build_buffer_content(&Vec::new());
    assert_eq!(
        content,
        "Sed: (no changes)\n<SPC>: exclude  a: toggle all  w: apply  q: cancel\n\n"
    );
}

#[test]
fn change_index_is_read_after_the_hash() {
    assert_eq!(parse_change_index("[y] #12 L3:C4  text"), Some(12));
    assert_eq!(parse_change_index("no hash"), None);
    assert_eq!(parse_change_index("[y] # L3"), None);
    assert_eq!(parse_change_index("#99999999999999999999999"), None);
}

#[test]
fn toggling_a_line_twice_restores_it() {
    let mut cs = sample_changes();
    assert!(toggle_change(&mut cs, "[y] #1 L2:C1  foox"));
    assert_eq!(cs.iter().map(|c| c.confirmed).collect::<Vec<_>>(), vec![true, false, true]);
    assert!(toggle_change(&mut cs, "[ ] #1 L2:C1  foox"));
    assert_eq!(cs.iter().map(|c| c.confirmed).collect::<Vec<_>>(), vec![true, true, true]);
    assert!(!toggle_change(&mut cs, "[y] #7 L1:C1  x"));
    assert!(!toggle_change(&mut cs, "src/a.rs:"));
}

#[test]
fn toggle_all_excludes_all_then_confirms_all() {
    let mut cs = sample_changes();
    toggle_all(&mut cs);
    assert!(cs.iter().all(|c| !c.confirmed));
    toggle_all(&mut cs);
    assert!(cs.iter().all(|c| c.confirmed));
    toggle_change(&mut cs, "#0");
    toggle_all(&mut cs);
    assert!(cs.iter().all(|c| c.confirmed));
}

#[test]
fn next_marker_wraps_round() {
    let data = "Sed: x\nkeys\n\nf:\n[y] #0 L1:C1  a\n[ ] #1 L2:C1  b\n";
    assert_eq!(next_marker_line(data, 0), Some(4));
    assert_eq!(next_marker_line(data, 4), Some(5));
    assert_eq!(next_marker_line(data, 5), Some(4));
    assert_eq!(next_marker_line("a\nb\n", 0), None);
}

#[test]
fn confirmed_changes_are_grouped_by_file() {
    let mut cs = sample_changes();
    let groups = confirmed_by_file(&cs).ok().unwrap();
    assert_eq!(
        groups,
        vec![("src/a.rs".to_string(), vec![0, 1]), ("src/b.rs".to_string(), vec![2])]
    );
    toggle_all(&mut cs);
    assert_eq!(confirmed_by_file(&cs).err(), Some(SedError::AllExcluded));
}

#[test]
fn applying_replaces_from_the_end() {
    let original = "foo\nfoox\n";
    let cs = file_changes("a", original, "foo", "barbaz", false);
    let out = apply_file_changes(original, &cs, &vec![0, 1]).ok().unwrap();
    assert_eq!(out, "barbaz\nbarbazx\n");
    let only_second = apply_file_changes(original, &cs, &vec![1]).ok().unwrap();
    assert_eq!(only_second, "foo\nbarbazx\n");
}

#[test]
fn applying_to_changed_text_is_a_mismatch() {
    let cs = file_changes("a", "foo\nfoox\n", "foo", "bar", false);
    assert_eq!(
        apply_file_changes("fob\nfoox\n", &cs, &vec![0, 1]).err(),
        Some(SedError::ContentMismatch(0))
    );
    assert_eq!(apply_file_changes("foo\n", &cs, &vec![0, 1]).err(), Some(SedError::ContentMismatch(4)));
}

#[test]
fn applied_message_counts_changes_and_files() {
    assert_eq!(applied_message(3, 2), "3 change(s) across 2 file(s)");
}

#[test]
fn applying_every_change_is_a_replace_all() {
    for (content, old, new) in [
        ("aaaa", "aa", "b"),
        ("héllo wörld héllo", "héllo", "hi"),
        ("no match here", "xyz", "q"),
        ("x\nxx\nx", "x", "yy"),
        ("ababab", "aba", "-"),
    ] {
        let cs = file_changes("f", content, old, new, false);
        let all: Vec<usize> = (0..cs.len()).collect();
        assert_eq!(apply_file_changes(content, &cs, &all).ok().unwrap(), content.replace(old, new));
    }
}

#[test]
fn review_rows_read_back_as_their_numbers() {
    let mut cs = file_changes("src/a.rs", "foo foo\nfoo\n", "foo", "bar", false);
    cs.extend(file_changes("src/b.rs", "x foo\n", "foo", "bar", true));
    cs[1].confirmed = false;
    let (text, header) = build_buffer_content(&cs);
    let numbers: Vec<usize> = text.lines().skip(header).filter_map(parse_change_index).collect();
    assert_eq!(numbers, (0..cs.len()).collect::<Vec<_>>());
}
