use amp::pickers::{
    picker_positions, BufferEntry, BufferListMode, FdMode, FilePickerMode, MRUMode, PickerEntry, TagEntry,
    Symbol, SymbolJumpMode, TagJumpMode,
};
use amp::modes::Position;
use amp::search_select::{chars_contain, filter_positions, SearchSelectConfig, SelectableVec};
use amp::tags::tag;

fn config() -> SearchSelectConfig {
    SearchSelectConfig { max_results: 5 }
}

fn chars(s: &str) -> Vec<char> {
    s.chars().collect()
}

#[test]
fn buffer_labels() {
    let e = BufferEntry { path: Some("src/a.rs".to_string()), buffer_id: Some(1), modified: true };
    assert_eq!(e.label(), "src/a.rs [+]");
    let e = BufferEntry { path: None, buffer_id: None, modified: false };
    assert_eq!(e.label(), "[No Name]");
}

#[test]
fn buffer_list_filters_case_insensitively() {
    let mut m = BufferListMode::new(config());
    m.reset(
        vec![
            BufferEntry { path: Some("src/Main.rs".to_string()), buffer_id: Some(1), modified: false },
            BufferEntry { path: Some("README".to_string()), buffer_id: Some(2), modified: false },
        ],
        config(),
    );
    m.set_query("main".to_string());
    assert_eq!(m.selection().unwrap().buffer_id, Some(1));
    assert_eq!(m.message(), None);
    m.set_query("zzz".to_string());
    assert!(m.selection().is_none());
    assert_eq!(m.message(), Some("No matching entries found.".to_string()));
    assert_eq!(BufferListMode::new(config()).message(), Some("No buffers open.".to_string()));
}

#[test]
fn mru_selection_moves() {
    let mut m = MRUMode::new(config());
    m.reset(vec!["a.rs".to_string(), "b.rs".to_string(), "c.rs".to_string()], config());
    m.search();
    assert_eq!(m.selection(), Some(&"a.rs".to_string()));
    m.select_next();
    m.select_next();
    m.select_next();
    assert_eq!(m.selection(), Some(&"c.rs".to_string()));
    m.select_previous();
    assert_eq!(m.selection(), Some(&"b.rs".to_string()));
}

#[test]
fn fd_results_filtered_by_query() {
    let mut m = FdMode::new(config());
    m.reset(vec!["src/lib.rs".to_string(), "tests/x.rs".to_string()], config(), "lib");
    m.set_query("TESTS".to_string());
    assert_eq!(m.selection(), Some(&"tests/x.rs".to_string()));
}

#[test]
fn picker_lists_directories_first() {
    let entries = vec![
        PickerEntry { path: "/w/b.rs".to_string(), name: "b.rs".to_string(), is_dir: false },
        PickerEntry { path: "/w/src".to_string(), name: "src".to_string(), is_dir: true },
        PickerEntry { path: "/w/a.rs".to_string(), name: "a.rs".to_string(), is_dir: false },
    ];
    assert_eq!(picker_positions(&entries), vec![1, 2, 0]);
    let mut m = FilePickerMode::new(config());
    m.reset("/w".to_string(), config());
    m.set_entries(entries);
    assert_eq!(m.selection().unwrap().name, "src");
    m.select_next();
    assert_eq!(m.selection().unwrap().name, "a.rs");
}

#[test]
fn file_picker_goes_up_a_directory() {
    let mut m = FilePickerMode::new(config());
    m.reset("/w/src".to_string(), config());
    assert!(m.navigate_up());
    assert_eq!(m.current_dir, "/w");
}

#[test]
fn tag_labels() {
    let t = TagEntry { name: "main".to_string(), file: "/w/main.rs".to_string(), line: 4, kind: Some("f".to_string()) };
    assert_eq!(t.label(), "main\t/w/main.rs:4 [f]");
    let t = TagEntry { name: "x".to_string(), file: "y".to_string(), line: 0, kind: None };
    assert_eq!(t.label(), "x\ty:0");
}

fn tags() -> Vec<TagEntry> {
    vec![
        TagEntry { name: "parse".to_string(), file: "a".to_string(), line: 1, kind: None },
        TagEntry { name: "print".to_string(), file: "b".to_string(), line: 2, kind: None },
    ]
}

#[test]
fn tag_with_one_match_jumps() {
    let mut mode = TagJumpMode::new(config());
    assert_eq!(tag(&mut mode, tags(), "parse", config()), Ok(true));
    assert_eq!(mode.selection().unwrap().name, "parse");
}

#[test]
fn tag_with_several_matches_lists_them() {
    let mut mode = TagJumpMode::new(config());
    assert_eq!(tag(&mut mode, tags(), "", config()), Ok(false));
    assert_eq!(mode.shown_count(), 2);
}

#[test]
fn tag_without_tags_is_an_error() {
    let mut mode = TagJumpMode::new(config());
    assert!(tag(&mut mode, Vec::new(), "x", config()).is_err());
}

#[test]
fn selectable_vec_stays_in_bounds() {
    let mut v = SelectableVec::new(vec![10, 20]);
    assert_eq!(v.selection(), Some(&10));
    v.select_previous();
    assert_eq!(v.selected_index(), 0);
    v.select_next();
    v.select_next();
    assert_eq!(v.selection(), Some(&20));
    assert!(!v.set_selected_index(5));
    assert!(v.set_selected_index(0));
    assert_eq!(v.len(), 2);
}

#[test]
fn filtering_and_containment() {
    assert!(chars_contain(&chars("hello"), &chars("ll")));
    assert!(!chars_contain(&chars("hello"), &chars("lo!")));
    let texts = vec![chars("Alpha"), chars("beta"), chars("ALPS")];
    assert_eq!(filter_positions(&texts, &chars("alp")), vec![0, 2]);
    assert_eq!(filter_positions(&texts, &Vec::new()), vec![0, 1, 2]);
}

fn symbol(token: &str, line: usize) -> Symbol {
    Symbol { token: token.to_string(), position: Position { line, offset: 3 } }
}

fn file_symbols() -> Vec<Symbol> {
    vec![
        symbol("symbols_are_limited_to_functions", 213),
        symbol("reset_clears_query_mode_and_results", 244),
        symbol("scrolling_through_results", 270),
        symbol("update_visible_results", 86),
    ]
}

#[test]
fn reset_clears_query_mode_and_results() {
    let mut mode = SymbolJumpMode::new(config());
    mode.reset(file_symbols(), config());
    mode.set_query("reset_clears_query_mode_and_results".to_string());
    mode.set_insert_mode(false);
    assert!(mode.shown_count() > 0);
    assert_eq!(mode.selection().unwrap().token, "reset_clears_query_mode_and_results");

    mode.reset(file_symbols(), config());
    assert_eq!(mode.query(), "");
    assert_eq!(mode.insert_mode(), true);
    assert_eq!(mode.shown_count(), 0);
}

#[test]
fn symbol_list_scrolls_both_ways() {
    let mut mode = SymbolJumpMode::new(SearchSelectConfig { max_results: 2 });
    mode.reset(file_symbols(), SearchSelectConfig { max_results: 2 });
    mode.search();
    assert_eq!(mode.match_count(), 4);
    assert_eq!(mode.shown_count(), 2);
    mode.select_next();
    mode.select_next();
    assert_eq!(mode.scroll_offset(), 1);
    mode.select_previous();
    mode.select_previous();
    assert_eq!(mode.scroll_offset(), 0);
    assert_eq!(mode.selection().unwrap().position, Position { line: 213, offset: 3 });
    assert_eq!(mode.label(), "SYMBOL");
}
