use amp::input::Key;
use amp::key_map::{
    format_command_name, is_housekeeping_command, merge_tree, parse_key, walk_tree, BindingFault, KeyMap, KeyMapError, KeyParseError, LeaderLookup, LeaderNode, YamlNode,
};

fn text(s: &str) -> YamlNode {
    YamlNode::Text(s.to_string())
}

fn map(entries: Vec<(&str, YamlNode)>) -> YamlNode {
    YamlNode::Mapping(entries.into_iter().map(|(k, v)| (text(k), v)).collect())
}

fn doc(entries: Vec<(&str, YamlNode)>) -> Vec<(YamlNode, YamlNode)> {
    entries.into_iter().map(|(k, v)| (text(k), v)).collect()
}

fn known() -> Vec<String> {
    ["cursor::move_up", "cursor::move_down", "cursor::move_left", "cursor::move_right", "git::copy_remote_url"]
        .iter()
        .map(|s| s.to_string())
        .collect()
}

fn first(commands: Option<Vec<String>>) -> String {
    commands.expect("Keymap doesn't contain command")[0].clone()
}

// normal:
//   k: cursor::move_up
#[test]
fn keymap_correctly_parses_yaml_character_keybindings() {
    let keymap = KeyMap::from(&doc(vec![("normal", map(vec![("k", text("cursor::move_up"))]))]), &known()).unwrap();
    assert_eq!(first(keymap.commands_for("normal", &Key::Char('k'))), "cursor::move_up");
}

// normal:
//   _: cursor::move_up
#[test]
fn keymap_correctly_parses_yaml_wildcard_character_keybindings() {
    let keymap = KeyMap::from(&doc(vec![("normal", map(vec![("_", text("cursor::move_up"))]))]), &known()).unwrap();
    for c in vec!['a', 'b', 'c'] {
        assert_eq!(first(keymap.commands_for("normal", &Key::Char(c))), "cursor::move_up");
    }
}

// normal:
//   j: cursor::move_down
//   _: cursor::move_up
#[test]
fn keymap_correctly_prioritizes_character_over_wildcard_character_keybindings() {
    let keymap = KeyMap::from(
        &doc(vec![("normal", map(vec![("j", text("cursor::move_down")), ("_", text("cursor::move_up"))]))]),
        &known(),
    )
    .unwrap();
    assert_eq!(first(keymap.commands_for("normal", &Key::Char('j'))), "cursor::move_down");
    assert_eq!(first(keymap.commands_for("normal", &Key::Char('a'))), "cursor::move_up");
}

// normal:
//   ctrl-r: cursor::move_up
#[test]
fn keymap_correctly_parses_yaml_control_keybindings() {
    let keymap = KeyMap::from(&doc(vec![("normal", map(vec![("ctrl-r", text("cursor::move_up"))]))]), &known()).unwrap();
    assert_eq!(first(keymap.commands_for("normal", &Key::Ctrl('r'))), "cursor::move_up");
}

#[test]
fn keymap_correctly_parses_yaml_keyword_keybindings() {
    let mappings = vec![
        ("space", Key::Char(' ')),
        ("backspace", Key::Backspace),
        ("left", Key::Left),
        ("right", Key::Right),
        ("up", Key::Up),
        ("down", Key::Down),
        ("home", Key::Home),
        ("end", Key::End),
        ("page_up", Key::PageUp),
        ("page_down", Key::PageDown),
        ("delete", Key::Delete),
        ("insert", Key::Insert),
        ("escape", Key::Esc),
        ("tab", Key::Tab),
        ("enter", Key::Enter),
    ];
    for (binding, key) in mappings {
        let keymap = KeyMap::from(&doc(vec![("normal", map(vec![(binding, text("cursor::move_up"))]))]), &known()).unwrap();
        assert_eq!(first(keymap.commands_for("normal", &key)), "cursor::move_up");
    }
}

#[test]
fn keymap_correctly_merges_keybindings() {
    let mut keymap = KeyMap::from(
        &doc(vec![("normal", map(vec![("k", text("cursor::move_up")), ("j", text("cursor::move_down"))]))]),
        &known(),
    )
    .unwrap();
    let other_keymap = KeyMap::from(
        &doc(vec![("normal", map(vec![("k", text("cursor::move_left")), ("l", text("cursor::move_right"))]))]),
        &known(),
    )
    .unwrap();
    keymap.merge(other_keymap);
    assert_eq!(first(keymap.commands_for("normal", &Key::Char('j'))), "cursor::move_down");
    assert_eq!(first(keymap.commands_for("normal", &Key::Char('k'))), "cursor::move_left");
    assert_eq!(first(keymap.commands_for("normal", &Key::Char('l'))), "cursor::move_right");
}

// normal:
//   ctrl-r:
//     - cursor::move_up
//     - cursor::move_down
#[test]
fn keymap_correctly_parses_multiple_yaml_keybindings() {
    let keymap = KeyMap::from(
        &doc(vec![(
            "normal",
            map(vec![("ctrl-r", YamlNode::List(vec![text("cursor::move_up"), text("cursor::move_down")]))]),
        )]),
        &known(),
    )
    .unwrap();
    let command = keymap.commands_for("normal", &Key::Ctrl('r')).expect("Keymap doesn't contain command");
    assert_eq!(command[0], "cursor::move_up");
    assert_eq!(command[1], "cursor::move_down");
}

#[test]
fn merging_leaves_out_modes_the_map_lacks() {
    let mut keymap = KeyMap::from(&doc(vec![("normal", map(vec![("k", text("cursor::move_up"))]))]), &known()).unwrap();
    let other = KeyMap::from(&doc(vec![("unknown", map(vec![("l", text("cursor::move_right"))]))]), &known()).unwrap();
    keymap.merge(other);
    assert_eq!(keymap.commands_for("unknown", &Key::Char('l')), None);
    assert_eq!(first(keymap.commands_for("normal", &Key::Char('k'))), "cursor::move_up");
}

#[test]
fn key_names() {
    assert_eq!(parse_key("k"), Ok(Key::Char('k')));
    assert_eq!(parse_key("alt-x"), Ok(Key::Alt('x')));
    assert_eq!(parse_key("f12"), Ok(Key::F12));
    assert_eq!(parse_key("_"), Ok(Key::AnyChar));
    assert_eq!(parse_key("shift-x"), Err(KeyParseError::InvalidModifier("shift".to_string())));
    assert_eq!(parse_key("ctrl-"), Err(KeyParseError::InvalidKey(String::new())));
    assert_eq!(parse_key(""), Err(KeyParseError::InvalidKey(String::new())));
}

fn leader_doc() -> Vec<(YamlNode, YamlNode)> {
    doc(vec![(
        "leader",
        map(vec![
            ("g", map(vec![("r", text("git::copy_remote_url"))])),
            ("x", text("cursor::move_up")),
        ]),
    )])
}

#[test]
fn leader_sequences() {
    let keymap = KeyMap::from(&leader_doc(), &known()).unwrap();
    assert_eq!(keymap.leader_lookup(&[Key::Char('g')]), LeaderLookup::Prefix);
    assert_eq!(
        keymap.leader_lookup(&[Key::Char('g'), Key::Char('r')]),
        LeaderLookup::Found(vec!["git::copy_remote_url".to_string()])
    );
    assert_eq!(keymap.leader_lookup(&[Key::Char('x'), Key::Char('y')]), LeaderLookup::NoMatch);
    assert_eq!(keymap.leader_lookup(&[Key::Char('q')]), LeaderLookup::NoMatch);
    assert_eq!(keymap.leader_lookup(&[]), LeaderLookup::Prefix);
    assert_eq!(keymap.pending_g_lookup(&[Key::Char('g')]), LeaderLookup::NoMatch);
}

#[test]
fn trees_merge_deeply() {
    let mut keymap = KeyMap::from(&leader_doc(), &known()).unwrap();
    let other = KeyMap::from(
        &doc(vec![(
            "leader",
            map(vec![("g", map(vec![("d", text("cursor::move_down"))])), ("x", map(vec![]))]),
        )]),
        &known(),
    )
    .unwrap();
    keymap.merge(other);
    assert_eq!(
        keymap.leader_lookup(&[Key::Char('g'), Key::Char('r')]),
        LeaderLookup::Found(vec!["git::copy_remote_url".to_string()])
    );
    assert_eq!(
        keymap.leader_lookup(&[Key::Char('g'), Key::Char('d')]),
        LeaderLookup::Found(vec!["cursor::move_down".to_string()])
    );
    assert_eq!(keymap.leader_lookup(&[Key::Char('x')]), LeaderLookup::Prefix);
}

#[test]
fn merge_tree_overlay_leaf_replaces_subtree() {
    let mut base = vec![(Key::Char('a'), LeaderNode::Subtree(vec![(Key::Char('b'), LeaderNode::Command(vec!["x".to_string()]))]))];
    merge_tree(&mut base, vec![(Key::Char('a'), LeaderNode::Command(vec!["y".to_string()]))]);
    assert_eq!(walk_tree(&base, &[Key::Char('a')]), LeaderLookup::Found(vec!["y".to_string()]));
    assert_eq!(walk_tree(&base, &[Key::Char('a'), Key::Char('b')]), LeaderLookup::NoMatch);
}

#[test]
fn reading_errors() {
    assert_eq!(
        KeyMap::from(&doc(vec![("normal", map(vec![("k", text("no::such"))]))]), &known()).err(),
        Some(KeyMapError::InMode("normal".to_string(), BindingFault::UnknownCommand("no::such".to_string())))
    );
    assert_eq!(
        KeyMap::from(&doc(vec![("normal", text("oops"))]), &known()).err(),
        Some(KeyMapError::InMode("normal".to_string(), BindingFault::NotMap))
    );
    assert_eq!(
        KeyMap::from(&vec![(YamlNode::Other, map(vec![]))], &known()).err(),
        Some(KeyMapError::ModeNotText)
    );
    assert_eq!(
        KeyMap::from(&doc(vec![("leader", map(vec![("a", YamlNode::Other)]))]), &known()).err(),
        Some(KeyMapError::InTree(BindingFault::BadCommand))
    );
    assert_eq!(
        KeyMap::from(&doc(vec![("normal", map(vec![("a", YamlNode::List(vec![YamlNode::Other]))]))]), &known()).err(),
        Some(KeyMapError::InMode("normal".to_string(), BindingFault::CommandNotText))
    );
    assert_eq!(
        KeyMap::from(&doc(vec![("normal", map(vec![("bad-k", text("cursor::move_up"))]))]), &known()).err(),
        Some(KeyMapError::InMode("normal".to_string(), BindingFault::Key(KeyParseError::InvalidModifier("bad".to_string()))))
    );
}

fn hint_known() -> Vec<String> {
    [
        "cursor::move_up",
        "view::scroll_to_cursor",
        "application::switch_to_normal_mode",
        "buffer::delete_current_line",
        "git::copy_remote_url",
    ]
    .iter()
    .map(|s| s.to_string())
    .collect()
}

fn list(names: &[&str]) -> YamlNode {
    YamlNode::List(names.iter().map(|n| text(n)).collect())
}

#[test]
fn command_names_read_as_titles() {
    assert_eq!(format_command_name("cursor::move_up"), "Move Up");
    assert_eq!(format_command_name("git::copy_remote_url"), "Copy Remote Url");
    assert_eq!(format_command_name("plain"), "Plain");
    assert_eq!(format_command_name("a::b::c_d"), "C D");
    assert_eq!(format_command_name("x__y"), "X  Y");
    assert_eq!(format_command_name("\u{df}_e"), "SS E");
    assert!(is_housekeeping_command("view::scroll_to_cursor"));
    assert!(is_housekeeping_command("application::handle_input"));
    assert!(!is_housekeeping_command("cursor::move_up"));
}

#[test]
fn mode_hints_describe_each_key() {
    let keymap = KeyMap::from(
        &doc(vec![(
            "normal",
            map(vec![
                ("k", list(&["cursor::move_up", "view::scroll_to_cursor"])),
                ("escape", text("application::switch_to_normal_mode")),
                ("_", text("cursor::move_up")),
                ("z", list(&["view::scroll_to_cursor", "application::switch_to_normal_mode"])),
                ("d", list(&["buffer::delete_current_line", "git::copy_remote_url"])),
            ]),
        )]),
        &hint_known(),
    )
    .unwrap();
    assert_eq!(
        keymap.which_key_entries("normal"),
        vec![
            (Key::Char('k'), "Move Up".to_string()),
            (Key::Esc, "Cancel".to_string()),
            (Key::Char('z'), "Scroll To Cursor".to_string()),
            (Key::Char('d'), "Delete Current Line \u{2192} Copy Remote Url".to_string()),
        ]
    );
    assert_eq!(keymap.which_key_entries("insert"), vec![]);
}

#[test]
fn tree_hints_follow_the_keys_pressed() {
    let keymap = KeyMap::from(&leader_doc(), &known()).unwrap();
    assert_eq!(
        keymap.which_key_leader_entries(&[]),
        vec![(Key::Char('g'), "\u{2026}".to_string()), (Key::Char('x'), "Move Up".to_string())]
    );
    assert_eq!(
        keymap.which_key_leader_entries(&[Key::Char('g')]),
        vec![(Key::Char('r'), "Copy Remote Url".to_string())]
    );
    assert_eq!(keymap.which_key_leader_entries(&[Key::Char('x')]), vec![]);
    assert_eq!(keymap.which_key_leader_entries(&[Key::Char('q')]), vec![]);
    assert_eq!(keymap.which_key_pending_g_entries(&[]), vec![]);
    assert_eq!(keymap.which_key_pending_delete_entries(&[]), vec![]);
}

#[test]
fn key_maps_read_from_yaml_text() {
    let text = "normal:\n  k: cursor::move_up\n  ctrl-r:\n    - cursor::move_down\n    - cursor::move_left\nleader:\n  g:\n    r: git::copy_remote_url\n";
    let keymap = amp::key_map::key_map_from_yaml(text, &known()).unwrap().unwrap();
    assert_eq!(first(keymap.commands_for("normal", &Key::Char('k'))), "cursor::move_up");
    assert_eq!(
        keymap.commands_for("normal", &Key::Ctrl('r')),
        Some(vec!["cursor::move_down".to_string(), "cursor::move_left".to_string()])
    );
    assert_eq!(
        keymap.leader_lookup(&[Key::Char('g'), Key::Char('r')]),
        LeaderLookup::Found(vec!["git::copy_remote_url".to_string()])
    );
    assert!(amp::key_map::key_map_from_yaml("- just\n- a list\n", &known()).is_none());
    assert!(amp::key_map::key_map_from_yaml("normal: [unclosed", &known()).is_none());
    assert!(amp::key_map::key_map_from_yaml("normal:\n  k: no::such_command\n", &known()).unwrap().is_err());
}
