use amp::ex_mode::{
    accept_input, completion_directory, navigate_down, next_history, pop_char, previous_history, push_char,
    DirEntry, ExCommand, ExCommandKind, ExError, ExMode,
};
use amp::input::Key;

fn typed(text: &str) -> ExMode {
    let mut mode = ExMode::new();
    for c in text.chars() {
        push_char(&mut mode, Some(Key::Char(c)), &Vec::new()).unwrap();
    }
    mode
}

fn displays(mode: &ExMode) -> Vec<String> {
    mode.completions.iter().map(|e| e.display.clone()).collect()
}

#[test]
fn typing_a_command_offers_matching_commands() {
    let mode = typed(":b");
    assert_eq!(mode.input, ":b");
    assert_eq!(displays(&mode), vec![":bd", ":bn", ":bp"]);
    assert_eq!(mode.completion_selection, Some(0));
    let mode = typed("se");
    assert_eq!(displays(&mode), vec![":sed ", ":sed -w "]);
}

#[test]
fn accepting_commands() {
    let mut mode = typed(":w");
    mode.completion_selection = None;
    assert_eq!(
        accept_input(&mut mode, false, &Vec::new()),
        Ok(Some(ExCommand { kind: ExCommandKind::Write, arg: String::new() }))
    );
    assert_eq!(mode.input, "");
    assert_eq!(mode.history, vec![":w".to_string()]);
    assert_eq!(mode.history_index, 1);

    let mut mode = ExMode::new();
    mode.input = ":e src/main.rs".to_string();
    assert_eq!(
        accept_input(&mut mode, false, &Vec::new()),
        Ok(Some(ExCommand { kind: ExCommandKind::Edit, arg: "src/main.rs".to_string() }))
    );
}

#[test]
fn accepting_errors() {
    let mut mode = ExMode::new();
    mode.input = ":tag".to_string();
    assert_eq!(accept_input(&mut mode, false, &Vec::new()), Err(ExError::NoTagSpecified));
    mode.input = ":zz top".to_string();
    assert_eq!(
        accept_input(&mut mode, false, &Vec::new()),
        Err(ExError::UnknownCommand("zz".to_string()))
    );
    mode.input = ":e".to_string();
    assert_eq!(accept_input(&mut mode, false, &Vec::new()), Err(ExError::NoFileSpecified));
    assert_eq!(mode.history, vec![":tag".to_string(), ":zz top".to_string(), ":e".to_string()]);
}

#[test]
fn edit_of_a_directory_steps_into_it() {
    let listing = vec![
        DirEntry { name: "main.rs".to_string(), is_dir: false },
        DirEntry { name: "bin".to_string(), is_dir: true },
    ];
    let mut mode = ExMode::new();
    mode.input = ":e src".to_string();
    assert_eq!(accept_input(&mut mode, true, &listing), Ok(None));
    assert_eq!(mode.input, ":e src/");
    assert_eq!(displays(&mode), vec!["bin/", "main.rs"]);
    assert_eq!(mode.completions[1].value, ":e src/main.rs ");
    assert!(mode.history.is_empty());
}

#[test]
fn completion_directory_of_the_path_typed() {
    assert_eq!(completion_directory(":e src/mo"), Some("src/".to_string()));
    assert_eq!(completion_directory(":e main"), Some(String::new()));
    assert_eq!(completion_directory(":w"), None);
}

#[test]
fn single_file_candidate_is_filled_in() {
    let listing = vec![DirEntry { name: "main.rs".to_string(), is_dir: false }];
    let mut mode = ExMode::new();
    mode.input = ":e ma".to_string();
    assert_eq!(push_char(&mut mode, Some(Key::Char('i')), &listing), Ok(true));
    assert_eq!(mode.input, ":e main.rs ");
}

#[test]
fn keys_other_than_characters() {
    let mut mode = typed(":q");
    assert_eq!(push_char(&mut mode, None, &Vec::new()), Err(ExError::NoKeyPress));
    assert_eq!(push_char(&mut mode, Some(Key::Left), &Vec::new()), Ok(false));
    assert_eq!(mode.input, ":q");
    pop_char(&mut mode, &Vec::new());
    assert_eq!(mode.input, ":");
}

#[test]
fn history_walks_back_and_forth() {
    let mut mode = ExMode::new();
    mode.input = ":w".to_string();
    accept_input(&mut mode, false, &Vec::new()).unwrap();
    mode.input = ":bn".to_string();
    accept_input(&mut mode, false, &Vec::new()).unwrap();
    previous_history(&mut mode);
    assert_eq!(mode.input, ":bn");
    previous_history(&mut mode);
    assert_eq!(mode.input, ":w");
    previous_history(&mut mode);
    assert_eq!(mode.input, ":w");
    next_history(&mut mode);
    assert_eq!(mode.input, ":bn");
    next_history(&mut mode);
    assert_eq!(mode.input, "");
}

#[test]
fn popup_grid_moves_by_rows() {
    let mut mode = typed(":");
    assert_eq!(mode.completions.len(), 17);
    assert_eq!(mode.completion_selection, Some(0));
    navigate_down(&mut mode);
    assert_eq!(mode.completion_selection, Some(4));
}

#[test]
fn status_and_stash_commands() {
    let mut mode = ExMode::new();
    mode.input = ":gs".to_string();
    let r = accept_input(&mut mode, false, &Vec::new()).unwrap().unwrap();
    assert_eq!(r.kind, ExCommandKind::GitStatus);
    mode.input = ":stash msg".to_string();
    let r = accept_input(&mut mode, false, &Vec::new()).unwrap().unwrap();
    assert_eq!((r.kind, r.arg.as_str()), (ExCommandKind::Stash, "msg"));
    mode.input = ":stash ".to_string();
    let r = accept_input(&mut mode, false, &Vec::new()).unwrap().unwrap();
    assert_eq!((r.kind, r.arg.as_str()), (ExCommandKind::Stash, ""));
    assert_eq!(mode.history, vec![":gs".to_string(), ":stash msg".to_string(), ":stash".to_string()]);
}
