use amp::git_status::{stash_action_args, stash_push_args, StashAction};
use amp::ex_mode::ExMode;
use amp::git_status::{
    current_section, extract_file_path, extract_stash_ref, line_of_path, prompt_stash,
    status_buffer_content, status_target, GitStatusError, Section, StatusTarget,
};

fn sep() -> String {
    format!("  {}", "\u{2500}".repeat(40))
}

fn sample() -> String {
    status_buffer_content(
        " M src/a.rs\nA  b.rs\n?? new.txt\nR  old.rs -> renamed.rs\n",
        "* main 2 hours ago\n  feature 3 days ago\n",
        "stash@{0}: WIP on main: abc\n",
        None,
    )
}

fn joined(lines: &[&str]) -> String {
    let s = sep();
    lines.iter().map(|l| if *l == "SEP" { format!("{}\n", s) } else { format!("{}\n", l) }).collect()
}

#[test]
fn status_buffer_lists_every_section() {
    let expected = joined(&[
        "  Stage Changes (2)",
        "SEP",
        "    A  b.rs",
        "    R  old.rs -> renamed.rs",
        "",
        "  Unstage Changes (1)",
        "SEP",
        "     M src/a.rs",
        "",
        "  Untracked Files (1)",
        "SEP",
        "    new.txt",
        "",
        "  ------ Branch ------",
        "SEP",
        "    * main 2 hours ago",
        "      feature 3 days ago",
        "",
        "  ------ Stash ------",
        "SEP",
        "    stash@{0}: WIP on main: abc",
        "",
        "SEP",
        "  [s] Toggle staged  [Enter] Open file  [z] stash  [q] Close",
    ]);
    assert_eq!(sample(), expected);
}

#[test]
fn clean_tree_and_pending_stash() {
    let text = status_buffer_content("", "", "", Some("stash@{1}"));
    let expected = joined(&[
        "  Stage Changes (0)",
        "SEP",
        "    (none)",
        "",
        "  Unstage Changes (0)",
        "SEP",
        "    (none)",
        "",
        "  Untracked Files (0)",
        "SEP",
        "    (none)",
        "",
        "  Nothing to commit, working tree clean",
        "",
        "  ------ Branch ------",
        "SEP",
        "",
        "  ------ Stash ------",
        "SEP",
        "    (none)",
        "",
        "SEP",
        "  stash@{1} (p)pop (d)drop (a)apply (other)dismiss",
    ]);
    assert_eq!(text, expected);
}

#[test]
fn file_paths_of_status_lines() {
    assert_eq!(extract_file_path("     M src/a.rs"), Some("src/a.rs".to_string()));
    assert_eq!(extract_file_path("    R  old.rs -> renamed.rs"), Some("renamed.rs".to_string()));
    assert_eq!(extract_file_path("    new.txt"), Some("new.txt".to_string()));
    assert_eq!(extract_file_path("    (none)"), None);
    assert_eq!(extract_file_path("  Stage Changes (2)"), None);
    assert_eq!(extract_file_path("    * main 2 hours ago"), None);
    assert_eq!(extract_file_path("    stash@{0}: WIP"), None);
    assert_eq!(extract_file_path(""), None);
}

#[test]
fn stash_refs() {
    assert_eq!(extract_stash_ref("    stash@{0}: WIP on main"), Some("stash@{0}".to_string()));
    assert_eq!(extract_stash_ref("    stash@{3}"), Some("stash@{3}".to_string()));
    assert_eq!(extract_stash_ref("    new.txt"), None);
}

#[test]
fn sections_and_targets() {
    let text = sample();
    assert_eq!(current_section(&text, 2), Some(Section::Staged));
    assert_eq!(current_section(&text, 7), Some(Section::Unstaged));
    assert_eq!(current_section(&text, 11), Some(Section::Untracked));
    assert_eq!(current_section(&text, 16), Some(Section::Info));
    assert_eq!(current_section(&text, 21), Some(Section::Stash));
    assert_eq!(
        status_target(&text, 2, false),
        Ok(StatusTarget::File("b.rs".to_string(), Some(Section::Staged)))
    );
    assert_eq!(
        status_target(&text, 20, true),
        Ok(StatusTarget::Stash("stash@{0}".to_string()))
    );
    assert_eq!(status_target(&text, 16, false), Err(GitStatusError::NoFileOnLine));
    assert_eq!(status_target(&text, 0, false), Err(GitStatusError::NoFilePath));
    assert_eq!(status_target(&text, 500, false), Err(GitStatusError::NoLine));
}

#[test]
fn line_of_a_path() {
    let text = sample();
    assert_eq!(line_of_path(&text, "src/a.rs"), Some(7));
    assert_eq!(line_of_path(&text, "missing.rs"), None);
}

#[test]
fn stash_prompt_fills_the_command_line() {
    let mut mode = ExMode::new();
    prompt_stash(&mut mode);
    assert_eq!(mode.input, ":stash ");
}

#[test]
fn stash_commands() {
    assert_eq!(stash_push_args(""), vec!["stash", "push"]);
    assert_eq!(stash_push_args("wip"), vec!["stash", "push", "-m", "wip"]);
    assert_eq!(stash_action_args(StashAction::Drop, "stash@{2}"), vec!["stash", "drop", "stash@{2}"]);
}
