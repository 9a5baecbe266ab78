use amp::diff::GitGutterStatus::{Added, Deleted, Modified, Unchanged};
use amp::records::{Alignment, StatusColors};
use amp::status_line::{
    filename_line_data, git_branch_line_data, modified_status_line_data, presentable_status_short, standard_status_line,
    FileStatus,
};

fn status(wt_new: bool, index_new: bool, wt_modified: bool, index_modified: bool) -> FileStatus {
    FileStatus { wt_new, index_new, wt_modified, index_modified }
}

#[test]
fn short_status_words() {
    assert_eq!(presentable_status_short(&status(true, false, false, false)), "new");
    assert_eq!(presentable_status_short(&status(true, true, false, false)), "partial");
    assert_eq!(presentable_status_short(&status(false, true, false, false)), "staged");
    assert_eq!(presentable_status_short(&status(false, false, true, false)), "mod");
    assert_eq!(presentable_status_short(&status(false, false, true, true)), "partial");
    assert_eq!(presentable_status_short(&status(false, false, false, true)), "staged");
    assert_eq!(presentable_status_short(&status(false, false, false, false)), "ok");
}

#[test]
fn counts_of_changed_lines() {
    let gutter = [Added, Added, Modified, Deleted, Unchanged];
    let d = modified_status_line_data(false, Some(status(false, false, true, false)), Some(&gutter));
    assert_eq!(d.content, " [+2 ~1 -1] ");
    assert_eq!(d.colors, StatusColors::Warning);
    assert_eq!(d.alignment, Alignment::Right);
}

#[test]
fn unsaved_edits_without_gutter_changes() {
    let d = modified_status_line_data(true, Some(status(false, false, false, false)), None);
    assert_eq!(d.content, " [+mod] ");
    assert_eq!(d.colors, StatusColors::Warning);
}

#[test]
fn clean_file_shows_its_status_word() {
    let d = modified_status_line_data(false, Some(status(false, false, false, false)), Some(&[Unchanged]));
    assert_eq!(d.content, " [ok] ");
    assert_eq!(d.colors, StatusColors::Focused);
}

#[test]
fn untracked_file_with_unsaved_edits() {
    let d = modified_status_line_data(true, Some(status(true, false, false, false)), None);
    assert_eq!(d.content, " [new*] ");
    assert_eq!(d.colors, StatusColors::Warning);
}

#[test]
fn no_repository_status_shows_nothing() {
    let d = modified_status_line_data(false, None, None);
    assert_eq!(d.content, "");
    assert_eq!(d.colors, StatusColors::Focused);
}

#[test]
fn status_line_pieces() {
    let branch = git_branch_line_data(Some("main"));
    assert_eq!(branch.content, " \u{2387}  main ");
    assert_eq!(git_branch_line_data(None).content, "");
    let file = filename_line_data(Some("src/lib.rs"));
    assert_eq!(file.content, "  src/lib.rs ");
    assert_eq!(file.alignment, Alignment::Expand);
    assert_eq!(filename_line_data(None).content, "");
    let line = standard_status_line("NORMAL", StatusColors::Warning, Some("dev"), Some("a.rs"), true, None, None);
    assert_eq!(line.len(), 4);
    assert_eq!(line[0].content, " NORMAL ");
    assert_eq!(line[0].colors, StatusColors::Warning);
    assert_eq!(line[1].content, " \u{2387}  dev ");
    assert_eq!(line[2].content, "  a.rs ");
    assert_eq!(line[3].content, " [+mod] ");
}
