use amp::diff::{compute_line_statuses, GitGutterStatus};

#[test]
fn empty_old_file_marks_all_lines_as_added() {
    let statuses = compute_line_statuses("", "line1\nline2\n");
    assert_eq!(
        statuses,
        vec![GitGutterStatus::Added, GitGutterStatus::Added]
    );
}

#[test]
fn identical_content_marks_all_lines_as_unchanged() {
    let content = "line1\nline2\nline3\n";
    let statuses = compute_line_statuses(content, content);
    assert_eq!(
        statuses,
        vec![
            GitGutterStatus::Unchanged,
            GitGutterStatus::Unchanged,
            GitGutterStatus::Unchanged,
        ]
    );
}

#[test]
fn added_lines_are_detected() {
    let old = "line1\nline3\n";
    let new = "line1\nline2\nline3\n";
    let statuses = compute_line_statuses(old, new);
    assert_eq!(
        statuses,
        vec![
            GitGutterStatus::Unchanged,
            GitGutterStatus::Added,
            GitGutterStatus::Unchanged,
        ]
    );
}

#[test]
fn deleted_lines_are_marked_on_adjacent_line() {
    let old = "line1\nline2\nline3\n";
    let new = "line1\nline3\n";
    let statuses = compute_line_statuses(old, new);
    assert_eq!(
        statuses,
        vec![GitGutterStatus::Unchanged, GitGutterStatus::Deleted,]
    );
}

#[test]
fn modified_lines_are_detected() {
    let old = "line1\nold_line\nline3\n";
    let new = "line1\nnew_line\nline3\n";
    let statuses = compute_line_statuses(old, new);
    assert_eq!(
        statuses,
        vec![
            GitGutterStatus::Unchanged,
            GitGutterStatus::Modified,
            GitGutterStatus::Unchanged,
        ]
    );
}

#[test]
fn multiple_modifications_in_sequence() {
    let old = "a\nb\nc\n";
    let new = "x\ny\nz\n";
    let statuses = compute_line_statuses(old, new);
    assert_eq!(
        statuses,
        vec![
            GitGutterStatus::Modified,
            GitGutterStatus::Modified,
            GitGutterStatus::Modified,
        ]
    );
}

#[test]
fn mixed_changes_are_detected() {
    let old = "line1\nline2\nline3\nline5\n";
    let new = "line1\nline2\nline4\nline5\nline6\n";
    let statuses = compute_line_statuses(old, new);
    assert_eq!(
        statuses,
        vec![
            GitGutterStatus::Unchanged,
            GitGutterStatus::Unchanged,
            GitGutterStatus::Modified,
            GitGutterStatus::Unchanged,
            GitGutterStatus::Added,
        ]
    );
}

#[test]
fn empty_new_file_has_no_statuses() {
    assert_eq!(compute_line_statuses("a\nb\n", ""), Vec::<GitGutterStatus>::new());
}

#[test]
fn text_without_final_newline_counts_its_last_line() {
    let statuses = compute_line_statuses("a\nb", "a\nb");
    assert_eq!(statuses, vec![GitGutterStatus::Unchanged, GitGutterStatus::Unchanged]);
}
