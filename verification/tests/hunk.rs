use amp::hunk::{line_deletion, line_length};
use amp::modes::Position;
use amp::diff::GitGutterStatus::{self, Added, Deleted, Modified, Unchanged};
use amp::hunk::{hunk_at, next_hunk_line, pad_statuses, previous_hunk_line, revert_plan, RevertEdit};

fn statuses() -> Vec<GitGutterStatus> {
    vec![Unchanged, Added, Modified, Unchanged, Unchanged, Deleted, Unchanged]
}

#[test]
fn hunk_around_the_cursor() {
    let st = statuses();
    assert_eq!(hunk_at(&st, 1), Some((1, 2)));
    assert_eq!(hunk_at(&st, 2), Some((1, 2)));
    assert_eq!(hunk_at(&st, 5), Some((5, 5)));
    assert_eq!(hunk_at(&st, 0), None);
    assert_eq!(hunk_at(&st, 10), None);
}

#[test]
fn next_hunk_skips_the_current_one() {
    let st = statuses();
    assert_eq!(next_hunk_line(&st, 0), Some(1));
    assert_eq!(next_hunk_line(&st, 1), Some(5));
    assert_eq!(next_hunk_line(&st, 5), None);
}

#[test]
fn previous_hunk_goes_to_its_start() {
    let st = statuses();
    assert_eq!(previous_hunk_line(&st, 6), Some(5));
    assert_eq!(previous_hunk_line(&st, 5), Some(1));
    assert_eq!(previous_hunk_line(&st, 3), Some(1));
    assert_eq!(previous_hunk_line(&st, 2), None);
}

#[test]
fn padding_adds_unchanged_lines() {
    assert_eq!(pad_statuses(vec![Added], 3), vec![Added, Unchanged, Unchanged]);
    assert_eq!(pad_statuses(vec![Added, Deleted], 1), vec![Added, Deleted]);
}

#[test]
fn revert_plan_works_bottom_up() {
    let st = vec![Unchanged, Modified, Added, Deleted, Unchanged];
    let mapping = vec![Some(0), Some(1), None, Some(4), Some(5)];
    let old = vec!["a", "b", "q1", "q2", "d", "e"];
    let plan = revert_plan(&st, &mapping, &old, 1, 3);
    assert_eq!(
        plan,
        vec![
            RevertEdit::InsertLineBefore(3, "q2"),
            RevertEdit::InsertLineBefore(3, "q1"),
            RevertEdit::DeleteLine(2),
            RevertEdit::ReplaceLine(1, "b"),
        ]
    );
    assert_eq!(revert_plan(&st, &mapping, &old, 3, 1), Vec::<RevertEdit>::new());
}

#[test]
fn deleting_a_line_takes_its_line_break() {
    let p = |line: usize, offset: usize| Position { line, offset };
    assert_eq!(line_deletion("line0\nline1\nline2\n", 1), Some((p(1, 0), p(2, 0))));
    assert_eq!(line_deletion("a\nlast", 1), Some((p(1, 0), p(1, 4))));
    assert_eq!(line_deletion("a\n", 3), None);
}

#[test]
fn line_lengths_in_characters() {
    assert_eq!(line_length("héllo\nx", 0), 5);
    assert_eq!(line_length("héllo\nx", 9), 0);
}

#[test]
fn next_then_previous_hunk_returns() {
    let st = vec![Added, Unchanged, Modified, Modified, Unchanged, Unchanged, Deleted];
    for start in [0usize, 2] {
        let n = next_hunk_line(&st, start).unwrap();
        assert_eq!(previous_hunk_line(&st, n), Some(start));
    }
}

#[test]
fn modified_line_without_index_copy_is_deleted() {
    // Index "a b c", buffer "a X Y c": the hunk X, Y goes back to "b".
    let old = vec!["a", "b", "c"];
    let new = vec!["a", "X", "Y", "c"];
    let st = amp::diff::compute_line_statuses("a\nb\nc\n", "a\nX\nY\nc\n");
    let mapping = amp::diff::build_new_to_old_mapping(&old, &new);
    let (s, e) = hunk_at(&st, 1).unwrap();
    let plan = revert_plan(&st, &mapping, &old, s, e);
    let mut lines: Vec<String> = new.iter().map(|l| l.to_string()).collect();
    for edit in &plan {
        match edit {
            RevertEdit::DeleteLine(l) => {
                lines.remove(*l);
            }
            RevertEdit::ReplaceLine(l, t) => lines[*l] = t.to_string(),
            RevertEdit::InsertLineBefore(l, t) => lines.insert(*l, t.to_string()),
        }
    }
    assert_eq!(lines, vec!["a", "b", "c"]);
}
