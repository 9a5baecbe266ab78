use amp::diff::{build_new_to_old_mapping, missing_old_lines_before};

#[test]
fn modified_line_gets_old_idx() {
    let old = vec!["line1", "old_line", "line3"];
    let new = vec!["line1", "new_line", "line3"];
    let m = build_new_to_old_mapping(&old, &new);
    assert_eq!(
        m[1],
        Some(1),
        "Modified line must map to old_idx so revert can look up old content"
    );
    assert_eq!(&old[m[1].unwrap()], &"old_line");
}

#[test]
fn all_modified_maps_each_line() {
    let old = vec!["a", "b", "c"];
    let new = vec!["x", "y", "z"];
    let m = build_new_to_old_mapping(&old, &new);
    assert_eq!(m, vec![Some(0), Some(1), Some(2)]);
}

#[test]
fn added_line_stays_none() {
    let old = vec!["a", "b"];
    let new = vec!["a", "NEW", "b"];
    let m = build_new_to_old_mapping(&old, &new);
    assert_eq!(m[1], None);
}

#[test]
fn mixed_modify_and_add_in_same_hunk() {
    let old = vec!["a", "b", "c"];
    let new = vec!["a", "X", "Y", "c"];
    let m = build_new_to_old_mapping(&old, &new);
    assert_eq!(m[1], Some(1), "X maps to old 'b' (Modified)");
    assert_eq!(m[2], None, "Y has no old counterpart (Added)");
}

#[test]
fn unchanged_file_maps_each_line_to_itself() {
    let lines = vec!["x", "y", "z"];
    let m = build_new_to_old_mapping(&lines, &lines);
    assert_eq!(m, vec![Some(0), Some(1), Some(2)]);
}

#[test]
fn deleted_line_leaves_gap_in_old_idx_sequence() {
    let old = vec!["a", "b", "c"];
    let new = vec!["a", "c"];
    let m = build_new_to_old_mapping(&old, &new);
    assert_eq!(m[0], Some(0));
    assert_eq!(m[1], Some(2));
}

#[test]
fn finds_single_deleted_line() {
    let old = vec!["a", "b", "c"];
    let mapping = vec![Some(0), Some(2)];
    let missing = missing_old_lines_before(1, &mapping, &old).unwrap();
    assert_eq!(missing, vec!["b"]);
}

#[test]
fn finds_multiple_consecutive_deleted_lines() {
    let old = vec!["a", "b", "c", "d"];
    let mapping = vec![Some(0), Some(3)];
    let missing = missing_old_lines_before(1, &mapping, &old).unwrap();
    assert_eq!(missing, vec!["b", "c"]);
}

#[test]
fn returns_none_when_no_gap() {
    let old = vec!["a", "b"];
    let mapping = vec![Some(0), Some(1)];
    assert!(missing_old_lines_before(1, &mapping, &old).is_none());
}

#[test]
fn missing_lines_at_the_start_of_the_file() {
    let old = vec!["gone", "kept"];
    let mapping = vec![Some(1)];
    let missing = missing_old_lines_before(0, &mapping, &old).unwrap();
    assert_eq!(missing, vec!["gone"]);
}

#[test]
fn unmapped_line_has_nothing_missing_before_it() {
    let old = vec!["a", "b", "c"];
    let mapping = vec![Some(0), None, Some(2)];
    assert!(missing_old_lines_before(1, &mapping, &old).is_none());
}
