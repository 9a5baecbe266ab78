use amp::github::{get_gh_path, github_url};

#[test]
fn test_get_gh_path() {
    let cases = [
        ("git@github.com:jmacdonald/amp.git", "jmacdonald/amp"),
        ("https://github.com/jmacdonald/amp.git", "jmacdonald/amp"),
        ("https://github.com/jmacdonald/amp", "jmacdonald/amp"),
    ];

    cases.iter().for_each(|(url, expected_gh_path)| {
        assert_eq!(&get_gh_path(url).unwrap(), expected_gh_path)
    })
}

#[test]
fn non_github_remotes_have_no_path() {
    assert_eq!(get_gh_path("https://gitlab.com/a/b.git"), None);
}

#[test]
fn blob_links_with_line_anchors() {
    assert_eq!(
        github_url("jmacdonald/amp", "abc123", "src/main.rs", None),
        "https://github.com/jmacdonald/amp/blob/abc123/src/main.rs"
    );
    assert_eq!(
        github_url("o/r", "1f", "a.rs", Some((9, 2))),
        "https://github.com/o/r/blob/1f/a.rs#L3-L10"
    );
    assert_eq!(github_url("o/r", "1f", "a.rs", Some((4, 4))), "https://github.com/o/r/blob/1f/a.rs#L5");
}
