use amp::popup::{popup_box_layout, which_key_layout};

fn pairs(items: &[(&str, &str)]) -> Vec<(String, String)> {
    items.iter().map(|(k, d)| (k.to_string(), d.to_string())).collect()
}

#[test]
fn which_key_sits_bottom_right() {
    assert!(which_key_layout(80, 24, &Vec::new()).is_none());
    let l = which_key_layout(80, 24, &pairs(&[("g", "\u{2026}"), ("x", "Move Up")])).unwrap();
    assert_eq!((l.key_w, l.box_w, l.box_h, l.row0, l.col0), (3, 30, 4, 19, 50));
    assert_eq!(l.keys, vec!["g".to_string(), "x".to_string()]);
    assert_eq!(l.lines, vec!["\u{2026}".to_string(), "Move Up".to_string()]);
}

#[test]
fn which_key_grows_with_its_content_and_keeps_ten_rows() {
    let long = "Delete Current Line \u{2192} Copy Remote Url";
    let mut items = vec![("ctrl-x", long)];
    for _ in 0..11 {
        items.push(("a", "b"));
    }
    let l = which_key_layout(40, 10, &pairs(&items)).unwrap();
    assert_eq!(l.keys.len(), 10);
    assert_eq!(l.key_w, 6);
    assert_eq!(l.box_w, 6 + long.chars().count() + 8);
    assert_eq!(l.box_h, 12);
    assert_eq!(l.row0, 0);
    assert_eq!(l.col0, 0);
}

#[test]
fn message_box_is_centred_and_cut() {
    assert!(popup_box_layout(80, 24, 72, "", &Vec::new()).is_none());
    let only_title = popup_box_layout(80, 24, 72, "Error", &Vec::new()).unwrap();
    assert_eq!((only_title.box_h, only_title.lines.len()), (2, 0));
    let l = popup_box_layout(80, 24, 72, "Error", &vec!["a".to_string(), "b".to_string()]).unwrap();
    assert_eq!((l.box_w, l.box_h, l.row0, l.col0), (72, 4, 19, 4));
    let many: Vec<String> = (0..10).map(|i| format!("line{}  ", i)).collect();
    let l = popup_box_layout(80, 24, 72, "", &many).unwrap();
    assert_eq!(l.lines.len(), 8);
    assert_eq!(l.lines[7], "line7\u{2026}");
    assert_eq!(l.lines[0], "line0  ");
    let l = popup_box_layout(80, 24, 20, "t", &vec!["x".repeat(20)]).unwrap();
    assert_eq!(l.lines[0], format!("{}\u{2026}", "x".repeat(13)));
}

#[test]
fn file_picker_keeps_the_selection_in_view() {
    assert_eq!(amp::popup::file_picker_scroll(3, 5), 3);
    assert_eq!(amp::popup::file_picker_scroll(20, 5), 9);
    assert_eq!(amp::popup::file_picker_scroll(16, 5), 5);
    assert_eq!(amp::popup::file_picker_frame(100, 40, 60), (12, 20, 15));
    assert_eq!(amp::popup::file_picker_frame(10, 5, 40), (0, 0, 15));
}
