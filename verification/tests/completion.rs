use amp::completion::{
    accept, complete_insert, handle_key, Accepted, CompletionOrigin, CompletionState, InsertCompletion,
    KeyHandling,
};
use amp::input::Key;

fn values(state: &CompletionState) -> Vec<String> {
    state.entries.iter().map(|e| e.value.clone()).collect()
}

#[test]
fn buffer_words_are_sorted_and_distinct() {
    let st = CompletionState::from_buffer_words("help hello\nhelm he hel_x help", "hel", CompletionOrigin::BufferWords)
        .unwrap();
    assert_eq!(values(&st), vec!["hel_x", "hello", "helm", "help"]);
    assert_eq!(st.selected_index, 0);
    assert_eq!(st.prefix, "hel");
    assert!(st.entries.iter().all(|e| e.display == e.value));
}

#[test]
fn short_prefix_or_no_match_gives_nothing() {
    assert!(CompletionState::from_buffer_words("hello", "he", CompletionOrigin::BufferWords).is_none());
    assert!(CompletionState::from_buffer_words("hello", "xyz", CompletionOrigin::BufferWords).is_none());
    assert!(CompletionState::from_buffer_words("hello", "hello", CompletionOrigin::BufferWords).is_none());
}

#[test]
fn keys_move_and_close_the_popup() {
    let mut c = CompletionState::from_buffer_words("abcd abce abcf", "abc", CompletionOrigin::BufferWords);
    assert_eq!(handle_key(&mut c, Some(Key::Down)), KeyHandling::Consumed);
    assert_eq!(c.as_ref().unwrap().selected_index, 1);
    assert_eq!(handle_key(&mut c, Some(Key::Up)), KeyHandling::Consumed);
    assert_eq!(handle_key(&mut c, Some(Key::Up)), KeyHandling::Consumed);
    assert_eq!(c.as_ref().unwrap().selected_index, 2);
    assert_eq!(handle_key(&mut c, Some(Key::Tab)), KeyHandling::Consumed);
    assert_eq!(c.as_ref().unwrap().selected_index, 0);
    assert_eq!(handle_key(&mut c, Some(Key::Enter)), KeyHandling::Accept);
    assert!(c.is_some());
    assert_eq!(handle_key(&mut c, Some(Key::Char('x'))), KeyHandling::Passed);
    assert!(c.is_none());
    assert_eq!(handle_key(&mut c, Some(Key::Down)), KeyHandling::Passed);
}

#[test]
fn escape_cancels() {
    let mut c = CompletionState::from_buffer_words("abcd abce", "abc", CompletionOrigin::BufferWords);
    assert_eq!(handle_key(&mut c, Some(Key::Esc)), KeyHandling::Consumed);
    assert!(c.is_none());
}

#[test]
fn accepting_gives_the_rest_of_the_word() {
    let mut c = CompletionState::from_buffer_words("abcd abce", "abc", CompletionOrigin::BufferWords);
    handle_key(&mut c, Some(Key::Down));
    match accept(&mut c) {
        Some(Accepted::InsertText(s)) => assert_eq!(s, "e"),
        _ => panic!("expected text to insert"),
    }
    assert!(c.is_none());
    let mut ex = CompletionState::from_buffer_words("abcd abce", "abc", CompletionOrigin::ExInput);
    match accept(&mut ex) {
        Some(Accepted::ExWord(s)) => assert_eq!(s, "abcd"),
        _ => panic!("expected an ex word"),
    }
    assert!(accept(&mut None).is_none());
}

#[test]
fn insert_completion_of_a_single_candidate() {
    match complete_insert("unique_word\nuniq", 1, 4) {
        InsertCompletion::Insert(s) => assert_eq!(s, "ue_word"),
        _ => panic!("expected a direct insert"),
    }
}

#[test]
fn insert_completion_with_several_candidates_opens_a_popup() {
    match complete_insert("fooBar fooBaz\nfoo", 1, 3) {
        InsertCompletion::Popup(st) => {
            assert_eq!(values(&st), vec!["fooBar", "fooBaz"]);
            assert_eq!(st.origin, CompletionOrigin::BufferWords);
        }
        _ => panic!("expected a popup"),
    }
}

#[test]
fn insert_completion_needs_a_word_before_the_cursor() {
    assert!(matches!(complete_insert("abc def\n", 0, 4), InsertCompletion::Nothing));
    assert!(matches!(complete_insert("abc", 5, 0), InsertCompletion::Nothing));
    assert!(matches!(complete_insert("ab abx", 0, 2), InsertCompletion::Nothing));
}

#[test]
fn cycling_forth_and_back_returns() {
    let mut st = CompletionState::from_buffer_words("abcd abce abcf", "abc", CompletionOrigin::BufferWords).unwrap();
    for start in 0..3 {
        st.selected_index = start;
        st.select_next();
        st.select_previous();
        assert_eq!(st.selected_index, start);
        st.select_previous();
        st.select_next();
        assert_eq!(st.selected_index, start);
    }
    st.selected_index = 2;
    st.select_next();
    assert_eq!(st.selected_index, 0);
    st.select_previous();
    assert_eq!(st.selected_index, 2);
}

#[test]
fn accepted_text_is_recorded_unless_replaying() {
    assert_eq!(amp::completion::keys_to_record("lo", false), vec![Key::Char('l'), Key::Char('o')]);
    assert_eq!(amp::completion::keys_to_record("lo", true), vec![]);
}
