use amp::input::Key;
use amp::repeat::{is_change_action, repeat_last_change, RepeatError, RepeatStep, RepeatableAction};

#[test]
fn nothing_to_repeat() {
    assert_eq!(repeat_last_change(None, &vec![Key::Char('a')]), Err(RepeatError::NoChangeToRepeat));
}

#[test]
fn deletions_repeat_alone() {
    assert_eq!(
        repeat_last_change(Some(RepeatableAction::DeleteCurrentLine), &vec![Key::Char('x')]),
        Ok(vec![RepeatStep::Run(RepeatableAction::DeleteCurrentLine)])
    );
    assert!(!is_change_action(RepeatableAction::Paste));
}

#[test]
fn changes_replay_the_typed_keys() {
    let keys = vec![Key::Char('h'), Key::Char('i'), Key::Backspace, Key::Left, Key::Enter, Key::Tab, Key::Delete];
    assert_eq!(
        repeat_last_change(Some(RepeatableAction::ChangeToken), &keys),
        Ok(vec![
            RepeatStep::Run(RepeatableAction::ChangeToken),
            RepeatStep::InsertChar('h'),
            RepeatStep::InsertChar('i'),
            RepeatStep::Backspace,
            RepeatStep::InsertNewline,
            RepeatStep::InsertTab,
            RepeatStep::Delete,
            RepeatStep::SwitchToNormalMode,
        ])
    );
}

#[test]
fn insert_entry_without_keys_only_enters_insert_mode() {
    assert_eq!(
        repeat_last_change(Some(RepeatableAction::InsertModeEntry), &vec![]),
        Ok(vec![RepeatStep::Run(RepeatableAction::InsertModeEntry)])
    );
}
