//! Repeating the last change (`.`): the command that made it, then, for a change that
//! ended in insert mode, the keys typed there, replayed.
use vstd::prelude::*;
use crate::input::Key;

verus! {

/// A change that can be repeated.
#[derive(Debug, Clone, Copy, PartialEq, Eq, Structural)]
pub enum RepeatableAction {
    DeleteCurrentLine,
    DeleteToken,
    DeleteRestOfLine,
    DeleteAroundFunction,
    ChangeCurrentLine,
    ChangeToken,
    ChangeRestOfLine,
    Paste,
    PasteAbove,
    IndentLine,
    OutdentLine,
    ToggleLineComment,
    MergeNextLine,
    /// Plain entry into insert mode (`i`, `a`, `o` and the like).
    InsertModeEntry,
}

/// One command that repeating a change runs, in order.
#[derive(Debug, Clone, Copy, PartialEq, Eq, Structural)]
pub enum RepeatStep {
    /// The command that made the change.
    Run(RepeatableAction),
    /// Insert a typed character.
    InsertChar(char),
    Backspace,
    Delete,
    InsertNewline,
    InsertTab,
    /// Leave insert mode once the keys have been replayed.
    SwitchToNormalMode,
}

/// Why there was nothing to repeat.
#[derive(Debug, Clone, Copy, PartialEq, Eq, Structural)]
pub enum RepeatError {
    /// No change has been made yet.
    NoChangeToRepeat,
}

/// Changes that end in insert mode, whose typed keys are replayed.
pub open spec fn ends_in_insert(a: RepeatableAction) -> bool {
    match a {
        RepeatableAction::ChangeCurrentLine | RepeatableAction::ChangeToken | RepeatableAction::ChangeRestOfLine
        | RepeatableAction::InsertModeEntry => true,
        _ => false,
    }
}

/// What a key typed in insert mode replays as; keys other than characters, backspace,
/// delete, enter and tab replay as nothing.
pub open spec fn replayed(k: Key) -> Seq<RepeatStep> {
    match k {
        Key::Char(c) => seq![RepeatStep::InsertChar(c)],
        Key::Backspace => seq![RepeatStep::Backspace],
        Key::Delete => seq![RepeatStep::Delete],
        Key::Enter => seq![RepeatStep::InsertNewline],
        Key::Tab => seq![RepeatStep::InsertTab],
        _ => Seq::empty(),
    }
}

/// The replay of the keys typed, in order.
pub open spec fn replay_of(keys: Seq<Key>) -> Seq<RepeatStep>
    decreases keys.len(),
{
    if keys.len() == 0 {
        Seq::empty()
    } else {
        replay_of(keys.drop_last()) + replayed(keys.last())
    }
}

/// The commands that repeat change `a`, after which `keys` were typed: the change
/// itself, then, when it ended in insert mode and keys were typed, their replay and the
/// return to normal mode.
pub open spec fn repeat_plan(a: RepeatableAction, keys: Seq<Key>) -> Seq<RepeatStep> {
    if ends_in_insert(a) && keys.len() > 0 {
        seq![RepeatStep::Run(a)] + replay_of(keys) + seq![RepeatStep::SwitchToNormalMode]
    } else {
        seq![RepeatStep::Run(a)]
    }
}

/// Whether a change ends in insert mode.
pub fn is_change_action(a: RepeatableAction) -> (r: bool)
    ensures
        r == ends_in_insert(a),
{
    match a {
        RepeatableAction::ChangeCurrentLine | RepeatableAction::ChangeToken | RepeatableAction::ChangeRestOfLine
        | RepeatableAction::InsertModeEntry => true,
        _ => false,
    }
}

/// The commands that repeat the last change, given the keys typed after it; an error
/// when no change has been made.
pub fn repeat_last_change(last_action: Option<RepeatableAction>, keys: &Vec<Key>) -> (r: Result<Vec<RepeatStep>, RepeatError>)
    ensures
        match last_action {
            None => r == Err::<Vec<RepeatStep>, RepeatError>(RepeatError::NoChangeToRepeat),
            Some(a) => r matches Ok(steps) && steps@ == repeat_plan(a, keys@),
        },
{
    let a = match last_action {
        None => return Err(RepeatError::NoChangeToRepeat),
        Some(a) => a,
    };
    let mut steps: Vec<RepeatStep> = Vec::new();
    steps.push(RepeatStep::Run(a));
    if is_change_action(a) && keys.len() > 0 {
        let mut i: usize = 0;
        while i < keys.len()
            invariant
                i <= keys@.len(),
                steps@ == seq![RepeatStep::Run(a)] + replay_of(keys@.take(i as int)),
            decreases keys@.len() - i,
        {
            assert(keys@.take(i + 1).drop_last() =~= keys@.take(i as int));
            let ghost before = steps@;
            match keys[i] {
                Key::Char(c) => steps.push(RepeatStep::InsertChar(c)),
                Key::Backspace => steps.push(RepeatStep::Backspace),
                Key::Delete => steps.push(RepeatStep::Delete),
                Key::Enter => steps.push(RepeatStep::InsertNewline),
                Key::Tab => steps.push(RepeatStep::InsertTab),
                _ => {},
            }
            assert(steps@ =~= before + replayed(keys@[i as int]));
            i = i + 1;
        }
        assert(keys@.take(keys@.len() as int) =~= keys@);
        steps.push(RepeatStep::SwitchToNormalMode);
    }
    Ok(steps)
}

} // verus!
