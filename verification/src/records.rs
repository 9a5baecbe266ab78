//! Plain records that the editor passes around: repeatable actions, pending `sed`
//! changes, status-line pieces, and what the tag daemon answers.
use vstd::prelude::*;

verus! {

/// An editing action that `.` can repeat.
#[derive(Clone, Copy, Debug, PartialEq, Eq, Structural)]
pub enum RepeatableAction {
    DeleteCurrentLine,
    DeleteToken,
    DeleteRestOfLine,
    DeleteAroundFunction,
    ChangeCurrentLine,
    ChangeToken,
    ChangeRestOfLine,
    Paste,
    PasteAbove,
    IndentLine,
    OutdentLine,
    ToggleLineComment,
    MergeNextLine,
    /// Plain insert mode (i, a, o, etc.)
    InsertModeEntry,
}

/// One match of a `:sed` substitution, waiting to be confirmed and applied.
#[derive(Clone, Debug)]
pub struct SedChange {
    pub file: String,
    pub byte_start: usize,
    pub byte_end: usize,
    pub line: usize,
    pub column: usize,
    pub old_text: String,
    pub new_text: String,
    pub confirmed: bool,
    pub context_line: String,
    pub word_boundary: bool,
}

/// Where a status-line piece sits.
#[derive(Clone, Copy, Debug, PartialEq, Eq, Structural)]
pub enum Alignment {
    Left,
    Expand,
    Right,
}

impl Default for Alignment {
    fn default() -> (r: Self)
        ensures
            r == Alignment::Left,
    {
        Alignment::Left
    }
}

/// Whether a status-line piece asks for attention.
#[derive(Clone, Copy, Debug, PartialEq, Eq, Structural)]
pub enum StatusColors {
    Focused,
    Warning,
}

/// A piece of the status line.
#[derive(Clone, Debug)]
pub struct StatusLineData {
    pub content: String,
    pub colors: StatusColors,
    pub alignment: Alignment,
}

/// Where the tag daemon says a symbol is defined.
#[derive(Clone, Debug)]
pub struct DefinitionResult {
    pub file: String,
    pub line: usize,
    pub column: usize,
    pub display: Option<String>,
}

/// A symbol of the workspace, as the tag daemon lists it.
#[derive(Clone, Debug)]
pub struct SymbolResult {
    pub name: String,
    pub kind: Option<String>,
    pub relative_path: String,
    pub line: usize,
}

} // verus!
