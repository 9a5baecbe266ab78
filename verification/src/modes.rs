//! The editor's mode keys, the small pending modes that wait for a second key, and the
//! block (column) selection and insertion modes.
use vstd::prelude::*;
use crate::input::Key;

verus! {

#[derive(Clone, Copy, Debug, PartialEq, Eq, Hash, Structural)]
pub enum ModeKey {
    Command,
    Confirm,
    Exit,
    Fd,
    FilePicker,
    Insert,
    Jump,
    LineJump,
    Normal,
    BufferList,
    Open,
    Ex,
    Paste,
    Path,
    PendingChange,
    PendingDelete,
    PendingLeftBracket,
    PendingRightBracket,
    PendingYank,
    PendingG,
    Leader,
    Search,
    Select,
    SelectLine,
    SymbolJump,
    TagJump,
    Syntax,
    Theme,
    MRU,
    SelectBlock,
    BlockInsert,
}

/// Waiting for the key after `g`.
pub struct PendingGMode;

impl PendingGMode {
    pub fn new() -> PendingGMode {
        PendingGMode
    }

    /// The status-line label.
    pub fn label(&self) -> (r: &'static str)
        ensures
            r@ == "GO"@,
    {
        "GO"
    }
}

/// Collecting the keys of a leader sequence.
pub struct PendingLeaderMode {
    pub keys: Vec<Key>,
}

impl PendingLeaderMode {
    pub fn new() -> (m: Self)
        ensures
            m.keys@.len() == 0,
    {
        PendingLeaderMode { keys: Vec::new() }
    }

    pub fn reset(&mut self)
        ensures
            final(self).keys@.len() == 0,
    {
        self.keys.clear();
    }

    pub fn label(&self) -> (r: &'static str)
        ensures
            r@ == "LEADER"@,
    {
        "LEADER"
    }
}

/// Waiting for the motion of a change.
pub struct PendingChangeMode;

impl PendingChangeMode {
    pub fn new() -> PendingChangeMode {
        PendingChangeMode
    }

    pub fn label(&self) -> (r: &'static str)
        ensures
            r@ == "CHANGE"@,
    {
        "CHANGE"
    }
}

/// Collecting the keys of a delete sequence.
pub struct PendingDeleteMode {
    pub keys: Vec<Key>,
}

impl PendingDeleteMode {
    pub fn new() -> (m: PendingDeleteMode)
        ensures
            m.keys@.len() == 0,
    {
        PendingDeleteMode { keys: Vec::new() }
    }

    pub fn reset(&mut self)
        ensures
            final(self).keys@.len() == 0,
    {
        self.keys.clear();
    }

    pub fn label(&self) -> (r: &'static str)
        ensures
            r@ == "DELETE"@,
    {
        "DELETE"
    }
}

/// Waiting for the key after `[`.
pub struct PendingLeftBracketMode;

impl PendingLeftBracketMode {
    pub fn new() -> PendingLeftBracketMode {
        PendingLeftBracketMode
    }

    pub fn label(&self) -> (r: &'static str)
        ensures
            r@ == "["@,
    {
        "["
    }
}

/// Waiting for the key after `]`.
pub struct PendingRightBracketMode;

impl PendingRightBracketMode {
    pub fn new() -> PendingRightBracketMode {
        PendingRightBracketMode
    }

    pub fn label(&self) -> (r: &'static str)
        ensures
            r@ == "]"@,
    {
        "]"
    }
}

/// Waiting for the motion of a yank.
pub struct PendingYankMode;

impl PendingYankMode {
    pub fn new() -> PendingYankMode {
        PendingYankMode
    }

    pub fn label(&self) -> (r: &'static str)
        ensures
            r@ == "YANK"@,
    {
        "YANK"
    }
}

/// A place in a buffer: a line and a character offset in it.
#[derive(Clone, Copy, Debug, PartialEq, Eq, Structural)]
pub struct Position {
    pub line: usize,
    pub offset: usize,
}

/// A stretch of a buffer from `start` up to, not including, `end`.
#[derive(Clone, Copy, Debug, PartialEq, Eq, Structural)]
pub struct Range {
    start: Position,
    end: Position,
}

/// Whether `a` comes before `b`.
pub open spec fn before(a: Position, b: Position) -> bool {
    a.line < b.line || (a.line == b.line && a.offset < b.offset)
}

impl Range {
    /// The range between two positions, whichever comes first.
    pub fn new(a: Position, b: Position) -> (r: Range)
        ensures
            before(b, a) ==> r.start() == b && r.end() == a,
            !before(b, a) ==> r.start() == a && r.end() == b,
    {
        if b.line < a.line || (b.line == a.line && b.offset < a.offset) {
            Range { start: b, end: a }
        } else {
            Range { start: a, end: b }
        }
    }

    pub closed spec fn start(&self) -> Position {
        self.start
    }

    pub closed spec fn end(&self) -> Position {
        self.end
    }

    pub fn start_position(&self) -> (p: Position)
        ensures
            p == self.start(),
    {
        self.start
    }

    pub fn end_position(&self) -> (p: Position)
        ensures
            p == self.end(),
    {
        self.end
    }
}

/// One range per line from `first` to `last`, each from column `left` up to, not
/// including, column `right`.
pub open spec fn column_ranges(r: Seq<Range>, first: int, last: int, left: int, right: int) -> bool {
    &&& r.len() == last - first + 1
    &&& forall|i: int|
        0 <= i < r.len() ==> (#[trigger] r[i]).start() == Position {
            line: (first + i) as usize,
            offset: left as usize,
        } && r[i].end() == Position { line: (first + i) as usize, offset: right as usize }
}

fn block_ranges(first: usize, last: usize, left: usize, right: usize) -> (r: Vec<Range>)
    requires
        first <= last < usize::MAX,
        left <= right,
    ensures
        column_ranges(r@, first as int, last as int, left as int, right as int),
{
    let mut r: Vec<Range> = Vec::new();
    let mut line = first;
    while line <= last
        invariant
            first <= line <= last + 1,
            last < usize::MAX,
            left <= right,
            column_ranges(r@, first as int, line - 1, left as int, right as int),
        decreases last + 1 - line,
    {
        r.push(Range::new(Position { line, offset: left }, Position { line, offset: right }));
        line = line + 1;
    }
    r
}

/// Selecting a rectangle between an anchor and the cursor.
pub struct SelectBlockMode {
    pub anchor: Position,
}

impl SelectBlockMode {
    pub fn new(anchor: Position) -> (m: SelectBlockMode)
        ensures
            m.anchor == anchor,
    {
        SelectBlockMode { anchor }
    }

    pub fn reset(&mut self, anchor: Position)
        ensures
            final(self).anchor == anchor,
    {
        self.anchor = anchor;
    }

    /// One range per line of the rectangle, each including the rectangle's last column.
    pub fn to_ranges(&self, cursor: &Position) -> (r: Vec<Range>)
        requires
            self.anchor.offset < usize::MAX,
            cursor.offset < usize::MAX,
            self.anchor.line < usize::MAX,
            cursor.line < usize::MAX,
        ensures
            ({
                let (a, c) = (self.anchor, *cursor);
                column_ranges(
                    r@,
                    if a.line <= c.line { a.line as int } else { c.line as int },
                    if a.line <= c.line { c.line as int } else { a.line as int },
                    if a.offset <= c.offset { a.offset as int } else { c.offset as int },
                    if a.offset <= c.offset { c.offset + 1 } else { a.offset + 1 },
                )
            }),
    {
        let min_line = if self.anchor.line <= cursor.line { self.anchor.line } else { cursor.line };
        let max_line = if self.anchor.line <= cursor.line { cursor.line } else { self.anchor.line };
        let min_offset = if self.anchor.offset <= cursor.offset { self.anchor.offset } else { cursor.offset };
        // Always +1: Range is exclusive on the right, so we need max+1
        // to include the character at max_offset on every line uniformly.
        let end_offset = if self.anchor.offset <= cursor.offset { cursor.offset } else { self.anchor.offset } + 1;
        block_ranges(min_line, max_line, min_offset, end_offset)
    }

    pub fn label(&self) -> (r: &'static str)
        ensures
            r@ == "BLOCK"@,
    {
        "BLOCK"
    }
}

#[derive(Clone, Copy, Debug, PartialEq, Eq, Structural)]
pub enum BlockInsertType {
    Insert,
    Append,
}

/// Typing into every line of a rectangle at once.
pub struct BlockInsertMode {
    pub start_line: usize,
    pub end_line: usize,
    pub left_column: usize,
    pub right_column: usize,
    pub insert_column: usize,
    pub insert_type: BlockInsertType,
    pub typed_text: String,
}

impl BlockInsertMode {
    pub fn new() -> (m: BlockInsertMode)
        ensures
            m.start_line == 0 && m.end_line == 0 && m.left_column == 0 && m.right_column == 0,
            m.insert_column == 0,
            m.insert_type == BlockInsertType::Insert,
            m.typed_text@.len() == 0,
    {
        BlockInsertMode {
            start_line: 0,
            end_line: 0,
            left_column: 0,
            right_column: 0,
            insert_column: 0,
            insert_type: BlockInsertType::Insert,
            typed_text: String::new(),
        }
    }

    /// Spans the rectangle between `anchor` and `cursor`; text goes in before its left
    /// column, or after its right column when appending.
    pub fn reset(&mut self, anchor: Position, cursor: Position, insert_type: BlockInsertType)
        requires
            insert_type == BlockInsertType::Append ==> anchor.offset < usize::MAX && cursor.offset
                < usize::MAX,
        ensures
            final(self).start_line == if anchor.line <= cursor.line { anchor.line } else { cursor.line },
            final(self).end_line == if anchor.line <= cursor.line { cursor.line } else { anchor.line },
            final(self).left_column == if anchor.offset <= cursor.offset { anchor.offset } else { cursor.offset },
            final(self).right_column == if anchor.offset <= cursor.offset { cursor.offset } else { anchor.offset },
            final(self).insert_column == match insert_type {
                BlockInsertType::Insert => final(self).left_column as int,
                BlockInsertType::Append => final(self).right_column + 1,
            },
            final(self).insert_type == insert_type,
            final(self).typed_text@.len() == 0,
    {
        self.start_line = if anchor.line <= cursor.line { anchor.line } else { cursor.line };
        self.end_line = if anchor.line <= cursor.line { cursor.line } else { anchor.line };
        self.left_column = if anchor.offset <= cursor.offset { anchor.offset } else { cursor.offset };
        self.right_column = if anchor.offset <= cursor.offset { cursor.offset } else { anchor.offset };
        self.insert_column = match insert_type {
            BlockInsertType::Insert => self.left_column,
            BlockInsertType::Append => self.right_column + 1,
        };
        self.insert_type = insert_type;
        self.typed_text = String::new();
    }

    /// One range per line of the rectangle, each including its right column.
    pub fn to_ranges(&self) -> (r: Vec<Range>)
        requires
            self.start_line <= self.end_line < usize::MAX,
            self.left_column <= self.right_column < usize::MAX,
        ensures
            column_ranges(
                r@,
                self.start_line as int,
                self.end_line as int,
                self.left_column as int,
                self.right_column + 1,
            ),
    {
        // Always +1 for the same reason: inclusive right edge.
        block_ranges(self.start_line, self.end_line, self.left_column, self.right_column + 1)
    }

    pub fn label(&self) -> (r: &'static str)
        ensures
            r@ == match self.insert_type {
                BlockInsertType::Insert => "BLOCK INSERT"@,
                BlockInsertType::Append => "BLOCK APPEND"@,
            },
    {
        match self.insert_type {
            BlockInsertType::Insert => "BLOCK INSERT",
            BlockInsertType::Append => "BLOCK APPEND",
        }
    }
}

} // verus!
