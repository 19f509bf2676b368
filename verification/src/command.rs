use vstd::prelude::*;
use crate::cursor::CursorPosition;

verus! {

/// How `ChangeCase` rewrites letters.
#[derive(Debug, Clone, Copy, PartialEq, Eq, Structural)]
pub enum CaseMode {
    Upper,
    Lower,
    Title,
}

/// Everything the editor can be asked to do. Paths are held as strings.
#[derive(Debug)]
pub enum Command {
    InsertChar(char),
    DeleteChar,
    Backspace,
    NewLine,
    DeleteLine,
    DuplicateLine,
    MoveLinesUp,
    MoveLinesDown,
    JoinLines,
    SortLines { numerical: bool },
    ChangeCase { mode: CaseMode },
    TransposeCharacters,
    Indent,
    Dedent,
    MoveCursorUp,
    MoveCursorDown,
    MoveCursorLeft,
    MoveCursorRight,
    MoveToStartOfLine,
    MoveToEndOfLine,
    MoveToStartOfFile,
    MoveToEndOfFile,
    MoveCursorWordLeft,
    MoveCursorWordRight,
    PageUp,
    PageDown,
    AddCursor(CursorPosition),
    RemoveCursor(usize),
    ClearSecondaryCursors,
    ToggleOverwriteMode,
    HardWrap(usize),
    SetSoftWrap(usize),
    TrimTrailingWhitespace,
    Open(String),
    Save,
    SaveAs(String),
    Close,
    New,
    Undo,
    Redo,
    Copy,
    Cut,
    Paste,
    SelectionStart,
    SelectionEnd,
    Search(String),
    Replace { find: String, replace: String },
    GotoLine(usize),
    Quit,
}

/// Commands that change the text.
pub open spec fn spec_is_editing(c: Command) -> bool {
    match c {
        Command::InsertChar(_) | Command::DeleteChar | Command::Backspace | Command::NewLine
        | Command::DeleteLine | Command::DuplicateLine | Command::MoveLinesUp
        | Command::MoveLinesDown | Command::JoinLines | Command::SortLines { .. }
        | Command::ChangeCase { .. } | Command::TransposeCharacters | Command::Indent
        | Command::Dedent | Command::ToggleOverwriteMode | Command::HardWrap(_)
        | Command::SetSoftWrap(_) | Command::TrimTrailingWhitespace | Command::Paste => true,
        _ => false,
    }
}

/// Commands that move cursors.
pub open spec fn spec_is_navigation(c: Command) -> bool {
    match c {
        Command::MoveCursorUp | Command::MoveCursorDown | Command::MoveCursorLeft
        | Command::MoveCursorRight | Command::MoveToStartOfLine | Command::MoveToEndOfLine
        | Command::MoveToStartOfFile | Command::MoveToEndOfFile | Command::MoveCursorWordLeft
        | Command::MoveCursorWordRight | Command::PageUp | Command::PageDown
        | Command::AddCursor(_) | Command::RemoveCursor(_) | Command::ClearSecondaryCursors
        | Command::GotoLine(_) => true,
        _ => false,
    }
}

/// Commands that open, save or close files.
pub open spec fn spec_is_file(c: Command) -> bool {
    match c {
        Command::Open(_) | Command::Save | Command::SaveAs(_) | Command::Close | Command::New => true,
        _ => false,
    }
}

impl Command {
    pub fn is_editing_command(&self) -> (r: bool)
        ensures
            r == spec_is_editing(*self),
    {
        match self {
            Command::InsertChar(_) | Command::DeleteChar | Command::Backspace | Command::NewLine
            | Command::DeleteLine | Command::DuplicateLine | Command::MoveLinesUp
            | Command::MoveLinesDown | Command::JoinLines | Command::SortLines { .. }
            | Command::ChangeCase { .. } | Command::TransposeCharacters | Command::Indent
            | Command::Dedent | Command::ToggleOverwriteMode | Command::HardWrap(_)
            | Command::SetSoftWrap(_) | Command::TrimTrailingWhitespace | Command::Paste => true,
            _ => false,
        }
    }

    pub fn is_navigation_command(&self) -> (r: bool)
        ensures
            r == spec_is_navigation(*self),
    {
        match self {
            Command::MoveCursorUp | Command::MoveCursorDown | Command::MoveCursorLeft
            | Command::MoveCursorRight | Command::MoveToStartOfLine | Command::MoveToEndOfLine
            | Command::MoveToStartOfFile | Command::MoveToEndOfFile | Command::MoveCursorWordLeft
            | Command::MoveCursorWordRight | Command::PageUp | Command::PageDown
            | Command::AddCursor(_) | Command::RemoveCursor(_) | Command::ClearSecondaryCursors
            | Command::GotoLine(_) => true,
            _ => false,
        }
    }

    pub fn is_file_command(&self) -> (r: bool)
        ensures
            r == spec_is_file(*self),
    {
        match self {
            Command::Open(_) | Command::Save | Command::SaveAs(_) | Command::Close | Command::New => true,
            _ => false,
        }
    }
}

/// No command is both an editing and a navigation command, nor a file command and either
/// of the others.
pub proof fn lemma_command_kinds_disjoint(c: Command)
    ensures
        !(spec_is_editing(c) && spec_is_navigation(c)),
        !(spec_is_editing(c) && spec_is_file(c)),
        !(spec_is_navigation(c) && spec_is_file(c)),
{
}

} // verus!
