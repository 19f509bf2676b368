use vstd::prelude::*;
use crate::cursor::{pos_lt, position_less, CursorPosition};

verus! {

/// How a selection covers text: a contiguous run, or a rectangle of columns.
#[derive(Debug, Clone, Copy, PartialEq, Eq, Structural)]
pub enum SelectionMode {
    Normal,
    Block,
}

/// A selection between a fixed anchor and the moving cursor.
#[derive(Debug, Clone, Copy, PartialEq, Eq, Structural)]
pub struct Selection {
    pub anchor: CursorPosition,
    pub cursor: CursorPosition,
    pub mode: SelectionMode,
}

/// `a` is at or before `b` in reading order.
pub open spec fn pos_le(a: CursorPosition, b: CursorPosition) -> bool {
    pos_lt(a, b) || a == b
}

pub open spec fn min_usize(a: usize, b: usize) -> usize {
    if a <= b { a } else { b }
}

pub open spec fn max_usize(a: usize, b: usize) -> usize {
    if a >= b { a } else { b }
}

impl Selection {
    /// The earlier of anchor and cursor.
    pub open spec fn spec_start(self) -> CursorPosition {
        if pos_lt(self.anchor, self.cursor) { self.anchor } else { self.cursor }
    }

    /// The later of anchor and cursor.
    pub open spec fn spec_end(self) -> CursorPosition {
        if pos_lt(self.cursor, self.anchor) { self.anchor } else { self.cursor }
    }

    /// Whether `pos` lies in the selection.
    pub open spec fn spec_contains(self, pos: CursorPosition) -> bool {
        let start = self.spec_start();
        let end = self.spec_end();
        if self.anchor == self.cursor {
            false
        } else {
            match self.mode {
                SelectionMode::Normal => pos_le(start, pos) && pos_le(pos, end),
                SelectionMode::Block => start.line <= pos.line <= end.line && min_usize(
                    start.column,
                    end.column,
                ) <= pos.column <= max_usize(start.column, end.column),
            }
        }
    }

    pub fn new(anchor: CursorPosition, cursor: CursorPosition) -> (s: Self)
        ensures
            s == (Selection { anchor, cursor, mode: SelectionMode::Normal }),
    {
        Self { anchor, cursor, mode: SelectionMode::Normal }
    }

    pub fn new_block(anchor: CursorPosition, cursor: CursorPosition) -> (s: Self)
        ensures
            s == (Selection { anchor, cursor, mode: SelectionMode::Block }),
    {
        Self { anchor, cursor, mode: SelectionMode::Block }
    }

    pub fn start(&self) -> (p: CursorPosition)
        ensures
            p == self.spec_start(),
    {
        if position_less(&self.anchor, &self.cursor) {
            self.anchor
        } else {
            self.cursor
        }
    }

    pub fn end(&self) -> (p: CursorPosition)
        ensures
            p == self.spec_end(),
    {
        if position_less(&self.cursor, &self.anchor) {
            self.anchor
        } else {
            self.cursor
        }
    }

    pub fn is_empty(&self) -> (r: bool)
        ensures
            r == (self.anchor == self.cursor),
    {
        self.anchor == self.cursor
    }

    pub fn is_block(&self) -> (r: bool)
        ensures
            r == (self.mode == SelectionMode::Block),
    {
        self.mode == SelectionMode::Block
    }

    pub fn contains(&self, pos: CursorPosition) -> (r: bool)
        ensures
            r == self.spec_contains(pos),
    {
        if self.is_empty() {
            return false;
        }
        match self.mode {
            SelectionMode::Normal => {
                let start = self.start();
                let end = self.end();
                if pos.line < start.line || pos.line > end.line {
                    return false;
                }
                if pos.line == start.line && pos.column < start.column {
                    return false;
                }
                if pos.line == end.line && pos.column > end.column {
                    return false;
                }
                true
            },
            SelectionMode::Block => {
                let start = self.start();
                let end = self.end();
                let lo = if start.column <= end.column { start.column } else { end.column };
                let hi = if start.column >= end.column { start.column } else { end.column };
                pos.line >= start.line && pos.line <= end.line && pos.column >= lo && pos.column <= hi
            },
        }
    }
}

/// The start of a selection never comes after its end, and the two are its anchor and cursor.
pub proof fn lemma_selection_bounds_ordered(s: Selection)
    ensures
        pos_le(s.spec_start(), s.spec_end()),
        (s.spec_start() == s.anchor && s.spec_end() == s.cursor) || (s.spec_start() == s.cursor
            && s.spec_end() == s.anchor),
{
}

/// A non-empty selection in normal mode contains both of its ends.
pub proof fn lemma_normal_selection_contains_ends(s: Selection)
    requires
        s.mode == SelectionMode::Normal,
        s.anchor != s.cursor,
    ensures
        s.spec_contains(s.anchor),
        s.spec_contains(s.cursor),
{
}

} // verus!
