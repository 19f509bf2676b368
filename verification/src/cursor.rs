use vstd::prelude::*;
use crate::error::{invalid_operation, EditorError};

verus! {

/// A position in a buffer: a zero-based line and a zero-based column (in chars).
#[derive(Debug, Clone, Copy, PartialEq, Eq, Structural)]
pub struct CursorPosition {
    pub line: usize,
    pub column: usize,
}

/// `a` comes strictly before `b` in reading order (line first, then column).
pub open spec fn pos_lt(a: CursorPosition, b: CursorPosition) -> bool {
    a.line < b.line || (a.line == b.line && a.column < b.column)
}

/// Every position of `s` comes strictly before every later one.
pub open spec fn strictly_sorted(s: Seq<CursorPosition>) -> bool {
    forall|i: int, j: int| 0 <= i < j < s.len() ==> pos_lt(#[trigger] s[i], #[trigger] s[j])
}

/// `a` and `b` hold the same positions (ignoring order and repetition).
pub open spec fn same_positions(a: Seq<CursorPosition>, b: Seq<CursorPosition>) -> bool {
    forall|p: CursorPosition| a.contains(p) <==> b.contains(p)
}

pub open spec fn zero_position() -> CursorPosition {
    CursorPosition { line: 0, column: 0 }
}

impl CursorPosition {
    pub fn new(line: usize, column: usize) -> (p: Self)
        ensures
            p.line == line,
            p.column == column,
    {
        Self { line, column }
    }

    pub fn zero() -> (p: Self)
        ensures
            p == zero_position(),
    {
        Self { line: 0, column: 0 }
    }

    /// Moves one column to the left; fails at column 0 and leaves the position as it was.
    pub fn move_left(&mut self) -> (r: Result<(), EditorError>)
        ensures
            old(self).column > 0 ==> r is Ok && *final(self) == (CursorPosition {
                line: old(self).line,
                column: (old(self).column - 1) as usize,
            }),
            old(self).column == 0 ==> (r matches Err(EditorError::InvalidOperation(_)))
                && *final(self) == *old(self),
    {
        if self.column > 0 {
            self.column -= 1;
            Ok(())
        } else {
            Err(invalid_operation("Cannot move left from column 0"))
        }
    }

    /// Moves one column to the right unless already at `max_column`.
    pub fn move_right(&mut self, max_column: usize) -> (r: Result<(), EditorError>)
        ensures
            old(self).column < max_column ==> r is Ok && *final(self) == (CursorPosition {
                line: old(self).line,
                column: (old(self).column + 1) as usize,
            }),
            old(self).column >= max_column ==> (r matches Err(EditorError::InvalidOperation(_)))
                && *final(self) == *old(self),
    {
        if self.column < max_column {
            self.column += 1;
            Ok(())
        } else {
            Err(invalid_operation("Cannot move right beyond line end"))
        }
    }

    /// Moves one line up; fails on line 0.
    pub fn move_up(&mut self) -> (r: Result<(), EditorError>)
        ensures
            old(self).line > 0 ==> r is Ok && *final(self) == (CursorPosition {
                line: (old(self).line - 1) as usize,
                column: old(self).column,
            }),
            old(self).line == 0 ==> (r matches Err(EditorError::InvalidOperation(_)))
                && *final(self) == *old(self),
    {
        if self.line > 0 {
            self.line -= 1;
            Ok(())
        } else {
            Err(invalid_operation("Cannot move up from line 0"))
        }
    }

    /// Moves one line down unless already at `max_line`.
    pub fn move_down(&mut self, max_line: usize) -> (r: Result<(), EditorError>)
        ensures
            old(self).line < max_line ==> r is Ok && *final(self) == (CursorPosition {
                line: (old(self).line + 1) as usize,
                column: old(self).column,
            }),
            old(self).line >= max_line ==> (r matches Err(EditorError::InvalidOperation(_)))
                && *final(self) == *old(self),
    {
        if self.line < max_line {
            self.line += 1;
            Ok(())
        } else {
            Err(invalid_operation("Cannot move down beyond last line"))
        }
    }

    pub fn move_to_start_of_line(&mut self)
        ensures
            *final(self) == (CursorPosition { line: old(self).line, column: 0 }),
    {
        self.column = 0;
    }

    pub fn move_to_end_of_line(&mut self, line_length: usize)
        ensures
            *final(self) == (CursorPosition { line: old(self).line, column: line_length }),
    {
        self.column = line_length;
    }

    pub fn move_to_start_of_file(&mut self)
        ensures
            *final(self) == zero_position(),
    {
        self.line = 0;
        self.column = 0;
    }

    pub fn move_to_end_of_file(&mut self, last_line: usize, last_line_length: usize)
        ensures
            *final(self) == (CursorPosition { line: last_line, column: last_line_length }),
    {
        self.line = last_line;
        self.column = last_line_length;
    }
}

/// Compares two positions in reading order.
pub fn position_less(a: &CursorPosition, b: &CursorPosition) -> (r: bool)
    ensures
        r == pos_lt(*a, *b),
{
    a.line < b.line || (a.line == b.line && a.column < b.column)
}

/// A non-empty set of cursors; the first one is the primary cursor.
#[derive(Debug, PartialEq, Eq)]
pub struct MultiCursor {
    positions: Vec<CursorPosition>,
}

impl View for MultiCursor {
    type V = Seq<CursorPosition>;

    closed spec fn view(&self) -> Seq<CursorPosition> {
        self.positions@
    }
}

/// Inserts `p` into the strictly sorted `v`, keeping it strictly sorted; does nothing when
/// `p` is already there.
fn insert_sorted(v: &mut Vec<CursorPosition>, p: CursorPosition)
    requires
        strictly_sorted(old(v)@),
    ensures
        strictly_sorted(final(v)@),
        forall|q: CursorPosition| #[trigger] final(v)@.contains(q) <==> (old(v)@.contains(q) || q == p),
{
    let mut k: usize = 0;
    while k < v.len() && position_less(&v[k], &p)
        invariant
            0 <= k <= v.len(),
            v@ == old(v)@,
            forall|i: int| 0 <= i < k ==> pos_lt(#[trigger] v@[i], p),
        decreases v.len() - k,
    {
        k += 1;
    }
    if k < v.len() && v[k] == p {
        assert(v@[k as int] == p);
        return;
    }
    let ghost before = v@;
    v.insert(k, p);
    proof {
        assert forall|i: int, j: int| 0 <= i < j < v@.len() implies pos_lt(
            #[trigger] v@[i],
            #[trigger] v@[j],
        ) by {
            if j < k {
                assert(v@[i] == before[i] && v@[j] == before[j]);
            } else if j == k {
                assert(v@[i] == before[i]);
            } else if i < k {
                assert(v@[i] == before[i] && v@[j] == before[j - 1]);
                assert(pos_lt(before[i], p));
                if k < before.len() {
                    assert(!pos_lt(before[k as int], p));
                    assert(before[k as int] != p);
                    if k as int <= j - 1 && k as int != j - 1 {
                        assert(pos_lt(before[k as int], before[j - 1]));
                    }
                }
            } else if i == k {
                assert(v@[j] == before[j - 1]);
                assert(!pos_lt(before[k as int], p));
                assert(before[k as int] != p);
                if k as int != j - 1 {
                    assert(pos_lt(before[k as int], before[j - 1]));
                }
            } else {
                assert(v@[i] == before[i - 1] && v@[j] == before[j - 1]);
            }
        }
        assert forall|q: CursorPosition| #[trigger] v@.contains(q) <==> (before.contains(q) || q == p) by {
            if v@.contains(q) {
                let i = choose|i: int| 0 <= i < v@.len() && v@[i] == q;
                if i < k {
                    assert(before[i] == q);
                } else if i > k {
                    assert(before[i - 1] == q);
                }
            }
            if before.contains(q) {
                let i = choose|i: int| 0 <= i < before.len() && before[i] == q;
                if i < k {
                    assert(v@[i] == q);
                } else {
                    assert(v@[i + 1] == q);
                }
            }
            if q == p {
                assert(v@[k as int] == p);
            }
        }
        assert(before == old(v)@);
    }
}

/// The positions of `positions` in reading order, each once.
fn sorted_unique(positions: &[CursorPosition]) -> (r: Vec<CursorPosition>)
    ensures
        strictly_sorted(r@),
        same_positions(r@, positions@),
{
    let mut sorted: Vec<CursorPosition> = Vec::new();
    let n = positions.len();
    for i in 0..n
        invariant
            n == positions@.len(),
            strictly_sorted(sorted@),
            forall|q: CursorPosition| sorted@.contains(q) <==> positions@.take(i as int).contains(q),
    {
        let ghost prefix = positions@.take(i as int);
        insert_sorted(&mut sorted, positions[i]);
        proof {
            let x = positions@[i as int];
            let next = positions@.take(i + 1);
            assert(next == prefix.push(x));
            assert forall|q: CursorPosition| next.contains(q) <==> (prefix.contains(q) || q == x) by {
                if next.contains(q) {
                    let j = choose|j: int| 0 <= j < next.len() && next[j] == q;
                    if j < prefix.len() {
                        assert(prefix[j] == q);
                    }
                }
                if prefix.contains(q) {
                    let j = choose|j: int| 0 <= j < prefix.len() && prefix[j] == q;
                    assert(next[j] == q);
                }
                if q == x {
                    assert(next[i as int] == q);
                }
            }
        }
    }
    proof {
        assert(positions@.take(n as int) == positions@);
    }
    sorted
}

impl MultiCursor {
    #[verifier::type_invariant]
    spec fn well_formed(self) -> bool {
        self.positions@.len() > 0 && strictly_sorted(self.positions@)
    }

    pub fn new() -> (m: Self)
        ensures
            m@ == seq![zero_position()],
    {
        Self { positions: vec![CursorPosition::zero()] }
    }

    pub fn positions(&self) -> (r: &[CursorPosition])
        ensures
            r@ == self@,
            r@.len() > 0,
            strictly_sorted(r@),
    {
        proof {
            use_type_invariant(self);
        }
        self.positions.as_slice()
    }

    /// The primary cursor: the first one.
    pub fn primary(&self) -> (r: &CursorPosition)
        ensures
            self@.len() > 0,
            *r == self@[0],
    {
        proof {
            use_type_invariant(self);
        }
        &self.positions[0]
    }

    /// Sorts the cursors in reading order and drops duplicates.
    pub fn merge_overlaps(&mut self)
        ensures
            strictly_sorted(final(self)@),
            same_positions(final(self)@, old(self)@),
            final(self)@.len() > 0,
    {
        proof {
            use_type_invariant(&*self);
        }
        let sorted = sorted_unique(self.positions.as_slice());
        proof {
            assert(self.positions@.contains(self.positions@[0]));
        }
        self.positions = sorted;
    }

    /// Adds a cursor, then sorts and deduplicates.
    pub fn add_cursor(&mut self, position: CursorPosition)
        ensures
            strictly_sorted(final(self)@),
            same_positions(final(self)@, old(self)@.push(position)),
    {
        proof {
            use_type_invariant(&*self);
        }
        let mut v = self.positions.clone();
        v.push(position);
        let sorted = sorted_unique(v.as_slice());
        proof {
            assert(v@.contains(v@[0]));
        }
        self.positions = sorted;
    }

    /// Removes the cursor at `index` if there is one; an empty set falls back to the origin.
    pub fn remove_cursor(&mut self, index: usize)
        ensures
            index < old(self)@.len() && old(self)@.len() > 1 ==> final(self)@ == old(self)@.remove(
                index as int,
            ),
            index < old(self)@.len() && old(self)@.len() == 1 ==> final(self)@ == seq![zero_position()],
            index >= old(self)@.len() ==> final(self)@ == old(self)@,
    {
        proof {
            use_type_invariant(&*self);
        }
        if index < self.positions.len() {
            if self.positions.len() == 1 {
                self.positions = vec![CursorPosition::zero()];
            } else {
                let mut v = self.positions.clone();
                let ghost before = v@;
                v.remove(index);
                proof {
                    assert forall|i: int, j: int| 0 <= i < j < v@.len() implies pos_lt(
                        #[trigger] v@[i],
                        #[trigger] v@[j],
                    ) by {
                        let i0 = if i < index { i } else { i + 1 };
                        let j0 = if j < index { j } else { j + 1 };
                        assert(v@[i] == before[i0] && v@[j] == before[j0]);
                    }
                }
                self.positions = v;
            }
        }
    }

    /// Replaces all cursors; an empty list falls back to the origin.
    pub fn set_positions(&mut self, positions: Vec<CursorPosition>)
        ensures
            positions@.len() == 0 ==> final(self)@ == seq![zero_position()],
            positions@.len() > 0 ==> strictly_sorted(final(self)@) && same_positions(
                final(self)@,
                positions@,
            ),
    {
        if positions.len() == 0 {
            self.positions = vec![CursorPosition::zero()];
        } else {
            let sorted = sorted_unique(positions.as_slice());
            proof {
                assert(positions@.contains(positions@[0]));
            }
            self.positions = sorted;
        }
    }

    /// Keeps a single cursor at `position`.
    pub fn reset_to(&mut self, position: CursorPosition)
        ensures
            final(self)@ == seq![position],
    {
        self.positions = vec![position];
    }
}

impl Default for MultiCursor {
    fn default() -> (m: Self)
        ensures
            m@ == seq![zero_position()],
    {
        Self::new()
    }
}

/// Two strictly sorted sequences holding the same positions are equal: sorting and merging
/// cursors depends only on which positions are present.
pub proof fn lemma_sorted_positions_unique(a: Seq<CursorPosition>, b: Seq<CursorPosition>)
    requires
        strictly_sorted(a),
        strictly_sorted(b),
        same_positions(a, b),
    ensures
        a == b,
    decreases a.len(),
{
    if a.len() == 0 {
        if b.len() > 0 {
            assert(b.contains(b[0]));
        }
    } else if b.len() == 0 {
        assert(a.contains(a[0]));
    } else {
        let la = a.last();
        let lb = b.last();
        assert(a.contains(la));
        assert(b.contains(lb));
        let ia = choose|i: int| 0 <= i < a.len() && a[i] == lb;
        let ib = choose|i: int| 0 <= i < b.len() && b[i] == la;
        if ia < a.len() - 1 {
            assert(pos_lt(a[ia], a[a.len() - 1]));
            assert(ib <= b.len() - 1);
            if ib < b.len() - 1 {
                assert(pos_lt(b[ib], b[b.len() - 1]));
            }
        }
        if ib < b.len() - 1 {
            assert(pos_lt(b[ib], b[b.len() - 1]));
        }
        assert(la == lb);
        let a2 = a.drop_last();
        let b2 = b.drop_last();
        assert forall|p: CursorPosition| a2.contains(p) <==> b2.contains(p) by {
            if a2.contains(p) {
                let i = choose|i: int| 0 <= i < a2.len() && a2[i] == p;
                assert(pos_lt(a[i], a[a.len() - 1]));
                assert(a.contains(p));
                assert(p != la);
                let j = choose|j: int| 0 <= j < b.len() && b[j] == p;
                assert(j != b.len() - 1);
                assert(b2[j] == p);
            }
            if b2.contains(p) {
                let i = choose|i: int| 0 <= i < b2.len() && b2[i] == p;
                assert(pos_lt(b[i], b[b.len() - 1]));
                assert(b.contains(p));
                assert(p != lb);
                let j = choose|j: int| 0 <= j < a.len() && a[j] == p;
                assert(j != a.len() - 1);
                assert(a2[j] == p);
            }
        }
        lemma_sorted_positions_unique(a2, b2);
        assert(a == a2.push(la));
        assert(b == b2.push(lb));
    }
}

} // verus!
