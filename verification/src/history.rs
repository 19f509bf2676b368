use vstd::prelude::*;
use crate::cursor::CursorPosition;
use crate::error::{invalid_operation, EditorError};
use crate::selection::Selection;
use crate::text::utf8_len;

verus! {

/// A point in time from a monotonic clock.
#[verifier::external_type_specification]
#[verifier::external_body]
pub struct ExInstant(std::time::Instant);

/// One change to a buffer.
#[derive(Debug)]
pub enum Edit {
    Insert { position: CursorPosition, text: String },
    Delete { position: CursorPosition, text: String },
    Replace { position: CursorPosition, old_text: String, new_text: String },
}

impl Clone for Edit {
    fn clone(&self) -> (r: Self)
        ensures
            r == *self,
    {
        match self {
            Edit::Insert { position, text } => Edit::Insert { position: *position, text: text.clone() },
            Edit::Delete { position, text } => Edit::Delete { position: *position, text: text.clone() },
            Edit::Replace { position, old_text, new_text } => Edit::Replace {
                position: *position,
                old_text: old_text.clone(),
                new_text: new_text.clone(),
            },
        }
    }
}

/// The edit that undoes `e`: an insertion becomes a deletion of the same text and vice
/// versa; a replacement swaps its old and new text.
pub open spec fn inverse_edit(e: Edit) -> Edit {
    match e {
        Edit::Insert { position, text } => Edit::Delete { position, text },
        Edit::Delete { position, text } => Edit::Insert { position, text },
        Edit::Replace { position, old_text, new_text } => Edit::Replace {
            position,
            old_text: new_text,
            new_text: old_text,
        },
    }
}

/// Bytes of text an edit keeps.
pub open spec fn edit_size(e: Edit) -> nat {
    match e {
        Edit::Insert { text, .. } => utf8_len(text@),
        Edit::Delete { text, .. } => utf8_len(text@),
        Edit::Replace { old_text, new_text, .. } => utf8_len(old_text@) + utf8_len(new_text@),
    }
}

pub open spec fn edits_size(s: Seq<Edit>) -> nat
    decreases s.len(),
{
    if s.len() == 0 { 0 } else { edits_size(s.drop_last()) + edit_size(s.last()) }
}

impl Edit {
    pub fn invert(&self) -> (r: Edit)
        ensures
            r == inverse_edit(*self),
    {
        match self {
            Edit::Insert { position, text } => Edit::Delete { position: *position, text: text.clone() },
            Edit::Delete { position, text } => Edit::Insert { position: *position, text: text.clone() },
            Edit::Replace { position, old_text, new_text } => Edit::Replace {
                position: *position,
                old_text: new_text.clone(),
                new_text: old_text.clone(),
            },
        }
    }
}

/// Inverting an edit twice gives the edit back.
pub proof fn lemma_invert_involutive(e: Edit)
    ensures
        inverse_edit(inverse_edit(e)) == e,
{
}

/// One undoable step: its edits and the cursors and selection before and after it.
#[derive(Debug)]
pub struct HistoryEntry {
    pub edits: Vec<Edit>,
    pub cursor_before: Vec<CursorPosition>,
    pub cursor_after: Vec<CursorPosition>,
    pub selection_before: Option<Selection>,
    pub selection_after: Option<Selection>,
    pub grouped: bool,
}

/// The value a `HistoryEntry` holds.
pub struct HistoryEntryView {
    pub edits: Seq<Edit>,
    pub cursor_before: Seq<CursorPosition>,
    pub cursor_after: Seq<CursorPosition>,
    pub selection_before: Option<Selection>,
    pub selection_after: Option<Selection>,
    pub grouped: bool,
}

impl View for HistoryEntry {
    type V = HistoryEntryView;

    open spec fn view(&self) -> HistoryEntryView {
        HistoryEntryView {
            edits: self.edits@,
            cursor_before: self.cursor_before@,
            cursor_after: self.cursor_after@,
            selection_before: self.selection_before,
            selection_after: self.selection_after,
            grouped: self.grouped,
        }
    }
}

fn clone_edits(v: &Vec<Edit>) -> (r: Vec<Edit>)
    ensures
        r@ == v@,
{
    let mut r: Vec<Edit> = Vec::new();
    for i in 0..v.len()
        invariant
            r@ == v@.take(i as int),
    {
        r.push(v[i].clone());
        proof {
            assert(v@.take(i + 1) == v@.take(i as int).push(v@[i as int]));
        }
    }
    proof {
        assert(v@.take(v@.len() as int) == v@);
    }
    r
}

fn clone_positions(v: &Vec<CursorPosition>) -> (r: Vec<CursorPosition>)
    ensures
        r@ == v@,
{
    let mut r: Vec<CursorPosition> = Vec::new();
    for i in 0..v.len()
        invariant
            r@ == v@.take(i as int),
    {
        r.push(v[i]);
        proof {
            assert(v@.take(i + 1) == v@.take(i as int).push(v@[i as int]));
        }
    }
    proof {
        assert(v@.take(v@.len() as int) == v@);
    }
    r
}

impl Clone for HistoryEntry {
    fn clone(&self) -> (r: Self)
        ensures
            r@ == self@,
    {
        HistoryEntry {
            edits: clone_edits(&self.edits),
            cursor_before: clone_positions(&self.cursor_before),
            cursor_after: clone_positions(&self.cursor_after),
            selection_before: self.selection_before,
            selection_after: self.selection_after,
            grouped: self.grouped,
        }
    }
}

impl HistoryEntry {
    pub fn new(
        edits: Vec<Edit>,
        cursor_before: Vec<CursorPosition>,
        cursor_after: Vec<CursorPosition>,
        selection_before: Option<Selection>,
        selection_after: Option<Selection>,
    ) -> (e: Self)
        ensures
            e@ == (HistoryEntryView {
                edits: edits@,
                cursor_before: cursor_before@,
                cursor_after: cursor_after@,
                selection_before,
                selection_after,
                grouped: false,
            }),
    {
        Self { edits, cursor_before, cursor_after, selection_before, selection_after, grouped: false }
    }

    pub fn with_grouped(self, grouped: bool) -> (e: Self)
        ensures
            e@ == (HistoryEntryView { grouped, ..self@ }),
    {
        let mut s = self;
        s.grouped = grouped;
        s
    }
}

/// The entry obtained by folding `next` into `last`: the edits of both, the cursors and
/// selection from before `last` and from after `next`.
pub open spec fn merged_entry(last: HistoryEntryView, next: HistoryEntryView) -> HistoryEntryView {
    HistoryEntryView {
        edits: last.edits + next.edits,
        cursor_after: next.cursor_after,
        selection_after: next.selection_after,
        ..last
    }
}

/// The undo stack after recording `entry`, before it is trimmed to size.
pub open spec fn stack_after_record(
    undo: Seq<HistoryEntryView>,
    entry: HistoryEntryView,
    group: bool,
) -> Seq<HistoryEntryView> {
    if group && undo.len() > 0 && undo.last().grouped {
        undo.update(undo.len() - 1, merged_entry(undo.last(), entry))
    } else {
        undo.push(entry)
    }
}

/// Drops the oldest entry when the stack holds more than `max` entries.
pub open spec fn trim_stack(s: Seq<HistoryEntryView>, max: nat) -> Seq<HistoryEntryView> {
    if s.len() > max { s.subrange(1, s.len() as int) } else { s }
}

/// Whether a new entry joins the previous one: it asks to be grouped and comes less than
/// `timeout_ms` after the previous edit.
pub open spec fn should_group(elapsed_ms: Option<u128>, timeout_ms: u64, grouped: bool) -> bool {
    match elapsed_ms {
        Some(d) => d < timeout_ms && grouped,
        None => false,
    }
}

/// The value a `History` holds.
pub struct HistoryView {
    pub undo: Seq<HistoryEntryView>,
    pub redo: Seq<HistoryEntryView>,
    pub max_entries: nat,
    pub group_timeout_ms: nat,
}

impl HistoryView {
    /// The state after an undo: the newest undo entry moves to the redo stack.
    pub open spec fn undone(self) -> HistoryView {
        HistoryView {
            undo: self.undo.drop_last(),
            redo: self.redo.push(self.undo.last()),
            ..self
        }
    }

    /// The state after a redo: the newest redo entry moves back to the undo stack.
    pub open spec fn redone(self) -> HistoryView {
        HistoryView {
            undo: self.undo.push(self.redo.last()),
            redo: self.redo.drop_last(),
            ..self
        }
    }
}

/// Undo/redo stacks of edits.
pub struct History {
    undo_stack: Vec<HistoryEntry>,
    redo_stack: Vec<HistoryEntry>,
    max_entries: usize,
    group_timeout_ms: u64,
    last_edit_time: Option<std::time::Instant>,
}

impl View for History {
    type V = HistoryView;

    closed spec fn view(&self) -> HistoryView {
        HistoryView {
            undo: self.undo_stack@.map_values(|e: HistoryEntry| e@),
            redo: self.redo_stack@.map_values(|e: HistoryEntry| e@),
            max_entries: self.max_entries as nat,
            group_timeout_ms: self.group_timeout_ms as nat,
        }
    }
}

/// `Instant::now`: the monotonic clock's current reading. Nothing is stated of it: it
/// comes from the clock.
#[verifier::external_body]
fn instant_now() -> (t: std::time::Instant) {
    std::time::Instant::now()
}

/// `Instant::duration_since(..).as_millis()`: whole milliseconds from `earlier` to `later`
/// (zero when `later` is not after `earlier`). Nothing is stated of the number: the two
/// readings are opaque clock values.
#[verifier::external_body]
fn millis_between(later: &std::time::Instant, earlier: &std::time::Instant) -> (ms: u128) {
    later.duration_since(*earlier).as_millis()
}

impl History {
    /// Whether an edit is remembered (grouping needs a previous edit time).
    pub closed spec fn has_last_edit(&self) -> bool {
        self.last_edit_time is Some
    }

    pub fn new() -> (h: Self)
        ensures
            h@.undo.len() == 0,
            h@.redo.len() == 0,
            h@.max_entries == 1000,
            h@.group_timeout_ms == 500,
            !h.has_last_edit(),
    {
        Self {
            undo_stack: Vec::new(),
            redo_stack: Vec::new(),
            max_entries: 1000,
            group_timeout_ms: 500,
            last_edit_time: None,
        }
    }

    pub fn with_max_entries(self, max_entries: usize) -> (h: Self)
        ensures
            h@ == (HistoryView { max_entries: max_entries as nat, ..self@ }),
            h.has_last_edit() == self.has_last_edit(),
    {
        let mut s = self;
        s.max_entries = max_entries;
        s
    }

    pub fn with_group_timeout(self, timeout_ms: u64) -> (h: Self)
        ensures
            h@ == (HistoryView { group_timeout_ms: timeout_ms as nat, ..self@ }),
            h.has_last_edit() == self.has_last_edit(),
    {
        let mut s = self;
        s.group_timeout_ms = timeout_ms;
        s
    }

    /// Records `entry`, given how many milliseconds passed since the previous edit (`None`
    /// when there was none). The entry is folded into the newest one when both ask to be
    /// grouped and it came within the grouping timeout; the oldest entry is dropped when the
    /// stack grows past `max_entries`; the redo stack is emptied.
    pub fn record_after(&mut self, entry: HistoryEntry, elapsed_ms: Option<u128>)
        ensures
            final(self)@.undo == trim_stack(
                stack_after_record(
                    old(self)@.undo,
                    entry@,
                    should_group(elapsed_ms, old(self)@.group_timeout_ms as u64, entry.grouped),
                ),
                old(self)@.max_entries,
            ),
            final(self)@.redo.len() == 0,
            final(self)@.max_entries == old(self)@.max_entries,
            final(self)@.group_timeout_ms == old(self)@.group_timeout_ms,
            old(self)@.undo.len() <= old(self)@.max_entries ==> final(self)@.undo.len()
                <= final(self)@.max_entries,
            final(self).has_last_edit() == old(self).has_last_edit(),
    {
        let group = match elapsed_ms {
            Some(d) => d < self.group_timeout_ms as u128 && entry.grouped,
            None => false,
        };
        let ghost old_undo = self@.undo;
        let ghost e = entry@;
        let n = self.undo_stack.len();
        if group && n > 0 && self.undo_stack[n - 1].grouped {
            let mut last = self.undo_stack.pop().unwrap();
            let mut entry = entry;
            last.edits.append(&mut entry.edits);
            last.cursor_after = entry.cursor_after;
            last.selection_after = entry.selection_after;
            self.undo_stack.push(last);
            proof {
                assert(self@.undo =~= old_undo.update(old_undo.len() - 1, merged_entry(old_undo.last(), e)));
            }
        } else {
            self.undo_stack.push(entry);
            proof {
                assert(self@.undo =~= old_undo.push(e));
            }
        }
        let ghost before_trim = self@.undo;
        if self.undo_stack.len() > self.max_entries {
            self.undo_stack.remove(0);
            proof {
                assert(self@.undo =~= before_trim.subrange(1, before_trim.len() as int));
            }
        }
        self.redo_stack.clear();
        proof {
            assert(self@.redo =~= Seq::<HistoryEntryView>::empty());
        }
    }

    /// Records `entry`, grouping it with the newest entry when both ask to be grouped and
    /// the previous edit was less than the grouping timeout ago; see `record_after`.
    pub fn push(&mut self, entry: HistoryEntry)
        ensures
            exists|group: bool|
                (group ==> entry.grouped) && final(self)@.undo == trim_stack(
                    #[trigger] stack_after_record(old(self)@.undo, entry@, group),
                    old(self)@.max_entries,
                ),
            !entry.grouped ==> final(self)@.undo == trim_stack(
                old(self)@.undo.push(entry@),
                old(self)@.max_entries,
            ),
            final(self)@.redo.len() == 0,
            final(self)@.max_entries == old(self)@.max_entries,
            final(self)@.group_timeout_ms == old(self)@.group_timeout_ms,
            old(self)@.undo.len() <= old(self)@.max_entries ==> final(self)@.undo.len()
                <= final(self)@.max_entries,
            final(self).has_last_edit(),
    {
        let now = instant_now();
        let elapsed = match self.last_edit_time {
            Some(t) => Some(millis_between(&now, &t)),
            None => None,
        };
        self.record_after(entry, elapsed);
        self.last_edit_time = Some(now);
    }

    /// Moves the newest undo entry to the redo stack and returns it.
    pub fn undo(&mut self) -> (r: Result<HistoryEntry, EditorError>)
        ensures
            old(self)@.undo.len() > 0 ==> (r matches Ok(e) && e@ == old(self)@.undo.last()
                && final(self)@ == old(self)@.undone()),
            old(self)@.undo.len() == 0 ==> (r matches Err(EditorError::InvalidOperation(m)) && m@
                == "Nothing to undo"@) && final(self)@ == old(self)@,
            final(self).has_last_edit() == old(self).has_last_edit(),
    {
        let ghost old_view = self@;
        match self.undo_stack.pop() {
            Some(entry) => {
                let copy = entry.clone();
                self.redo_stack.push(copy);
                proof {
                    assert(self@.undo =~= old_view.undone().undo);
                    assert(self@.redo =~= old_view.undone().redo);
                }
                Ok(entry)
            },
            None => Err(invalid_operation("Nothing to undo")),
        }
    }

    /// Moves the newest redo entry back to the undo stack and returns it.
    pub fn redo(&mut self) -> (r: Result<HistoryEntry, EditorError>)
        ensures
            old(self)@.redo.len() > 0 ==> (r matches Ok(e) && e@ == old(self)@.redo.last()
                && final(self)@ == old(self)@.redone()),
            old(self)@.redo.len() == 0 ==> (r matches Err(EditorError::InvalidOperation(m)) && m@
                == "Nothing to redo"@) && final(self)@ == old(self)@,
            final(self).has_last_edit() == old(self).has_last_edit(),
    {
        let ghost old_view = self@;
        match self.redo_stack.pop() {
            Some(entry) => {
                let copy = entry.clone();
                self.undo_stack.push(copy);
                proof {
                    assert(self@.undo =~= old_view.redone().undo);
                    assert(self@.redo =~= old_view.redone().redo);
                }
                Ok(entry)
            },
            None => Err(invalid_operation("Nothing to redo")),
        }
    }

    pub fn can_undo(&self) -> (r: bool)
        ensures
            r == (self@.undo.len() > 0),
    {
        self.undo_stack.len() > 0
    }

    pub fn can_redo(&self) -> (r: bool)
        ensures
            r == (self@.redo.len() > 0),
    {
        self.redo_stack.len() > 0
    }

    /// Forgets all entries and the previous edit time.
    pub fn clear(&mut self)
        ensures
            final(self)@ == (HistoryView {
                undo: Seq::empty(),
                redo: Seq::empty(),
                ..old(self)@
            }),
            !final(self).has_last_edit(),
    {
        self.undo_stack.clear();
        self.redo_stack.clear();
        self.last_edit_time = None;
        proof {
            assert(self@.undo =~= Seq::<HistoryEntryView>::empty());
            assert(self@.redo =~= Seq::<HistoryEntryView>::empty());
        }
    }

    pub fn undo_stack_len(&self) -> (r: usize)
        ensures
            r == self@.undo.len(),
    {
        self.undo_stack.len()
    }

    pub fn redo_stack_len(&self) -> (r: usize)
        ensures
            r == self@.redo.len(),
    {
        self.redo_stack.len()
    }

    /// Bytes of text held by all entries of both stacks.
    pub fn memory_usage(&self) -> (r: usize)
        requires
            stacks_size(self@.undo) + stacks_size(self@.redo) <= usize::MAX,
        ensures
            r == stacks_size(self@.undo) + stacks_size(self@.redo),
    {
        let a = stack_bytes(&self.undo_stack);
        let b = stack_bytes(&self.redo_stack);
        a + b
    }
}

/// Bytes of text held by the entries of a stack.
pub open spec fn stacks_size(s: Seq<HistoryEntryView>) -> nat
    decreases s.len(),
{
    if s.len() == 0 { 0 } else { stacks_size(s.drop_last()) + edits_size(s.last().edits) }
}

proof fn lemma_edits_size_prefix(s: Seq<Edit>, i: int)
    requires
        0 <= i <= s.len(),
    ensures
        edits_size(s.take(i)) <= edits_size(s),
    decreases s.len(),
{
    if i < s.len() {
        assert(s.drop_last().take(i) == s.take(i));
        lemma_edits_size_prefix(s.drop_last(), i);
    } else {
        assert(s.take(i) == s);
    }
}

proof fn lemma_stacks_size_prefix(s: Seq<HistoryEntryView>, i: int)
    requires
        0 <= i <= s.len(),
    ensures
        stacks_size(s.take(i)) <= stacks_size(s),
    decreases s.len(),
{
    if i < s.len() {
        assert(s.drop_last().take(i) == s.take(i));
        lemma_stacks_size_prefix(s.drop_last(), i);
    } else {
        assert(s.take(i) == s);
    }
}

fn entry_bytes(e: &HistoryEntry) -> (r: usize)
    requires
        edits_size(e.edits@) <= usize::MAX,
    ensures
        r == edits_size(e.edits@),
{
    let mut total: usize = 0;
    for i in 0..e.edits.len()
        invariant
            total == edits_size(e.edits@.take(i as int)),
            edits_size(e.edits@) <= usize::MAX,
    {
        proof {
            assert(e.edits@.take(i + 1).drop_last() == e.edits@.take(i as int));
            lemma_edits_size_prefix(e.edits@, i + 1);
        }
        let size = match &e.edits[i] {
            Edit::Insert { text, .. } => text.as_str().len(),
            Edit::Delete { text, .. } => text.as_str().len(),
            Edit::Replace { old_text, new_text, .. } => old_text.as_str().len() + new_text.as_str().len(),
        };
        total = total + size;
    }
    proof {
        assert(e.edits@.take(e.edits@.len() as int) == e.edits@);
    }
    total
}

fn stack_bytes(s: &Vec<HistoryEntry>) -> (r: usize)
    requires
        stacks_size(s@.map_values(|e: HistoryEntry| e@)) <= usize::MAX,
    ensures
        r == stacks_size(s@.map_values(|e: HistoryEntry| e@)),
{
    let ghost views = s@.map_values(|e: HistoryEntry| e@);
    let mut total: usize = 0;
    for i in 0..s.len()
        invariant
            views == s@.map_values(|e: HistoryEntry| e@),
            total == stacks_size(views.take(i as int)),
            stacks_size(views) <= usize::MAX,
    {
        proof {
            assert(views.take(i + 1).drop_last() == views.take(i as int));
            lemma_stacks_size_prefix(views, i + 1);
        }
        let size = entry_bytes(&s[i]);
        total = total + size;
    }
    proof {
        assert(views.take(views.len() as int) == views);
    }
    total
}

/// Undoing and then redoing gives back the history as it was.
pub proof fn lemma_undo_then_redo(h: HistoryView)
    requires
        h.undo.len() > 0,
    ensures
        h.undone().redone() == h,
{
    assert(h.undone().redone().undo =~= h.undo);
    assert(h.undone().redone().redo =~= h.redo);
}

/// Redoing and then undoing gives back the history as it was.
pub proof fn lemma_redo_then_undo(h: HistoryView)
    requires
        h.redo.len() > 0,
    ensures
        h.redone().undone() == h,
{
    assert(h.redone().undone().undo =~= h.undo);
    assert(h.redone().undone().redo =~= h.redo);
}

impl Default for History {
    fn default() -> (h: Self)
        ensures
            h@.undo.len() == 0,
            h@.redo.len() == 0,
            h@.max_entries == 1000,
            h@.group_timeout_ms == 500,
            !h.has_last_edit(),
    {
        History::new()
    }
}

} // verus!
