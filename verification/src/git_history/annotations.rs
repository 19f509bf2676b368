//! Notes attached to commits, keyed by commit id.

use vstd::prelude::*;
use crate::text::str_eq;

verus! {

/// The map that a list of `(key, value)` entries stands for, later entries winning.
pub open spec fn entries_map(es: Seq<(String, String)>) -> Map<Seq<char>, Seq<char>>
    decreases es.len(),
{
    if es.len() == 0 {
        Map::empty()
    } else {
        entries_map(es.drop_last()).insert(es.last().0@, es.last().1@)
    }
}

/// No key occurs twice among the entries.
pub open spec fn keys_unique(es: Seq<(String, String)>) -> bool {
    forall|i: int, j: int| 0 <= i < j < es.len() ==> (#[trigger] es[i]).0@ != (#[trigger] es[j]).0@
}

/// The keys of the map are those of the entries.
pub proof fn lemma_entries_map_dom(es: Seq<(String, String)>, k: Seq<char>)
    ensures
        entries_map(es).dom().contains(k) <==> exists|i: int| 0 <= i < es.len() && (#[trigger] es[i]).0@ == k,
    decreases es.len(),
{
    if es.len() > 0 {
        let init = es.drop_last();
        lemma_entries_map_dom(init, k);
        if entries_map(es).dom().contains(k) {
            if k != es.last().0@ {
                let i = choose|i: int| 0 <= i < init.len() && (#[trigger] init[i]).0@ == k;
                assert(es[i] == init[i]);
            } else {
                assert(es[es.len() - 1].0@ == k);
            }
        }
        if exists|i: int| 0 <= i < es.len() && (#[trigger] es[i]).0@ == k {
            let i = choose|i: int| 0 <= i < es.len() && (#[trigger] es[i]).0@ == k;
            if i < es.len() - 1 {
                assert(init[i] == es[i]);
            }
        }
    }
}

/// With unique keys, each entry's key maps to its value.
pub proof fn lemma_entries_map_value(es: Seq<(String, String)>, i: int)
    requires
        keys_unique(es),
        0 <= i < es.len(),
    ensures
        entries_map(es).dom().contains(es[i].0@),
        entries_map(es)[es[i].0@] == es[i].1@,
    decreases es.len(),
{
    let init = es.drop_last();
    if i < es.len() - 1 {
        assert(keys_unique(init)) by {
            assert forall|a: int, b: int| 0 <= a < b < init.len() implies (#[trigger] init[a]).0@
                != (#[trigger] init[b]).0@ by {
                assert(init[a] == es[a] && init[b] == es[b]);
            }
        }
        assert(init[i] == es[i]);
        lemma_entries_map_value(init, i);
        assert(es[i].0@ != es[es.len() - 1].0@);
    }
}

/// Removing an entry with a unique key removes that key from the map.
pub proof fn lemma_entries_map_remove(es: Seq<(String, String)>, i: int)
    requires
        keys_unique(es),
        0 <= i < es.len(),
    ensures
        entries_map(es.remove(i)) == entries_map(es).remove(es[i].0@),
        keys_unique(es.remove(i)),
    decreases es.len(),
{
    let init = es.drop_last();
    let r = es.remove(i);
    assert(keys_unique(init)) by {
        assert forall|a: int, b: int| 0 <= a < b < init.len() implies (#[trigger] init[a]).0@
            != (#[trigger] init[b]).0@ by {
            assert(init[a] == es[a] && init[b] == es[b]);
        }
    }
    assert(keys_unique(r)) by {
        assert forall|a: int, b: int| 0 <= a < b < r.len() implies (#[trigger] r[a]).0@
            != (#[trigger] r[b]).0@ by {
            let a0 = if a < i { a } else { a + 1 };
            let b0 = if b < i { b } else { b + 1 };
            assert(r[a] == es[a0] && r[b] == es[b0]);
        }
    }
    if i == es.len() - 1 {
        assert(r == init);
        assert forall|k: Seq<char>| #[trigger] entries_map(init).dom().contains(k) implies k
            != es[i].0@ by {
            lemma_entries_map_dom(init, k);
            let j = choose|j: int| 0 <= j < init.len() && (#[trigger] init[j]).0@ == k;
            assert(init[j] == es[j]);
        }
        assert(entries_map(r) =~= entries_map(es).remove(es[i].0@));
    } else {
        lemma_entries_map_remove(init, i);
        assert(init.remove(i) == r.drop_last());
        assert(r.last() == es.last());
        assert(init[i] == es[i]);
        assert(es[i].0@ != es.last().0@);
        assert(entries_map(r) =~= entries_map(es).remove(es[i].0@));
    }
}

/// Replacing the value of an entry with a unique key updates that key in the map.
pub proof fn lemma_entries_map_update(es: Seq<(String, String)>, i: int, v: String)
    requires
        keys_unique(es),
        0 <= i < es.len(),
    ensures
        entries_map(es.update(i, (es[i].0, v))) == entries_map(es).insert(es[i].0@, v@),
        keys_unique(es.update(i, (es[i].0, v))),
    decreases es.len(),
{
    let init = es.drop_last();
    let u = es.update(i, (es[i].0, v));
    assert(keys_unique(init)) by {
        assert forall|a: int, b: int| 0 <= a < b < init.len() implies (#[trigger] init[a]).0@
            != (#[trigger] init[b]).0@ by {
            assert(init[a] == es[a] && init[b] == es[b]);
        }
    }
    assert(keys_unique(u)) by {
        assert forall|a: int, b: int| 0 <= a < b < u.len() implies (#[trigger] u[a]).0@
            != (#[trigger] u[b]).0@ by {
            assert(u[a].0 == es[a].0 && u[b].0 == es[b].0);
        }
    }
    if i == es.len() - 1 {
        assert(u.drop_last() == init);
        assert(entries_map(u) =~= entries_map(es).insert(es[i].0@, v@));
    } else {
        lemma_entries_map_update(init, i, v);
        assert(init.update(i, (init[i].0, v)) == u.drop_last());
        assert(init[i] == es[i]);
        assert(u.last() == es.last());
        assert(es[i].0@ != es.last().0@);
        assert(entries_map(u) =~= entries_map(es).insert(es[i].0@, v@));
    }
}

/// Annotations of commits: at most one non-empty note per commit id.
#[derive(Debug)]
pub struct CommitAnnotations {
    entries: Vec<(String, String)>,
}

impl View for CommitAnnotations {
    type V = Map<Seq<char>, Seq<char>>;

    closed spec fn view(&self) -> Map<Seq<char>, Seq<char>> {
        entries_map(self.entries@)
    }
}

/// Where key `k` sits among `es`, if anywhere.
fn position_of(es: &Vec<(String, String)>, k: &str) -> (r: Option<usize>)
    ensures
        match r {
            Some(i) => i < es@.len() && es@[i as int].0@ == k@,
            None => forall|i: int| 0 <= i < es@.len() ==> (#[trigger] es@[i]).0@ != k@,
        },
{
    let mut i: usize = 0;
    while i < es.len()
        invariant
            i <= es@.len(),
            forall|j: int| 0 <= j < i ==> (#[trigger] es@[j]).0@ != k@,
        decreases es@.len() - i,
    {
        if str_eq(es[i].0.as_str(), k) {
            return Some(i);
        }
        i += 1;
    }
    None
}

impl CommitAnnotations {
    #[verifier::type_invariant]
    spec fn well_formed(self) -> bool {
        keys_unique(self.entries@)
    }

    /// No annotations.
    pub fn new() -> (a: Self)
        ensures
            a@ == Map::<Seq<char>, Seq<char>>::empty(),
    {
        CommitAnnotations { entries: Vec::new() }
    }

    /// The note on `commit_id`, if there is one.
    pub fn get(&self, commit_id: &str) -> (r: Option<&str>)
        ensures
            match r {
                Some(s) => self@.dom().contains(commit_id@) && self@[commit_id@] == s@,
                None => !self@.dom().contains(commit_id@),
            },
    {
        proof {
            use_type_invariant(self);
        }
        match position_of(&self.entries, commit_id) {
            Some(i) => {
                proof {
                    lemma_entries_map_value(self.entries@, i as int);
                }
                Some(self.entries[i].1.as_str())
            },
            None => {
                proof {
                    lemma_entries_map_dom(self.entries@, commit_id@);
                }
                None
            },
        }
    }

    /// Sets the note on `commit_id`; an empty note removes it.
    pub fn set(&mut self, commit_id: String, annotation: String)
        ensures
            annotation@.len() == 0 ==> final(self)@ == old(self)@.remove(commit_id@),
            annotation@.len() > 0 ==> final(self)@ == old(self)@.insert(commit_id@, annotation@),
    {
        if annotation.as_str().is_empty() {
            self.remove(commit_id.as_str());
            return;
        }
        proof {
            use_type_invariant(&*self);
        }
        let mut es: Vec<(String, String)> = Vec::new();
        std::mem::swap(&mut es, &mut self.entries);
        let ghost before = es@;
        match position_of(&es, commit_id.as_str()) {
            Some(i) => {
                let key = es[i].0.clone();
                proof {
                    lemma_entries_map_update(before, i as int, annotation);
                }
                es.set(i, (key, annotation));
                proof {
                    assert(es@ == before.update(i as int, (before[i as int].0, annotation)));
                }
            },
            None => {
                proof {
                    assert(keys_unique(before.push((commit_id, annotation)))) by {
                        let p = before.push((commit_id, annotation));
                        assert forall|a: int, b: int| 0 <= a < b < p.len() implies (
                        #[trigger] p[a]).0@ != (#[trigger] p[b]).0@ by {
                            if b == before.len() {
                                assert(p[a] == before[a]);
                            } else {
                                assert(p[a] == before[a] && p[b] == before[b]);
                            }
                        }
                    }
                    assert(before.push((commit_id, annotation)).drop_last() == before);
                }
                es.push((commit_id, annotation));
            },
        }
        self.entries = es;
    }

    /// Removes the note on `commit_id`, handing it back if there was one.
    pub fn remove(&mut self, commit_id: &str) -> (r: Option<String>)
        ensures
            final(self)@ == old(self)@.remove(commit_id@),
            match r {
                Some(s) => old(self)@.dom().contains(commit_id@) && old(self)@[commit_id@] == s@,
                None => !old(self)@.dom().contains(commit_id@),
            },
    {
        proof {
            use_type_invariant(&*self);
        }
        let mut es: Vec<(String, String)> = Vec::new();
        std::mem::swap(&mut es, &mut self.entries);
        let ghost before = es@;
        let r = match position_of(&es, commit_id) {
            Some(i) => {
                proof {
                    lemma_entries_map_value(before, i as int);
                    lemma_entries_map_remove(before, i as int);
                }
                let (_, note) = es.remove(i);
                Some(note)
            },
            None => {
                proof {
                    lemma_entries_map_dom(before, commit_id@);
                    assert(entries_map(before).remove(commit_id@) =~= entries_map(before));
                }
                None
            },
        };
        self.entries = es;
        r
    }

    /// Whether `commit_id` has a note.
    pub fn has_annotation(&self, commit_id: &str) -> (b: bool)
        ensures
            b == self@.dom().contains(commit_id@),
    {
        proof {
            use_type_invariant(self);
            lemma_entries_map_dom(self.entries@, commit_id@);
        }
        position_of(&self.entries, commit_id).is_some()
    }

    /// How many commits have notes.
    pub fn count(&self) -> (n: usize)
        ensures
            n == self@.len(),
    {
        proof {
            use_type_invariant(self);
            lemma_entries_map_len(self.entries@);
        }
        self.entries.len()
    }

    /// The notes as `(commit id, note)` pairs, each commit once.
    pub fn iter(&self) -> (r: &[(String, String)])
        ensures
            entries_map(r@) == self@,
            keys_unique(r@),
    {
        proof {
            use_type_invariant(self);
        }
        self.entries.as_slice()
    }
}

/// With unique keys, the map has one key per entry.
pub proof fn lemma_entries_map_len(es: Seq<(String, String)>)
    requires
        keys_unique(es),
    ensures
        entries_map(es).dom().finite(),
        entries_map(es).len() == es.len(),
    decreases es.len(),
{
    if es.len() > 0 {
        let init = es.drop_last();
        assert(keys_unique(init)) by {
            assert forall|a: int, b: int| 0 <= a < b < init.len() implies (#[trigger] init[a]).0@
                != (#[trigger] init[b]).0@ by {
                assert(init[a] == es[a] && init[b] == es[b]);
            }
        }
        lemma_entries_map_len(init);
        lemma_entries_map_dom(init, es.last().0@);
        if entries_map(init).dom().contains(es.last().0@) {
            let j = choose|j: int| 0 <= j < init.len() && (#[trigger] init[j]).0@ == es.last().0@;
            assert(init[j] == es[j]);
            assert(false);
        }
    }
}

impl Default for CommitAnnotations {
    fn default() -> (a: Self)
        ensures
            a@ == Map::<Seq<char>, Seq<char>>::empty(),
    {
        CommitAnnotations::new()
    }
}

/// A note that was set is read back as set; setting an empty note leaves the commit
/// without one; removing a note leaves the commit without one; other commits keep theirs.
pub proof fn lemma_annotation_round_trip(
    m: Map<Seq<char>, Seq<char>>,
    id: Seq<char>,
    other: Seq<char>,
    note: Seq<char>,
)
    requires
        other != id,
    ensures
        note.len() > 0 ==> m.insert(id, note).dom().contains(id) && m.insert(id, note)[id] == note,
        !m.remove(id).dom().contains(id),
        m.dom().contains(other) ==> m.insert(id, note).dom().contains(other) && m.insert(id, note)[other] == m[other]
            && m.remove(id).dom().contains(other) && m.remove(id)[other] == m[other],
{
}

} // verus!
