use vstd::prelude::*;
use crate::cursor::{pos_lt, position_less, CursorPosition};
use crate::text::str_eq;

verus! {

/// A remembered position, optionally with a name.
#[derive(Debug)]
pub struct Bookmark {
    pub position: CursorPosition,
    pub name: Option<String>,
}

impl Clone for Bookmark {
    fn clone(&self) -> (r: Self)
        ensures
            r == *self,
    {
        Bookmark {
            position: self.position,
            name: match &self.name {
                Some(n) => Some(n.clone()),
                None => None,
            },
        }
    }
}

impl Bookmark {
    pub fn new(position: CursorPosition) -> (b: Self)
        ensures
            b.position == position,
            b.name is None,
    {
        Self { position, name: None }
    }

    pub fn with_name(position: CursorPosition, name: String) -> (b: Self)
        ensures
            b.position == position,
            b.name == Some(name),
    {
        Self { position, name: Some(name) }
    }
}

/// The name index after the bookmark at `index` (named `name`, if any) is removed: that name
/// is dropped and every index above `index` moves down by one.
pub open spec fn names_after_removal(
    names: Map<Seq<char>, usize>,
    name: Option<Seq<char>>,
    index: usize,
) -> Map<Seq<char>, usize> {
    Map::new(
        |k: Seq<char>| names.contains_key(k) && name != Some(k),
        |k: Seq<char>| if names[k] > index { (names[k] - 1) as usize } else { names[k] },
    )
}

/// The name index built by adding the bookmarks of `s` one after the other to an empty
/// manager.
pub open spec fn names_of_added(s: Seq<Bookmark>) -> Map<Seq<char>, usize>
    decreases s.len(),
{
    if s.len() == 0 {
        Map::empty()
    } else {
        let m = names_of_added(s.drop_last());
        match s.last().name {
            Some(n) => m.insert(n@, (s.len() - 1) as usize),
            None => m,
        }
    }
}

/// Every name of `names` points at a bookmark of `bms` that carries that name.
pub open spec fn names_point_at(bms: Seq<Bookmark>, names: Map<Seq<char>, usize>) -> bool {
    forall|k: Seq<char>|
        #[trigger] names.contains_key(k) ==> {
            let i = names[k];
            &&& i < bms.len()
            &&& bms[i as int].name matches Some(n) && n@ == k
        }
}

/// The bookmarks of one buffer, with an index from names to positions in the list.
pub struct BookmarkManager {
    bookmarks: Vec<Bookmark>,
    named_bookmarks: Vec<(String, usize)>,
    names: Ghost<Map<Seq<char>, usize>>,
}

impl BookmarkManager {
    /// The bookmarks, in the order they were added.
    pub closed spec fn spec_bookmarks(&self) -> Seq<Bookmark> {
        self.bookmarks@
    }

    /// The index from a name to the position of the bookmark it was last given to.
    pub closed spec fn spec_names(&self) -> Map<Seq<char>, usize> {
        self.names@
    }

    /// The representation is consistent, and every indexed name points at a bookmark that
    /// carries that name.
    pub closed spec fn wf(&self) -> bool {
        self.wf_index() && self.names_point_at_owners()
    }

    /// Every indexed name points at a bookmark that carries that name.
    pub closed spec fn names_point_at_owners(&self) -> bool {
        names_point_at(self.bookmarks@, self.names@)
    }

    /// In a well-formed manager every indexed name points at a bookmark of the list that
    /// carries that name.
    pub proof fn lemma_names_point_at_owners(&self)
        requires
            self.wf(),
        ensures
            names_point_at(self.spec_bookmarks(), self.spec_names()),
    {
    }

    pub fn new() -> (m: Self)
        ensures
            m.wf(),
            m.spec_bookmarks() == Seq::<Bookmark>::empty(),
            m.spec_names() == Map::<Seq<char>, usize>::empty(),
    {
        Self { bookmarks: Vec::new(), named_bookmarks: Vec::new(), names: Ghost(Map::empty()) }
    }

    fn find_name(&self, name: &str) -> (r: Option<usize>)
        requires
            self.wf(),
        ensures
            r matches Some(j) ==> j < self.named_bookmarks@.len() && self.named_bookmarks@[j as int].0@
                == name@,
            r is None ==> !self.names@.contains_key(name@),
    {
        let mut j: usize = 0;
        while j < self.named_bookmarks.len()
            invariant
                self.wf(),
                0 <= j <= self.named_bookmarks@.len(),
                forall|i: int| 0 <= i < j ==> self.named_bookmarks@[i].0@ != name@,
            decreases self.named_bookmarks@.len() - j,
        {
            if str_eq(self.named_bookmarks[j].0.as_str(), name) {
                return Some(j);
            }
            j += 1;
        }
        None
    }

    /// Gives `name` to index `index` in the name index.
    fn set_name(&mut self, name: String, index: usize)
        requires
            old(self).wf_index(),
        ensures
            final(self).wf_index(),
            final(self).bookmarks@ == old(self).bookmarks@,
            final(self).names@ == old(self).names@.insert(name@, index),
    {
        let ghost key = name@;
        let found = self.find_name_raw(name.as_str());
        match found {
            Some(j) => {
                self.named_bookmarks.set(j, (name, index));
                proof {
                    assert forall|i: int, l: int|
                        0 <= i < l < self.named_bookmarks@.len() implies (#[trigger] self.named_bookmarks@[i]).0@
                        != (#[trigger] self.named_bookmarks@[l]).0@ by {
                        assert(old(self).named_bookmarks@[i].0@ != old(self).named_bookmarks@[l].0@);
                    }
                }
            },
            None => {
                self.named_bookmarks.push((name, index));
            },
        }
        self.names = Ghost(self.names@.insert(key, index));
        proof {
            let nb = self.named_bookmarks@;
            let onb = old(self).named_bookmarks@;
            assert forall|k: Seq<char>| #![trigger self.names@.contains_key(k)]
                self.names@.contains_key(k) <==> exists|i: int|
                    0 <= i < nb.len() && (#[trigger] nb[i]).0@ == k by {
                if self.names@.contains_key(k) && k != key {
                    assert(old(self).names@.contains_key(k));
                    let i = choose|i: int| 0 <= i < onb.len() && (#[trigger] onb[i]).0@ == k;
                    assert(nb[i].0@ == k);
                }
                if k == key {
                    match found {
                        Some(j) => { assert(nb[j as int].0@ == k); },
                        None => { assert(nb[nb.len() - 1].0@ == k); },
                    }
                }
                if exists|i: int| 0 <= i < nb.len() && (#[trigger] nb[i]).0@ == k {
                    let i = choose|i: int| 0 <= i < nb.len() && (#[trigger] nb[i]).0@ == k;
                    if k != key {
                        assert(onb[i].0@ == k);
                    }
                }
            }
            assert forall|i: int| 0 <= i < nb.len() implies self.names@[(#[trigger] nb[i]).0@] == nb[i].1 by {
                if nb[i].0@ != key {
                    assert(onb[i] == nb[i]);
                }
            }
            if found is None {
                assert forall|i: int, l: int| 0 <= i < l < nb.len() implies (#[trigger] nb[i]).0@
                    != (#[trigger] nb[l]).0@ by {
                    if l == nb.len() - 1 {
                        assert(onb[i].0@ != key);
                    } else {
                        assert(onb[i] == nb[i] && onb[l] == nb[l]);
                    }
                }
            }
        }
    }

    /// The representation-level part of `wf`, without the link to the bookmark list.
    closed spec fn wf_index(&self) -> bool {
        &&& forall|i: int, j: int|
            0 <= i < j < self.named_bookmarks@.len() ==> (#[trigger] self.named_bookmarks@[i]).0@
                != (#[trigger] self.named_bookmarks@[j]).0@
        &&& forall|k: Seq<char>|
            #![trigger self.names@.contains_key(k)]
            self.names@.contains_key(k) <==> exists|i: int|
                0 <= i < self.named_bookmarks@.len() && (#[trigger] self.named_bookmarks@[i]).0@ == k
        &&& forall|i: int|
            0 <= i < self.named_bookmarks@.len() ==> self.names@[(#[trigger] self.named_bookmarks@[i]).0@]
                == self.named_bookmarks@[i].1
    }

    fn find_name_raw(&self, name: &str) -> (r: Option<usize>)
        requires
            self.wf_index(),
        ensures
            r matches Some(j) ==> j < self.named_bookmarks@.len() && self.named_bookmarks@[j as int].0@
                == name@,
            r is None ==> !self.names@.contains_key(name@) && forall|i: int|
                0 <= i < self.named_bookmarks@.len() ==> self.named_bookmarks@[i].0@ != name@,
    {
        let mut j: usize = 0;
        while j < self.named_bookmarks.len()
            invariant
                self.wf_index(),
                0 <= j <= self.named_bookmarks@.len(),
                forall|i: int| 0 <= i < j ==> self.named_bookmarks@[i].0@ != name@,
            decreases self.named_bookmarks@.len() - j,
        {
            if str_eq(self.named_bookmarks[j].0.as_str(), name) {
                return Some(j);
            }
            j += 1;
        }
        None
    }

    /// Drops `name` from the name index.
    fn remove_name(&mut self, name: &str)
        requires
            old(self).wf_index(),
        ensures
            final(self).wf_index(),
            final(self).bookmarks@ == old(self).bookmarks@,
            final(self).names@ == old(self).names@.remove(name@),
    {
        let found = self.find_name_raw(name);
        if let Some(j) = found {
            self.named_bookmarks.remove(j);
        }
        self.names = Ghost(self.names@.remove(name@));
        proof {
            let nb = self.named_bookmarks@;
            let onb = old(self).named_bookmarks@;
            if let Some(j) = found {
                assert forall|i: int| 0 <= i < nb.len() implies #[trigger] nb[i] == if i < j {
                    onb[i]
                } else {
                    onb[i + 1]
                } by {}
                assert forall|i: int, l: int| 0 <= i < l < nb.len() implies (#[trigger] nb[i]).0@
                    != (#[trigger] nb[l]).0@ by {
                    let oi = if i < j { i } else { i + 1 };
                    let ol = if l < j { l } else { l + 1 };
                    assert(onb[oi].0@ != onb[ol].0@);
                }
                assert forall|i: int| 0 <= i < nb.len() implies self.names@[(#[trigger] nb[i]).0@] == nb[i].1 by {
                    let oi = if i < j { i } else { i + 1 };
                    assert(onb[oi] == nb[i]);
                    assert(onb[oi].0@ != name@);
                }
                assert forall|k: Seq<char>| #![trigger self.names@.contains_key(k)]
                    self.names@.contains_key(k) <==> exists|i: int|
                        0 <= i < nb.len() && (#[trigger] nb[i]).0@ == k by {
                    if self.names@.contains_key(k) {
                        let oi = choose|i: int| 0 <= i < onb.len() && (#[trigger] onb[i]).0@ == k;
                        assert(oi != j);
                        let i = if oi < j { oi } else { oi - 1 };
                        assert(nb[i].0@ == k);
                    }
                    if exists|i: int| 0 <= i < nb.len() && (#[trigger] nb[i]).0@ == k {
                        let i = choose|i: int| 0 <= i < nb.len() && (#[trigger] nb[i]).0@ == k;
                        let oi = if i < j { i } else { i + 1 };
                        assert(onb[oi].0@ == k);
                        assert(oi != j);
                        assert(k != name@);
                    }
                }
            } else {
                assert(self.names@ =~= old(self).names@);
            }
        }
    }

    /// Moves every index above `index` down by one.
    fn shift_names_after(&mut self, index: usize)
        requires
            old(self).wf_index(),
        ensures
            final(self).wf_index(),
            final(self).bookmarks@ == old(self).bookmarks@,
            final(self).names@ == names_after_removal(old(self).names@, None, index),
    {
        let ghost target = names_after_removal(self.names@, None, index);
        let ghost onb = self.named_bookmarks@;
        let n = self.named_bookmarks.len();
        let mut i: usize = 0;
        while i < n
            invariant
                n == self.named_bookmarks@.len() == onb.len(),
                0 <= i <= n,
                self.bookmarks@ == old(self).bookmarks@,
                self.names@ == old(self).names@,
                onb == old(self).named_bookmarks@,
                old(self).wf_index(),
                forall|l: int|
                    0 <= l < n ==> (#[trigger] self.named_bookmarks@[l]).0@ == onb[l].0@,
                forall|l: int|
                    0 <= l < i ==> (#[trigger] self.named_bookmarks@[l]).1 == if onb[l].1 > index {
                        (onb[l].1 - 1) as usize
                    } else {
                        onb[l].1
                    },
                forall|l: int| i <= l < n ==> (#[trigger] self.named_bookmarks@[l]).1 == onb[l].1,
            decreases n - i,
        {
            let v = self.named_bookmarks[i].1;
            if v > index {
                let key = self.named_bookmarks[i].0.clone();
                self.named_bookmarks.set(i, (key, v - 1));
            }
            i += 1;
        }
        self.names = Ghost(target);
        proof {
            let nb = self.named_bookmarks@;
            assert forall|a: int, b: int| 0 <= a < b < nb.len() implies (#[trigger] nb[a]).0@
                != (#[trigger] nb[b]).0@ by {
                assert(onb[a].0@ != onb[b].0@);
            }
            assert forall|k: Seq<char>| #![trigger self.names@.contains_key(k)]
                self.names@.contains_key(k) <==> exists|l: int|
                    0 <= l < nb.len() && (#[trigger] nb[l]).0@ == k by {
                if self.names@.contains_key(k) {
                    assert(old(self).names@.contains_key(k));
                    let l = choose|l: int| 0 <= l < onb.len() && (#[trigger] onb[l]).0@ == k;
                    assert(nb[l].0@ == k);
                }
                if exists|l: int| 0 <= l < nb.len() && (#[trigger] nb[l]).0@ == k {
                    let l = choose|l: int| 0 <= l < nb.len() && (#[trigger] nb[l]).0@ == k;
                    assert(onb[l].0@ == k);
                }
            }
            assert forall|l: int| 0 <= l < nb.len() implies self.names@[(#[trigger] nb[l]).0@] == nb[l].1 by {
                assert(onb[l].0@ == nb[l].0@);
                assert(old(self).names@[onb[l].0@] == onb[l].1);
                assert(old(self).names@.contains_key(onb[l].0@));
            }
        }
    }

    /// Appends `bookmark` and returns its index; a named bookmark takes over its name.
    pub fn add_bookmark(&mut self, bookmark: Bookmark) -> (r: usize)
        requires
            old(self).wf(),
        ensures
            final(self).wf(),
            r == old(self).spec_bookmarks().len(),
            final(self).spec_bookmarks() == old(self).spec_bookmarks().push(bookmark),
            final(self).spec_names() == match bookmark.name {
                Some(n) => old(self).spec_names().insert(n@, r),
                None => old(self).spec_names(),
            },
            forall|k: Seq<char>|
                #[trigger] old(self).spec_names().contains_key(k) && !(bookmark.name matches Some(
                    n,
                ) && n@ == k) ==> final(self).spec_names().contains_key(k)
                    && final(self).spec_bookmarks()[final(self).spec_names()[k] as int]
                    == old(self).spec_bookmarks()[old(self).spec_names()[k] as int],
    {
        let index = self.bookmarks.len();
        let ghost old_names = self.names@;
        let ghost gb = bookmark;
        if let Some(name) = &bookmark.name {
            self.set_name(name.clone(), index);
        }
        let ghost nb = self.named_bookmarks@;
        let ghost nm = self.names@;
        assert(self.wf_index());
        self.bookmarks.push(bookmark);
        assert(self.named_bookmarks@ == nb);
        assert(self.names@ == nm);
        proof {
            assert(self.bookmarks@[index as int] == gb);
            assert forall|k: Seq<char>| #[trigger] self.names@.contains_key(k) implies {
                let i = self.names@[k];
                &&& i < self.bookmarks@.len()
                &&& self.bookmarks@[i as int].name matches Some(n) && n@ == k
            } by {
                let i = self.names@[k];
                let fresh = match gb.name {
                    Some(n) => n@ == k,
                    None => false,
                };
                if !fresh {
                    assert(old_names.contains_key(k));
                    assert(old_names[k] == i);
                    assert(i < index);
                    assert(self.bookmarks@[i as int] == old(self).bookmarks@[i as int]);
                }
            }
            assert(self.wf_index());
            assert(self.names_point_at_owners());
        }
        index
    }

    /// Removes and returns the bookmark at `index`; its name leaves the index and later
    /// indices move down by one. Returns `None` when there is no such bookmark.
    pub fn remove_bookmark(&mut self, index: usize) -> (r: Option<Bookmark>)
        requires
            old(self).wf(),
        ensures
            final(self).wf(),
            index < old(self).spec_bookmarks().len() ==> r == Some(old(self).spec_bookmarks()[index as int])
                && final(self).spec_bookmarks() == old(self).spec_bookmarks().remove(index as int)
                && final(self).spec_names() == names_after_removal(
                old(self).spec_names(),
                match old(self).spec_bookmarks()[index as int].name {
                    Some(n) => Some(n@),
                    None => None,
                },
                index,
            ),
            index >= old(self).spec_bookmarks().len() ==> r is None && final(self).spec_bookmarks()
                == old(self).spec_bookmarks() && final(self).spec_names() == old(self).spec_names(),
            forall|k: Seq<char>|
                #[trigger] final(self).spec_names().contains_key(k) ==> old(self).spec_names().contains_key(k)
                    && final(self).spec_bookmarks()[final(self).spec_names()[k] as int]
                    == old(self).spec_bookmarks()[old(self).spec_names()[k] as int],
    {
        if index < self.bookmarks.len() {
            let ghost old_names = self.names@;
            let ghost old_bms = self.bookmarks@;
            let ghost nb = self.named_bookmarks@;
            let ghost nm = self.names@;
            let bookmark = self.bookmarks.remove(index);
            assert(self.named_bookmarks@ == nb);
            assert(self.names@ == nm);
            if let Some(name) = &bookmark.name {
                self.remove_name(name.as_str());
            }
            let ghost gb = bookmark;
            self.shift_names_after(index);
            proof {
                let nm: Option<Seq<char>> = match gb.name {
                    Some(n) => Some(n@),
                    None => None,
                };
                assert(self.names@ =~= names_after_removal(old_names, nm, index));
                assert forall|k: Seq<char>| #[trigger] self.names@.contains_key(k) implies {
                    let i = self.names@[k];
                    &&& i < self.bookmarks@.len()
                    &&& self.bookmarks@[i as int].name matches Some(n) && n@ == k
                } by {
                    assert(old_names.contains_key(k));
                    let oi = old_names[k];
                    assert(old_bms[oi as int].name matches Some(n) && n@ == k);
                    if oi == index {
                        assert(nm == Some(k));
                    }
                    if oi > index {
                        assert(self.bookmarks@[oi - 1] == old_bms[oi as int]);
                    } else {
                        assert(self.bookmarks@[oi as int] == old_bms[oi as int]);
                    }
                }
            }
            Some(bookmark)
        } else {
            None
        }
    }

    pub fn get_bookmark(&self, index: usize) -> (r: Option<&Bookmark>)
        ensures
            index < self.spec_bookmarks().len() ==> r == Some(&self.spec_bookmarks()[index as int]),
            index >= self.spec_bookmarks().len() ==> r is None,
    {
        if index < self.bookmarks.len() {
            Some(&self.bookmarks[index])
        } else {
            None
        }
    }

    /// The bookmark that `name` was last given to, if the name is indexed.
    pub fn get_bookmark_by_name(&self, name: &str) -> (r: Option<&Bookmark>)
        requires
            self.wf(),
        ensures
            self.spec_names().contains_key(name@) ==> r == Some(
                &self.spec_bookmarks()[self.spec_names()[name@] as int],
            ),
            !self.spec_names().contains_key(name@) ==> r is None,
    {
        match self.find_name(name) {
            Some(j) => {
                let idx = self.named_bookmarks[j].1;
                proof {
                    assert(self.names@.contains_key(self.named_bookmarks@[j as int].0@));
                }
                self.get_bookmark(idx)
            },
            None => None,
        }
    }

    pub fn bookmarks(&self) -> (r: &[Bookmark])
        ensures
            r@ == self.spec_bookmarks(),
    {
        self.bookmarks.as_slice()
    }

    /// Index of the first bookmark at `position`.
    pub fn find_bookmark_at_position(&self, position: CursorPosition) -> (r: Option<usize>)
        ensures
            r matches Some(i) ==> i < self.spec_bookmarks().len() && self.spec_bookmarks()[i as int].position
                == position && forall|j: int|
                0 <= j < i ==> self.spec_bookmarks()[j].position != position,
            r is None ==> forall|j: int|
                0 <= j < self.spec_bookmarks().len() ==> self.spec_bookmarks()[j].position != position,
    {
        let mut i: usize = 0;
        while i < self.bookmarks.len()
            invariant
                0 <= i <= self.bookmarks@.len(),
                forall|j: int| 0 <= j < i ==> self.bookmarks@[j].position != position,
            decreases self.bookmarks@.len() - i,
        {
            if self.bookmarks[i].position == position {
                return Some(i);
            }
            i += 1;
        }
        None
    }

    /// Removes the first bookmark at `position` (returning `false`), or adds an unnamed one
    /// there (returning `true`).
    pub fn toggle_bookmark(&mut self, position: CursorPosition) -> (added: bool)
        requires
            old(self).wf(),
        ensures
            final(self).wf(),
            added == forall|j: int|
                0 <= j < old(self).spec_bookmarks().len() ==> old(self).spec_bookmarks()[j].position
                    != position,
            added ==> final(self).spec_bookmarks() == old(self).spec_bookmarks().push(
                Bookmark { position, name: None },
            ) && final(self).spec_names() == old(self).spec_names(),
            !added ==> exists|i: int|
                0 <= i < old(self).spec_bookmarks().len() && old(self).spec_bookmarks()[i].position
                    == position && (forall|j: int|
                    0 <= j < i ==> old(self).spec_bookmarks()[j].position != position)
                    && final(self).spec_bookmarks() == old(self).spec_bookmarks().remove(i)
                    && final(self).spec_names() == names_after_removal(
                    old(self).spec_names(),
                    match old(self).spec_bookmarks()[i].name {
                        Some(n) => Some(n@),
                        None => None,
                    },
                    i as usize,
                ),
    {
        match self.find_bookmark_at_position(position) {
            Some(index) => {
                self.remove_bookmark(index);
                false
            },
            None => {
                self.add_bookmark(Bookmark::new(position));
                true
            },
        }
    }

    pub fn clear_all(&mut self)
        ensures
            final(self).wf(),
            final(self).spec_bookmarks() == Seq::<Bookmark>::empty(),
            final(self).spec_names() == Map::<Seq<char>, usize>::empty(),
    {
        self.bookmarks.clear();
        self.named_bookmarks.clear();
        self.names = Ghost(Map::empty());
    }

    /// The first bookmark, in list order, that lies after `from`.
    pub fn next_bookmark(&self, from: CursorPosition) -> (r: Option<&Bookmark>)
        ensures
            r matches Some(b) ==> exists|i: int|
                0 <= i < self.spec_bookmarks().len() && *b == self.spec_bookmarks()[i] && pos_lt(
                    from,
                    self.spec_bookmarks()[i].position,
                ) && forall|j: int|
                    0 <= j < i ==> !pos_lt(from, #[trigger] self.spec_bookmarks()[j].position),
            r is None ==> forall|j: int|
                0 <= j < self.spec_bookmarks().len() ==> !pos_lt(
                    from,
                    #[trigger] self.spec_bookmarks()[j].position,
                ),
    {
        let mut i: usize = 0;
        while i < self.bookmarks.len()
            invariant
                0 <= i <= self.bookmarks@.len(),
                forall|j: int| 0 <= j < i ==> !pos_lt(from, #[trigger] self.bookmarks@[j].position),
            decreases self.bookmarks@.len() - i,
        {
            if position_less(&from, &self.bookmarks[i].position) {
                return Some(&self.bookmarks[i]);
            }
            i += 1;
        }
        None
    }

    /// The last bookmark, in list order, that lies before `from`.
    pub fn previous_bookmark(&self, from: CursorPosition) -> (r: Option<&Bookmark>)
        ensures
            r matches Some(b) ==> exists|i: int|
                0 <= i < self.spec_bookmarks().len() && *b == self.spec_bookmarks()[i] && pos_lt(
                    self.spec_bookmarks()[i].position,
                    from,
                ) && forall|j: int|
                    i < j < self.spec_bookmarks().len() ==> !pos_lt(
                        #[trigger] self.spec_bookmarks()[j].position,
                        from,
                    ),
            r is None ==> forall|j: int|
                0 <= j < self.spec_bookmarks().len() ==> !pos_lt(
                    #[trigger] self.spec_bookmarks()[j].position,
                    from,
                ),
    {
        let mut i: usize = self.bookmarks.len();
        while i > 0
            invariant
                0 <= i <= self.bookmarks@.len(),
                forall|j: int|
                    i <= j < self.bookmarks@.len() ==> !pos_lt(#[trigger] self.bookmarks@[j].position, from),
            decreases i,
        {
            if position_less(&self.bookmarks[i - 1].position, &from) {
                return Some(&self.bookmarks[i - 1]);
            }
            i -= 1;
        }
        None
    }
}

impl Default for BookmarkManager {
    fn default() -> (m: Self)
        ensures
            m.wf(),
            m.spec_bookmarks() == Seq::<Bookmark>::empty(),
            m.spec_names() == Map::<Seq<char>, usize>::empty(),
    {
        Self::new()
    }
}

/// The bookmarks of one file, as saved in a session.
#[derive(Debug)]
pub struct FileBookmarks {
    pub file_path: String,
    pub bookmarks: Vec<Bookmark>,
}

fn clone_bookmarks(v: &[Bookmark]) -> (r: Vec<Bookmark>)
    ensures
        r@ == v@,
{
    let mut r: Vec<Bookmark> = Vec::new();
    for i in 0..v.len()
        invariant
            r@ == v@.take(i as int),
    {
        r.push(v[i].clone());
        proof {
            assert(v@.take(i + 1) == v@.take(i as int).push(v@[i as int]));
        }
    }
    proof {
        assert(v@.take(v@.len() as int) == v@);
    }
    r
}

impl View for FileBookmarks {
    type V = (Seq<char>, Seq<Bookmark>);

    open spec fn view(&self) -> (Seq<char>, Seq<Bookmark>) {
        (self.file_path@, self.bookmarks@)
    }
}

impl Clone for FileBookmarks {
    fn clone(&self) -> (r: Self)
        ensures
            r.file_path == self.file_path,
            r.bookmarks@ == self.bookmarks@,
            r@ == self@,
    {
        FileBookmarks { file_path: self.file_path.clone(), bookmarks: clone_bookmarks(self.bookmarks.as_slice()) }
    }
}

impl FileBookmarks {
    pub fn new(file_path: String) -> (f: Self)
        ensures
            f.file_path == file_path,
            f.bookmarks@.len() == 0,
    {
        Self { file_path, bookmarks: Vec::new() }
    }

    pub fn from_manager(file_path: String, manager: &BookmarkManager) -> (f: Self)
        ensures
            f.file_path == file_path,
            f.bookmarks@ == manager.spec_bookmarks(),
    {
        Self { file_path, bookmarks: clone_bookmarks(manager.bookmarks()) }
    }

    /// A manager holding these bookmarks, added one by one in order.
    pub fn to_manager(&self) -> (m: BookmarkManager)
        ensures
            m.wf(),
            m.spec_bookmarks() == self.bookmarks@,
            m.spec_names() == names_of_added(self.bookmarks@),
    {
        let mut manager = BookmarkManager::new();
        for i in 0..self.bookmarks.len()
            invariant
                manager.wf(),
                manager.spec_bookmarks() == self.bookmarks@.take(i as int),
                manager.spec_names() == names_of_added(self.bookmarks@.take(i as int)),
        {
            manager.add_bookmark(self.bookmarks[i].clone());
            proof {
                let t = self.bookmarks@.take(i + 1);
                assert(t.drop_last() == self.bookmarks@.take(i as int));
                assert(t == self.bookmarks@.take(i as int).push(self.bookmarks@[i as int]));
            }
        }
        proof {
            assert(self.bookmarks@.take(self.bookmarks@.len() as int) == self.bookmarks@);
        }
        manager
    }
}


/// No two bookmarks of `bms` carry the same name.
pub open spec fn names_distinct(bms: Seq<Bookmark>) -> bool {
    forall|i: int, j: int|
        0 <= i < j < bms.len() ==> !((#[trigger] bms[i]).name matches Some(a) && (
        #[trigger] bms[j]).name matches Some(b) && a@ == b@)
}

/// Every name a bookmark of `bms` carries is in `names`.
pub open spec fn names_indexed(bms: Seq<Bookmark>, names: Map<Seq<char>, usize>) -> bool {
    forall|i: int|
        0 <= i < bms.len() ==> ((#[trigger] bms[i]).name matches Some(n) ==> names.contains_key(n@))
}

/// Adding bookmarks with distinct names one by one indexes each name at its bookmark.
proof fn lemma_names_of_added(s: Seq<Bookmark>)
    requires
        names_distinct(s),
        s.len() <= usize::MAX,
    ensures
        names_point_at(s, names_of_added(s)),
        forall|i: int|
            0 <= i < s.len() ==> ((#[trigger] s[i]).name matches Some(n) ==> names_of_added(
                s,
            ).contains_key(n@) && names_of_added(s)[n@] == i),
    decreases s.len(),
{
    if s.len() > 0 {
        let t = s.drop_last();
        assert(names_distinct(t)) by {
            assert forall|i: int, j: int| 0 <= i < j < t.len() implies !((#[trigger] t[i]).name matches Some(
                a,
            ) && (#[trigger] t[j]).name matches Some(b) && a@ == b@) by {
                assert(t[i] == s[i] && t[j] == s[j]);
            }
        }
        lemma_names_of_added(t);
        let m = names_of_added(t);
        let a = names_of_added(s);
        assert(a == match s.last().name {
            Some(n) => m.insert(n@, (s.len() - 1) as usize),
            None => m,
        });
        assert forall|k: Seq<char>| #[trigger] a.contains_key(k) implies {
            let i = a[k];
            &&& i < s.len()
            &&& s[i as int].name matches Some(n) && n@ == k
        } by {
            match s.last().name {
                Some(n) => {
                    if n@ == k {
                        assert(a[k] == s.len() - 1);
                    } else {
                        assert(m.contains_key(k));
                        assert(s[m[k] as int] == t[m[k] as int]);
                    }
                },
                None => {
                    assert(s[m[k] as int] == t[m[k] as int]);
                },
            }
        }
        assert forall|i: int| 0 <= i < s.len() implies ((#[trigger] s[i]).name matches Some(n)
            ==> a.contains_key(n@) && a[n@] == i) by {
            if i == s.len() - 1 {
                assert(s[i] == s.last());
            } else {
                assert(s[i] == t[i]);
                if let Some(n) = s[i].name {
                    assert(m.contains_key(n@) && m[n@] == i);
                    if let Some(l) = s.last().name {
                        assert(s.last() == s[s.len() - 1]);
                        assert(l@ != n@);
                    }
                }
            }
        }
    }
}

/// Bookmarks with distinct names, all of them indexed, are indexed exactly as adding them
/// one by one indexes them: `FileBookmarks::from_manager` followed by `to_manager` gives
/// back the manager's name index. (When two bookmarks once shared a name and one was
/// removed, the name left the index, and the round trip puts it back.)
pub proof fn lemma_to_manager_round_trip(m: &BookmarkManager)
    requires
        m.wf(),
        names_distinct(m.spec_bookmarks()),
        names_indexed(m.spec_bookmarks(), m.spec_names()),
    ensures
        names_of_added(m.spec_bookmarks()) == m.spec_names(),
{
    let s = m.spec_bookmarks();
    let names = m.spec_names();
    assert(s.len() == m.bookmarks.len());
    m.lemma_names_point_at_owners();
    lemma_names_of_added(s);
    let a = names_of_added(s);
    assert forall|k: Seq<char>| a.contains_key(k) <==> names.contains_key(k) by {
        if a.contains_key(k) {
            let i = a[k] as int;
            assert(s[i].name matches Some(n) && n@ == k);
        }
        if names.contains_key(k) {
            let i = names[k] as int;
            assert(s[i].name matches Some(n) && n@ == k);
        }
    }
    assert forall|k: Seq<char>| #[trigger] a.contains_key(k) implies a[k] == names[k] by {
        let i = names[k] as int;
        assert(s[i].name matches Some(n) && n@ == k);
    }
    assert(a =~= names);
}
} // verus!
