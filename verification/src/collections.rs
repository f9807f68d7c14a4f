use vstd::prelude::*;

use crate::types::{Pos, Resource};

verus! {

/// `entries` lists each key of `m` exactly once, with its value.
pub open spec fn entries_match(entries: Seq<(Pos, Resource)>, m: Map<Pos, Resource>) -> bool {
    &&& forall|i: int, j: int|
        0 <= i < entries.len() && 0 <= j < entries.len() && i != j ==> entries[i].0 != entries[j].0
    &&& forall|i: int|
        0 <= i < entries.len() ==> #[trigger] m.contains_key(entries[i].0) && m[entries[i].0]
            == entries[i].1
    &&& forall|p: Pos| #[trigger]
        m.contains_key(p) ==> exists|i: int| 0 <= i < entries.len() && entries[i].0 == p
    &&& m.dom().finite()
    &&& m.len() == entries.len()
}

/// `items` lists each member of `s` exactly once.
pub open spec fn items_match(items: Seq<Pos>, s: Set<Pos>) -> bool {
    &&& items.no_duplicates()
    &&& forall|i: int| 0 <= i < items.len() ==> #[trigger] s.contains(items[i])
    &&& forall|p: Pos| #[trigger] s.contains(p) ==> exists|i: int| 0 <= i < items.len() && items[i] == p
    &&& s.finite()
    &&& s.len() == items.len()
}

/// A map from positions to deposits, which keeps its keys in the order in
/// which they were first inserted.
pub struct ResourceMap {
    entries: Vec<(Pos, Resource)>,
    model: Ghost<Map<Pos, Resource>>,
}

impl View for ResourceMap {
    type V = Map<Pos, Resource>;

    closed spec fn view(&self) -> Map<Pos, Resource> {
        self.model@
    }
}

impl ResourceMap {
    /// The entries, oldest key first.
    pub closed spec fn entries(&self) -> Seq<(Pos, Resource)> {
        self.entries@
    }

    pub open spec fn wf(&self) -> bool {
        entries_match(self.entries(), self@)
    }

    /// An empty map.
    pub fn new() -> (r: Self)
        ensures
            r.wf(),
            r@ == Map::<Pos, Resource>::empty(),
            r.entries() == Seq::<(Pos, Resource)>::empty(),
    {
        ResourceMap { entries: Vec::new(), model: Ghost(Map::empty()) }
    }

    /// The number of keys.
    pub fn len(&self) -> (r: usize)
        requires
            self.wf(),
        ensures
            r == self@.len(),
            r == self.entries().len(),
    {
        self.entries.len()
    }

    /// Whether the map has no key.
    pub fn is_empty(&self) -> (r: bool)
        requires
            self.wf(),
        ensures
            r == (self@.len() == 0),
            r == (self@ == Map::<Pos, Resource>::empty()),
    {
        if self.entries.len() == 0 {
            assert(self@.dom() =~= Set::<Pos>::empty());
            assert(self@ =~= Map::<Pos, Resource>::empty());
            true
        } else {
            assert(self@.contains_key(self.entries@[0].0));
            false
        }
    }

    /// The index in `entries` of the key `pos`, if it is a key.
    fn find(&self, pos: Pos) -> (r: Option<usize>)
        requires
            self.wf(),
        ensures
            match r {
                Some(i) => i < self.entries().len() && self.entries()[i as int].0 == pos,
                None => !self@.contains_key(pos),
            },
    {
        let mut i: usize = 0;
        while i < self.entries.len()
            invariant
                self.wf(),
                i <= self.entries@.len(),
                forall|j: int| 0 <= j < i ==> self.entries@[j].0 != pos,
            decreases self.entries@.len() - i,
        {
            if self.entries[i].0 == pos {
                return Some(i);
            }
            i = i + 1;
        }
        None
    }

    /// The entry at index `i` of the insertion order.
    pub fn entry_at(&self, i: usize) -> (r: (Pos, Resource))
        requires
            self.wf(),
            i < self.entries().len(),
        ensures
            r == self.entries()[i as int],
            self@.contains_key(r.0),
            self@[r.0] == r.1,
    {
        self.entries[i]
    }

    /// Whether `pos` is a key.
    pub fn contains_key(&self, pos: &Pos) -> (r: bool)
        requires
            self.wf(),
        ensures
            r == self@.contains_key(*pos),
    {
        self.find(*pos).is_some()
    }

    /// The deposit at `pos`, if any.
    pub fn get(&self, pos: &Pos) -> (r: Option<Resource>)
        requires
            self.wf(),
        ensures
            r == (if self@.contains_key(*pos) { Some(self@[*pos]) } else { None::<Resource> }),
    {
        match self.find(*pos) {
            Some(i) => Some(self.entries[i].1),
            None => None,
        }
    }

    /// Sets the deposit at `pos`; a new key goes last in the order.
    pub fn insert(&mut self, pos: Pos, res: Resource)
        requires
            old(self).wf(),
        ensures
            final(self).wf(),
            final(self)@ == old(self)@.insert(pos, res),
            old(self)@.contains_key(pos) ==> exists|i: int|
                0 <= i < old(self).entries().len() && old(self).entries()[i].0 == pos && final(self).entries()
                    == old(self).entries().update(i, (pos, res)),
            !old(self)@.contains_key(pos) ==> final(self).entries() == old(self).entries().push((pos, res)),
    {
        let ghost old_m = self.model@;
        let ghost old_e = self.entries@;
        match self.find(pos) {
            Some(i) => {
                self.entries.set(i, (pos, res));
                self.model = Ghost(old_m.insert(pos, res));
                assert(old_m.dom().insert(pos) =~= old_m.dom());
                assert forall|p: Pos| #[trigger] self.model@.contains_key(p) implies exists|k: int|
                    0 <= k < self.entries@.len() && self.entries@[k].0 == p by {
                    if p != pos {
                        let k = choose|k: int| 0 <= k < old_e.len() && old_e[k].0 == p;
                        assert(self.entries@[k].0 == p);
                    } else {
                        assert(self.entries@[i as int].0 == p);
                    }
                }
            },
            None => {
                self.entries.push((pos, res));
                self.model = Ghost(old_m.insert(pos, res));
                assert forall|p: Pos| #[trigger] self.model@.contains_key(p) implies exists|k: int|
                    0 <= k < self.entries@.len() && self.entries@[k].0 == p by {
                    if p != pos {
                        let k = choose|k: int| 0 <= k < old_e.len() && old_e[k].0 == p;
                        assert(self.entries@[k].0 == p);
                    } else {
                        assert(self.entries@[old_e.len() as int].0 == p);
                    }
                }
            },
        }
    }

    /// Removes the key `pos`, if present; the other keys keep their order.
    pub fn remove(&mut self, pos: &Pos)
        requires
            old(self).wf(),
        ensures
            final(self).wf(),
            final(self)@ == old(self)@.remove(*pos),
            old(self)@.contains_key(*pos) ==> exists|i: int|
                0 <= i < old(self).entries().len() && old(self).entries()[i].0 == *pos && final(self).entries()
                    == old(self).entries().remove(i),
            !old(self)@.contains_key(*pos) ==> final(self).entries() == old(self).entries(),
    {
        let ghost old_m = self.model@;
        let ghost old_e = self.entries@;
        match self.find(*pos) {
            Some(i) => {
                self.entries.remove(i);
                self.model = Ghost(old_m.remove(*pos));
                assert forall|a: int, b: int|
                    0 <= a < self.entries@.len() && 0 <= b < self.entries@.len() && a != b implies
                    self.entries@[a].0 != self.entries@[b].0 by {
                    let a0 = if a < i { a } else { a + 1 };
                    let b0 = if b < i { b } else { b + 1 };
                    assert(self.entries@[a] == old_e[a0]);
                    assert(self.entries@[b] == old_e[b0]);
                }
                assert forall|k: int| 0 <= k < self.entries@.len() implies #[trigger]
                    self.model@.contains_key(self.entries@[k].0) && self.model@[self.entries@[k].0]
                        == self.entries@[k].1 by {
                    let k0 = if k < i { k } else { k + 1 };
                    assert(self.entries@[k] == old_e[k0]);
                    assert(k0 != i);
                    assert(old_e[k0].0 != old_e[i as int].0);
                    assert(old_m.contains_key(old_e[k0].0));
                    assert(old_m[old_e[k0].0] == old_e[k0].1);
                }
                assert forall|p: Pos| #[trigger] self.model@.contains_key(p) implies exists|k: int|
                    0 <= k < self.entries@.len() && self.entries@[k].0 == p by {
                    let k0 = choose|k: int| 0 <= k < old_e.len() && old_e[k].0 == p;
                    assert(k0 != i);
                    let k = if k0 < i { k0 } else { k0 - 1 };
                    assert(self.entries@[k] == old_e[k0]);
                }
            },
            None => {
                assert(old_m.remove(*pos) =~= old_m);
            },
        }
    }
}

impl Default for ResourceMap {
    fn default() -> (r: Self)
        ensures
            r.wf(),
            r@ == Map::<Pos, Resource>::empty(),
    {
        ResourceMap::new()
    }
}

/// A set of positions, which keeps them in the order in which they were
/// first inserted.
pub struct PosSet {
    items: Vec<Pos>,
    model: Ghost<Set<Pos>>,
}

impl View for PosSet {
    type V = Set<Pos>;

    closed spec fn view(&self) -> Set<Pos> {
        self.model@
    }
}

impl PosSet {
    /// The members, oldest first.
    pub closed spec fn items(&self) -> Seq<Pos> {
        self.items@
    }

    pub open spec fn wf(&self) -> bool {
        items_match(self.items(), self@)
    }

    /// An empty set.
    pub fn new() -> (r: Self)
        ensures
            r.wf(),
            r@ == Set::<Pos>::empty(),
    {
        PosSet { items: Vec::new(), model: Ghost(Set::empty()) }
    }

    /// The number of members.
    pub fn len(&self) -> (r: usize)
        requires
            self.wf(),
        ensures
            r == self@.len(),
    {
        self.items.len()
    }

    /// Whether the set has no member.
    pub fn is_empty(&self) -> (r: bool)
        requires
            self.wf(),
        ensures
            r == (self@.len() == 0),
            r == (self@ == Set::<Pos>::empty()),
    {
        if self.items.len() == 0 {
            assert(self@ =~= Set::<Pos>::empty());
            true
        } else {
            assert(self@.contains(self.items@[0]));
            false
        }
    }

    fn find(&self, pos: Pos) -> (r: Option<usize>)
        requires
            self.wf(),
        ensures
            match r {
                Some(i) => i < self.items().len() && self.items()[i as int] == pos,
                None => !self@.contains(pos),
            },
    {
        let mut i: usize = 0;
        while i < self.items.len()
            invariant
                self.wf(),
                i <= self.items@.len(),
                forall|j: int| 0 <= j < i ==> self.items@[j] != pos,
            decreases self.items@.len() - i,
        {
            if self.items[i] == pos {
                return Some(i);
            }
            i = i + 1;
        }
        None
    }

    /// Whether `pos` is a member.
    pub fn contains(&self, pos: &Pos) -> (r: bool)
        requires
            self.wf(),
        ensures
            r == self@.contains(*pos),
    {
        self.find(*pos).is_some()
    }

    /// Adds `pos`; returns whether it was new.
    pub fn insert(&mut self, pos: Pos) -> (r: bool)
        requires
            old(self).wf(),
        ensures
            final(self).wf(),
            final(self)@ == old(self)@.insert(pos),
            r == !old(self)@.contains(pos),
            r ==> final(self).items() == old(self).items().push(pos),
            !r ==> final(self).items() == old(self).items(),
    {
        let ghost old_s = self.model@;
        let ghost old_i = self.items@;
        match self.find(pos) {
            Some(_) => {
                assert(old_s.insert(pos) =~= old_s);
                false
            },
            None => {
                self.items.push(pos);
                self.model = Ghost(old_s.insert(pos));
                assert forall|p: Pos| #[trigger] self.model@.contains(p) implies exists|k: int|
                    0 <= k < self.items@.len() && self.items@[k] == p by {
                    if p != pos {
                        let k = choose|k: int| 0 <= k < old_i.len() && old_i[k] == p;
                        assert(self.items@[k] == p);
                    } else {
                        assert(self.items@[old_i.len() as int] == p);
                    }
                }
                true
            },
        }
    }

    /// Removes `pos`, if present.
    pub fn remove(&mut self, pos: &Pos)
        requires
            old(self).wf(),
        ensures
            final(self).wf(),
            final(self)@ == old(self)@.remove(*pos),
            old(self)@.contains(*pos) ==> exists|i: int|
                0 <= i < old(self).items().len() && old(self).items()[i] == *pos && final(self).items()
                    == old(self).items().remove(i),
            !old(self)@.contains(*pos) ==> final(self).items() == old(self).items(),
    {
        let ghost old_s = self.model@;
        let ghost old_i = self.items@;
        match self.find(*pos) {
            Some(i) => {
                self.items.remove(i);
                self.model = Ghost(old_s.remove(*pos));
                assert forall|a: int, b: int|
                    0 <= a < self.items@.len() && 0 <= b < self.items@.len() && a != b implies
                    self.items@[a] != self.items@[b] by {
                    let a0 = if a < i { a } else { a + 1 };
                    let b0 = if b < i { b } else { b + 1 };
                    assert(self.items@[a] == old_i[a0]);
                    assert(self.items@[b] == old_i[b0]);
                }
                assert forall|k: int| 0 <= k < self.items@.len() implies #[trigger]
                    self.model@.contains(self.items@[k]) by {
                    let k0 = if k < i { k } else { k + 1 };
                    assert(self.items@[k] == old_i[k0]);
                    assert(k0 != i);
                }
                assert forall|p: Pos| #[trigger] self.model@.contains(p) implies exists|k: int|
                    0 <= k < self.items@.len() && self.items@[k] == p by {
                    let k0 = choose|k: int| 0 <= k < old_i.len() && old_i[k] == p;
                    assert(k0 != i);
                    let k = if k0 < i { k0 } else { k0 - 1 };
                    assert(self.items@[k] == old_i[k0]);
                }
            },
            None => {
                assert(old_s.remove(*pos) =~= old_s);
            },
        }
    }
}

impl Default for PosSet {
    fn default() -> (r: Self)
        ensures
            r.wf(),
            r@ == Set::<Pos>::empty(),
    {
        PosSet::new()
    }
}

} // verus!
