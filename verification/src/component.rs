//! Per-entity component storage: a registry of typed values keyed by an
//! explicit component tag and an entity id, accessed through a tagged value
//! type the caller supplies instead of reflection-based dynamic casts.

use vstd::prelude::*;

verus! {

use crate::entity::EntityId;

/// The callers' components attached to entities: at most one value per
/// (tag, entity) key.
pub struct ComponentStorage<C> {
    data: Vec<(u32, u64, C)>,
}

/// Some entry of `src` at or past `lo`, not owned by `ent`, equals `e`.
spec fn from_others<C>(e: (u32, u64, C), src: Seq<(u32, u64, C)>, lo: int, ent: EntityId) -> bool {
    exists|j: int| lo <= j < src.len() && src[j] == e && src[j].1 != ent.0
}

impl<C> ComponentStorage<C> {
    /// The stored entries, in storage order.
    pub closed spec fn spec_entries(&self) -> Seq<(u32, u64, C)> {
        self.data@
    }

    /// Whether a component with this tag is attached to the entity.
    pub closed spec fn spec_has(&self, ent: EntityId, tag: u32) -> bool {
        exists|i: int| 0 <= i < self.data@.len()
            && (#[trigger] self.data@[i]).0 == tag && self.data@[i].1 == ent.0
    }

    /// Index of the entry for this key.
    pub closed spec fn spec_idx(&self, ent: EntityId, tag: u32) -> int {
        choose|i: int| 0 <= i < self.data@.len()
            && self.data@[i].0 == tag && self.data@[i].1 == ent.0
    }

    /// The component attached under this key (meaningful only when
    /// `spec_has`).
    pub closed spec fn spec_get(&self, ent: EntityId, tag: u32) -> C {
        self.data@[self.spec_idx(ent, tag)].2
    }

    /// At most one entry per (tag, entity) key.
    pub closed spec fn wf(&self) -> bool {
        forall|i: int, j: int| 0 <= i < j < self.data@.len()
            ==> !((#[trigger] self.data@[i]).0 == (#[trigger] self.data@[j]).0
                && self.data@[i].1 == self.data@[j].1)
    }

    /// Under `wf`, an index holding the key is the one the lookup specs read.
    proof fn lemma_at_index(&self, i: int, ent: EntityId, tag: u32)
        requires
            self.wf(),
            0 <= i < self.data@.len(),
            self.data@[i].0 == tag,
            self.data@[i].1 == ent.0,
        ensures
            self.spec_has(ent, tag),
            self.spec_idx(ent, tag) == i,
            self.spec_get(ent, tag) == self.data@[i].2,
    {
        let j = self.spec_idx(ent, tag);
        if j != i {
            assert(!(self.data@[i].0 == self.data@[j].0 && self.data@[i].1 == self.data@[j].1));
        }
    }

    /// Writing one entry in place, key unchanged, preserves well-formedness
    /// and every other key's component; lets callers of `get_mut` rebuild the
    /// storage's contract after writing through the returned reference.
    pub proof fn lemma_update_in_place(m0: Self, m1: Self, i: int, v: C)
        requires
            m0.wf(),
            0 <= i < m0.spec_entries().len(),
            m1.spec_entries() == m0.spec_entries().update(
                i, (m0.spec_entries()[i].0, m0.spec_entries()[i].1, v)),
        ensures
            m1.wf(),
            m1.spec_has(EntityId(m0.spec_entries()[i].1), m0.spec_entries()[i].0),
            m1.spec_get(EntityId(m0.spec_entries()[i].1), m0.spec_entries()[i].0) == v,
            forall|q: EntityId, t: u32|
                #[trigger] m1.spec_has(q, t) == m0.spec_has(q, t),
            forall|q: EntityId, t: u32| m0.spec_has(q, t)
                && !(q.0 == m0.spec_entries()[i].1 && t == m0.spec_entries()[i].0)
                ==> #[trigger] m1.spec_get(q, t) == m0.spec_get(q, t),
    {
        let tag = m0.data@[i].0;
        let ent = EntityId(m0.data@[i].1);
        assert forall|q: EntityId, t: u32| #[trigger] m1.spec_has(q, t) == m0.spec_has(q, t) by {
            if m0.spec_has(q, t) {
                let j = m0.spec_idx(q, t);
                assert(m1.data@[j].0 == t && m1.data@[j].1 == q.0);
            }
            if m1.spec_has(q, t) {
                let j = m1.spec_idx(q, t);
                assert(m0.data@[j].0 == t && m0.data@[j].1 == q.0);
            }
        }
        assert(m1.wf());
        m1.lemma_at_index(i, ent, tag);
        assert forall|q: EntityId, t: u32| m0.spec_has(q, t)
            && !(q.0 == m0.spec_entries()[i].1 && t == m0.spec_entries()[i].0) implies
            #[trigger] m1.spec_get(q, t) == m0.spec_get(q, t) by {
            let j = m0.spec_idx(q, t);
            assert(m0.data@[j].0 == t && m0.data@[j].1 == q.0);
            assert(j != i);
            m0.lemma_at_index(j, q, t);
            m1.lemma_at_index(j, q, t);
        }
    }

    pub fn new() -> (r: Self)
        ensures
            r.wf(),
            forall|q: EntityId, t: u32| !r.spec_has(q, t),
    {
        ComponentStorage { data: Vec::new() }
    }

    /// Index of the entry for this key, if one exists.
    fn find_index(&self, ent: &EntityId, tag: u32) -> (r: Option<usize>)
        requires
            self.wf(),
        ensures
            match r {
                Some(i) => i < self.data@.len() && self.data@[i as int].0 == tag
                    && self.data@[i as int].1 == ent.0
                    && self.spec_has(*ent, tag) && self.spec_idx(*ent, tag) == i as int,
                None => !self.spec_has(*ent, tag),
            },
    {
        let n = self.data.len();
        let mut i: usize = 0;
        while i < n
            invariant
                self.wf(),
                n == self.data@.len(),
                i <= n,
                forall|j: int| 0 <= j < i as int
                    ==> !((#[trigger] self.data@[j]).0 == tag && self.data@[j].1 == ent.0),
            decreases n - i,
        {
            if self.data[i].0 == tag && self.data[i].1 == ent.0 {
                proof {
                    self.lemma_at_index(i as int, *ent, tag);
                }
                return Some(i);
            }
            i = i + 1;
        }
        return None;
    }

    /// Attaches a component to the entity under the given tag, replacing any
    /// value already there.
    pub fn add(&mut self, ent: EntityId, tag: u32, cmp: C)
        requires
            old(self).wf(),
        ensures
            final(self).wf(),
            final(self).spec_has(ent, tag),
            final(self).spec_get(ent, tag) == cmp,
            forall|q: EntityId, t: u32| !(q.0 == ent.0 && t == tag)
                ==> #[trigger] final(self).spec_has(q, t) == old(self).spec_has(q, t),
            forall|q: EntityId, t: u32| !(q.0 == ent.0 && t == tag) && old(self).spec_has(q, t)
                ==> #[trigger] final(self).spec_get(q, t) == old(self).spec_get(q, t),
    {
        let ghost m0 = *self;
        match self.find_index(&ent, tag) {
            Some(i) => {
                self.data.set(i, (tag, ent.0, cmp));
                proof {
                    ComponentStorage::lemma_update_in_place(m0, *self, i as int, cmp);
                }
            },
            None => {
                let ghost n = self.data@.len() as int;
                self.data.push((tag, ent.0, cmp));
                proof {
                    assert forall|i2: int, j2: int| 0 <= i2 < j2 < self.data@.len() implies
                        !((#[trigger] self.data@[i2]).0 == (#[trigger] self.data@[j2]).0
                            && self.data@[i2].1 == self.data@[j2].1) by {
                        if j2 < n {
                            assert(self.data@[i2] == m0.data@[i2]
                                && self.data@[j2] == m0.data@[j2]);
                        } else {
                            assert(self.data@[i2] == m0.data@[i2]);
                        }
                    }
                    self.lemma_at_index(n, ent, tag);
                    assert forall|q: EntityId, t: u32| !(q.0 == ent.0 && t == tag) implies
                        #[trigger] final(self).spec_has(q, t) == old(self).spec_has(q, t) by {
                        if m0.spec_has(q, t) {
                            let j = m0.spec_idx(q, t);
                            assert(self.data@[j].0 == t && self.data@[j].1 == q.0);
                        }
                        if self.spec_has(q, t) {
                            let j = self.spec_idx(q, t);
                            assert(j < n);
                            assert(m0.data@[j].0 == t && m0.data@[j].1 == q.0);
                        }
                    }
                    assert forall|q: EntityId, t: u32| !(q.0 == ent.0 && t == tag)
                        && old(self).spec_has(q, t) implies
                        #[trigger] final(self).spec_get(q, t) == old(self).spec_get(q, t) by {
                        let j = m0.spec_idx(q, t);
                        assert(m0.data@[j].0 == t && m0.data@[j].1 == q.0);
                        m0.lemma_at_index(j, q, t);
                        self.lemma_at_index(j, q, t);
                    }
                }
            },
        }
    }

    /// Shared access to the component at this key.
    pub fn get(&self, ent: EntityId, tag: u32) -> (r: Option<&C>)
        requires
            self.wf(),
        ensures
            match r {
                Some(c) => self.spec_has(ent, tag) && *c == self.spec_get(ent, tag),
                None => !self.spec_has(ent, tag),
            },
    {
        match self.find_index(&ent, tag) {
            Some(i) => Some(&self.data[i].2),
            None => None,
        }
    }

    /// Exclusive access to the component at this key; the key itself cannot
    /// change through the returned reference, and `lemma_update_in_place`
    /// rebuilds the rest of the contract for the written value.
    pub fn get_mut(&mut self, ent: EntityId, tag: u32) -> (r: Option<&mut C>)
        requires
            old(self).wf(),
        ensures
            match r {
                Some(c) => {
                    &&& old(self).spec_has(ent, tag)
                    &&& *c == old(self).spec_get(ent, tag)
                    &&& 0 <= old(self).spec_idx(ent, tag) < old(self).spec_entries().len()
                    &&& old(self).spec_entries()[old(self).spec_idx(ent, tag)].0 == tag
                    &&& old(self).spec_entries()[old(self).spec_idx(ent, tag)].1 == ent.0
                    &&& final(self).spec_entries() == old(self).spec_entries().update(
                        old(self).spec_idx(ent, tag), (tag, ent.0, *final(c)))
                },
                None => !old(self).spec_has(ent, tag) && *final(self) == *old(self),
            },
    {
        match self.find_index(&ent, tag) {
            Some(i) => Some(&mut self.data[i].2),
            None => None,
        }
    }

    /// Detaches and returns the component at this key.
    pub fn del(&mut self, ent: EntityId, tag: u32) -> (r: Option<C>)
        requires
            old(self).wf(),
        ensures
            final(self).wf(),
            !final(self).spec_has(ent, tag),
            match r {
                Some(c) => old(self).spec_has(ent, tag) && c == old(self).spec_get(ent, tag),
                None => !old(self).spec_has(ent, tag) && *final(self) == *old(self),
            },
            forall|q: EntityId, t: u32| !(q.0 == ent.0 && t == tag)
                ==> #[trigger] final(self).spec_has(q, t) == old(self).spec_has(q, t),
            forall|q: EntityId, t: u32| !(q.0 == ent.0 && t == tag) && old(self).spec_has(q, t)
                ==> #[trigger] final(self).spec_get(q, t) == old(self).spec_get(q, t),
    {
        let ghost m0 = *old(self);
        match self.find_index(&ent, tag) {
            Some(i) => {
                let trip = self.data.remove(i);
                proof {
                    let ii = i as int;
                    assert forall|i2: int, j2: int| 0 <= i2 < j2 < self.data@.len() implies
                        !((#[trigger] self.data@[i2]).0 == (#[trigger] self.data@[j2]).0
                            && self.data@[i2].1 == self.data@[j2].1) by {
                        let i0 = if i2 < ii { i2 } else { i2 + 1 };
                        let j0 = if j2 < ii { j2 } else { j2 + 1 };
                        assert(self.data@[i2] == m0.data@[i0]
                            && self.data@[j2] == m0.data@[j0]);
                    }
                    assert forall|j: int| 0 <= j < self.data@.len() implies
                        !((#[trigger] self.data@[j]).0 == tag && self.data@[j].1 == ent.0) by {
                        let j0 = if j < ii { j } else { j + 1 };
                        assert(self.data@[j] == m0.data@[j0]);
                        if j0 != ii {
                            assert(!(m0.data@[j0].0 == m0.data@[ii].0
                                && m0.data@[j0].1 == m0.data@[ii].1));
                        }
                    }
                    assert forall|q: EntityId, t: u32| !(q.0 == ent.0 && t == tag) implies
                        #[trigger] final(self).spec_has(q, t) == old(self).spec_has(q, t) by {
                        if m0.spec_has(q, t) {
                            let j = m0.spec_idx(q, t);
                            assert(m0.data@[j].0 == t && m0.data@[j].1 == q.0);
                            assert(j != ii);
                            let j1 = if j < ii { j } else { j - 1 };
                            assert(self.data@[j1] == m0.data@[j]);
                        }
                        if self.spec_has(q, t) {
                            let j = self.spec_idx(q, t);
                            let j0 = if j < ii { j } else { j + 1 };
                            assert(m0.data@[j0] == self.data@[j]);
                        }
                    }
                    assert forall|q: EntityId, t: u32| !(q.0 == ent.0 && t == tag)
                        && old(self).spec_has(q, t) implies
                        #[trigger] final(self).spec_get(q, t) == old(self).spec_get(q, t) by {
                        let j = m0.spec_idx(q, t);
                        assert(m0.data@[j].0 == t && m0.data@[j].1 == q.0);
                        assert(j != ii);
                        let j1 = if j < ii { j } else { j - 1 };
                        assert(self.data@[j1] == m0.data@[j]);
                        m0.lemma_at_index(j, q, t);
                        self.lemma_at_index(j1, q, t);
                    }
                }
                Some(trip.2)
            },
            None => None,
        }
    }

    /// Whether a component with this tag is attached to the entity.
    pub fn has(&self, ent: EntityId, tag: u32) -> (r: bool)
        requires
            self.wf(),
        ensures
            r == self.spec_has(ent, tag),
    {
        match self.find_index(&ent, tag) {
            Some(_) => true,
            None => false,
        }
    }

    /// Detaches every component of the entity, whatever its tag.
    pub fn del_all(&mut self, ent: EntityId)
        requires
            old(self).wf(),
        ensures
            final(self).wf(),
            forall|t: u32| !final(self).spec_has(ent, t),
            forall|q: EntityId, t: u32| q.0 != ent.0
                ==> #[trigger] final(self).spec_has(q, t) == old(self).spec_has(q, t),
            forall|q: EntityId, t: u32| q.0 != ent.0 && old(self).spec_has(q, t)
                ==> #[trigger] final(self).spec_get(q, t) == old(self).spec_get(q, t),
    {
        let ghost m0 = *old(self);
        let mut kept: Vec<(u32, u64, C)> = Vec::new();
        while self.data.len() > 0
            invariant
                m0.wf(),
                self.data@ =~= m0.data@.subrange(0, self.data@.len() as int),
                self.data@.len() <= m0.data@.len(),
                forall|k: int| 0 <= k < kept@.len()
                    ==> #[trigger] from_others(kept@[k], m0.data@,
                        self.data@.len() as int, ent),
                forall|j: int| self.data@.len() <= j < m0.data@.len()
                    && (#[trigger] m0.data@[j]).1 != ent.0
                    ==> kept@.contains(m0.data@[j]),
                forall|k1: int, k2: int| 0 <= k1 < k2 < kept@.len()
                    ==> !((#[trigger] kept@[k1]).0 == (#[trigger] kept@[k2]).0
                        && kept@[k1].1 == kept@[k2].1),
            decreases self.data@.len(),
        {
            let ghost nprev = self.data@.len() as int;
            match self.data.pop() {
                None => {},
                Some(trip) => {
                    proof {
                        assert(trip == m0.data@[nprev - 1]);
                    }
                    if trip.1 != ent.0 {
                        let ghost kept0 = kept@;
                        kept.push(trip);
                        proof {
                            assert forall|k: int| 0 <= k < kept@.len() implies
                                #[trigger] from_others(kept@[k], m0.data@, nprev - 1, ent) by {
                                if k < kept0.len() {
                                    assert(kept@[k] == kept0[k]);
                                    assert(from_others(kept0[k], m0.data@, nprev, ent));
                                    let j = choose|j: int| nprev <= j < m0.data@.len()
                                        && m0.data@[j] == kept0[k] && m0.data@[j].1 != ent.0;
                                    assert(nprev - 1 <= j < m0.data@.len()
                                        && m0.data@[j] == kept@[k] && m0.data@[j].1 != ent.0);
                                } else {
                                    assert(kept@[k] == trip);
                                    assert(nprev - 1 <= nprev - 1 < m0.data@.len()
                                        && m0.data@[nprev - 1] == kept@[k]
                                        && m0.data@[nprev - 1].1 != ent.0);
                                }
                            }
                            assert forall|j: int| nprev - 1 <= j < m0.data@.len()
                                && (#[trigger] m0.data@[j]).1 != ent.0 implies
                                kept@.contains(m0.data@[j]) by {
                                if j >= nprev {
                                    assert(kept0.contains(m0.data@[j]));
                                    let k = choose|k: int| 0 <= k < kept0.len()
                                        && kept0[k] == m0.data@[j];
                                    assert(kept@[k] == m0.data@[j]);
                                } else {
                                    assert(kept@[kept@.len() - 1] == m0.data@[j]);
                                }
                            }
                            assert forall|k1: int, k2: int| 0 <= k1 < k2 < kept@.len() implies
                                !((#[trigger] kept@[k1]).0 == (#[trigger] kept@[k2]).0
                                    && kept@[k1].1 == kept@[k2].1) by {
                                if k2 == kept0.len() as int {
                                    assert(kept@[k1] == kept0[k1]);
                                    assert(from_others(kept0[k1], m0.data@, nprev, ent));
                                    let j = choose|j: int| nprev <= j < m0.data@.len()
                                        && m0.data@[j] == kept0[k1]
                                        && m0.data@[j].1 != ent.0;
                                    assert(!(m0.data@[nprev - 1].0 == m0.data@[j].0
                                        && m0.data@[nprev - 1].1 == m0.data@[j].1));
                                } else {
                                    assert(kept@[k1] == kept0[k1] && kept@[k2] == kept0[k2]);
                                }
                            }
                        }
                    } else {
                        proof {
                            assert forall|k: int| 0 <= k < kept@.len() implies
                                #[trigger] from_others(kept@[k], m0.data@, nprev - 1, ent) by {
                                assert(from_others(kept@[k], m0.data@, nprev, ent));
                                let j = choose|j: int| nprev <= j < m0.data@.len()
                                    && m0.data@[j] == kept@[k] && m0.data@[j].1 != ent.0;
                                assert(nprev - 1 <= j < m0.data@.len()
                                    && m0.data@[j] == kept@[k] && m0.data@[j].1 != ent.0);
                            }
                            assert forall|j: int| nprev - 1 <= j < m0.data@.len()
                                && (#[trigger] m0.data@[j]).1 != ent.0 implies
                                kept@.contains(m0.data@[j]) by {
                                assert(j != nprev - 1);
                                assert(j >= nprev);
                            }
                        }
                    }
                },
            }
        }
        proof {
            assert(self.data@.len() == 0);
            assert forall|k: int| 0 <= k < kept@.len() implies
                #[trigger] from_others(kept@[k], m0.data@, 0, ent) by {
                assert(from_others(kept@[k], m0.data@, self.data@.len() as int, ent));
            }
            assert forall|j: int| 0 <= j < m0.data@.len()
                && (#[trigger] m0.data@[j]).1 != ent.0 implies
                kept@.contains(m0.data@[j]) by {
                assert(self.data@.len() as int <= j);
            }
        }
        self.data = kept;
        proof {
            assert(self.data@ == kept@);
            assert forall|i2: int, j2: int| 0 <= i2 < j2 < self.data@.len() implies
                !((#[trigger] self.data@[i2]).0 == (#[trigger] self.data@[j2]).0
                    && self.data@[i2].1 == self.data@[j2].1) by {
                assert(self.data@[i2] == kept@[i2] && self.data@[j2] == kept@[j2]);
            }
            assert(self.wf());
            assert forall|t: u32| !final(self).spec_has(ent, t) by {
                if self.spec_has(ent, t) {
                    let k = self.spec_idx(ent, t);
                    assert(from_others(self.data@[k], m0.data@, 0, ent));
                    let j = choose|j: int| 0 <= j < m0.data@.len()
                        && m0.data@[j] == self.data@[k] && m0.data@[j].1 != ent.0;
                }
            }
            assert forall|q: EntityId, t: u32| q.0 != ent.0 implies
                #[trigger] final(self).spec_has(q, t) == old(self).spec_has(q, t) by {
                if m0.spec_has(q, t) {
                    let j = m0.spec_idx(q, t);
                    assert(m0.data@[j].0 == t && m0.data@[j].1 == q.0);
                    assert(kept@.contains(m0.data@[j]));
                    let k = choose|k: int| 0 <= k < kept@.len() && kept@[k] == m0.data@[j];
                    assert(self.data@[k].0 == t && self.data@[k].1 == q.0);
                }
                if self.spec_has(q, t) {
                    let k = self.spec_idx(q, t);
                    assert(from_others(self.data@[k], m0.data@, 0, ent));
                    let j = choose|j: int| 0 <= j < m0.data@.len()
                        && m0.data@[j] == self.data@[k] && m0.data@[j].1 != ent.0;
                    assert(m0.data@[j].0 == t && m0.data@[j].1 == q.0);
                }
            }
            assert forall|q: EntityId, t: u32| q.0 != ent.0 && old(self).spec_has(q, t) implies
                #[trigger] final(self).spec_get(q, t) == old(self).spec_get(q, t) by {
                let j = m0.spec_idx(q, t);
                assert(m0.data@[j].0 == t && m0.data@[j].1 == q.0);
                m0.lemma_at_index(j, q, t);
                assert(kept@.contains(m0.data@[j]));
                let k = choose|k: int| 0 <= k < kept@.len() && kept@[k] == m0.data@[j];
                self.lemma_at_index(k, q, t);
            }
        }
    }

    /// The ids of every entity carrying a component with this tag, each
    /// exactly once.
    pub fn entities_with(&self, tag: u32) -> (r: Vec<EntityId>)
        requires
            self.wf(),
        ensures
            forall|q: EntityId| r@.contains(q) == self.spec_has(q, tag),
            forall|k1: int, k2: int| 0 <= k1 < k2 < r@.len() ==> r@[k1] != r@[k2],
    {
        let n = self.data.len();
        let mut out: Vec<EntityId> = Vec::new();
        let mut i: usize = 0;
        while i < n
            invariant
                self.wf(),
                n == self.data@.len(),
                i <= n,
                forall|q: EntityId| out@.contains(q) <==> exists|j: int| 0 <= j < i as int
                    && (#[trigger] self.data@[j]).0 == tag && self.data@[j].1 == q.0,
                forall|k1: int, k2: int| 0 <= k1 < k2 < out@.len() ==> out@[k1] != out@[k2],
            decreases n - i,
        {
            let ghost out0 = out@;
            if self.data[i].0 == tag {
                let q = EntityId::new(self.data[i].1);
                proof {
                    if out0.contains(q) {
                        let j = choose|j: int| 0 <= j < i as int
                            && self.data@[j].0 == tag && self.data@[j].1 == q.0;
                        assert(!(self.data@[j].0 == self.data@[i as int].0
                            && self.data@[j].1 == self.data@[i as int].1));
                    }
                }
                out.push(q);
                proof {
                    assert forall|p: EntityId| out@.contains(p) implies exists|j: int|
                        0 <= j < i as int + 1 && (#[trigger] self.data@[j]).0 == tag
                            && self.data@[j].1 == p.0 by {
                        let k = choose|k: int| 0 <= k < out@.len() && out@[k] == p;
                        if k < out0.len() {
                            assert(out0[k] == p);
                            assert(out0.contains(p));
                            let j = choose|j: int| 0 <= j < i as int
                                && (#[trigger] self.data@[j]).0 == tag && self.data@[j].1 == p.0;
                            assert(self.data@[j].0 == tag && self.data@[j].1 == p.0);
                        } else {
                            assert(p == q);
                            assert(self.data@[i as int].0 == tag
                                && self.data@[i as int].1 == p.0);
                        }
                    }
                    assert forall|p: EntityId| (exists|j: int| 0 <= j < i as int + 1
                        && (#[trigger] self.data@[j]).0 == tag && self.data@[j].1 == p.0)
                        implies out@.contains(p) by {
                        let j = choose|j: int| 0 <= j < i as int + 1
                            && (#[trigger] self.data@[j]).0 == tag && self.data@[j].1 == p.0;
                        if j < i as int {
                            assert(out0.contains(p));
                            let k = choose|k: int| 0 <= k < out0.len() && out0[k] == p;
                            assert(out@[k] == p);
                        } else {
                            assert(p == q);
                            assert(out@[out@.len() - 1] == p);
                        }
                    }
                }
            } else {
                proof {
                    assert forall|p: EntityId| (exists|j: int| 0 <= j < i as int + 1
                        && (#[trigger] self.data@[j]).0 == tag && self.data@[j].1 == p.0)
                        implies out@.contains(p) by {
                        let j = choose|j: int| 0 <= j < i as int + 1
                            && (#[trigger] self.data@[j]).0 == tag && self.data@[j].1 == p.0;
                        assert(j < i as int);
                    }
                }
            }
            i = i + 1;
        }
        proof {
            assert forall|q: EntityId| out@.contains(q) == self.spec_has(q, tag) by {
                if out@.contains(q) {
                    let j = choose|j: int| 0 <= j < n as int
                        && (#[trigger] self.data@[j]).0 == tag && self.data@[j].1 == q.0;
                    self.lemma_at_index(j, q, tag);
                }
                if self.spec_has(q, tag) {
                    let j = self.spec_idx(q, tag);
                    assert(0 <= j < n as int && self.data@[j].0 == tag
                        && self.data@[j].1 == q.0);
                }
            }
        }
        out
    }
}

impl<C> Default for ComponentStorage<C> {
    fn default() -> (r: Self)
        ensures
            r.wf(),
            forall|q: EntityId, t: u32| !r.spec_has(q, t),
    {
        ComponentStorage::new()
    }
}

} // verus!
