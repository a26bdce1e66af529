//! The entity registry: spawns entities under fresh ids, resolves ids to
//! entities, maintains the parent/child hierarchy, and despawns whole
//! subtrees.

use vstd::prelude::*;

verus! {

use crate::entity::Entity;
use crate::entity::EntityId;

/// Everything a filter keeps was in the source sequence.
proof fn lemma_filter_subset(s: Seq<EntityId>, pred: spec_fn(EntityId) -> bool, c: EntityId)
    requires
        s.filter(pred).contains(c),
    ensures
        s.contains(c),
    decreases s.len(),
{
    reveal(Seq::filter);
    if s.len() > 0 {
        let f = s.filter(pred);
        let fd = s.drop_last().filter(pred);
        if pred(s.last()) {
            assert(f == fd.push(s.last()));
            if c == s.last() {
                assert(s[s.len() - 1] == c);
            } else {
                let k = choose|k: int| 0 <= k < f.len() && f[k] == c;
                assert(k < fd.len());
                assert(fd[k] == c);
                lemma_filter_subset(s.drop_last(), pred, c);
                let j = choose|j: int| 0 <= j < s.drop_last().len() && s.drop_last()[j] == c;
                assert(s[j] == c);
            }
        } else {
            assert(f == fd);
            lemma_filter_subset(s.drop_last(), pred, c);
            let j = choose|j: int| 0 <= j < s.drop_last().len() && s.drop_last()[j] == c;
            assert(s[j] == c);
        }
    }
}

/// Owns every live entity, keyed by unique id; ids count up from one and are
/// never reused within a session.
pub struct World {
    nxt_id: u64,
    entities: Vec<Entity>,
}

impl World {
    /// The id the next spawn will take.
    pub closed spec fn spec_nxt(&self) -> int {
        self.nxt_id as int
    }

    /// Number of live entities.
    pub closed spec fn spec_cnt(&self) -> int {
        self.entities@.len() as int
    }

    /// Whether an entity with this id is live.
    pub closed spec fn has_entity(&self, id: EntityId) -> bool {
        exists|i: int| 0 <= i < self.entities@.len() && (#[trigger] self.entities@[i]).id == id
    }

    /// Index of the live entity with this id.
    pub closed spec fn eidx(&self, id: EntityId) -> int {
        choose|i: int| 0 <= i < self.entities@.len() && self.entities@[i].id == id
    }

    /// The live entity with this id (meaningful only when `has_entity(id)`).
    pub closed spec fn spec_entity(&self, id: EntityId) -> Entity {
        self.entities@[self.eidx(id)]
    }

    /// Ids are unique and all below the next id to hand out.
    pub closed spec fn wf(&self) -> bool {
        &&& forall|i: int, j: int| 0 <= i < j < self.entities@.len()
            ==> (#[trigger] self.entities@[i]).id != (#[trigger] self.entities@[j]).id
        &&& forall|i: int| 0 <= i < self.entities@.len()
            ==> (#[trigger] self.entities@[i]).id.0 < self.nxt_id
        &&& 1 <= self.nxt_id
    }

    /// Under `wf`, an index holding id `q` is the one `spec_entity` reads.
    proof fn lemma_at_index(&self, i: int, q: EntityId)
        requires
            self.wf(),
            0 <= i < self.entities@.len(),
            self.entities@[i].id == q,
        ensures
            self.has_entity(q),
            self.eidx(q) == i,
            self.spec_entity(q) == self.entities@[i],
    {
        let j = self.eidx(q);
        if j != i {
            assert(self.entities@[i].id != self.entities@[j].id);
        }
    }

    pub fn new() -> (r: Self)
        ensures
            r.wf(),
            r.spec_cnt() == 0,
            r.spec_nxt() == 1,
            forall|q: EntityId| !r.has_entity(q),
    {
        World { nxt_id: 1, entities: Vec::new() }
    }

    /// Index of the entity with id `q`, if one is live.
    fn find_index(&self, q: EntityId) -> (r: Option<usize>)
        requires
            self.wf(),
        ensures
            match r {
                Some(i) => i < self.entities@.len() && self.entities@[i as int].id == q
                    && self.has_entity(q) && self.eidx(q) == i as int,
                None => !self.has_entity(q),
            },
    {
        let n = self.entities.len();
        let mut i: usize = 0;
        while i < n
            invariant
                self.wf(),
                n == self.entities@.len(),
                i <= n,
                forall|j: int| 0 <= j < i as int ==> (#[trigger] self.entities@[j]).id != q,
            decreases n - i,
        {
            if self.entities[i].id == q {
                proof {
                    self.lemma_at_index(i as int, q);
                }
                return Some(i);
            }
            i = i + 1;
        }
        return None;
    }

    /// Creates a fresh, unnamed entity and returns its id.
    pub fn spawn(&mut self) -> (r: EntityId)
        requires
            old(self).wf(),
            old(self).spec_nxt() < u64::MAX as int,
        ensures
            final(self).wf(),
            r.0 as int == old(self).spec_nxt(),
            final(self).spec_nxt() == old(self).spec_nxt() + 1,
            final(self).spec_cnt() == old(self).spec_cnt() + 1,
            !old(self).has_entity(r),
            final(self).has_entity(r),
            final(self).spec_entity(r).id == r,
            final(self).spec_entity(r).name@ == Seq::<char>::empty(),
            final(self).spec_entity(r).act == true,
            final(self).spec_entity(r).prt.is_none(),
            final(self).spec_entity(r).chd@ == Seq::<EntityId>::empty(),
            forall|q: EntityId| q != r ==> final(self).has_entity(q) == old(self).has_entity(q),
            forall|q: EntityId| q != r && old(self).has_entity(q)
                ==> final(self).spec_entity(q) == old(self).spec_entity(q),
    {
        let id = EntityId::new(self.nxt_id);
        self.nxt_id = self.nxt_id + 1;
        let ghost n = self.entities@.len() as int;
        self.entities.push(Entity::new(id));
        proof {
            self.lemma_at_index(n, id);
            assert forall|q: EntityId| q != id implies
                final(self).has_entity(q) == old(self).has_entity(q) by {
                if old(self).has_entity(q) {
                    let j = old(self).eidx(q);
                    assert(old(self).entities@[j].id == q);
                    assert(self.entities@[j].id == q);
                }
                if self.has_entity(q) {
                    let j = self.eidx(q);
                    assert(self.entities@[j].id == q);
                    assert(j < n);
                    assert(old(self).entities@[j].id == q);
                }
            }
            assert forall|q: EntityId| q != id && old(self).has_entity(q) implies
                final(self).spec_entity(q) == old(self).spec_entity(q) by {
                let j = old(self).eidx(q);
                assert(old(self).entities@[j].id == q);
                old(self).lemma_at_index(j, q);
                self.lemma_at_index(j, q);
            }
        }
        id
    }

    /// Creates a fresh, named entity and returns its id.
    pub fn spawn_named(&mut self, name: &str) -> (r: EntityId)
        requires
            old(self).wf(),
            old(self).spec_nxt() < u64::MAX as int,
        ensures
            final(self).wf(),
            r.0 as int == old(self).spec_nxt(),
            final(self).spec_nxt() == old(self).spec_nxt() + 1,
            final(self).spec_cnt() == old(self).spec_cnt() + 1,
            !old(self).has_entity(r),
            final(self).has_entity(r),
            final(self).spec_entity(r).id == r,
            final(self).spec_entity(r).name@ == name@,
            forall|q: EntityId| q != r ==> final(self).has_entity(q) == old(self).has_entity(q),
            forall|q: EntityId| q != r && old(self).has_entity(q)
                ==> final(self).spec_entity(q) == old(self).spec_entity(q),
    {
        let id = EntityId::new(self.nxt_id);
        self.nxt_id = self.nxt_id + 1;
        let ghost n = self.entities@.len() as int;
        self.entities.push(Entity::new(id).with_name(name));
        proof {
            self.lemma_at_index(n, id);
            assert forall|q: EntityId| q != id implies
                final(self).has_entity(q) == old(self).has_entity(q) by {
                if old(self).has_entity(q) {
                    let j = old(self).eidx(q);
                    assert(old(self).entities@[j].id == q);
                    assert(self.entities@[j].id == q);
                }
                if self.has_entity(q) {
                    let j = self.eidx(q);
                    assert(self.entities@[j].id == q);
                    assert(j < n);
                    assert(old(self).entities@[j].id == q);
                }
            }
            assert forall|q: EntityId| q != id && old(self).has_entity(q) implies
                final(self).spec_entity(q) == old(self).spec_entity(q) by {
                let j = old(self).eidx(q);
                assert(old(self).entities@[j].id == q);
                old(self).lemma_at_index(j, q);
                self.lemma_at_index(j, q);
            }
        }
        id
    }

    /// Removes the entity, unlinks it from its parent, and despawns its
    /// children recursively. Returns whether the id was live; never grows the
    /// entity set and never revives a removed id. Surviving entities keep
    /// their identity, name, active flag and parent link, and their child
    /// lists only lose links, never gain them.
    pub fn despawn(&mut self, id: EntityId) -> (r: bool)
        requires
            old(self).wf(),
        ensures
            final(self).wf(),
            final(self).spec_nxt() == old(self).spec_nxt(),
            r == old(self).has_entity(id),
            !final(self).has_entity(id),
            final(self).spec_cnt() <= old(self).spec_cnt(),
            forall|q: EntityId| final(self).has_entity(q) ==> old(self).has_entity(q),
            forall|q: EntityId| #[trigger] final(self).has_entity(q) ==> {
                let e0 = old(self).spec_entity(q);
                let e1 = final(self).spec_entity(q);
                e1.id == e0.id && e1.name == e0.name && e1.act == e0.act && e1.prt == e0.prt
            },
            forall|q: EntityId, c: EntityId| final(self).has_entity(q)
                && #[trigger] final(self).spec_entity(q).chd@.contains(c)
                ==> old(self).spec_entity(q).chd@.contains(c),
            old(self).has_entity(id) ==> forall|c: EntityId|
                #[trigger] old(self).spec_entity(id).chd@.contains(c)
                    ==> !final(self).has_entity(c),
            old(self).has_entity(id) ==> (old(self).spec_entity(id).prt matches Some(p)
                ==> (final(self).has_entity(p)
                    ==> !final(self).spec_entity(p).chd@.contains(id))),
        decreases old(self).spec_cnt(),
    {
        let idx = match self.find_index(id) {
            Some(i) => i,
            None => {
                return false;
            },
        };
        let ghost m0 = *self;
        let ent = self.entities.remove(idx);
        proof {
            assert(ent.id == id);
            assert(ent == m0.spec_entity(id)) by {
                m0.lemma_at_index(idx as int, id);
            }
            assert(self.wf()) by {
                assert forall|i: int, j: int| 0 <= i < j < self.entities@.len() implies
                    (#[trigger] self.entities@[i]).id != (#[trigger] self.entities@[j]).id by {
                    let i0 = if i < idx as int { i } else { i + 1 };
                    let j0 = if j < idx as int { j } else { j + 1 };
                    assert(self.entities@[i] == m0.entities@[i0]);
                    assert(self.entities@[j] == m0.entities@[j0]);
                }
                assert forall|i: int| 0 <= i < self.entities@.len() implies
                    (#[trigger] self.entities@[i]).id.0 < self.nxt_id by {
                    let i0 = if i < idx as int { i } else { i + 1 };
                    assert(self.entities@[i] == m0.entities@[i0]);
                }
            }
            assert forall|q: EntityId| self.has_entity(q) implies
                m0.has_entity(q) && q != id
                    && #[trigger] self.spec_entity(q) == m0.spec_entity(q) by {
                let j = self.eidx(q);
                assert(self.entities@[j].id == q);
                let j0 = if j < idx as int { j } else { j + 1 };
                assert(self.entities@[j] == m0.entities@[j0]);
                assert(m0.entities@[j0].id == q);
                if q == id {
                    assert(m0.entities@[j0].id != m0.entities@[idx as int].id);
                }
                self.lemma_at_index(j, q);
                m0.lemma_at_index(j0, q);
            }
        }
        // Unlink from the parent, if it is still live.
        match ent.prt {
            Some(prt_id) => {
                match self.find_index(prt_id) {
                    Some(pi) => {
                        let ghost m1 = *self;
                        let p = &mut self.entities[pi];
                        p.del_chd(id);
                        proof {
                            assert(final(p).id == m1.entities@[pi as int].id);
                            self.lemma_same_ids(m1);
                            assert forall|q: EntityId| self.has_entity(q) implies
                                m1.has_entity(q)
                                    && (#[trigger] self.spec_entity(q)).id
                                        == m1.spec_entity(q).id
                                    && self.spec_entity(q).name == m1.spec_entity(q).name
                                    && self.spec_entity(q).act == m1.spec_entity(q).act
                                    && self.spec_entity(q).prt == m1.spec_entity(q).prt by {
                                let j = m1.eidx(q);
                                m1.lemma_at_index(j, q);
                                self.lemma_at_index(j, q);
                                if j != pi as int {
                                    assert(self.entities@[j] == m1.entities@[j]);
                                }
                            }
                            assert forall|q: EntityId, c: EntityId| self.has_entity(q)
                                && #[trigger] self.spec_entity(q).chd@.contains(c)
                                implies m1.spec_entity(q).chd@.contains(c) by {
                                let j = m1.eidx(q);
                                m1.lemma_at_index(j, q);
                                self.lemma_at_index(j, q);
                                if j != pi as int {
                                    assert(self.entities@[j] == m1.entities@[j]);
                                } else {
                                    let pred = |cc: EntityId| cc != id;
                                    assert(self.spec_entity(q).chd@
                                        == m1.spec_entity(q).chd@.filter(pred));
                                    lemma_filter_subset(m1.spec_entity(q).chd@, pred, c);
                                }
                            }
                            assert(self.has_entity(prt_id)) by {
                                assert(self.entities@[pi as int].id == prt_id);
                                self.lemma_at_index(pi as int, prt_id);
                            }
                            assert(!self.spec_entity(prt_id).chd@.contains(id)) by {
                                self.lemma_at_index(pi as int, prt_id);
                            }
                        }
                    },
                    None => {},
                }
            },
            None => {},
        }
        // Despawn the children recursively.
        let ghost m2 = *self;
        let n_chd = ent.chd.len();
        let mut k: usize = 0;
        while k < n_chd
            invariant
                n_chd == ent.chd@.len(),
                k <= n_chd,
                self.wf(),
                self.spec_nxt() == m2.spec_nxt(),
                self.spec_cnt() <= m2.spec_cnt(),
                forall|q: EntityId| self.has_entity(q) ==> m2.has_entity(q),
                m2.spec_cnt() < old(self).spec_cnt(),
                !m2.has_entity(id),
                forall|q: EntityId| #[trigger] self.has_entity(q) ==> {
                    let e2 = m2.spec_entity(q);
                    let e1 = self.spec_entity(q);
                    e1.id == e2.id && e1.name == e2.name && e1.act == e2.act
                        && e1.prt == e2.prt
                },
                forall|q: EntityId, c: EntityId| self.has_entity(q)
                    && #[trigger] self.spec_entity(q).chd@.contains(c)
                    ==> m2.spec_entity(q).chd@.contains(c),
                forall|j: int| 0 <= j < k as int
                    ==> !self.has_entity(#[trigger] ent.chd@[j]),
            decreases n_chd - k,
        {
            proof {
                assert(self.spec_cnt() < old(self).spec_cnt());
            }
            let ghost mpre = *self;
            self.despawn(ent.chd[k]);
            proof {
                assert forall|q: EntityId| #[trigger] self.has_entity(q) implies {
                    let e2 = m2.spec_entity(q);
                    let e1 = self.spec_entity(q);
                    e1.id == e2.id && e1.name == e2.name && e1.act == e2.act
                        && e1.prt == e2.prt
                } by {
                    assert(mpre.has_entity(q));
                }
                assert forall|q: EntityId, c: EntityId| self.has_entity(q)
                    && #[trigger] self.spec_entity(q).chd@.contains(c) implies
                    m2.spec_entity(q).chd@.contains(c) by {
                    assert(mpre.has_entity(q));
                    assert(mpre.spec_entity(q).chd@.contains(c));
                }
            }
            k = k + 1;
        }
        proof {
            assert(!self.has_entity(id));
            assert forall|c: EntityId| #[trigger] m0.spec_entity(id).chd@.contains(c)
                implies !self.has_entity(c) by {
                let j = choose|j: int| 0 <= j < ent.chd@.len() && ent.chd@[j] == c;
            }
        }
        return true;
    }

    /// Shared access to the live entity with this id.
    pub fn get(&self, id: EntityId) -> (r: Option<&Entity>)
        requires
            self.wf(),
        ensures
            match r {
                Some(e) => self.has_entity(id) && *e == self.spec_entity(id),
                None => !self.has_entity(id),
            },
    {
        match self.find_index(id) {
            Some(i) => Some(&self.entities[i]),
            None => None,
        }
    }

    /// Exclusive access to the live entity with this id. The registry stays
    /// well formed as long as the caller does not change the entity's id.
    pub fn get_mut(&mut self, id: EntityId) -> (r: Option<&mut Entity>)
        requires
            old(self).wf(),
        ensures
            match r {
                Some(e) => {
                    &&& old(self).has_entity(id)
                    &&& *e == old(self).spec_entity(id)
                    &&& 0 <= old(self).eidx(id) < old(self).spec_cnt()
                    &&& final(self).spec_nxt() == old(self).spec_nxt()
                    &&& final(self).spec_cnt() == old(self).spec_cnt()
                },
                None => !old(self).has_entity(id) && *final(self) == *old(self),
            },
    {
        match self.find_index(id) {
            Some(i) => Some(&mut self.entities[i]),
            None => None,
        }
    }

    /// Reparents `chd`: unlinks it from its old parent's child list, points it
    /// at `prt`, and links it into the new parent's child list. Pointing an
    /// entity at the parent it already has changes nothing.
    #[verifier::rlimit(100)]
    pub fn set_prt(&mut self, chd: EntityId, prt: Option<EntityId>)
        requires
            old(self).wf(),
        ensures
            final(self).wf(),
            final(self).spec_nxt() == old(self).spec_nxt(),
            final(self).spec_cnt() == old(self).spec_cnt(),
            forall|q: EntityId| final(self).has_entity(q) == old(self).has_entity(q),
            old(self).has_entity(chd) && old(self).spec_entity(chd).prt == prt
                ==> *final(self) == *old(self),
            old(self).has_entity(chd) && old(self).spec_entity(chd).prt != prt
                ==> final(self).spec_entity(chd).prt == prt,
            forall|q: EntityId| old(self).has_entity(q)
                ==> (#[trigger] final(self).spec_entity(q)).id
                    == old(self).spec_entity(q).id
                    && final(self).spec_entity(q).name == old(self).spec_entity(q).name
                    && final(self).spec_entity(q).act == old(self).spec_entity(q).act,
            forall|q: EntityId| q != chd && old(self).has_entity(q)
                ==> (#[trigger] final(self).spec_entity(q)).prt
                    == old(self).spec_entity(q).prt,
            !(old(self).has_entity(chd) && old(self).spec_entity(chd).prt == prt)
                ==> (prt matches Some(p) ==> (old(self).has_entity(p)
                    ==> final(self).spec_entity(p).chd@.contains(chd))),
            old(self).has_entity(chd) && old(self).spec_entity(chd).prt != prt
                ==> (old(self).spec_entity(chd).prt matches Some(op)
                    ==> (old(self).has_entity(op) && Some(op) != prt
                        ==> !final(self).spec_entity(op).chd@.contains(chd))),
    {
        let old_prt: Option<EntityId> = match self.find_index(chd) {
            Some(ci) => self.entities[ci].prt,
            None => None,
        };
        let chd_live = match self.find_index(chd) {
            Some(_) => true,
            None => false,
        };
        if chd_live {
            proof {
                assert(old(self).spec_entity(chd).prt == old_prt);
            }
            let same = match (old_prt, prt) {
                (None, None) => true,
                (Some(a), Some(b)) => a == b,
                _ => false,
            };
            if same {
                return;
            }
            // Unlink from the old parent.
            match old_prt {
                Some(op) => {
                    match self.find_index(op) {
                        Some(oi) => {
                            let ghost m1 = *self;
                            let p = &mut self.entities[oi];
                            p.del_chd(chd);
                            proof {
                                self.lemma_same_ids(m1);
                                self.lemma_at_index(oi as int, op);
                                assert(!self.spec_entity(op).chd@.contains(chd));
                                assert forall|q: EntityId| q != op && m1.has_entity(q)
                                    implies #[trigger] self.spec_entity(q)
                                        == m1.spec_entity(q) by {
                                    let j = m1.eidx(q);
                                    m1.lemma_at_index(j, q);
                                    self.lemma_at_index(j, q);
                                    assert(self.entities@[j] == m1.entities@[j]);
                                }
                            }
                        },
                        None => {},
                    }
                },
                None => {},
            }
            // Point the child at its new parent.
            match self.find_index(chd) {
                Some(ci) => {
                    let ghost m2 = *self;
                    let c = &mut self.entities[ci];
                    c.set_prt(prt);
                    proof {
                        self.lemma_same_ids(m2);
                        self.lemma_at_index(ci as int, chd);
                        assert forall|q: EntityId| m2.has_entity(q) implies
                            (#[trigger] self.spec_entity(q)).chd
                                == m2.spec_entity(q).chd by {
                            let j = m2.eidx(q);
                            m2.lemma_at_index(j, q);
                            self.lemma_at_index(j, q);
                            if j != ci as int {
                                assert(self.entities@[j] == m2.entities@[j]);
                            }
                        }
                        assert forall|q: EntityId| q != chd && m2.has_entity(q) implies
                            #[trigger] self.spec_entity(q) == m2.spec_entity(q) by {
                            let j = m2.eidx(q);
                            m2.lemma_at_index(j, q);
                            self.lemma_at_index(j, q);
                            assert(self.entities@[j] == m2.entities@[j]);
                        }
                    }
                },
                None => {},
            }
        }
        // Link into the new parent.
        match prt {
            Some(np) => {
                match self.find_index(np) {
                    Some(ni) => {
                        let ghost m3 = *self;
                        let p = &mut self.entities[ni];
                        p.add_chd(chd);
                        proof {
                            self.lemma_same_ids(m3);
                            self.lemma_at_index(ni as int, np);
                            assert(self.spec_entity(np).chd@.contains(chd));
                            assert forall|q: EntityId| q != np && m3.has_entity(q)
                                implies #[trigger] self.spec_entity(q)
                                    == m3.spec_entity(q) by {
                                let j = m3.eidx(q);
                                m3.lemma_at_index(j, q);
                                self.lemma_at_index(j, q);
                                assert(self.entities@[j] == m3.entities@[j]);
                            }
                        }
                    },
                    None => {},
                }
            },
            None => {},
        }
    }

    /// After an in-place edit that kept every id, the registry is still well
    /// formed and resolves ids to the same indexes.
    proof fn lemma_same_ids(&self, m: World)
        requires
            m.wf(),
            self.nxt_id == m.nxt_id,
            self.entities@.len() == m.entities@.len(),
            forall|i: int| 0 <= i < m.entities@.len()
                ==> (#[trigger] self.entities@[i]).id == m.entities@[i].id,
        ensures
            self.wf(),
            forall|q: EntityId| self.has_entity(q) == m.has_entity(q),
            forall|q: EntityId| m.has_entity(q) ==> self.eidx(q) == m.eidx(q),
    {
        assert forall|q: EntityId| self.has_entity(q) == m.has_entity(q) by {
            if m.has_entity(q) {
                let j = m.eidx(q);
                assert(m.entities@[j].id == q);
                assert(self.entities@[j].id == q);
            }
            if self.has_entity(q) {
                let j = self.eidx(q);
                assert(self.entities@[j].id == q);
                assert(m.entities@[j].id == q);
            }
        }
        assert forall|q: EntityId| m.has_entity(q) implies self.eidx(q) == m.eidx(q) by {
            let j = m.eidx(q);
            assert(m.entities@[j].id == q);
            assert(self.entities@[j].id == q);
            self.lemma_at_index(j, q);
        }
    }

    /// The live entities, in storage order.
    pub fn entities(&self) -> (r: &Vec<Entity>)
        requires
            self.wf(),
        ensures
            r@.len() == self.spec_cnt(),
            forall|i: int| 0 <= i < r@.len()
                ==> self.has_entity((#[trigger] r@[i]).id) && r@[i] == self.spec_entity(r@[i].id),
    {
        proof {
            assert forall|i: int| 0 <= i < self.entities@.len() implies
                self.has_entity((#[trigger] self.entities@[i]).id)
                    && self.entities@[i] == self.spec_entity(self.entities@[i].id) by {
                self.lemma_at_index(i, self.entities@[i].id);
            }
        }
        &self.entities
    }

    /// The ids of every live entity, each exactly once.
    pub fn entity_ids(&self) -> (r: Vec<EntityId>)
        requires
            self.wf(),
        ensures
            forall|q: EntityId| r@.contains(q) == self.has_entity(q),
            forall|k1: int, k2: int| 0 <= k1 < k2 < r@.len() ==> r@[k1] != r@[k2],
            r@.len() == self.spec_cnt(),
    {
        let n = self.entities.len();
        let mut out: Vec<EntityId> = Vec::new();
        let mut i: usize = 0;
        while i < n
            invariant
                self.wf(),
                n == self.entities@.len(),
                i <= n,
                out@.len() == i as int,
                forall|j: int| 0 <= j < i as int
                    ==> #[trigger] out@[j] == self.entities@[j].id,
            decreases n - i,
        {
            out.push(self.entities[i].id);
            i = i + 1;
        }
        proof {
            assert forall|q: EntityId| out@.contains(q) == self.has_entity(q) by {
                if out@.contains(q) {
                    let k = choose|k: int| 0 <= k < out@.len() && out@[k] == q;
                    assert(self.entities@[k].id == q);
                }
                if self.has_entity(q) {
                    let k = self.eidx(q);
                    assert(self.entities@[k].id == q);
                    assert(out@[k] == q);
                }
            }
        }
        out
    }

    /// Number of live entities.
    pub fn cnt(&self) -> (r: usize)
        ensures
            r as int == self.spec_cnt(),
    {
        self.entities.len()
    }

    /// Despawns everything and restarts id assignment from one.
    pub fn clr(&mut self)
        ensures
            final(self).wf(),
            final(self).spec_cnt() == 0,
            final(self).spec_nxt() == 1,
            forall|q: EntityId| !final(self).has_entity(q),
    {
        self.entities.clear();
        self.nxt_id = 1;
    }
}

} // verus!
