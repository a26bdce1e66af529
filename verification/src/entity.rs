//! Entity identities and per-entity hierarchy data: a numeric id, a display
//! name, an active flag, and parent/child links.

use vstd::prelude::*;

verus! {

/// Identifies one entity; equality is by value.
#[derive(Debug, Clone, Copy, PartialEq, Eq, Structural, Hash)]
pub struct EntityId(pub u64);

impl EntityId {
    pub fn new(id: u64) -> (r: Self)
        ensures
            r == EntityId(id),
    {
        EntityId(id)
    }

    /// The raw numeric index of this id.
    pub fn idx(&self) -> (r: u64)
        ensures
            r == self.0,
    {
        self.0
    }
}

/// One entity: identity, name, active flag, and its place in the hierarchy.
#[derive(Debug, Clone)]
pub struct Entity {
    pub id: EntityId,
    pub name: String,
    pub act: bool,
    pub prt: Option<EntityId>,
    pub chd: Vec<EntityId>,
}

/// Removing every occurrence of one child from a prefix keeps the order of
/// the rest.
proof fn lemma_filter_take_step(s: Seq<EntityId>, i: int, pred: spec_fn(EntityId) -> bool)
    requires
        0 <= i < s.len(),
    ensures
        s.take(i + 1).filter(pred) == if pred(s[i]) {
            s.take(i).filter(pred).push(s[i])
        } else {
            s.take(i).filter(pred)
        },
{
    reveal_with_fuel(Seq::filter, 2);
    assert(s.take(i + 1).drop_last() =~= s.take(i));
    assert(s.take(i + 1).last() == s[i]);
}

impl Entity {
    /// A fresh, active, unnamed entity with no links.
    pub fn new(id: EntityId) -> (r: Self)
        ensures
            r.id == id,
            r.name@ == Seq::<char>::empty(),
            r.act == true,
            r.prt.is_none(),
            r.chd@ == Seq::<EntityId>::empty(),
    {
        let r = Entity { id, name: String::new(), act: true, prt: None, chd: Vec::new() };
        proof {
            assert(r.name@ =~= Seq::<char>::empty());
            assert(r.chd@ =~= Seq::<EntityId>::empty());
        }
        r
    }

    /// The same entity renamed.
    pub fn with_name(self, name: &str) -> (r: Self)
        ensures
            r.name@ == name@,
            r.id == self.id,
            r.act == self.act,
            r.prt == self.prt,
            r.chd == self.chd,
    {
        Entity { name: name.to_owned(), ..self }
    }

    /// Points this entity at a (possibly absent) parent.
    pub fn set_prt(&mut self, prt: Option<EntityId>)
        ensures
            final(self).prt == prt,
            final(self).id == old(self).id,
            final(self).name == old(self).name,
            final(self).act == old(self).act,
            final(self).chd == old(self).chd,
    {
        self.prt = prt;
    }

    /// Registers a child link; a child already present is not duplicated.
    pub fn add_chd(&mut self, chd: EntityId)
        ensures
            final(self).id == old(self).id,
            final(self).name == old(self).name,
            final(self).act == old(self).act,
            final(self).prt == old(self).prt,
            old(self).chd@.contains(chd) ==> final(self).chd == old(self).chd,
            !old(self).chd@.contains(chd) ==> final(self).chd@ == old(self).chd@.push(chd),
            final(self).chd@.contains(chd),
    {
        let n = self.chd.len();
        let mut i: usize = 0;
        while i < n
            invariant
                n == self.chd@.len(),
                i <= n,
                *self == *old(self),
                forall|j: int| 0 <= j < i as int ==> self.chd@[j] != chd,
            decreases n - i,
        {
            if self.chd[i] == chd {
                assert(self.chd@[i as int] == chd);
                return;
            }
            i = i + 1;
        }
        assert(!self.chd@.contains(chd));
        self.chd.push(chd);
        assert(final(self).chd@[old(self).chd@.len() as int] == chd);
    }

    /// Removes every link to the given child, keeping the others in order.
    pub fn del_chd(&mut self, chd: EntityId)
        ensures
            final(self).id == old(self).id,
            final(self).name == old(self).name,
            final(self).act == old(self).act,
            final(self).prt == old(self).prt,
            final(self).chd@ == old(self).chd@.filter(|c: EntityId| c != chd),
            !final(self).chd@.contains(chd),
    {
        let ghost pred = |c: EntityId| c != chd;
        let n = self.chd.len();
        let mut out: Vec<EntityId> = Vec::new();
        let mut i: usize = 0;
        while i < n
            invariant
                n == self.chd@.len(),
                i <= n,
                *self == *old(self),
                pred == (|c: EntityId| c != chd),
                out@ == self.chd@.take(i as int).filter(pred),
            decreases n - i,
        {
            proof {
                lemma_filter_take_step(self.chd@, i as int, pred);
            }
            if !(self.chd[i] == chd) {
                out.push(self.chd[i]);
                proof {
                    assert(pred(self.chd@[i as int]));
                    assert(out@ == self.chd@.take(i as int + 1).filter(pred));
                }
            } else {
                proof {
                    assert(!pred(self.chd@[i as int]));
                    assert(out@ == self.chd@.take(i as int + 1).filter(pred));
                }
            }
            i = i + 1;
        }
        proof {
            assert(self.chd@.take(n as int) =~= self.chd@);
        }
        proof {
            let f = old(self).chd@.filter(pred);
            f.filter_lemma(pred);
            assert(!f.contains(chd)) by {
                if f.contains(chd) {
                    let k = choose|k: int| 0 <= k < f.len() && f[k] == chd;
                }
            }
        }
        self.chd = out;
    }
}

} // verus!
