//! Broad-phase spatial index: a bounding-volume tree over axis-aligned integer
//! boxes. A node subdivides into eight equal octants once it holds more than a
//! fixed number of items; an inserted item sinks into the single child whose
//! region fully contains it and is never duplicated, items straddling a child
//! boundary staying at the current node.

use vstd::prelude::*;

verus! {

use vstd::seq_lib::lemma_multiset_commutative;

broadcast use vstd::seq::axiom_seq_index_decreases;

/// Deepest level a node may subdivide to.
pub const MAX_DEPTH: u32 = 8;

/// Number of items a node holds before it subdivides.
pub const MAX_ITEMS: usize = 8;

/// An axis-aligned box with inclusive integer corners.
#[derive(Debug, Clone, Copy, PartialEq, Eq, Structural)]
pub struct Aabb {
    pub min_x: i32,
    pub min_y: i32,
    pub min_z: i32,
    pub max_x: i32,
    pub max_y: i32,
    pub max_z: i32,
}

/// The box's minimum corner does not exceed its maximum corner.
pub open spec fn box_valid(b: Aabb) -> bool {
    b.min_x <= b.max_x && b.min_y <= b.max_y && b.min_z <= b.max_z
}

/// The two boxes share at least one point.
pub open spec fn boxes_intersect(a: Aabb, b: Aabb) -> bool {
    &&& a.min_x <= b.max_x && a.max_x >= b.min_x
    &&& a.min_y <= b.max_y && a.max_y >= b.min_y
    &&& a.min_z <= b.max_z && a.max_z >= b.min_z
}

/// Every point of `inner` lies in `outer`.
pub open spec fn box_contains_box(outer: Aabb, inner: Aabb) -> bool {
    &&& outer.min_x <= inner.min_x && inner.max_x <= outer.max_x
    &&& outer.min_y <= inner.min_y && inner.max_y <= outer.max_y
    &&& outer.min_z <= inner.min_z && inner.max_z <= outer.max_z
}

/// The point lies in the box.
pub open spec fn box_contains_point(b: Aabb, x: int, y: int, z: int) -> bool {
    &&& b.min_x <= x <= b.max_x
    &&& b.min_y <= y <= b.max_y
    &&& b.min_z <= z <= b.max_z
}

impl Aabb {
    pub fn new(min_x: i32, min_y: i32, min_z: i32, max_x: i32, max_y: i32, max_z: i32)
        -> (r: Self)
        ensures
            r == (Aabb { min_x, min_y, min_z, max_x, max_y, max_z }),
    {
        Aabb { min_x, min_y, min_z, max_x, max_y, max_z }
    }

    pub fn intersects(&self, other: &Aabb) -> (r: bool)
        ensures
            r == boxes_intersect(*self, *other),
    {
        self.min_x <= other.max_x && self.max_x >= other.min_x
            && self.min_y <= other.max_y && self.max_y >= other.min_y
            && self.min_z <= other.max_z && self.max_z >= other.min_z
    }

    pub fn contains_box(&self, other: &Aabb) -> (r: bool)
        ensures
            r == box_contains_box(*self, *other),
    {
        self.min_x <= other.min_x && other.max_x <= self.max_x
            && self.min_y <= other.min_y && other.max_y <= self.max_y
            && self.min_z <= other.min_z && other.max_z <= self.max_z
    }

    pub fn contains(&self, x: i32, y: i32, z: i32) -> (r: bool)
        ensures
            r == box_contains_point(*self, x as int, y as int, z as int),
    {
        self.min_x <= x && x <= self.max_x
            && self.min_y <= y && y <= self.max_y
            && self.min_z <= z && z <= self.max_z
    }
}

/// Floor midpoint of an inclusive integer range, as specifications see it.
pub open spec fn spec_mid(a: int, b: int) -> int {
    (a + b) / 2
}

/// Octant `i` of box `b`: the equal sub-box made by bisecting all three axes
/// at the box's floor midpoint, low-x first, then low-y, then low-z.
pub open spec fn octant(b: Aabb, i: int) -> Aabb {
    let cx = spec_mid(b.min_x as int, b.max_x as int) as i32;
    let cy = spec_mid(b.min_y as int, b.max_y as int) as i32;
    let cz = spec_mid(b.min_z as int, b.max_z as int) as i32;
    let lo_x = i % 2 == 0;
    let lo_y = (i / 2) % 2 == 0;
    let lo_z = i / 4 == 0;
    Aabb {
        min_x: if lo_x { b.min_x } else { cx },
        min_y: if lo_y { b.min_y } else { cy },
        min_z: if lo_z { b.min_z } else { cz },
        max_x: if lo_x { cx } else { b.max_x },
        max_y: if lo_y { cy } else { b.max_y },
        max_z: if lo_z { cz } else { b.max_z },
    }
}

/// Floor midpoint of an inclusive integer range.
fn mid(a: i32, b: i32) -> (r: i32)
    requires
        a <= b,
    ensures
        a as int <= r as int <= b as int,
        r as int == (a as int + b as int) / 2,
{
    let s: i64 = a as i64 + b as i64;
    proof {
        let aa = a as int;
        let bb = b as int;
        assert(aa <= (aa + bb) / 2 <= bb) by (nonlinear_arith)
            requires aa <= bb;
    }
    match s.checked_div_euclid(2) {
        Some(q) => q as i32,
        None => a,
    }
}

/// One node of the tree: its region, the items it retains, and its eight
/// children once it has subdivided.
pub struct OctreeNode<T: Copy> {
    bounds: Aabb,
    items: Vec<(Aabb, T)>,
    children: Vec<OctreeNode<T>>,
    depth: u32,
}

impl<T: Copy> OctreeNode<T> {
    /// The region this node covers.
    pub closed spec fn spec_bounds(&self) -> Aabb {
        self.bounds
    }

    /// This node's depth below the root.
    pub closed spec fn spec_depth(&self) -> int {
        self.depth as int
    }

    /// All (bounds, item) pairs stored in this node's subtree, this node's own
    /// items first, then each child subtree in octant order.
    pub closed spec fn all_items(self) -> Seq<(Aabb, T)>
        decreases self, 0int,
    {
        self.items@ + items_of_children(self.children@, self.children@.len() as int)
    }

    /// Every pair in the subtree lies inside this node's region.
    pub open spec fn boxed_in(self) -> bool {
        forall|j: int| 0 <= j < self.all_items().len()
            ==> box_contains_box(self.spec_bounds(), (#[trigger] self.all_items()[j]).0)
    }

    /// Structural soundness: a valid region, zero or eight children, children
    /// only above the depth limit, and each child one level deeper, covering a
    /// sub-region, well formed, and holding only items inside its region.
    pub closed spec fn wf(self) -> bool
        decreases self,
    {
        &&& box_valid(self.bounds)
        &&& self.depth <= MAX_DEPTH
        &&& (self.children@.len() == 0 || self.children@.len() == 8)
        &&& (self.children@.len() == 8 ==> self.depth < MAX_DEPTH)
        &&& forall|i: int| 0 <= i < self.children@.len() ==> {
            let c = #[trigger] self.children@[i];
            &&& c.depth == self.depth + 1
            &&& box_contains_box(self.bounds, c.bounds)
            &&& c.wf()
            &&& c.boxed_in()
        }
    }
}

/// The pairs stored in the first `n` subtrees of `cs`, concatenated in order.
pub closed spec fn items_of_children<T: Copy>(cs: Seq<OctreeNode<T>>, n: int) -> Seq<(Aabb, T)>
    decreases cs, n,
{
    if n <= 0 || n > cs.len() {
        Seq::empty()
    } else {
        items_of_children(cs, n - 1) + cs[n - 1].all_items()
    }
}

/// The payloads of the stored pairs whose boxes intersect `q`, in storage
/// order.
pub open spec fn matches_box<T: Copy>(items: Seq<(Aabb, T)>, q: Aabb) -> Seq<T> {
    items.filter(|p: (Aabb, T)| boxes_intersect(p.0, q)).map_values(|p: (Aabb, T)| p.1)
}

/// The payloads of the stored pairs whose boxes contain the point, in storage
/// order.
pub open spec fn matches_point<T: Copy>(items: Seq<(Aabb, T)>, x: int, y: int, z: int) -> Seq<T> {
    items.filter(|p: (Aabb, T)| box_contains_point(p.0, x, y, z)).map_values(|p: (Aabb, T)| p.1)
}

/// Filtering and projecting distribute over concatenation.
proof fn lemma_matches_box_add<T: Copy>(a: Seq<(Aabb, T)>, b: Seq<(Aabb, T)>, q: Aabb)
    ensures
        matches_box(a + b, q) == matches_box(a, q) + matches_box(b, q),
{
    let pred = |p: (Aabb, T)| boxes_intersect(p.0, q);
    let proj = |p: (Aabb, T)| p.1;
    Seq::filter_distributes_over_add(a, b, pred);
    assert((a.filter(pred) + b.filter(pred)).map_values(proj)
        =~= a.filter(pred).map_values(proj) + b.filter(pred).map_values(proj));
}

/// Filtering and projecting distribute over concatenation.
proof fn lemma_matches_point_add<T: Copy>(
    a: Seq<(Aabb, T)>,
    b: Seq<(Aabb, T)>,
    x: int,
    y: int,
    z: int,
)
    ensures
        matches_point(a + b, x, y, z)
            == matches_point(a, x, y, z) + matches_point(b, x, y, z),
{
    let pred = |p: (Aabb, T)| box_contains_point(p.0, x, y, z);
    let proj = |p: (Aabb, T)| p.1;
    Seq::filter_distributes_over_add(a, b, pred);
    assert((a.filter(pred) + b.filter(pred)).map_values(proj)
        =~= a.filter(pred).map_values(proj) + b.filter(pred).map_values(proj));
}

/// A sequence none of whose elements satisfies the predicate filters to empty.
proof fn lemma_filter_none<T: Copy>(s: Seq<(Aabb, T)>, pred: spec_fn((Aabb, T)) -> bool)
    requires
        forall|j: int| 0 <= j < s.len() ==> !pred(#[trigger] s[j]),
    ensures
        s.filter(pred) == Seq::<(Aabb, T)>::empty(),
    decreases s.len(),
{
    reveal(Seq::filter);
    if s.len() != 0 {
        lemma_filter_none(s.drop_last(), pred);
    }
}

/// A sequence all of whose subtrees are empty contributes no items.
proof fn lemma_items_of_all_empty<T: Copy>(cs: Seq<OctreeNode<T>>, n: int)
    requires
        forall|i: int| 0 <= i < cs.len() ==> (#[trigger] cs[i]).all_items() == Seq::<(Aabb, T)>::empty(),
    ensures
        items_of_children(cs, n) == Seq::<(Aabb, T)>::empty(),
    decreases n,
{
    if n > 0 && n <= cs.len() {
        lemma_items_of_all_empty(cs, n - 1);
        assert(items_of_children(cs, n)
            =~= items_of_children(cs, n - 1) + cs[n - 1].all_items());
        assert(items_of_children(cs, n) =~= Seq::<(Aabb, T)>::empty());
    }
}

/// Replacing one subtree whose contents grew by `pair` grows the concatenated
/// contents by `pair`.
proof fn lemma_items_of_update<T: Copy>(
    cs1: Seq<OctreeNode<T>>,
    cs2: Seq<OctreeNode<T>>,
    k: int,
    pair: (Aabb, T),
    n: int,
)
    requires
        cs2.len() == cs1.len(),
        0 <= k < cs1.len(),
        forall|j: int| 0 <= j < cs1.len() && j != k ==> cs2[j] == #[trigger] cs1[j],
        cs2[k].all_items().to_multiset() == cs1[k].all_items().to_multiset().insert(pair),
        0 <= n <= cs1.len(),
    ensures
        k < n ==> items_of_children(cs2, n).to_multiset()
            == items_of_children(cs1, n).to_multiset().insert(pair),
        k >= n ==> items_of_children(cs2, n) == items_of_children(cs1, n),
    decreases n,
{
    broadcast use vstd::multiset::group_multiset_axioms;
    if n > 0 {
        lemma_items_of_update(cs1, cs2, k, pair, n - 1);
        let a1 = items_of_children(cs1, n - 1);
        let a2 = items_of_children(cs2, n - 1);
        let b1 = cs1[n - 1].all_items();
        let b2 = cs2[n - 1].all_items();
        lemma_multiset_commutative(a1, b1);
        lemma_multiset_commutative(a2, b2);
        if k == n - 1 {
            assert(a2 == a1);
            assert((a1.to_multiset().add(b1.to_multiset().insert(pair)))
                =~= (a1.to_multiset().add(b1.to_multiset())).insert(pair));
        } else if k < n - 1 {
            assert(b2 == b1);
            assert((a1.to_multiset().insert(pair).add(b1.to_multiset()))
                =~= (a1.to_multiset().add(b1.to_multiset())).insert(pair));
        } else {
            assert(a2 == a1 && b2 == b1);
            assert(items_of_children(cs2, n) =~= items_of_children(cs1, n));
        }
    } else {
        assert(items_of_children(cs2, n) =~= items_of_children(cs1, n));
    }
}

/// If one sequence's multiset is another's grown by `pair`, and every box of
/// the smaller one plus `pair`'s box lies inside `b`, so does every box of the
/// larger one.
proof fn lemma_boxed_in_insert<T: Copy>(
    s1: Seq<(Aabb, T)>,
    s2: Seq<(Aabb, T)>,
    b: Aabb,
    pair: (Aabb, T),
)
    requires
        s2.to_multiset() == s1.to_multiset().insert(pair),
        forall|j: int| 0 <= j < s1.len() ==> box_contains_box(b, (#[trigger] s1[j]).0),
        box_contains_box(b, pair.0),
    ensures
        forall|j: int| 0 <= j < s2.len() ==> box_contains_box(b, (#[trigger] s2[j]).0),
{
    broadcast use vstd::multiset::group_multiset_axioms;
    broadcast use vstd::seq_lib::group_to_multiset_ensures;
    assert forall|j: int| 0 <= j < s2.len() implies
        box_contains_box(b, (#[trigger] s2[j]).0) by {
        let e = s2[j];
        assert(s2.contains(e));
        assert(s2.to_multiset().count(e) > 0);
        if e != pair {
            assert(s1.to_multiset().count(e) > 0);
            assert(s1.contains(e));
            let i = choose|i: int| 0 <= i < s1.len() && s1[i] == e;
        }
    }
}

/// Appending one pair to a node's own item list grows its contents by that
/// pair.
proof fn lemma_push_own_item<T: Copy>(items0: Seq<(Aabb, T)>, rest: Seq<(Aabb, T)>, pair: (Aabb, T))
    ensures
        (items0.push(pair) + rest).to_multiset() == (items0 + rest).to_multiset().insert(pair),
{
    broadcast use vstd::multiset::group_multiset_axioms;
    broadcast use vstd::seq_lib::group_to_multiset_ensures;
    lemma_multiset_commutative(items0.push(pair), rest);
    lemma_multiset_commutative(items0, rest);
    assert(items0.push(pair).to_multiset() == items0.to_multiset().insert(pair));
    assert(items0.to_multiset().insert(pair).add(rest.to_multiset())
        =~= (items0.to_multiset().add(rest.to_multiset())).insert(pair));
}

/// What one pair contributes to a box query.
proof fn lemma_matches_box_one<T: Copy>(pair: (Aabb, T), q: Aabb)
    ensures
        matches_box(seq![pair], q) == if boxes_intersect(pair.0, q) {
            seq![pair.1]
        } else {
            Seq::<T>::empty()
        },
{
    reveal_with_fuel(Seq::filter, 2);
    let pred = |p: (Aabb, T)| boxes_intersect(p.0, q);
    assert(seq![pair].drop_last() =~= Seq::<(Aabb, T)>::empty());
    if pred(pair) {
        assert(seq![pair].filter(pred) =~= seq![pair]);
        assert(matches_box(seq![pair], q) =~= seq![pair.1]);
    } else {
        assert(seq![pair].filter(pred) =~= Seq::<(Aabb, T)>::empty());
        assert(matches_box(seq![pair], q) =~= Seq::<T>::empty());
    }
}

/// What one pair contributes to a point query.
proof fn lemma_matches_point_one<T: Copy>(pair: (Aabb, T), x: int, y: int, z: int)
    ensures
        matches_point(seq![pair], x, y, z) == if box_contains_point(pair.0, x, y, z) {
            seq![pair.1]
        } else {
            Seq::<T>::empty()
        },
{
    reveal_with_fuel(Seq::filter, 2);
    let pred = |p: (Aabb, T)| box_contains_point(p.0, x, y, z);
    assert(seq![pair].drop_last() =~= Seq::<(Aabb, T)>::empty());
    if pred(pair) {
        assert(seq![pair].filter(pred) =~= seq![pair]);
        assert(matches_point(seq![pair], x, y, z) =~= seq![pair.1]);
    } else {
        assert(seq![pair].filter(pred) =~= Seq::<(Aabb, T)>::empty());
        assert(matches_point(seq![pair], x, y, z) =~= Seq::<T>::empty());
    }
}

impl<T: Copy> OctreeNode<T> {
    /// A leaf node covering `bounds` at the given depth.
    pub fn new(bounds: Aabb, depth: u32) -> (r: Self)
        requires
            box_valid(bounds),
            depth <= MAX_DEPTH,
        ensures
            r.wf(),
            r.spec_bounds() == bounds,
            r.spec_depth() == depth as int,
            r.all_items() == Seq::<(Aabb, T)>::empty(),
            r.boxed_in(),
    {
        let r = OctreeNode { bounds, items: Vec::new(), children: Vec::new(), depth };
        proof {
            assert(r.all_items() =~= Seq::<(Aabb, T)>::empty());
        }
        r
    }

    /// Splits this leaf's region into eight equal octants by bisecting each
    /// axis at its floor midpoint.
    fn subdivide(&mut self)
        requires
            old(self).wf(),
            old(self).children@.len() == 0,
            old(self).spec_depth() < MAX_DEPTH as int,
        ensures
            final(self).wf(),
            final(self).spec_bounds() == old(self).spec_bounds(),
            final(self).spec_depth() == old(self).spec_depth(),
            final(self).children@.len() == 8,
            final(self).all_items() == old(self).all_items(),
            forall|i: int| 0 <= i < 8
                ==> (#[trigger] final(self).children@[i]).all_items()
                    == Seq::<(Aabb, T)>::empty(),
            forall|i: int| 0 <= i < 8
                ==> (#[trigger] final(self).children@[i]).spec_bounds()
                    == octant(old(self).spec_bounds(), i),
            forall|i: int| 0 <= i < 8
                ==> (#[trigger] final(self).children@[i]).spec_depth()
                    == old(self).spec_depth() + 1,
    {
        let b = self.bounds;
        let cx = mid(b.min_x, b.max_x);
        let cy = mid(b.min_y, b.max_y);
        let cz = mid(b.min_z, b.max_z);
        let d = self.depth + 1;
        let mut cs: Vec<OctreeNode<T>> = Vec::new();
        cs.push(OctreeNode::new(Aabb::new(b.min_x, b.min_y, b.min_z, cx, cy, cz), d));
        cs.push(OctreeNode::new(Aabb::new(cx, b.min_y, b.min_z, b.max_x, cy, cz), d));
        cs.push(OctreeNode::new(Aabb::new(b.min_x, cy, b.min_z, cx, b.max_y, cz), d));
        cs.push(OctreeNode::new(Aabb::new(cx, cy, b.min_z, b.max_x, b.max_y, cz), d));
        cs.push(OctreeNode::new(Aabb::new(b.min_x, b.min_y, cz, cx, cy, b.max_z), d));
        cs.push(OctreeNode::new(Aabb::new(cx, b.min_y, cz, b.max_x, cy, b.max_z), d));
        cs.push(OctreeNode::new(Aabb::new(b.min_x, cy, cz, cx, b.max_y, b.max_z), d));
        cs.push(OctreeNode::new(Aabb::new(cx, cy, cz, b.max_x, b.max_y, b.max_z), d));
        self.children = cs;
        proof {
            assert(cx as int == spec_mid(b.min_x as int, b.max_x as int));
            assert(cy as int == spec_mid(b.min_y as int, b.max_y as int));
            assert(cz as int == spec_mid(b.min_z as int, b.max_z as int));
            assert forall|i: int| 0 <= i < 8 implies
                (#[trigger] self.children@[i]).spec_bounds() == octant(b, i) by {
                assert(self.children@[0].spec_bounds() == octant(b, 0));
                assert(self.children@[1].spec_bounds() == octant(b, 1));
                assert(self.children@[2].spec_bounds() == octant(b, 2));
                assert(self.children@[3].spec_bounds() == octant(b, 3));
                assert(self.children@[4].spec_bounds() == octant(b, 4));
                assert(self.children@[5].spec_bounds() == octant(b, 5));
                assert(self.children@[6].spec_bounds() == octant(b, 6));
                assert(self.children@[7].spec_bounds() == octant(b, 7));
            }
            lemma_items_of_all_empty(self.children@, 8);
            assert(final(self).all_items() =~= old(self).all_items()) by {
                assert(old(self).all_items()
                    =~= old(self).items@ + items_of_children(old(self).children@, 0));
            }
        }
    }

    /// Inserts one (bounds, item) pair. Returns false, changing nothing, when
    /// the pair's box misses this node's region entirely; otherwise stores the
    /// pair exactly once somewhere in the subtree: in the one child whose
    /// region fully contains its box where such a child exists, at this node
    /// itself where the box straddles child regions.
    pub fn ins(&mut self, bounds: Aabb, item: T) -> (r: bool)
        requires
            old(self).wf(),
        ensures
            final(self).wf(),
            final(self).spec_bounds() == old(self).spec_bounds(),
            final(self).spec_depth() == old(self).spec_depth(),
            r == boxes_intersect(old(self).spec_bounds(), bounds),
            !r ==> *final(self) == *old(self),
            r ==> final(self).all_items().to_multiset()
                == old(self).all_items().to_multiset().insert((bounds, item)),
            old(self).boxed_in() && box_contains_box(old(self).spec_bounds(), bounds)
                ==> final(self).boxed_in(),
        decreases MAX_DEPTH as int - self.spec_depth(),
    {
        let ghost pair = (bounds, item);
        if !self.bounds.intersects(&bounds) {
            return false;
        }
        let ghost self0 = *self;
        if self.children.len() == 0 && self.items.len() < MAX_ITEMS {
            self.items.push((bounds, item));
            proof {
                lemma_push_own_item(self0.items@,
                    items_of_children(self0.children@, self0.children@.len() as int), pair);
                if self0.boxed_in() && box_contains_box(self0.bounds, bounds) {
                    lemma_boxed_in_insert(self0.all_items(), self.all_items(),
                        self.bounds, pair);
                }
            }
            return true;
        }
        if self.children.len() == 0 && self.depth < MAX_DEPTH {
            self.subdivide();
        }
        let ghost mid_self = *self;
        proof {
            assert(mid_self.all_items().to_multiset() == self0.all_items().to_multiset());
            assert(mid_self.boxed_in() == self0.boxed_in());
        }
        let n = self.children.len();
        let mut target: usize = n;
        let mut k: usize = 0;
        while k < n
            invariant
                n == self.children@.len(),
                k <= n,
                target <= n,
                target < n ==> box_contains_box(self.children@[target as int].bounds, bounds),
            decreases n - k,
        {
            if target == n && self.children[k].bounds.contains_box(&bounds) {
                target = k;
            }
            k = k + 1;
        }
        if target < n {
            let ghost kk = target as int;
            proof {
                assert(box_contains_box(mid_self.children@[kk].bounds, bounds));
            }
            let c = &mut self.children[target];
            let added = c.ins(bounds, item);
            if added {
                proof {
                    lemma_items_of_update(mid_self.children@, self.children@, kk, pair,
                        mid_self.children@.len() as int);
                    lemma_multiset_commutative(mid_self.items@,
                        items_of_children(mid_self.children@, mid_self.children@.len() as int));
                    lemma_multiset_commutative(self.items@,
                        items_of_children(self.children@, self.children@.len() as int));
                    broadcast use vstd::multiset::group_multiset_axioms;
                    assert(self.all_items().to_multiset()
                        =~= mid_self.all_items().to_multiset().insert(pair));
                    assert(self.wf());
                    if self0.boxed_in() && box_contains_box(self0.bounds, bounds) {
                        lemma_boxed_in_insert(mid_self.all_items(), self.all_items(),
                            self.bounds, pair);
                    }
                }
                return true;
            }
            proof {
                assert(self.children@ =~= mid_self.children@);
                assert(self.items@ == mid_self.items@);
                assert(self.all_items() == mid_self.all_items());
                assert(self.wf());
            }
        }
        self.items.push((bounds, item));
        proof {
            lemma_push_own_item(mid_self.items@,
                items_of_children(mid_self.children@, mid_self.children@.len() as int), pair);
            if self0.boxed_in() && box_contains_box(self0.bounds, bounds) {
                lemma_boxed_in_insert(mid_self.all_items(), self.all_items(),
                    self.bounds, pair);
            }
        }
        return true;
    }

    /// Appends to `result` the payload of every stored pair whose box
    /// intersects `q`, exactly and in storage order: a node's own items are
    /// always checked, straddling or not, and the search descends only into
    /// children whose regions intersect `q`.
    pub fn query(&self, q: &Aabb, result: &mut Vec<T>)
        requires
            self.wf(),
        ensures
            final(result)@ == old(result)@ + matches_box(self.all_items(), *q),
        decreases MAX_DEPTH as int - self.spec_depth(),
    {
        let ghost base = result@;
        let n_items = self.items.len();
        let mut i: usize = 0;
        while i < n_items
            invariant
                self.wf(),
                n_items == self.items@.len(),
                i <= n_items,
                result@ == base + matches_box(self.items@.take(i as int), *q),
            decreases n_items - i,
        {
            let ghost pre = self.items@.take(i as int);
            if self.items[i].0.intersects(q) {
                result.push(self.items[i].1);
            }
            proof {
                assert(self.items@.take(i as int + 1) =~= pre + seq![self.items@[i as int]]);
                lemma_matches_box_add(pre, seq![self.items@[i as int]], *q);
                lemma_matches_box_one(self.items@[i as int], *q);
                assert(result@ =~= base + matches_box(self.items@.take(i as int + 1), *q));
            }
            i = i + 1;
        }
        proof {
            assert(self.items@.take(n_items as int) =~= self.items@);
        }
        let n_c = self.children.len();
        let mut k: usize = 0;
        while k < n_c
            invariant
                self.wf(),
                n_c == self.children@.len(),
                k <= n_c,
                result@ == base
                    + matches_box(self.items@ + items_of_children(self.children@, k as int), *q),
            decreases n_c - k,
        {
            let ghost before = result@;
            let c = &self.children[k];
            proof {
                assert(c.wf() && c.boxed_in());
            }
            if c.bounds.intersects(q) {
                c.query(q, result);
            } else {
                proof {
                    let pred = |p: (Aabb, T)| boxes_intersect(p.0, *q);
                    assert forall|j: int| 0 <= j < c.all_items().len() implies
                        !pred(#[trigger] c.all_items()[j]) by {
                        assert(box_contains_box(c.spec_bounds(), c.all_items()[j].0));
                    }
                    lemma_filter_none(c.all_items(), pred);
                    assert(result@ =~= before + matches_box(c.all_items(), *q));
                }
            }
            proof {
                assert(result@ == before + matches_box(c.all_items(), *q));
                assert(items_of_children(self.children@, k as int + 1)
                    =~= items_of_children(self.children@, k as int) + c.all_items());
                lemma_matches_box_add(self.items@,
                    items_of_children(self.children@, k as int), *q);
                lemma_matches_box_add(self.items@ + items_of_children(self.children@, k as int),
                    c.all_items(), *q);
                lemma_matches_box_add(self.items@,
                    items_of_children(self.children@, k as int + 1), *q);
                assert((self.items@ + items_of_children(self.children@, k as int))
                    + c.all_items()
                    =~= self.items@ + items_of_children(self.children@, k as int + 1));
                assert(result@ == base + matches_box(
                    self.items@ + items_of_children(self.children@, k as int + 1), *q));
            }
            k = k + 1;
        }
    }

    /// Appends to `result` the payload of every stored pair whose box contains
    /// the point, exactly and in storage order: a node's own items are always
    /// checked, and the search descends only into children whose regions hold
    /// the point.
    pub fn query_point(&self, x: i32, y: i32, z: i32, result: &mut Vec<T>)
        requires
            self.wf(),
        ensures
            final(result)@ == old(result)@
                + matches_point(self.all_items(), x as int, y as int, z as int),
        decreases MAX_DEPTH as int - self.spec_depth(),
    {
        let ghost base = result@;
        let n_items = self.items.len();
        let mut i: usize = 0;
        while i < n_items
            invariant
                self.wf(),
                n_items == self.items@.len(),
                i <= n_items,
                result@ == base
                    + matches_point(self.items@.take(i as int), x as int, y as int, z as int),
            decreases n_items - i,
        {
            let ghost pre = self.items@.take(i as int);
            if self.items[i].0.contains(x, y, z) {
                result.push(self.items[i].1);
            }
            proof {
                assert(self.items@.take(i as int + 1) =~= pre + seq![self.items@[i as int]]);
                lemma_matches_point_add(pre, seq![self.items@[i as int]],
                    x as int, y as int, z as int);
                lemma_matches_point_one(self.items@[i as int], x as int, y as int, z as int);
                assert(result@ =~= base + matches_point(self.items@.take(i as int + 1),
                    x as int, y as int, z as int));
            }
            i = i + 1;
        }
        proof {
            assert(self.items@.take(n_items as int) =~= self.items@);
        }
        let n_c = self.children.len();
        let mut k: usize = 0;
        while k < n_c
            invariant
                self.wf(),
                n_c == self.children@.len(),
                k <= n_c,
                result@ == base + matches_point(
                    self.items@ + items_of_children(self.children@, k as int),
                    x as int, y as int, z as int),
            decreases n_c - k,
        {
            let ghost before = result@;
            let c = &self.children[k];
            proof {
                assert(c.wf() && c.boxed_in());
            }
            if c.bounds.contains(x, y, z) {
                c.query_point(x, y, z, result);
            } else {
                proof {
                    let pred = |p: (Aabb, T)| box_contains_point(p.0, x as int, y as int, z as int);
                    assert forall|j: int| 0 <= j < c.all_items().len() implies
                        !pred(#[trigger] c.all_items()[j]) by {
                        assert(box_contains_box(c.spec_bounds(), c.all_items()[j].0));
                    }
                    lemma_filter_none(c.all_items(), pred);
                    assert(result@ =~= before
                        + matches_point(c.all_items(), x as int, y as int, z as int));
                }
            }
            proof {
                assert(result@ == before
                    + matches_point(c.all_items(), x as int, y as int, z as int));
                assert(items_of_children(self.children@, k as int + 1)
                    =~= items_of_children(self.children@, k as int) + c.all_items());
                lemma_matches_point_add(self.items@,
                    items_of_children(self.children@, k as int), x as int, y as int, z as int);
                lemma_matches_point_add(
                    self.items@ + items_of_children(self.children@, k as int),
                    c.all_items(), x as int, y as int, z as int);
                lemma_matches_point_add(self.items@,
                    items_of_children(self.children@, k as int + 1),
                    x as int, y as int, z as int);
                assert((self.items@ + items_of_children(self.children@, k as int))
                    + c.all_items()
                    =~= self.items@ + items_of_children(self.children@, k as int + 1));
                assert(result@ == base + matches_point(
                    self.items@ + items_of_children(self.children@, k as int + 1),
                    x as int, y as int, z as int));
            }
            k = k + 1;
        }
    }

    /// Discards every stored item and all children, returning the node to its
    /// root-only state.
    pub fn clr(&mut self)
        requires
            old(self).wf(),
        ensures
            final(self).wf(),
            final(self).spec_bounds() == old(self).spec_bounds(),
            final(self).spec_depth() == old(self).spec_depth(),
            final(self).all_items() == Seq::<(Aabb, T)>::empty(),
            final(self).boxed_in(),
    {
        self.items.clear();
        self.children = Vec::new();
        proof {
            assert(final(self).all_items() =~= Seq::<(Aabb, T)>::empty());
        }
    }
}

/// The bounding-volume tree: a root node covering the indexed region.
pub struct Octree<T: Copy> {
    root: OctreeNode<T>,
}

impl<T: Copy> Octree<T> {
    /// All (bounds, item) pairs stored in the tree, in storage order.
    pub closed spec fn contents(&self) -> Seq<(Aabb, T)> {
        self.root.all_items()
    }

    /// The region the root covers.
    pub closed spec fn spec_bounds(&self) -> Aabb {
        self.root.spec_bounds()
    }

    /// The tree's structural invariant.
    pub closed spec fn wf(&self) -> bool {
        self.root.wf()
    }

    pub fn new(bounds: Aabb) -> (r: Self)
        requires
            box_valid(bounds),
        ensures
            r.wf(),
            r.spec_bounds() == bounds,
            r.contents() == Seq::<(Aabb, T)>::empty(),
    {
        Octree { root: OctreeNode::new(bounds, 0) }
    }

    /// Inserts one (bounds, item) pair; returns false, storing nothing, only
    /// when the box misses the indexed region entirely.
    pub fn ins(&mut self, bounds: Aabb, item: T) -> (r: bool)
        requires
            old(self).wf(),
        ensures
            final(self).wf(),
            final(self).spec_bounds() == old(self).spec_bounds(),
            r == boxes_intersect(old(self).spec_bounds(), bounds),
            !r ==> *final(self) == *old(self),
            r ==> final(self).contents().to_multiset()
                == old(self).contents().to_multiset().insert((bounds, item)),
    {
        self.root.ins(bounds, item)
    }

    /// The payloads of exactly the stored pairs whose boxes intersect `q`, in
    /// storage order.
    pub fn query(&self, q: &Aabb) -> (r: Vec<T>)
        requires
            self.wf(),
        ensures
            r@ == matches_box(self.contents(), *q),
    {
        let mut result: Vec<T> = Vec::new();
        self.root.query(q, &mut result);
        proof {
            assert(Seq::<T>::empty() + matches_box(self.contents(), *q)
                =~= matches_box(self.contents(), *q));
        }
        result
    }

    /// The payloads of exactly the stored pairs whose boxes contain the point,
    /// in storage order.
    pub fn query_point(&self, x: i32, y: i32, z: i32) -> (r: Vec<T>)
        requires
            self.wf(),
        ensures
            r@ == matches_point(self.contents(), x as int, y as int, z as int),
    {
        let mut result: Vec<T> = Vec::new();
        self.root.query_point(x, y, z, &mut result);
        proof {
            assert(Seq::<T>::empty()
                + matches_point(self.contents(), x as int, y as int, z as int)
                =~= matches_point(self.contents(), x as int, y as int, z as int));
        }
        result
    }

    /// Discards all items and children; the tree afterwards indexes nothing.
    pub fn clr(&mut self)
        requires
            old(self).wf(),
        ensures
            final(self).wf(),
            final(self).spec_bounds() == old(self).spec_bounds(),
            final(self).contents() == Seq::<(Aabb, T)>::empty(),
    {
        self.root.clr();
    }
}


} // verus!
