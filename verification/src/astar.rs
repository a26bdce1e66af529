//! Grid-based A* path search over integer cells with a caller-supplied
//! walkability predicate, an octile-distance heuristic and fixed-point move
//! costs (orthogonal 10, face diagonal 14, corner diagonal 17).

use vstd::prelude::*;

verus! {

/// One traversable grid cell; equality is by value.
#[derive(Debug, Clone, Copy, PartialEq, Eq, Structural, Hash)]
pub struct PathNode {
    pub x: i32,
    pub y: i32,
    pub z: i32,
}

/// Magnitude of an integer.
pub open spec fn abs_i(a: int) -> int {
    if a < 0 { -a } else { a }
}

/// Squared Euclidean distance between two cells.
pub open spec fn spec_dist_sq(a: PathNode, b: PathNode) -> int {
    let dx = a.x as int - b.x as int;
    let dy = a.y as int - b.y as int;
    let dz = a.z as int - b.z as int;
    dx * dx + dy * dy + dz * dz
}

/// Manhattan distance between two cells.
pub open spec fn spec_manhattan(a: PathNode, b: PathNode) -> int {
    abs_i(a.x as int - b.x as int) + abs_i(a.y as int - b.y as int)
        + abs_i(a.z as int - b.z as int)
}

/// Whether one search step may go from `a` to `b`: to a distinct cell of the
/// surrounding 3x3x3 cube when diagonal movement is allowed, to one of the six
/// face neighbors otherwise.
pub open spec fn step_ok(a: PathNode, b: PathNode, diag: bool) -> bool {
    let dx = abs_i(b.x as int - a.x as int);
    let dy = abs_i(b.y as int - a.y as int);
    let dz = abs_i(b.z as int - a.z as int);
    dx <= 1 && dy <= 1 && dz <= 1 && (if diag { dx + dy + dz >= 1 } else { dx + dy + dz == 1 })
}

/// Fixed-point cost of one step: 10 orthogonal, 14 across a face diagonal,
/// 17 across a corner diagonal.
pub open spec fn spec_move_cost(a: PathNode, b: PathNode) -> int {
    let d = abs_i(b.x as int - a.x as int) + abs_i(b.y as int - a.y as int)
        + abs_i(b.z as int - a.z as int);
    if d == 2 { 14 } else if d == 3 { 17 } else { 10 }
}

/// The 3D octile distance with the same weights as the move costs: the
/// smallest axis delta is spent on corner moves, the middle one on face
/// diagonals, the rest on orthogonal steps.
pub open spec fn spec_octile(a: PathNode, b: PathNode) -> int {
    let dx = abs_i(b.x as int - a.x as int);
    let dy = abs_i(b.y as int - a.y as int);
    let dz = abs_i(b.z as int - a.z as int);
    let mn = if dx <= dy && dx <= dz { dx } else if dy <= dz { dy } else { dz };
    let mx = if dx >= dy && dx >= dz { dx } else if dy >= dz { dy } else { dz };
    let md = dx + dy + dz - mn - mx;
    mn * 17 + (md - mn) * 14 + (mx - md) * 10
}

/// The search heuristic: octile distance with diagonal movement, Manhattan
/// distance scaled to the orthogonal step cost without it.
pub open spec fn spec_heuristic(a: PathNode, b: PathNode, diag: bool) -> int {
    if diag { spec_octile(a, b) } else { spec_manhattan(a, b) * 10 }
}

/// Total fixed-point cost of walking `p` from its suffix starting at `i`.
pub open spec fn path_cost_from(p: Seq<PathNode>, i: int) -> int
    decreases p.len() - i,
{
    if i < 0 || i + 1 >= p.len() {
        0
    } else {
        spec_move_cost(p[i], p[i + 1]) + path_cost_from(p, i + 1)
    }
}

/// Total fixed-point cost of walking the whole of `p`.
pub open spec fn path_cost(p: Seq<PathNode>) -> int {
    path_cost_from(p, 0)
}

/// `p` is a step-by-step route from `start` to `goal`.
pub open spec fn valid_path(p: Seq<PathNode>, start: PathNode, goal: PathNode, diag: bool) -> bool {
    &&& p.len() >= 1
    &&& p[0] == start
    &&& p[p.len() - 1] == goal
    &&& forall|i: int| 0 <= i < p.len() - 1 ==> step_ok(p[i], #[trigger] p[i + 1], diag)
}

/// Magnitude of a (non-extreme) 64-bit integer.
fn abs64(a: i64) -> (r: i64)
    requires
        i64::MIN < a,
    ensures
        r as int == abs_i(a as int),
{
    if a < 0 { -a } else { a }
}

impl PathNode {
    pub fn new(x: i32, y: i32, z: i32) -> (r: Self)
        ensures
            r == (PathNode { x, y, z }),
    {
        PathNode { x, y, z }
    }

    /// Squared Euclidean distance to `other`.
    pub fn dist_sq(&self, other: &Self) -> (r: i32)
        requires
            spec_dist_sq(*self, *other) <= i32::MAX as int,
        ensures
            r as int == spec_dist_sq(*self, *other),
    {
        let dx = self.x as i64 - other.x as i64;
        let dy = self.y as i64 - other.y as i64;
        let dz = self.z as i64 - other.z as i64;
        proof {
            assert(dx * dx >= 0 && dy * dy >= 0 && dz * dz >= 0) by (nonlinear_arith);
        }
        (dx * dx + dy * dy + dz * dz) as i32
    }

    /// Manhattan distance to `other`.
    pub fn manhattan(&self, other: &Self) -> (r: i32)
        requires
            spec_manhattan(*self, *other) <= i32::MAX as int,
        ensures
            r as int == spec_manhattan(*self, *other),
    {
        let dx = abs64(self.x as i64 - other.x as i64);
        let dy = abs64(self.y as i64 - other.y as i64);
        let dz = abs64(self.z as i64 - other.z as i64);
        (dx + dy + dz) as i32
    }
}

/// Outcome of one search: the route (empty when none was found), whether the
/// goal was reached, and the total fixed-point cost of the route.
#[derive(Debug, Clone)]
pub struct PathResult {
    pub path: Vec<PathNode>,
    pub found: bool,
    pub cost: i32,
}

/// Largest iteration cap `find` accepts; keeps every accumulated cost inside
/// `i32` range.
pub const MAX_ITER_LIMIT: usize = 50000000;

/// Stateless A* configuration: the iteration cap and whether diagonal steps
/// are allowed.
pub struct PathFinder {
    max_iter: usize,
    allow_diag: bool,
}

impl PathFinder {
    /// The configured iteration cap.
    pub closed spec fn spec_max_iter(&self) -> int {
        self.max_iter as int
    }

    /// Whether diagonal steps are allowed.
    pub closed spec fn spec_diag(&self) -> bool {
        self.allow_diag
    }

    pub fn new() -> (r: Self)
        ensures
            r.spec_max_iter() == 10000,
            r.spec_diag() == true,
    {
        PathFinder { max_iter: 10000, allow_diag: true }
    }

    pub fn with_max_iter(self, max_iter: usize) -> (r: Self)
        ensures
            r.spec_max_iter() == max_iter as int,
            r.spec_diag() == self.spec_diag(),
    {
        PathFinder { max_iter, ..self }
    }

    pub fn with_diag(self, allow: bool) -> (r: Self)
        ensures
            r.spec_max_iter() == self.spec_max_iter(),
            r.spec_diag() == allow,
    {
        PathFinder { allow_diag: allow, ..self }
    }

    /// The heuristic estimate from `a` to `b` under this configuration.
    #[verifier::rlimit(50)]
    fn heuristic(&self, a: &PathNode, b: &PathNode) -> (r: i64)
        ensures
            r as int == spec_heuristic(*a, *b, self.spec_diag()),
            0 <= r as int <= 0x33_0000_0000,
    {
        let dx = abs64(a.x as i64 - b.x as i64);
        let dy = abs64(a.y as i64 - b.y as i64);
        let dz = abs64(a.z as i64 - b.z as i64);
        proof {
            assert(0 <= dx as int <= 0x1_0000_0000);
            assert(0 <= dy as int <= 0x1_0000_0000);
            assert(0 <= dz as int <= 0x1_0000_0000);
        }
        if self.allow_diag {
            let mn = if dx <= dy && dx <= dz { dx } else if dy <= dz { dy } else { dz };
            let mx = if dx >= dy && dx >= dz { dx } else if dy >= dz { dy } else { dz };
            proof {
                assert(mn <= dx && mn <= dy && mn <= dz);
                assert(mx >= dx && mx >= dy && mx >= dz);
                assert(0 <= mn as int <= 0x1_0000_0000);
                assert(0 <= mx as int <= 0x1_0000_0000);
            }
            let md = dx + dy + dz - mn - mx;
            proof {
                assert(mn <= md <= mx);
            }
            mn * 17 + (md - mn) * 14 + (mx - md) * 10
        } else {
            (dx + dy + dz) * 10
        }
    }

    /// Fixed-point cost of a single step from `from` to `to`.
    fn move_cost(&self, from: &PathNode, to: &PathNode) -> (r: i32)
        ensures
            r as int == spec_move_cost(*from, *to),
            10 <= r <= 17,
    {
        let dx = abs64(from.x as i64 - to.x as i64);
        let dy = abs64(from.y as i64 - to.y as i64);
        let dz = abs64(from.z as i64 - to.z as i64);
        let d = dx + dy + dz;
        if d == 2 {
            14
        } else if d == 3 {
            17
        } else {
            10
        }
    }

    /// Exactly the distinct cells one allowed step away from `node`: all 26
    /// surrounding cells with diagonal movement, the 6 face neighbors without
    /// it, each exactly once. Cells whose coordinates would leave the
    /// representable grid do not exist as nodes and so cannot be listed.
    #[verifier::loop_isolation(false)]
    #[verifier::rlimit(60)]
    fn neighbors(&self, node: &PathNode) -> (r: Vec<PathNode>)
        ensures
            forall|d: PathNode| #![trigger r@.contains(d)]
                r@.contains(d) <==> step_ok(*node, d, self.spec_diag()),
            forall|k1: int, k2: int| 0 <= k1 < k2 < r@.len() ==> r@[k1] != r@[k2],
    {
        let ghost diag = self.spec_diag();
        let mut result: Vec<PathNode> = Vec::new();
        let mut dxi: i64 = -1;
        while dxi <= 1
            invariant
                -1 <= dxi <= 2,
                forall|d: PathNode| #![trigger result@.contains(d)]
                    result@.contains(d) <==> step_ok(*node, d, diag)
                        && nb_scanned(*node, d, dxi as int, -1, -1),
                forall|k1: int, k2: int| 0 <= k1 < k2 < result@.len()
                    ==> result@[k1] != result@[k2],
            decreases 2 - dxi,
        {
            let mut dyi: i64 = -1;
            while dyi <= 1
                invariant
                    -1 <= dxi <= 1,
                    -1 <= dyi <= 2,
                    forall|d: PathNode| #![trigger result@.contains(d)]
                        result@.contains(d) <==> step_ok(*node, d, diag)
                            && nb_scanned(*node, d, dxi as int, dyi as int, -1),
                    forall|k1: int, k2: int| 0 <= k1 < k2 < result@.len()
                        ==> result@[k1] != result@[k2],
                decreases 2 - dyi,
            {
                let mut dzi: i64 = -1;
                while dzi <= 1
                    invariant
                        -1 <= dxi <= 1,
                        -1 <= dyi <= 1,
                        -1 <= dzi <= 2,
                        forall|d: PathNode| #![trigger result@.contains(d)]
                            result@.contains(d) <==> step_ok(*node, d, diag)
                                && nb_scanned(*node, d, dxi as int, dyi as int, dzi as int),
                        forall|k1: int, k2: int| 0 <= k1 < k2 < result@.len()
                            ==> result@[k1] != result@[k2],
                    decreases 2 - dzi,
                {
                    let ghost res0 = result@;
                    let skip_self = dxi == 0 && dyi == 0 && dzi == 0;
                    let skip_diag = !self.allow_diag
                        && abs64(dxi) + abs64(dyi) + abs64(dzi) > 1;
                    let nx = node.x as i64 + dxi;
                    let ny = node.y as i64 + dyi;
                    let nz = node.z as i64 + dzi;
                    let in_range = nx >= i32::MIN as i64 && nx <= i32::MAX as i64
                        && ny >= i32::MIN as i64 && ny <= i32::MAX as i64
                        && nz >= i32::MIN as i64 && nz <= i32::MAX as i64;
                    if !skip_self && !skip_diag && in_range {
                        let nb = PathNode { x: nx as i32, y: ny as i32, z: nz as i32 };
                        proof {
                            assert(step_ok(*node, nb, diag));
                            assert(!nb_scanned(*node, nb, dxi as int, dyi as int, dzi as int));
                            assert(!res0.contains(nb));
                            lemma_nb_push_contains(res0, nb);
                        }
                        result.push(nb);
                    }
                    let ghost olddz = dzi as int;
                    dzi = dzi + 1;
                    proof {
                        assert forall|d: PathNode| #![trigger result@.contains(d)]
                            result@.contains(d) <==> step_ok(*node, d, diag)
                                && nb_scanned(*node, d, dxi as int, dyi as int, dzi as int) by {
                            assert(res0.contains(d) <==> step_ok(*node, d, diag)
                                && nb_scanned(*node, d, dxi as int, dyi as int, olddz));
                            if d.x as int == node.x as int + dxi as int
                                && d.y as int == node.y as int + dyi as int
                                && d.z as int == node.z as int + olddz {
                                assert(i32::MIN as int <= node.x as int + dxi as int
                                    <= i32::MAX as int);
                                assert(i32::MIN as int <= node.y as int + dyi as int
                                    <= i32::MAX as int);
                                assert(i32::MIN as int <= node.z as int + olddz
                                    <= i32::MAX as int);
                            }
                        }
                    }
                }
                let ghost olddy = dyi as int;
                dyi = dyi + 1;
                proof {
                    assert forall|d: PathNode| #![trigger result@.contains(d)]
                        result@.contains(d) <==> step_ok(*node, d, diag)
                            && nb_scanned(*node, d, dxi as int, dyi as int, -1) by {
                        if step_ok(*node, d, diag) {
                            assert(nb_scanned(*node, d, dxi as int, dyi as int, -1)
                                == nb_scanned(*node, d, dxi as int, olddy, 2));
                        }
                    }
                }
            }
            let ghost olddx = dxi as int;
            dxi = dxi + 1;
            proof {
                assert forall|d: PathNode| #![trigger result@.contains(d)]
                    result@.contains(d) <==> step_ok(*node, d, diag)
                        && nb_scanned(*node, d, dxi as int, -1, -1) by {
                    if step_ok(*node, d, diag) {
                        assert(nb_scanned(*node, d, dxi as int, -1, -1)
                            == nb_scanned(*node, d, olddx, 2, -1));
                    }
                }
            }
        }
        proof {
            assert forall|d: PathNode| #![trigger result@.contains(d)]
                result@.contains(d) <==> step_ok(*node, d, diag) by {
                if step_ok(*node, d, diag) {
                    assert(nb_scanned(*node, d, 2, -1, -1));
                }
            }
        }
        result
    }
}

/// Walking a path never costs a negative amount, and each step costs at most
/// the corner-move weight.
pub proof fn lemma_path_cost_bounds(p: Seq<PathNode>, i: int)
    requires
        0 <= i,
    ensures
        0 <= path_cost_from(p, i),
        path_cost_from(p, i) <= 17 * (if i + 1 >= p.len() { 0int } else { p.len() - 1 - i }),
    decreases p.len() - i,
{
    if i + 1 < p.len() {
        lemma_path_cost_bounds(p, i + 1);
    }
}

/// Dropping the first node of a path shifts suffix costs by one position.
proof fn lemma_path_cost_drop_first(p: Seq<PathNode>, i: int)
    requires
        1 <= i,
        1 <= p.len(),
    ensures
        path_cost_from(p, i) == path_cost_from(p.drop_first(), i - 1),
    decreases p.len() - i,
{
    assert(p.drop_first().len() == p.len() - 1);
    if i + 1 < p.len() {
        lemma_path_cost_drop_first(p, i + 1);
        assert(p.drop_first()[i - 1] == p[i]);
        assert(p.drop_first()[i] == p[i + 1]);
    }
}

/// The octile estimate never drops by more than the cost of one step: the
/// heuristic is consistent along every allowed move.
#[verifier::rlimit(100)]
pub proof fn lemma_octile_consistent(a: PathNode, b: PathNode, goal: PathNode)
    requires
        step_ok(a, b, true),
    ensures
        spec_octile(a, goal) <= spec_move_cost(a, b) + spec_octile(b, goal),
{
}

/// Octile admissibility: no route from `start` to `goal` with diagonal
/// movement allowed can cost less than the octile distance between them, so a
/// search that returns a route of exactly that cost has found an optimum.
pub proof fn lemma_octile_admissible(p: Seq<PathNode>, start: PathNode, goal: PathNode)
    requires
        valid_path(p, start, goal, true),
    ensures
        spec_octile(start, goal) <= path_cost(p),
    decreases p.len(),
{
    if p.len() == 1 {
        assert(spec_octile(start, goal) == 0);
        lemma_path_cost_bounds(p, 0);
    } else {
        let q = p.drop_first();
        let mid = p[1];
        assert(valid_path(q, mid, goal, true)) by {
            assert(q[0] == p[1]);
            assert(q[q.len() - 1] == p[p.len() - 1]);
            assert forall|i: int| 0 <= i < q.len() - 1 implies
                step_ok(q[i], #[trigger] q[i + 1], true) by {
                assert(q[i] == p[i + 1] && q[i + 1] == p[i + 2]);
                assert(step_ok(p[i + 1], p[i + 2], true));
            }
        }
        lemma_octile_admissible(q, mid, goal);
        lemma_octile_consistent(start, mid, goal);
        lemma_path_cost_drop_first(p, 1);
        assert(path_cost(p) == spec_move_cost(p[0], p[1]) + path_cost_from(p, 1));
    }
}


/// Whether the association list `m` has an entry keyed by `n`.
spec fn assoc_has<V>(m: Seq<(PathNode, V)>, n: PathNode) -> bool {
    exists|i: int| 0 <= i < m.len() && (#[trigger] m[i]).0 == n
}

/// Index of the entry keyed by `n`.
spec fn assoc_idx<V>(m: Seq<(PathNode, V)>, n: PathNode) -> int {
    choose|i: int| 0 <= i < m.len() && m[i].0 == n
}

/// Value of the entry keyed by `n`.
spec fn assoc_val<V>(m: Seq<(PathNode, V)>, n: PathNode) -> V {
    m[assoc_idx(m, n)].1
}

/// No two entries share a key.
spec fn assoc_unique<V>(m: Seq<(PathNode, V)>) -> bool {
    forall|i: int, j: int| 0 <= i < j < m.len()
        ==> (#[trigger] m[i]).0 != (#[trigger] m[j]).0
}

/// With unique keys, an index holding key `n` is the one the lookup specs read.
proof fn lemma_assoc_at<V>(m: Seq<(PathNode, V)>, i: int, n: PathNode)
    requires
        assoc_unique(m),
        0 <= i < m.len(),
        m[i].0 == n,
    ensures
        assoc_has(m, n),
        assoc_idx(m, n) == i,
        assoc_val(m, n) == m[i].1,
{
    let j = assoc_idx(m, n);
    if j != i {
        assert(m[i].0 != m[j].0);
    }
}

/// Index of the entry keyed by `n`, if the list has one.
fn assoc_find<V: Copy>(m: &Vec<(PathNode, V)>, n: &PathNode) -> (r: Option<usize>)
    requires
        assoc_unique(m@),
    ensures
        match r {
            Some(i) => i < m@.len() && m@[i as int].0 == *n && assoc_has(m@, *n)
                && assoc_idx(m@, *n) == i as int,
            None => !assoc_has(m@, *n),
        },
{
    let len = m.len();
    let mut i: usize = 0;
    while i < len
        invariant
            len == m@.len(),
            i <= len,
            assoc_unique(m@),
            forall|j: int| 0 <= j < i as int ==> (#[trigger] m@[j]).0 != *n,
        decreases len - i,
    {
        if m[i].0 == *n {
            proof {
                lemma_assoc_at(m@, i as int, *n);
            }
            return Some(i);
        }
        i = i + 1;
    }
    return None;
}

/// Inserts or overwrites the entry keyed by `n`.
fn assoc_set<V: Copy>(m: &mut Vec<(PathNode, V)>, n: PathNode, v: V)
    requires
        assoc_unique(old(m)@),
    ensures
        assoc_unique(final(m)@),
        assoc_has(final(m)@, n),
        assoc_val(final(m)@, n) == v,
        final(m)@.len() == old(m)@.len() + if assoc_has(old(m)@, n) { 0int } else { 1int },
        forall|q: PathNode| q != n
            ==> assoc_has(final(m)@, q) == assoc_has(old(m)@, q),
        forall|q: PathNode| q != n && assoc_has(old(m)@, q)
            ==> assoc_val(final(m)@, q) == assoc_val(old(m)@, q),
        forall|i: int| 0 <= i < final(m)@.len()
            ==> #[trigger] final(m)@[i] == (n, v) || old(m)@.contains(final(m)@[i]),
    {
    let ghost m0 = m@;
    match assoc_find(m, &n) {
        Some(i) => {
            m.set(i, (n, v));
            proof {
                lemma_assoc_at(m@, i as int, n);
                assert forall|q: PathNode| q != n implies
                    assoc_has(m@, q) == assoc_has(m0, q) by {
                    if assoc_has(m0, q) {
                        let j = choose|j: int| 0 <= j < m0.len() && m0[j].0 == q;
                        assert(m@[j].0 == q);
                    }
                    if assoc_has(m@, q) {
                        let j = choose|j: int| 0 <= j < m@.len() && m@[j].0 == q;
                        assert(m0[j].0 == q);
                    }
                }
                assert forall|q: PathNode| q != n && assoc_has(m0, q) implies
                    assoc_val(m@, q) == assoc_val(m0, q) by {
                    let j = assoc_idx(m0, q);
                    assert(m0[j].0 == q);
                    assert(j != i as int);
                    lemma_assoc_at(m0, j, q);
                    lemma_assoc_at(m@, j, q);
                }
                assert forall|i2: int| 0 <= i2 < m@.len() implies
                    #[trigger] m@[i2] == (n, v) || m0.contains(m@[i2]) by {
                    if i2 != i as int {
                        assert(m@[i2] == m0[i2]);
                    }
                }
            }
        },
        None => {
            let ghost nlen = m@.len() as int;
            m.push((n, v));
            proof {
                assert forall|i2: int, j2: int| 0 <= i2 < j2 < m@.len() implies
                    (#[trigger] m@[i2]).0 != (#[trigger] m@[j2]).0 by {
                    if j2 < nlen {
                        assert(m@[i2] == m0[i2] && m@[j2] == m0[j2]);
                    } else {
                        assert(m@[i2] == m0[i2]);
                        assert(m0[i2].0 != n);
                    }
                }
                lemma_assoc_at(m@, nlen, n);
                assert forall|q: PathNode| q != n implies
                    assoc_has(m@, q) == assoc_has(m0, q) by {
                    if assoc_has(m0, q) {
                        let j = choose|j: int| 0 <= j < m0.len() && m0[j].0 == q;
                        assert(m@[j].0 == q);
                    }
                    if assoc_has(m@, q) {
                        let j = choose|j: int| 0 <= j < m@.len() && m@[j].0 == q;
                        assert(j < nlen);
                        assert(m0[j].0 == q);
                    }
                }
                assert forall|q: PathNode| q != n && assoc_has(m0, q) implies
                    assoc_val(m@, q) == assoc_val(m0, q) by {
                    let j = assoc_idx(m0, q);
                    assert(m0[j].0 == q);
                    lemma_assoc_at(m0, j, q);
                    lemma_assoc_at(m@, j, q);
                }
                assert forall|i2: int| 0 <= i2 < m@.len() implies
                    #[trigger] m@[i2] == (n, v) || m0.contains(m@[i2]) by {
                    if i2 < nlen {
                        assert(m@[i2] == m0[i2]);
                    }
                }
            }
        },
    }
}

/// Whether `v` holds the node `n`.
fn node_list_contains(v: &Vec<PathNode>, n: &PathNode) -> (r: bool)
    ensures
        r == v@.contains(*n),
{
    let len = v.len();
    let mut i: usize = 0;
    while i < len
        invariant
            len == v@.len(),
            i <= len,
            forall|j: int| 0 <= j < i as int ==> v@[j] != *n,
        decreases len - i,
    {
        if v[i] == *n {
            assert(v@[i as int] == *n);
            return true;
        }
        i = i + 1;
    }
    assert(!v@.contains(*n));
    return false;
}


/// Lexicographic "already scanned" order for the neighbor scan: whether the
/// offset `(d - node)` comes strictly before `(dx, dy, dz)` in x, then y,
/// then z order.
spec fn nb_scanned(node: PathNode, d: PathNode, dx: int, dy: int, dz: int) -> bool {
    let ex = d.x as int - node.x as int;
    let ey = d.y as int - node.y as int;
    let ez = d.z as int - node.z as int;
    ex < dx || (ex == dx && (ey < dy || (ey == dy && ez < dz)))
}

/// `push` extends a sequence's membership by exactly the pushed element.
proof fn lemma_nb_push_contains(s: Seq<PathNode>, p: PathNode)
    ensures
        forall|q: PathNode| s.push(p).contains(q) <==> s.contains(q) || q == p,
{
    assert forall|q: PathNode| s.push(p).contains(q) implies s.contains(q) || q == p by {
        let k = choose|k: int| 0 <= k < s.push(p).len() && s.push(p)[k] == q;
        if k < s.len() {
            assert(s[k] == q);
        }
    }
    assert forall|q: PathNode| s.contains(q) || q == p implies s.push(p).contains(q) by {
        if s.contains(q) {
            let k = choose|k: int| 0 <= k < s.len() && s[k] == q;
            assert(s.push(p)[k] == q);
        } else {
            assert(s.push(p)[s.len() as int] == q);
        }
    }
}

/// One frontier entry: a cell, its accumulated cost, and its priority.
struct OpenEntry {
    node: PathNode,
    g: i32,
    f: i64,
}

/// The search bookkeeping is coherent: keys are unique, every recorded cell
/// was accepted by the walkability predicate, every cell but the start has a
/// predecessor one allowed step away, costs are bounded by `climit` corner
/// moves, and each cell's best cost exceeds its predecessor's by at least the
/// connecting step's cost.
spec fn maps_wf<F: Fn(&PathNode) -> bool>(
    gs: Seq<(PathNode, i32)>,
    cf: Seq<(PathNode, PathNode)>,
    start: PathNode,
    diag: bool,
    climit: int,
    w: F,
) -> bool {
    &&& assoc_unique(gs)
    &&& assoc_unique(cf)
    &&& assoc_has(gs, start)
    &&& assoc_val(gs, start) == 0i32
    &&& forall|i: int| 0 <= i < gs.len()
        ==> 0 <= (#[trigger] gs[i]).1 as int <= 17 * climit
    &&& forall|i: int| 0 <= i < gs.len()
        ==> call_ensures(w, (&(#[trigger] gs[i]).0,), true)
    &&& forall|i: int| 0 <= i < gs.len() && (#[trigger] gs[i]).0 != start
        ==> assoc_has(cf, gs[i].0)
    &&& forall|i: int| 0 <= i < cf.len() ==> {
        let e = #[trigger] cf[i];
        &&& e.0 != start
        &&& assoc_has(gs, e.0)
        &&& assoc_has(gs, e.1)
        &&& step_ok(e.1, e.0, diag)
        &&& assoc_val(gs, e.0) as int >= assoc_val(gs, e.1) as int + spec_move_cost(e.1, e.0)
    }
}

/// Every frontier entry refers to a recorded cell, never undercuts its
/// recorded best cost, and stays within the cost bound.
spec fn open_wf(open: Seq<OpenEntry>, gs: Seq<(PathNode, i32)>, climit: int) -> bool {
    forall|i: int| 0 <= i < open.len() ==> {
        let e = #[trigger] open[i];
        &&& assoc_has(gs, e.node)
        &&& assoc_val(gs, e.node) as int <= e.g as int
        &&& 0 <= e.g as int <= 17 * climit
    }
}

/// A looser cost bound keeps the bookkeeping coherent.
proof fn lemma_maps_wf_mono<F: Fn(&PathNode) -> bool>(
    gs: Seq<(PathNode, i32)>,
    cf: Seq<(PathNode, PathNode)>,
    start: PathNode,
    diag: bool,
    c1: int,
    c2: int,
    w: F,
)
    requires
        maps_wf(gs, cf, start, diag, c1, w),
        c1 <= c2,
    ensures
        maps_wf(gs, cf, start, diag, c2, w),
{
    assert forall|i: int| 0 <= i < gs.len() implies
        0 <= (#[trigger] gs[i]).1 as int <= 17 * c2 by {
        assert(gs[i].1 as int <= 17 * c1);
    }
}

/// A looser cost bound keeps the frontier coherent.
proof fn lemma_open_wf_mono(open: Seq<OpenEntry>, gs: Seq<(PathNode, i32)>, c1: int, c2: int)
    requires
        open_wf(open, gs, c1),
        c1 <= c2,
    ensures
        open_wf(open, gs, c2),
{
    assert forall|i: int| 0 <= i < open.len() implies {
        let e = #[trigger] open[i];
        &&& assoc_has(gs, e.node)
        &&& assoc_val(gs, e.node) as int <= e.g as int
        &&& 0 <= e.g as int <= 17 * c2
    } by {
        assert(open[i].g as int <= 17 * c1);
    }
}

impl PathFinder {
    /// Index of a frontier entry with the lowest priority.
    fn pick_min(open: &Vec<OpenEntry>) -> (r: usize)
        requires
            open@.len() > 0,
        ensures
            r < open@.len(),
            forall|i: int| 0 <= i < open@.len() ==> open@[r as int].f <= (#[trigger] open@[i]).f,
    {
        let len = open.len();
        let mut best: usize = 0;
        let mut i: usize = 1;
        while i < len
            invariant
                len == open@.len(),
                best < len,
                1 <= i <= len,
                forall|j: int| 0 <= j < i as int
                    ==> open@[best as int].f <= (#[trigger] open@[j]).f,
            decreases len - i,
        {
            if open[i].f < open[best].f {
                best = i;
            }
            i = i + 1;
        }
        best
    }

    /// Walks the predecessor chain back from `goal`, reverses it, and totals
    /// its step costs.
    #[verifier::loop_isolation(false)]
    #[verifier::rlimit(100)]
    fn reconstruct<F: Fn(&PathNode) -> bool>(
        &self,
        came_from: &Vec<(PathNode, PathNode)>,
        g_score: &Vec<(PathNode, i32)>,
        start: PathNode,
        goal: PathNode,
        is_walkable: &F,
        Ghost(climit): Ghost<int>,
    ) -> (r: PathResult)
        requires
            0 < climit <= MAX_ITER_LIMIT as int + 1,
            maps_wf(g_score@, came_from@, start, self.spec_diag(), climit, *is_walkable),
            assoc_has(g_score@, goal),
            call_ensures(*is_walkable, (&goal,), true),
        ensures
            r.found == true,
            valid_path(r.path@, start, goal, self.spec_diag()),
            forall|i: int| 0 <= i < r.path@.len()
                ==> call_ensures(*is_walkable, (&r.path@[i],), true),
            r.cost as int == path_cost(r.path@),
    {
        let ghost diag = self.spec_diag();
        let mut rev: Vec<PathNode> = Vec::new();
        rev.push(goal);
        let mut cur: PathNode = goal;
        proof {
            let gi = assoc_idx(g_score@, goal);
            lemma_assoc_at(g_score@, gi, goal);
        }
        loop
            invariant
                rev@.len() >= 1,
                rev@[0] == goal,
                rev@[rev@.len() - 1] == cur,
                assoc_has(g_score@, cur),
                forall|i: int| 0 <= i < rev@.len() - 1
                    ==> step_ok(rev@[i + 1], #[trigger] rev@[i], diag),
                forall|i: int| 0 <= i < rev@.len()
                    ==> call_ensures(*is_walkable, (&(#[trigger] rev@[i]),), true),
                10 * (rev@.len() - 1) <= assoc_val(g_score@, goal) as int
                    - assoc_val(g_score@, cur) as int,
                0 <= assoc_val(g_score@, cur) as int,
            decreases assoc_val(g_score@, cur) as int,
        {
            match assoc_find(came_from, &cur) {
                None => {
                    break;
                },
                Some(pi) => {
                    let pr = came_from[pi].1;
                    proof {
                        assert(came_from@[pi as int].0 == cur);
                        let si = assoc_idx(g_score@, cur);
                        lemma_assoc_at(g_score@, si, cur);
                        let pj = assoc_idx(g_score@, pr);
                        lemma_assoc_at(g_score@, pj, pr);
                        assert(assoc_val(g_score@, cur) as int
                            >= assoc_val(g_score@, pr) as int + spec_move_cost(pr, cur));
                        assert(spec_move_cost(pr, cur) >= 10);
                        assert(call_ensures(*is_walkable, (&pr,), true));
                    }
                    rev.push(pr);
                    cur = pr;
                },
            }
        }
        proof {
            if cur != start {
                let si = assoc_idx(g_score@, cur);
                lemma_assoc_at(g_score@, si, cur);
                assert(assoc_has(came_from@, cur));
            }
            assert(cur == start);
            let gi = assoc_idx(g_score@, goal);
            lemma_assoc_at(g_score@, gi, goal);
            assert(assoc_val(g_score@, goal) as int <= 17 * climit);
            assert(10 * (rev@.len() - 1) <= 17 * climit);
        }
        let n = rev.len();
        let mut out: Vec<PathNode> = Vec::new();
        let mut i2: usize = 0;
        while i2 < n
            invariant
                out@.len() == i2 as int,
                i2 <= n,
                forall|j: int| 0 <= j < i2 as int
                    ==> #[trigger] out@[j] == rev@[n as int - 1 - j],
            decreases n - i2,
        {
            out.push(rev[n - 1 - i2]);
            i2 = i2 + 1;
        }
        proof {
            assert(out@[0] == rev@[n as int - 1]);
            assert(out@[n as int - 1] == rev@[0]);
            assert forall|i: int| 0 <= i < out@.len() - 1 implies
                step_ok(out@[i], #[trigger] out@[i + 1], diag) by {
                assert(out@[i] == rev@[n as int - 1 - i]);
                assert(out@[i + 1] == rev@[n as int - 2 - i]);
                assert(step_ok(rev@[(n as int - 2 - i) + 1], rev@[n as int - 2 - i], diag));
            }
            assert(valid_path(out@, start, goal, diag));
            assert forall|i: int| 0 <= i < out@.len() implies
                call_ensures(*is_walkable, (&(#[trigger] out@[i]),), true) by {
                assert(out@[i] == rev@[n as int - 1 - i]);
            }
        }
        let mut total: i64 = 0;
        let mut j2: usize = n - 1;
        while j2 > 0
            invariant
                j2 <= n - 1,
                n as int == out@.len(),
                total as int == path_cost_from(out@, j2 as int),
                0 <= total as int <= 17 * (n as int - 1 - j2 as int),
            decreases j2,
        {
            j2 = j2 - 1;
            let mcj = self.move_cost(&out[j2], &out[j2 + 1]);
            total = total + mcj as i64;
        }
        proof {
            assert(total as int == path_cost(out@));
            assert(total as int <= 17 * (n as int - 1));
            assert(10 * (n as int - 1) <= 17 * climit);
            assert(total as int <= i32::MAX as int);
        }
        PathResult { path: out, found: true, cost: total as i32 }
    }

    /// Records that `nb` is now best reached from `current_node`: updates the
    /// predecessor and best-cost maps and pushes a frontier entry.
    #[verifier::rlimit(100)]
    fn relax<F: Fn(&PathNode) -> bool>(
        &self,
        open: &mut Vec<OpenEntry>,
        came_from: &mut Vec<(PathNode, PathNode)>,
        g_score: &mut Vec<(PathNode, i32)>,
        current_node: PathNode,
        tentative: i32,
        nb: PathNode,
        goal: &PathNode,
        w: &F,
        Ghost(start): Ghost<PathNode>,
        Ghost(climit): Ghost<int>,
    )
        requires
            0 < climit,
            maps_wf(old(g_score)@, old(came_from)@, start, self.spec_diag(), climit, *w),
            open_wf(old(open)@, old(g_score)@, climit),
            step_ok(current_node, nb, self.spec_diag()),
            call_ensures(*w, (&nb,), true),
            assoc_has(old(g_score)@, current_node),
            tentative as int >= assoc_val(old(g_score)@, current_node) as int
                + spec_move_cost(current_node, nb),
            0 <= tentative as int <= 17 * climit,
            assoc_has(old(g_score)@, nb)
                ==> tentative < assoc_val(old(g_score)@, nb),
        ensures
            maps_wf(final(g_score)@, final(came_from)@, start, self.spec_diag(), climit, *w),
            open_wf(final(open)@, final(g_score)@, climit),
            assoc_has(old(g_score)@, *goal) ==> assoc_has(final(g_score)@, *goal),
            nb == *goal ==> assoc_has(final(g_score)@, *goal),
            forall|q: PathNode| assoc_has(old(g_score)@, q)
                ==> #[trigger] assoc_has(final(g_score)@, q),
            forall|q: PathNode| assoc_has(old(g_score)@, q)
                ==> #[trigger] assoc_val(final(g_score)@, q) as int
                    <= assoc_val(old(g_score)@, q) as int,
    {
        let ghost gs0 = g_score@;
        let ghost cf0 = came_from@;
        let ghost diag = self.spec_diag();
        proof {
            if nb == start {
                assert(assoc_val(gs0, start) == 0i32);
                assert(assoc_val(gs0, current_node) as int >= 0);
                assert(spec_move_cost(current_node, nb) >= 10);
            }
            assert(nb != start);
            assert(current_node != nb);
        }
        assoc_set(came_from, nb, current_node);
        assoc_set(g_score, nb, tentative);
        let hnb = self.heuristic(&nb, goal);
        open.push(OpenEntry { node: nb, g: tentative, f: tentative as i64 + hnb });
        proof {
            let gs1 = g_score@;
            let cf1 = came_from@;
            assert(assoc_val(gs1, nb) == tentative);
            assert(assoc_val(gs1, current_node) == assoc_val(gs0, current_node));
            assert forall|i: int| 0 <= i < gs1.len() implies
                0 <= (#[trigger] gs1[i]).1 as int <= 17 * climit
                    && call_ensures(*w, (&gs1[i].0,), true) by {
                if gs1[i] != (nb, tentative) {
                    assert(gs0.contains(gs1[i]));
                    let j = choose|j: int| 0 <= j < gs0.len() && gs0[j] == gs1[i];
                }
            }
            assert forall|i: int| 0 <= i < gs1.len()
                && (#[trigger] gs1[i]).0 != start implies
                assoc_has(cf1, gs1[i].0) by {
                if gs1[i] != (nb, tentative) {
                    assert(gs0.contains(gs1[i]));
                    let j = choose|j: int| 0 <= j < gs0.len() && gs0[j] == gs1[i];
                    if gs0[j].0 != start {
                        assert(assoc_has(cf0, gs0[j].0));
                    }
                } else {
                    assert(assoc_has(cf1, nb));
                }
            }
            assert forall|i: int| 0 <= i < cf1.len() implies {
                let e = #[trigger] cf1[i];
                &&& e.0 != start
                &&& assoc_has(gs1, e.0)
                &&& assoc_has(gs1, e.1)
                &&& step_ok(e.1, e.0, diag)
                &&& assoc_val(gs1, e.0) as int
                    >= assoc_val(gs1, e.1) as int + spec_move_cost(e.1, e.0)
            } by {
                let e = cf1[i];
                if e == (nb, current_node) {
                    assert(assoc_has(gs1, nb));
                    assert(assoc_has(gs0, current_node));
                    assert(assoc_has(gs1, current_node));
                    assert(assoc_val(gs1, nb) as int == tentative as int);
                } else {
                    assert(cf0.contains(e));
                    let j = choose|j: int| 0 <= j < cf0.len() && cf0[j] == e;
                    assert(e.0 != nb) by {
                        if e.0 == nb {
                            lemma_assoc_at(cf1, i, nb);
                            let ni = assoc_idx(cf1, nb);
                            assert(cf1[ni] == (nb, current_node));
                        }
                    }
                    assert(assoc_has(gs0, e.0) && assoc_has(gs1, e.0)
                        && assoc_val(gs1, e.0) == assoc_val(gs0, e.0));
                    if e.1 == nb {
                        assert(assoc_has(gs0, nb));
                        assert(tentative < assoc_val(gs0, nb));
                    }
                    assert(assoc_has(gs1, e.1));
                    assert(assoc_val(gs1, e.1) as int <= assoc_val(gs0, e.1) as int);
                }
            }
            assert forall|i: int| 0 <= i < open@.len() implies {
                let e = #[trigger] open@[i];
                &&& assoc_has(gs1, e.node)
                &&& assoc_val(gs1, e.node) as int <= e.g as int
                &&& 0 <= e.g as int <= 17 * climit
            } by {
                let e = open@[i];
                if i < open@.len() - 1 {
                    assert(e == old(open)@[i]);
                    if e.node == nb {
                        assert(assoc_has(gs0, nb));
                        assert(tentative < assoc_val(gs0, nb));
                    } else {
                        assert(assoc_val(gs1, e.node) == assoc_val(gs0, e.node));
                    }
                } else {
                    assert(e.node == nb && e.g == tentative);
                }
            }
            assert forall|q: PathNode| assoc_has(gs0, q) implies
                #[trigger] assoc_has(gs1, q)
                    && #[trigger] assoc_val(gs1, q) as int <= assoc_val(gs0, q) as int by {
                if q == nb {
                    assert(tentative < assoc_val(gs0, nb));
                } else {
                    assert(assoc_val(gs1, q) == assoc_val(gs0, q));
                }
            }
        }
    }

    /// A* search from `start` to `goal` over the cells the caller's predicate
    /// accepts. A found route steps only through accepted cells, begins at
    /// `start`, ends at `goal`, and its reported cost is the exact fixed-point
    /// sum of its step costs. When either endpoint is rejected, or the
    /// frontier empties, or the iteration cap is exceeded before the goal is
    /// reached, the result is not-found with an empty route and zero cost.
    #[verifier::rlimit(100)]
    pub fn find<F: Fn(&PathNode) -> bool>(&self, start: PathNode, goal: PathNode, is_walkable: F)
        -> (r: PathResult)
        requires
            self.spec_max_iter() <= MAX_ITER_LIMIT as int,
            forall|n: PathNode| call_requires(is_walkable, (&n,)),
        ensures
            r.found ==> valid_path(r.path@, start, goal, self.spec_diag()),
            r.found ==> forall|i: int| 0 <= i < r.path@.len()
                ==> call_ensures(is_walkable, (&r.path@[i],), true),
            r.found ==> r.cost as int == path_cost(r.path@),
            r.found && self.spec_diag() ==> r.cost as int >= spec_octile(start, goal),
            !r.found ==> r.path@.len() == 0 && r.cost == 0,
            (forall|ret: bool| call_ensures(is_walkable, (&start,), ret) ==> !ret) ==> !r.found,
            (forall|ret: bool| call_ensures(is_walkable, (&goal,), ret) ==> !ret) ==> !r.found,
    {
        let ghost diag = self.spec_diag();
        if !is_walkable(&start) {
            return PathResult { path: Vec::new(), found: false, cost: 0 };
        }
        if !is_walkable(&goal) {
            return PathResult { path: Vec::new(), found: false, cost: 0 };
        }
        let mut open: Vec<OpenEntry> = Vec::new();
        let mut closed: Vec<PathNode> = Vec::new();
        let mut came_from: Vec<(PathNode, PathNode)> = Vec::new();
        let mut g_score: Vec<(PathNode, i32)> = Vec::new();
        let h0 = self.heuristic(&start, &goal);
        open.push(OpenEntry { node: start, g: 0, f: h0 });
        assoc_set(&mut g_score, start, 0);
        let mut iterations: usize = 0;
        while open.len() > 0
            invariant_except_break
                iterations as int <= self.spec_max_iter(),
            invariant
                diag == self.spec_diag(),
                self.spec_max_iter() <= MAX_ITER_LIMIT as int,
                forall|n: PathNode| call_requires(is_walkable, (&n,)),
                call_ensures(is_walkable, (&start,), true),
                call_ensures(is_walkable, (&goal,), true),
                closed@.len() <= iterations as int,
                iterations as int <= self.spec_max_iter() + 1,
                maps_wf(g_score@, came_from@, start, diag, closed@.len() as int + 1, is_walkable),
                open_wf(open@, g_score@, closed@.len() as int + 1),
            decreases self.max_iter + 1 - iterations,
        {
            iterations = iterations + 1;
            if iterations > self.max_iter {
                break;
            }
            let ci = Self::pick_min(&open);
            let ghost open0 = open@;
            let current = open.swap_remove(ci);
            proof {
                assert(current == open0[ci as int]);
                assert(assoc_has(g_score@, current.node)
                    && assoc_val(g_score@, current.node) as int <= current.g as int
                    && 0 <= current.g as int <= 17 * (closed@.len() as int + 1));
                assert forall|i: int| 0 <= i < open@.len() implies {
                    let e = #[trigger] open@[i];
                    &&& assoc_has(g_score@, e.node)
                    &&& assoc_val(g_score@, e.node) as int <= e.g as int
                    &&& 0 <= e.g as int <= 17 * (closed@.len() as int + 1)
                } by {
                    if i == ci as int {
                        assert(open@[i] == open0[open0.len() - 1]);
                    } else {
                        assert(open@[i] == open0[i]);
                    }
                }
                assert(open_wf(open@, g_score@, closed@.len() as int + 1));
            }
            if current.node == goal {
                let res = self.reconstruct(&came_from, &g_score, start, goal, &is_walkable,
                    Ghost(closed@.len() as int + 1));
                proof {
                    if diag {
                        lemma_octile_admissible(res.path@, start, goal);
                    }
                }
                return res;
            }
            if node_list_contains(&closed, &current.node) {
                // A stale frontier entry for an already-expanded cell.
            } else {
                let ghost cl0 = closed@.len() as int;
                closed.push(current.node);
                proof {
                    lemma_maps_wf_mono(g_score@, came_from@, start, diag, cl0 + 1,
                        closed@.len() as int + 1, is_walkable);
                    lemma_open_wf_mono(open@, g_score@, cl0 + 1, closed@.len() as int + 1);
                }
                let nbs = self.neighbors(&current.node);
                proof {
                    assert forall|i: int| 0 <= i < nbs@.len() implies
                        step_ok(current.node, #[trigger] nbs@[i], diag) by {
                        assert(nbs@.contains(nbs@[i]));
                    }
                }
                let nb_count = nbs.len();
                let mut k: usize = 0;
                while k < nb_count
                    invariant
                        diag == self.spec_diag(),
                        forall|n: PathNode| call_requires(is_walkable, (&n,)),
                        call_ensures(is_walkable, (&goal,), true),
                        nb_count == nbs@.len(),
                        k <= nb_count,
                        forall|i: int| 0 <= i < nbs@.len()
                            ==> step_ok(current.node, #[trigger] nbs@[i], diag),
                        maps_wf(g_score@, came_from@, start, diag, closed@.len() as int + 1,
                            is_walkable),
                        open_wf(open@, g_score@, closed@.len() as int + 1),
                        assoc_has(g_score@, current.node),
                        assoc_val(g_score@, current.node) as int <= current.g as int,
                        0 <= current.g as int,
                        current.g as int <= 17 * closed@.len(),
                        1 <= closed@.len() <= MAX_ITER_LIMIT as int + 2,
                    decreases nb_count - k,
                {
                    let nb = nbs[k];
                    if !node_list_contains(&closed, &nb) {
                        if is_walkable(&nb) {
                            let mc = self.move_cost(&current.node, &nb);
                            let tentative: i32 = current.g + mc;
                            let improves: bool = match assoc_find(&g_score, &nb) {
                                Some(gi) => {
                                    let pv = g_score[gi].1;
                                    proof {
                                        lemma_assoc_at(g_score@, gi as int, nb);
                                    }
                                    tentative < pv
                                },
                                None => true,
                            };
                            if improves {
                                self.relax(&mut open, &mut came_from, &mut g_score,
                                    current.node, tentative, nb, &goal, &is_walkable,
                                    Ghost(start), Ghost(closed@.len() as int + 1));
                            }
                        }
                    }
                    k = k + 1;
                }
            }
        }
        return PathResult { path: Vec::new(), found: false, cost: 0 };
    }
}

/// A found search result never beats the heuristic: any route a search can
/// return, being a valid path whose cost is its exact step sum, costs at
/// least the octile distance between its endpoints.
pub proof fn lemma_found_cost_at_least_octile(
    path: Seq<PathNode>,
    start: PathNode,
    goal: PathNode,
    cost: int,
)
    requires
        valid_path(path, start, goal, true),
        cost == path_cost(path),
    ensures
        cost >= spec_octile(start, goal),
{
    lemma_octile_admissible(path, start, goal);
}

impl Default for PathFinder {
    fn default() -> (r: Self)
        ensures
            r.spec_max_iter() == 10000,
            r.spec_diag() == true,
    {
        PathFinder::new()
    }
}

} // verus!
