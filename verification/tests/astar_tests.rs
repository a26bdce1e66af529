use engine_core::astar::PathFinder;
use engine_core::astar::PathNode;

fn always(_n: &PathNode) -> bool {
    true
}

#[test]
fn node_metrics() {
    let a = PathNode::new(1, 2, 3);
    let b = PathNode::new(4, 0, 3);
    assert_eq!(a.dist_sq(&b), 13);
    assert_eq!(a.manhattan(&b), 5);
    assert_eq!(b.manhattan(&a), 5);
    assert_eq!(a.dist_sq(&a), 0);
}

#[test]
fn straight_line_costs_octile_distance() {
    let pf = PathFinder::new();
    let r = pf.find(PathNode::new(0, 0, 0), PathNode::new(2, 0, 0), always);
    assert!(r.found);
    assert_eq!(r.path.len(), 3);
    assert_eq!(r.cost, 20);
    assert_eq!(r.path[0], PathNode::new(0, 0, 0));
    assert_eq!(r.path[2], PathNode::new(2, 0, 0));
}

#[test]
fn diagonal_steps_cost_fourteen_and_seventeen() {
    let pf = PathFinder::new();
    let r = pf.find(PathNode::new(0, 0, 0), PathNode::new(1, 1, 0), always);
    assert!(r.found);
    assert_eq!(r.cost, 14);
    assert_eq!(r.path.len(), 2);
    let r = pf.find(PathNode::new(0, 0, 0), PathNode::new(1, 1, 1), always);
    assert!(r.found);
    assert_eq!(r.cost, 17);
    assert_eq!(r.path.len(), 2);
    // octile mix: deltas (2,1,1) = one corner + one face diagonal? no:
    // min=1 corner, mid-min=0 face, max-mid=1 orthogonal: 17 + 10 = 27
    let r = pf.find(PathNode::new(0, 0, 0), PathNode::new(2, 1, 1), always);
    assert!(r.found);
    assert_eq!(r.cost, 27);
}

#[test]
fn trivial_search_start_equals_goal() {
    let pf = PathFinder::new();
    let r = pf.find(PathNode::new(5, 5, 5), PathNode::new(5, 5, 5), always);
    assert!(r.found);
    assert_eq!(r.path.len(), 1);
    assert_eq!(r.cost, 0);
}

#[test]
fn without_diagonals_cost_is_manhattan() {
    let pf = PathFinder::new().with_diag(false);
    let r = pf.find(PathNode::new(0, 0, 0), PathNode::new(2, 1, 0), always);
    assert!(r.found);
    assert_eq!(r.cost, 30);
    assert_eq!(r.path.len(), 4);
    // each step is a face move
    for w in r.path.windows(2) {
        let d = (w[1].x - w[0].x).abs() + (w[1].y - w[0].y).abs() + (w[1].z - w[0].z).abs();
        assert_eq!(d, 1);
    }
}

#[test]
fn rejects_unwalkable_endpoints_without_search() {
    let pf = PathFinder::new();
    let goal = PathNode::new(3, 0, 0);
    let r = pf.find(PathNode::new(0, 0, 0), goal, move |n: &PathNode| *n != goal);
    assert!(!r.found);
    assert!(r.path.is_empty());
    assert_eq!(r.cost, 0);
    let start = PathNode::new(0, 0, 0);
    let r = pf.find(start, goal, move |n: &PathNode| *n != start);
    assert!(!r.found);
    assert!(r.path.is_empty());
    assert_eq!(r.cost, 0);
}

#[test]
fn walls_are_routed_around() {
    // a wall at x == 1 with a gap at y == 3
    let pf = PathFinder::new();
    let walk = |n: &PathNode| n.z == 0 && (n.x != 1 || n.y == 3);
    let r = pf.find(PathNode::new(0, 0, 0), PathNode::new(2, 0, 0), walk);
    assert!(r.found);
    for n in r.path.iter() {
        assert!(walk(n));
    }
    // through the gap and back: strictly costlier than the open-grid 20
    assert!(r.cost > 20);
}

#[test]
fn iteration_cap_stops_unreachable_searches() {
    // the goal is walkable but cut off; the open grid around the start is
    // unbounded, so only the cap ends the search
    let pf = PathFinder::new().with_max_iter(25);
    let goal = PathNode::new(40, 0, 0);
    let walk = move |n: &PathNode| n.x <= 2 || *n == goal;
    let r = pf.find(PathNode::new(0, 0, 0), goal, walk);
    assert!(!r.found);
    assert!(r.path.is_empty());
    assert_eq!(r.cost, 0);
}

#[test]
fn unreachable_goal_with_larger_cap_still_fails() {
    // a finite walkable pocket: the frontier drains before the cap is hit
    let pf = PathFinder::new().with_max_iter(30000);
    let goal = PathNode::new(40, 0, 0);
    let walk = move |n: &PathNode| {
        (n.x.abs() <= 3 && n.y.abs() <= 3 && n.z.abs() <= 3) || *n == goal
    };
    let r = pf.find(PathNode::new(0, 0, 0), goal, walk);
    assert!(!r.found);
    assert!(r.path.is_empty());
    assert_eq!(r.cost, 0);
}

#[test]
fn goal_surrounded_by_walls_is_unreachable() {
    // goal enclosed by an unwalkable shell one cell out
    let pf = PathFinder::new().with_max_iter(60);
    let goal = PathNode::new(10, 10, 10);
    let walk = move |n: &PathNode| {
        let dx = (n.x - 10).abs();
        let dy = (n.y - 10).abs();
        let dz = (n.z - 10).abs();
        let on_shell = dx <= 1 && dy <= 1 && dz <= 1 && !(dx == 0 && dy == 0 && dz == 0);
        !on_shell
    };
    let r = pf.find(PathNode::new(0, 0, 0), goal, walk);
    assert!(!r.found);
    assert_eq!(r.cost, 0);
}

#[test]
fn builders_configure_the_search() {
    let pf = PathFinder::default().with_max_iter(2).with_diag(true);
    // two iterations cannot reach a goal three steps out
    let r = pf.find(PathNode::new(0, 0, 0), PathNode::new(0, 30, 0), always);
    assert!(!r.found);
}
