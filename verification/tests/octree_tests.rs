use engine_core::octree::Aabb;
use engine_core::octree::Octree;

fn cube(cx: i32, cy: i32, cz: i32, r: i32) -> Aabb {
    Aabb::new(cx - r, cy - r, cz - r, cx + r, cy + r, cz + r)
}

#[test]
fn aabb_predicates() {
    let a = Aabb::new(0, 0, 0, 10, 10, 10);
    let b = Aabb::new(5, 5, 5, 15, 15, 15);
    let c = Aabb::new(11, 0, 0, 12, 1, 1);
    assert!(a.intersects(&b));
    assert!(b.intersects(&a));
    assert!(!a.intersects(&c));
    assert!(a.contains_box(&Aabb::new(2, 2, 2, 3, 3, 3)));
    assert!(!a.contains_box(&b));
    assert!(a.contains(10, 0, 5));
    assert!(!a.contains(11, 0, 5));
}

#[test]
fn query_returns_exactly_the_intersecting_items() {
    let mut t: Octree<u64> = Octree::new(cube(0, 0, 0, 100));
    assert!(t.ins(cube(-50, -50, -50, 5), 1));
    assert!(t.ins(cube(50, 50, 50, 5), 2));
    assert!(t.ins(cube(0, 0, 0, 2), 3));
    let hits = t.query(&cube(-50, -50, -50, 10));
    assert_eq!(hits, vec![1]);
    let hits = t.query(&cube(0, 0, 0, 100));
    assert_eq!(hits.len(), 3);
    let hits = t.query(&cube(90, 90, 90, 2));
    assert!(hits.is_empty());
}

#[test]
fn insert_outside_the_root_is_refused() {
    let mut t: Octree<u64> = Octree::new(cube(0, 0, 0, 10));
    assert!(!t.ins(cube(100, 100, 100, 3), 9));
    assert!(t.query(&cube(0, 0, 0, 200)).is_empty());
}

#[test]
fn subdivision_keeps_every_item_findable() {
    // enough items in one corner to force a split two levels deep
    let mut t: Octree<u64> = Octree::new(cube(0, 0, 0, 64));
    for i in 0..20u64 {
        let x = -60 + (i as i32);
        assert!(t.ins(Aabb::new(x, -60, -60, x + 1, -59, -59), i));
    }
    let all = t.query(&cube(0, 0, 0, 64));
    assert_eq!(all.len(), 20);
    for i in 0..20u64 {
        assert!(all.contains(&i));
    }
    // a probe touching only the first two boxes
    let hits = t.query(&Aabb::new(-60, -60, -60, -59, -60, -60));
    assert_eq!(hits.len(), 2);
    assert!(hits.contains(&0) && hits.contains(&1));
}

#[test]
fn straddling_items_are_retained_and_found() {
    let mut t: Octree<u64> = Octree::new(cube(0, 0, 0, 64));
    // force subdivision with contained items, then add one box crossing the
    // center plane: it cannot sink into a single octant
    for i in 0..9u64 {
        let x = 10 + 2 * (i as i32);
        assert!(t.ins(Aabb::new(x, 10, 10, x + 1, 11, 11), i));
    }
    assert!(t.ins(cube(0, 0, 0, 3), 99));
    let hits = t.query(&cube(0, 0, 0, 1));
    assert_eq!(hits, vec![99]);
    let all = t.query(&cube(0, 0, 0, 64));
    assert_eq!(all.len(), 10);
}

#[test]
fn overhanging_items_are_still_found() {
    // a box intersecting the root but sticking out past it is retained at the
    // root and reported even for probes entirely outside the root region
    let mut t: Octree<u64> = Octree::new(cube(0, 0, 0, 10));
    assert!(t.ins(Aabb::new(8, -1, -1, 14, 1, 1), 7));
    let hits = t.query(&Aabb::new(12, 0, 0, 13, 0, 0));
    assert_eq!(hits, vec![7]);
    let hits = t.query_point(13, 0, 0);
    assert_eq!(hits, vec![7]);
}

#[test]
fn query_point_returns_covering_items() {
    let mut t: Octree<u64> = Octree::new(cube(0, 0, 0, 32));
    assert!(t.ins(cube(0, 0, 0, 8), 1));
    assert!(t.ins(cube(4, 4, 4, 8), 2));
    let hits = t.query_point(6, 6, 6);
    assert_eq!(hits.len(), 2);
    let hits = t.query_point(-7, -7, -7);
    assert_eq!(hits, vec![1]);
    let hits = t.query_point(20, 20, 20);
    assert!(hits.is_empty());
}

#[test]
fn clear_empties_the_tree() {
    let mut t: Octree<u64> = Octree::new(cube(0, 0, 0, 32));
    for i in 0..12u64 {
        assert!(t.ins(cube(i as i32, 0, 0, 1), i));
    }
    t.clr();
    assert!(t.query(&cube(0, 0, 0, 32)).is_empty());
    // the cleared tree accepts new items
    assert!(t.ins(cube(1, 1, 1, 1), 5));
    assert_eq!(t.query(&cube(0, 0, 0, 32)), vec![5]);
}
