use loose_quad_tree::aabb::{vec2, Aabb};
use loose_quad_tree::naive::NaiveCollisionDetection;

#[test]
fn scan_returns_matches_in_insertion_order() {
    let mut n = NaiveCollisionDetection::new(vec2(10, 10));
    n.insert(Aabb::new(vec2(1, 4), vec2(2, 2)), 0);
    n.insert(Aabb::new(vec2(6, 4), vec2(2, 2)), 1);
    n.insert(Aabb::new(vec2(2, 5), vec2(1, 1)), 2);
    n.insert(Aabb::new(vec2(0, 0), vec2(10, 10)), 3);
    n.insert(Aabb::new(vec2(5, 0), vec2(5, 5)), 4);
    let hits = n.for_each_intersection(&Aabb::new(vec2(2, 5), vec2(2, 2)));
    let ids: Vec<i32> = hits.iter().map(|hit| hit.1).collect();
    assert_eq!(ids, vec![0, 2, 3]);
    assert_eq!(hits[1].0, Aabb::new(vec2(2, 5), vec2(1, 1)));
}

#[test]
fn scan_of_nothing_returns_nothing() {
    let n: NaiveCollisionDetection<u8> = NaiveCollisionDetection::new(vec2(10, 10));
    assert!(n.for_each_intersection(&Aabb::new(vec2(0, 0), vec2(10, 10))).is_empty());
}

#[test]
fn scan_ignores_the_world_size() {
    let mut n = NaiveCollisionDetection::new(vec2(1, 1));
    n.insert(Aabb::new(vec2(500, 500), vec2(10, 10)), 'a');
    let hits = n.for_each_intersection(&Aabb::new(vec2(505, 505), vec2(1, 1)));
    assert_eq!(hits.len(), 1);
    assert_eq!(hits[0].1, 'a');
}

#[test]
fn scan_returns_a_repeated_entry_each_time() {
    let mut n = NaiveCollisionDetection::new(vec2(10, 10));
    let aabb = Aabb::new(vec2(1, 1), vec2(2, 2));
    n.insert(aabb, 1);
    n.insert(aabb, 1);
    assert_eq!(n.for_each_intersection(&aabb).len(), 2);
}

#[test]
fn scan_forgets_everything_on_clear() {
    let mut n = NaiveCollisionDetection::new(vec2(10, 10));
    n.insert(Aabb::new(vec2(1, 1), vec2(2, 2)), 1);
    n.clear();
    assert!(n.for_each_intersection(&Aabb::new(vec2(0, 0), vec2(10, 10))).is_empty());
    n.insert(Aabb::new(vec2(3, 3), vec2(2, 2)), 2);
    let hits = n.for_each_intersection(&Aabb::new(vec2(0, 0), vec2(10, 10)));
    assert_eq!(hits.len(), 1);
    assert_eq!(hits[0].1, 2);
}
