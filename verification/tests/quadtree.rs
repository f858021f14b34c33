use loose_quad_tree::aabb::{vec2, Aabb, Vec2};
use loose_quad_tree::loose_quad_tree::LooseQuadTree;
use loose_quad_tree::naive::NaiveCollisionDetection;
use rand::{Rng, SeedableRng, StdRng};

/// Grid units per unit of the scenarios below: one grid unit is a tenth.
const SCALE: f32 = 10.0;

fn grid(v: f32) -> i64 {
    (v * SCALE).round() as i64
}

fn grid2(x: f32, y: f32) -> Vec2 {
    vec2(grid(x), grid(y))
}

fn sorted_ids(hits: Vec<&(Aabb, u16)>) -> Vec<u16> {
    let mut ids: Vec<u16> = hits.iter().map(|hit| hit.1).collect();
    ids.sort();
    ids
}

fn random_entities<R: Rng>(num: u16, rng: &mut R) -> Vec<(u16, Aabb)> {
    (0..num)
        .map(|id| {
            let top_left_coord =
                grid2((rng.next_u32() % 90) as f32, (rng.next_u32() % 90) as f32);
            let size = grid2(
                (rng.next_u32() % 5) as f32 + 0.1,
                (rng.next_u32() % 5) as f32 + 0.1,
            );
            let aabb = Aabb::new(top_left_coord, size);
            (id, aabb)
        })
        .collect::<Vec<_>>()
}

fn compare_to_naive_impl(
    entities: &[(u16, Aabb)],
    q: &LooseQuadTree<u16>,
    n: &NaiveCollisionDetection<u16>,
) {
    for (_id, aabb) in entities.iter() {
        let qc = sorted_ids(q.for_each_intersection(aabb));
        let nc = sorted_ids(n.for_each_intersection(aabb));
        assert_eq!(qc, nc);
    }
}

#[test]
fn basic_collision() {
    let mut q = LooseQuadTree::new(vec2(10, 10));
    q.insert(Aabb::new(vec2(1, 4), vec2(2, 2)), 0);
    q.insert(Aabb::new(vec2(6, 4), vec2(2, 2)), 1);
    q.insert(Aabb::new(vec2(2, 5), vec2(1, 1)), 2);
    q.insert(Aabb::new(vec2(0, 0), vec2(10, 10)), 3);
    q.insert(Aabb::new(vec2(5, 0), vec2(5, 5)), 4);

    let mut collisions = Vec::new();
    for &(_aabb, id) in q.for_each_intersection(&Aabb::new(vec2(2, 5), vec2(2, 2))) {
        collisions.push(id);
    }

    collisions.sort();

    assert_eq!(collisions, vec![0, 2, 3]);
}

#[test]
fn compare_to_naive() {
    let mut rng = StdRng::from_seed(&[0]);
    let size = grid2(100., 100.);
    let mut q = LooseQuadTree::new(size);
    let mut n = NaiveCollisionDetection::new(size);
    let entities = random_entities(1000, &mut rng);
    for (id, aabb) in entities.iter() {
        q.insert(*aabb, *id);
        n.insert(*aabb, *id);
    }
    compare_to_naive_impl(&entities, &q, &n);
}

#[test]
fn clear_and_reuse() {
    let mut rng = StdRng::from_seed(&[0]);
    let size = grid2(100., 100.);
    let mut q = LooseQuadTree::new(size);
    let mut n = NaiveCollisionDetection::new(size);
    let entities = random_entities(1000, &mut rng);
    for (id, aabb) in entities.iter() {
        q.insert(*aabb, *id);
        n.insert(*aabb, *id);
    }
    compare_to_naive_impl(&entities, &q, &n);
    q.clear();
    n.clear();
    let entities = random_entities(1000, &mut rng);
    for (id, aabb) in entities.iter() {
        q.insert(*aabb, *id);
        n.insert(*aabb, *id);
    }
    compare_to_naive_impl(&entities, &q, &n);
}

#[test]
fn random_entities_are_in_the_stated_ranges() {
    let mut rng = StdRng::from_seed(&[0]);
    let entities = random_entities(1000, &mut rng);
    assert_eq!(entities.len(), 1000);
    for (_id, aabb) in entities.iter() {
        assert!(0 <= aabb.top_left.x && aabb.top_left.x < grid(90.));
        assert!(0 <= aabb.top_left.y && aabb.top_left.y < grid(90.));
        assert!(grid(0.1) <= aabb.size.x && aabb.size.x < grid(5.1));
        assert!(grid(0.1) <= aabb.size.y && aabb.size.y < grid(5.1));
    }
    assert_eq!(grid(0.1), 1);
    assert_eq!(grid(5.1), 51);
    assert_eq!(grid(100.), 1000);
}

#[test]
fn query_agrees_with_scan_on_a_small_world() {
    let size = vec2(16, 16);
    let mut q = LooseQuadTree::new(size);
    let mut n = NaiveCollisionDetection::new(size);
    let mut id: u16 = 0;
    for x in 0..14 {
        for y in 0..14 {
            let aabb = Aabb::new(vec2(x, y), vec2(1 + (x + y) % 3, 1 + (x * y) % 4));
            q.insert(aabb, id);
            n.insert(aabb, id);
            id += 1;
        }
    }
    for x in -2..18 {
        for y in -2..18 {
            for side in 0..4 {
                let probe = Aabb::new(vec2(x, y), vec2(side, side + 1));
                assert_eq!(
                    sorted_ids(q.for_each_intersection(&probe)),
                    sorted_ids(n.for_each_intersection(&probe))
                );
            }
        }
    }
}

#[test]
fn intersecting_entry_is_found_exactly_once() {
    let mut q = LooseQuadTree::new(vec2(64, 64));
    q.insert(Aabb::new(vec2(10, 10), vec2(4, 4)), 7u16);
    q.insert(Aabb::new(vec2(40, 40), vec2(4, 4)), 8u16);
    let hits = q.for_each_intersection(&Aabb::new(vec2(12, 12), vec2(10, 10)));
    assert_eq!(hits.len(), 1);
    assert_eq!(*hits[0], (Aabb::new(vec2(10, 10), vec2(4, 4)), 7u16));
}

#[test]
fn entry_on_a_quadrant_border_is_found_from_either_side() {
    let mut q = LooseQuadTree::new(vec2(64, 64));
    // Straddles the vertical line x = 32 between the left and right quadrants.
    q.insert(Aabb::new(vec2(30, 10), vec2(4, 4)), 1u16);
    assert_eq!(sorted_ids(q.for_each_intersection(&Aabb::new(vec2(28, 9), vec2(3, 3)))), vec![1]);
    assert_eq!(sorted_ids(q.for_each_intersection(&Aabb::new(vec2(33, 9), vec2(3, 3)))), vec![1]);
}

#[test]
fn boxes_that_only_touch_are_not_reported() {
    let mut q = LooseQuadTree::new(vec2(64, 64));
    q.insert(Aabb::new(vec2(10, 10), vec2(4, 4)), 1u16);
    // Shares the edge x = 14.
    assert!(q.for_each_intersection(&Aabb::new(vec2(14, 10), vec2(4, 4))).is_empty());
    // Shares the corner (14, 14).
    assert!(q.for_each_intersection(&Aabb::new(vec2(14, 14), vec2(2, 2))).is_empty());
    // Near, inside the doubled quadrant, but apart.
    assert!(q.for_each_intersection(&Aabb::new(vec2(15, 10), vec2(1, 1))).is_empty());
    // One unit of overlap.
    assert_eq!(sorted_ids(q.for_each_intersection(&Aabb::new(vec2(13, 13), vec2(4, 4)))), vec![1]);
}

#[test]
fn clear_empties_the_tree() {
    let mut q = LooseQuadTree::new(vec2(100, 100));
    let mut id: u16 = 0;
    for x in 0..30 {
        for y in 0..30 {
            q.insert(Aabb::new(vec2(3 * x, 3 * y), vec2(2, 2)), id);
            id += 1;
        }
    }
    let world = Aabb::new(vec2(0, 0), vec2(100, 100));
    assert_eq!(q.for_each_intersection(&world).len(), 900);
    q.clear();
    assert!(q.for_each_intersection(&world).is_empty());
    assert!(q.for_each_intersection(&Aabb::new(vec2(-50, -50), vec2(500, 500))).is_empty());
}

#[test]
fn clear_on_a_new_tree_is_harmless() {
    let mut q: LooseQuadTree<u16> = LooseQuadTree::new(vec2(8, 8));
    q.clear();
    q.clear();
    assert!(q.for_each_intersection(&Aabb::new(vec2(0, 0), vec2(8, 8))).is_empty());
    q.insert(Aabb::new(vec2(1, 1), vec2(1, 1)), 5);
    assert_eq!(sorted_ids(q.for_each_intersection(&Aabb::new(vec2(0, 0), vec2(8, 8)))), vec![5]);
}

#[test]
fn reused_tree_holds_only_the_second_batch() {
    let mut q = LooseQuadTree::new(vec2(32, 32));
    q.insert(Aabb::new(vec2(1, 1), vec2(2, 2)), 1u16);
    q.insert(Aabb::new(vec2(20, 20), vec2(2, 2)), 2u16);
    q.insert(Aabb::new(vec2(0, 0), vec2(32, 32)), 3u16);
    q.clear();
    q.insert(Aabb::new(vec2(1, 1), vec2(2, 2)), 10u16);
    q.insert(Aabb::new(vec2(21, 21), vec2(2, 2)), 11u16);
    let world = Aabb::new(vec2(0, 0), vec2(32, 32));
    assert_eq!(sorted_ids(q.for_each_intersection(&world)), vec![10, 11]);
    assert_eq!(sorted_ids(q.for_each_intersection(&Aabb::new(vec2(0, 0), vec2(4, 4)))), vec![10]);
    assert_eq!(sorted_ids(q.for_each_intersection(&Aabb::new(vec2(20, 20), vec2(1, 1)))), Vec::<u16>::new());
}

#[test]
fn entry_stored_twice_is_returned_twice() {
    let mut q = LooseQuadTree::new(vec2(32, 32));
    let aabb = Aabb::new(vec2(5, 5), vec2(3, 3));
    q.insert(aabb, 4u16);
    q.insert(aabb, 4u16);
    q.insert(aabb, 9u16);
    assert_eq!(sorted_ids(q.for_each_intersection(&Aabb::new(vec2(6, 6), vec2(1, 1)))), vec![4, 4, 9]);
}

#[test]
fn point_sized_box_rests_in_a_single_cell() {
    let mut q = LooseQuadTree::new(vec2(1000, 1000));
    q.insert(Aabb::new(vec2(700, 300), vec2(0, 0)), 1u16);
    q.insert(Aabb::new(vec2(0, 0), vec2(0, 0)), 2u16);
    assert_eq!(sorted_ids(q.for_each_intersection(&Aabb::new(vec2(699, 299), vec2(2, 2)))), vec![1]);
    // A point on the edge of the query is not inside it.
    assert!(q.for_each_intersection(&Aabb::new(vec2(700, 300), vec2(2, 2))).is_empty());
    assert_eq!(sorted_ids(q.for_each_intersection(&Aabb::new(vec2(-1, -1), vec2(2, 2)))), vec![2]);
}

#[test]
fn flat_box_sinks_by_its_one_extent() {
    let mut q = LooseQuadTree::new(vec2(256, 4));
    q.insert(Aabb::new(vec2(100, 1), vec2(0, 2)), 1u16);
    q.insert(Aabb::new(vec2(10, 3), vec2(40, 0)), 2u16);
    assert_eq!(sorted_ids(q.for_each_intersection(&Aabb::new(vec2(99, 0), vec2(2, 4)))), vec![1]);
    assert_eq!(sorted_ids(q.for_each_intersection(&Aabb::new(vec2(20, 2), vec2(5, 2)))), vec![2]);
    assert_eq!(sorted_ids(q.for_each_intersection(&Aabb::new(vec2(0, 0), vec2(256, 4)))), vec![1, 2]);
}

#[test]
fn box_larger_than_the_world_rests_at_the_root() {
    let mut q = LooseQuadTree::new(vec2(10, 10));
    q.insert(Aabb::new(vec2(-20, -20), vec2(50, 50)), 1u16);
    assert_eq!(sorted_ids(q.for_each_intersection(&Aabb::new(vec2(25, 25), vec2(1, 1)))), vec![1]);
    assert_eq!(sorted_ids(q.for_each_intersection(&Aabb::new(vec2(-15, 3), vec2(1, 1)))), vec![1]);
    assert!(q.for_each_intersection(&Aabb::new(vec2(30, 30), vec2(5, 5))).is_empty());
}

#[test]
fn query_outside_the_world_finds_nothing_in_it() {
    let mut q = LooseQuadTree::new(vec2(10, 10));
    q.insert(Aabb::new(vec2(1, 1), vec2(2, 2)), 1u16);
    q.insert(Aabb::new(vec2(7, 7), vec2(3, 3)), 2u16);
    assert!(q.for_each_intersection(&Aabb::new(vec2(100, 100), vec2(5, 5))).is_empty());
    assert!(q.for_each_intersection(&Aabb::new(vec2(-100, 4), vec2(5, 5))).is_empty());
    assert!(q.for_each_intersection(&Aabb::new(vec2(4, 4), vec2(0, 0))).is_empty());
}

#[test]
fn box_with_its_centre_outside_the_world_can_be_missed() {
    let mut q = LooseQuadTree::new(vec2(10, 10));
    let mut n = NaiveCollisionDetection::new(vec2(10, 10));
    let far = Aabb::new(vec2(100, 100), vec2(1, 1));
    q.insert(far, 1u16);
    n.insert(far, 1u16);
    assert_eq!(sorted_ids(n.for_each_intersection(&far)), vec![1]);
    // It rests in the bottom-right corner cell, and no doubled quadrant on the
    // way there reaches out to where the box is.
    assert!(q.for_each_intersection(&far).is_empty());
    // A query that covers both the corner and the box finds it.
    assert_eq!(sorted_ids(q.for_each_intersection(&Aabb::new(vec2(0, 0), vec2(200, 200)))), vec![1]);
}

#[test]
fn own_entries_come_before_those_of_the_children_in_quadrant_order() {
    let mut q = LooseQuadTree::new(vec2(16, 16));
    // One small box per quadrant, bottom-right first, then two that rest at
    // the root.
    q.insert(Aabb::new(vec2(12, 12), vec2(1, 1)), 3u16);
    q.insert(Aabb::new(vec2(2, 12), vec2(1, 1)), 2u16);
    q.insert(Aabb::new(vec2(12, 2), vec2(1, 1)), 1u16);
    q.insert(Aabb::new(vec2(2, 2), vec2(1, 1)), 0u16);
    q.insert(Aabb::new(vec2(0, 0), vec2(16, 16)), 20u16);
    q.insert(Aabb::new(vec2(1, 1), vec2(14, 14)), 21u16);
    let hits = q.for_each_intersection(&Aabb::new(vec2(0, 0), vec2(16, 16)));
    let ids: Vec<u16> = hits.iter().map(|hit| hit.1).collect();
    assert_eq!(ids, vec![20, 21, 0, 1, 2, 3]);
}

#[test]
fn odd_sized_world_is_tiled_without_gaps() {
    let size = vec2(1023, 513);
    let mut q = LooseQuadTree::new(size);
    let mut n = NaiveCollisionDetection::new(size);
    let mut id: u16 = 0;
    for i in 0..60 {
        let aabb = Aabb::new(vec2(1022 - 17 * i, 512 - 8 * i), vec2(1, 1));
        q.insert(aabb, id);
        n.insert(aabb, id);
        id += 1;
    }
    for i in 0..60 {
        let probe = Aabb::new(vec2(1021 - 17 * i, 511 - 8 * i), vec2(3, 3));
        let found = sorted_ids(q.for_each_intersection(&probe));
        assert_eq!(found, sorted_ids(n.for_each_intersection(&probe)));
        assert_eq!(found, vec![i as u16]);
    }
}

#[test]
fn values_need_not_be_copyable() {
    let mut q: LooseQuadTree<String> = LooseQuadTree::new(vec2(100, 100));
    q.insert(Aabb::new(vec2(10, 10), vec2(5, 5)), String::from("crate"));
    q.insert(Aabb::new(vec2(60, 60), vec2(5, 5)), String::from("barrel"));
    let hits = q.for_each_intersection(&Aabb::new(vec2(55, 55), vec2(10, 10)));
    assert_eq!(hits.len(), 1);
    assert_eq!(hits[0].0, Aabb::new(vec2(60, 60), vec2(5, 5)));
    assert_eq!(hits[0].1, "barrel");
}

#[test]
fn largest_world_takes_boxes_at_its_far_corner() {
    let side: i64 = 0x3fff_ffff_ffff_ffff;
    let mut q = LooseQuadTree::new(vec2(side, side));
    q.insert(Aabb::new(vec2(side - 1, side - 1), vec2(1, 1)), 1u16);
    q.insert(Aabb::new(vec2(0, 0), vec2(1, 1)), 2u16);
    q.insert(Aabb::new(vec2(side / 2, side / 2), vec2(side / 4, side / 4)), 3u16);
    assert_eq!(sorted_ids(q.for_each_intersection(&Aabb::new(vec2(side - 2, side - 2), vec2(2, 2)))), vec![1]);
    assert_eq!(sorted_ids(q.for_each_intersection(&Aabb::new(vec2(0, 0), vec2(side, side)))), vec![1, 2, 3]);
}

#[test]
fn tree_has_room_and_can_be_cleared() {
    let mut q: LooseQuadTree<u16> = LooseQuadTree::new(vec2(1024, 1024));
    assert!(q.has_room());
    assert!(q.can_clear());
    for i in 0..200 {
        q.insert(Aabb::new(vec2(5 * i, 5 * i), vec2(1, 1)), i as u16);
    }
    q.clear();
    assert!(q.has_room());
    assert!(q.can_clear());
}
