use loose_quad_tree::aabb::{vec2, Aabb, Vec2};

#[test]
fn vec2_holds_its_components() {
    let v = vec2(3, -4);
    assert_eq!(v, Vec2 { x: 3, y: -4 });
    assert_eq!(v.x, 3);
    assert_eq!(v.y, -4);
}

#[test]
fn new_box_holds_corner_and_size() {
    let aabb = Aabb::new(vec2(1, 4), vec2(2, 3));
    assert_eq!(aabb.top_left, vec2(1, 4));
    assert_eq!(aabb.size, vec2(2, 3));
}

#[test]
fn centre_is_the_corner_plus_half_the_size() {
    assert_eq!(Aabb::new(vec2(1, 4), vec2(2, 2)).centre(), vec2(2, 5));
    assert_eq!(Aabb::new(vec2(0, 0), vec2(10, 10)).centre(), vec2(5, 5));
    assert_eq!(Aabb::new(vec2(-8, -8), vec2(4, 6)).centre(), vec2(-6, -5));
}

#[test]
fn centre_of_an_odd_box_rounds_towards_the_corner() {
    assert_eq!(Aabb::new(vec2(0, 0), vec2(3, 5)).centre(), vec2(1, 2));
    assert_eq!(Aabb::new(vec2(-3, 10), vec2(1, 1)).centre(), vec2(-3, 10));
    assert_eq!(Aabb::new(vec2(7, 7), vec2(0, 0)).centre(), vec2(7, 7));
}

#[test]
fn overlapping_boxes_intersect() {
    let a = Aabb::new(vec2(1, 4), vec2(2, 2));
    let b = Aabb::new(vec2(2, 5), vec2(2, 2));
    assert!(a.is_intersecting(&b));
    assert!(b.is_intersecting(&a));
    assert!(a.is_intersecting(&a));
}

#[test]
fn box_inside_another_intersects_it() {
    let outer = Aabb::new(vec2(0, 0), vec2(10, 10));
    let inner = Aabb::new(vec2(2, 5), vec2(1, 1));
    assert!(outer.is_intersecting(&inner));
    assert!(inner.is_intersecting(&outer));
}

#[test]
fn boxes_apart_on_one_axis_do_not_intersect() {
    let a = Aabb::new(vec2(6, 4), vec2(2, 2));
    let b = Aabb::new(vec2(2, 5), vec2(2, 2));
    assert!(!a.is_intersecting(&b));
    assert!(!b.is_intersecting(&a));
    let above = Aabb::new(vec2(2, 0), vec2(2, 2));
    assert!(!above.is_intersecting(&b));
}

#[test]
fn boxes_that_share_an_edge_do_not_intersect() {
    let a = Aabb::new(vec2(0, 0), vec2(5, 5));
    assert!(!a.is_intersecting(&Aabb::new(vec2(5, 0), vec2(5, 5))));
    assert!(!a.is_intersecting(&Aabb::new(vec2(0, 5), vec2(5, 5))));
    assert!(!a.is_intersecting(&Aabb::new(vec2(5, 5), vec2(5, 5))));
    assert!(a.is_intersecting(&Aabb::new(vec2(4, 4), vec2(5, 5))));
}

#[test]
fn point_intersects_only_what_holds_it_inside() {
    let point = Aabb::new(vec2(3, 3), vec2(0, 0));
    assert!(point.is_intersecting(&Aabb::new(vec2(2, 2), vec2(2, 2))));
    assert!(!point.is_intersecting(&Aabb::new(vec2(3, 3), vec2(2, 2))));
    assert!(!point.is_intersecting(&point));
}

#[test]
fn split_four_of_an_even_box() {
    let parts = Aabb::new(vec2(0, 0), vec2(10, 10)).split_four();
    assert_eq!(parts.top_left, Aabb::new(vec2(0, 0), vec2(5, 5)));
    assert_eq!(parts.top_right, Aabb::new(vec2(5, 0), vec2(5, 5)));
    assert_eq!(parts.bottom_left, Aabb::new(vec2(0, 5), vec2(5, 5)));
    assert_eq!(parts.bottom_right, Aabb::new(vec2(5, 5), vec2(5, 5)));
}

#[test]
fn split_four_of_an_odd_box_tiles_it() {
    let parts = Aabb::new(vec2(1, 2), vec2(5, 7)).split_four();
    assert_eq!(parts.top_left, Aabb::new(vec2(1, 2), vec2(2, 3)));
    assert_eq!(parts.top_right, Aabb::new(vec2(3, 2), vec2(3, 3)));
    assert_eq!(parts.bottom_left, Aabb::new(vec2(1, 5), vec2(2, 4)));
    assert_eq!(parts.bottom_right, Aabb::new(vec2(3, 5), vec2(3, 4)));
}

#[test]
fn split_four_of_a_single_cell() {
    let parts = Aabb::new(vec2(4, 4), vec2(1, 1)).split_four();
    assert_eq!(parts.top_left, Aabb::new(vec2(4, 4), vec2(0, 0)));
    assert_eq!(parts.top_right, Aabb::new(vec2(4, 4), vec2(1, 0)));
    assert_eq!(parts.bottom_left, Aabb::new(vec2(4, 4), vec2(0, 1)));
    assert_eq!(parts.bottom_right, Aabb::new(vec2(4, 4), vec2(1, 1)));
}

#[test]
fn double_about_centre_keeps_the_centre() {
    let aabb = Aabb::new(vec2(5, 5), vec2(4, 2));
    let wide = aabb.double_about_centre();
    assert_eq!(wide, Aabb::new(vec2(3, 4), vec2(8, 4)));
    assert_eq!(wide.centre(), aabb.centre());
}

#[test]
fn double_about_centre_of_an_odd_box() {
    let aabb = Aabb::new(vec2(2, 3), vec2(3, 5));
    let wide = aabb.double_about_centre();
    assert_eq!(wide, Aabb::new(vec2(0, 0), vec2(6, 10)));
    assert_eq!(wide.centre(), vec2(3, 5));
    assert_eq!(aabb.centre(), vec2(3, 5));
}

#[test]
fn double_about_centre_reaches_below_zero() {
    let wide = Aabb::new(vec2(0, 0), vec2(10, 10)).double_about_centre();
    assert_eq!(wide, Aabb::new(vec2(-5, -5), vec2(20, 20)));
}

#[test]
fn box_is_valid_unless_negative_or_off_the_grid() {
    assert!(Aabb::new(vec2(0, 0), vec2(0, 0)).is_valid());
    assert!(Aabb::new(vec2(-5, -5), vec2(2, 3)).is_valid());
    assert!(!Aabb::new(vec2(0, 0), vec2(-1, 3)).is_valid());
    assert!(!Aabb::new(vec2(0, 0), vec2(3, -1)).is_valid());
    assert!(Aabb::new(vec2(i64::MAX - 2, 0), vec2(2, 1)).is_valid());
    assert!(!Aabb::new(vec2(i64::MAX - 2, 0), vec2(3, 1)).is_valid());
    assert!(!Aabb::new(vec2(0, i64::MAX), vec2(1, 1)).is_valid());
    assert!(Aabb::new(vec2(i64::MIN, i64::MIN), vec2(i64::MAX, i64::MAX)).is_valid());
}
