use aabb_physics::shape::sweep_aabb_aabb;
use aabb_physics::{collision_aabb_aabb, collision_aabb_aabb_manifold, Contact, ContactManifold, Vector};

#[test]
fn boxes_fifteen_apart_overlap_by_five() {
    let a_pos = Vector::new(0, 0);
    let b_pos = Vector::new(15, 0);
    let half = Vector::new(10, 10);
    assert!(collision_aabb_aabb(a_pos, half, b_pos, half));
    let manifold = collision_aabb_aabb_manifold(a_pos, half, b_pos, half).unwrap();
    assert_eq!(manifold.depth, Vector::new(5, 20));
    assert_eq!(manifold.normal, Vector::new(1, 0));
    let best = manifold.best_contact();
    assert_eq!(best.depth, 5);
    assert_eq!(best.normal, Vector::new(1, 0));
    assert_eq!(best.contact_point, Vector::new(10, 0));
}

#[test]
fn overlap_is_symmetric_on_samples() {
    let boxes = [
        (Vector::new(0, 0), Vector::new(10, 10)),
        (Vector::new(15, 0), Vector::new(10, 10)),
        (Vector::new(-40, 7), Vector::new(3, 50)),
        (Vector::new(21, 21), Vector::new(1, 1)),
        (Vector::new(i32::MAX, i32::MIN), Vector::new(i32::MAX, 5)),
    ];
    for (a_pos, a_half) in boxes.iter() {
        for (b_pos, b_half) in boxes.iter() {
            assert_eq!(
                collision_aabb_aabb(*a_pos, *a_half, *b_pos, *b_half),
                collision_aabb_aabb(*b_pos, *b_half, *a_pos, *a_half)
            );
        }
    }
}

#[test]
fn separated_boxes_have_no_manifold() {
    let half = Vector::new(10, 10);
    assert!(!collision_aabb_aabb(Vector::new(0, 0), half, Vector::new(21, 0), half));
    assert!(collision_aabb_aabb_manifold(Vector::new(0, 0), half, Vector::new(21, 0), half).is_none());
    assert!(!collision_aabb_aabb(Vector::new(0, 0), half, Vector::new(0, -21), half));
    assert!(collision_aabb_aabb_manifold(Vector::new(0, 0), half, Vector::new(0, -21), half).is_none());
    assert!(collision_aabb_aabb_manifold(Vector::new(0, 0), half, Vector::new(21, 21), half).is_none());
}

#[test]
fn manifold_exists_exactly_when_boxes_overlap() {
    let half = Vector::new(4, 6);
    for x in -12..=12 {
        for y in -15..=15 {
            let b_pos = Vector::new(x, y);
            let hit = collision_aabb_aabb(Vector::new(0, 0), half, b_pos, half);
            let manifold = collision_aabb_aabb_manifold(Vector::new(0, 0), half, b_pos, half);
            assert_eq!(hit, manifold.is_some());
            assert_eq!(hit, x.abs() <= 8 && y.abs() <= 12);
        }
    }
}

#[test]
fn touching_boxes_overlap_with_depth_zero() {
    let half = Vector::new(10, 10);
    let manifold = collision_aabb_aabb_manifold(Vector::new(0, 0), half, Vector::new(20, 3), half).unwrap();
    assert_eq!(manifold.depth, Vector::new(0, 17));
    assert_eq!(manifold.normal, Vector::new(1, 1));
    assert_eq!(manifold.best_contact().depth, 0);
    assert_eq!(manifold.best_contact().push_out(), Vector::new(0, 0));
}

#[test]
fn aligned_boxes_have_no_normal() {
    let half = Vector::new(10, 10);
    let manifold = collision_aabb_aabb_manifold(Vector::new(5, 5), half, Vector::new(5, 5), half).unwrap();
    assert_eq!(manifold.normal, Vector::new(0, 0));
    assert_eq!(manifold.depth, Vector::new(20, 20));
    assert_eq!(manifold.contact_points.0, Vector::new(5, 5));
    assert_eq!(manifold.contact_points.1, Vector::new(5, 5));
}

#[test]
fn normal_points_from_first_box_to_second() {
    let half = Vector::new(10, 10);
    let manifold = collision_aabb_aabb_manifold(Vector::new(0, 0), half, Vector::new(-15, -18), half).unwrap();
    assert_eq!(manifold.normal, Vector::new(-1, -1));
    assert_eq!(manifold.depth, Vector::new(5, 2));
    assert_eq!(manifold.contact_points.0, Vector::new(-10, 0));
    assert_eq!(manifold.contact_points.1, Vector::new(0, -10));
    let best = manifold.best_contact();
    assert_eq!(best.depth, 2);
    assert_eq!(best.normal, Vector::new(0, -1));
    assert_eq!(best.contact_point, Vector::new(0, -10));
    assert_eq!(best.push_out(), Vector::new(0, 2));
}

#[test]
fn equal_depths_prefer_the_x_axis() {
    let half = Vector::new(10, 10);
    let manifold = collision_aabb_aabb_manifold(Vector::new(0, 0), half, Vector::new(12, 12), half).unwrap();
    assert_eq!(manifold.depth, Vector::new(8, 8));
    let best = manifold.best_contact();
    assert_eq!(best.normal, Vector::new(1, 0));
    assert_eq!(best.depth, 8);
    assert_eq!(best.push_out(), Vector::new(-8, 0));
}

#[test]
fn best_contact_goes_by_magnitude_of_depth() {
    let manifold = ContactManifold::new(
        Vector::new(-9, 4),
        (Vector::new(1, 2), Vector::new(3, 4)),
        Vector::new(1, -1),
    );
    let best = manifold.best_contact();
    assert_eq!(best.depth, 4);
    assert_eq!(best.normal, Vector::new(0, -1));
    assert_eq!(best.contact_point, Vector::new(3, 4));
}

#[test]
fn huge_boxes_have_clamped_depth() {
    let half = Vector::new(i32::MAX, i32::MAX);
    let manifold = collision_aabb_aabb_manifold(Vector::new(0, 0), half, Vector::new(1, 0), half).unwrap();
    assert_eq!(manifold.depth, Vector::new(i32::MAX, i32::MAX));
    assert_eq!(manifold.contact_points.0, Vector::new(i32::MAX, 0));
}

#[test]
fn correction_is_clamped_to_the_coordinate_range() {
    let contact = Contact { contact_point: Vector::new(0, 0), normal: Vector::new(i32::MIN, 2), depth: i32::MIN };
    assert_eq!(contact.push_out(), Vector::new(i32::MIN, i32::MAX));
}

#[test]
fn boxes_with_negative_extents_never_overlap_themselves() {
    let half = Vector::new(-1, 5);
    assert!(!collision_aabb_aabb(Vector::new(0, 0), half, Vector::new(0, 0), half));
    assert!(collision_aabb_aabb_manifold(Vector::new(0, 0), half, Vector::new(0, 0), half).is_none());
}

#[test]
fn sweeps_of_resting_boxes_are_the_boxes() {
    let half = Vector::new(10, 10);
    for x in 15..=25 {
        let a = Vector::new(0, 0);
        let b = Vector::new(x, 0);
        assert_eq!(sweep_aabb_aabb(a, a, half, b, b, half), collision_aabb_aabb(a, half, b, half));
    }
}

#[test]
fn sweeps_cover_the_whole_way() {
    let half = Vector::new(10, 10);
    // a flies from far left to far right, past b
    assert!(sweep_aabb_aabb(
        Vector::new(-100, 0),
        Vector::new(100, 0),
        half,
        Vector::new(0, 5),
        Vector::new(0, 5),
        half
    ));
    // it passes too far above
    assert!(!sweep_aabb_aabb(
        Vector::new(-100, 30),
        Vector::new(100, 30),
        half,
        Vector::new(0, 5),
        Vector::new(0, 5),
        half
    ));
    // it stops short
    assert!(!sweep_aabb_aabb(
        Vector::new(-100, 0),
        Vector::new(-21, 0),
        half,
        Vector::new(0, 0),
        Vector::new(0, 0),
        half
    ));
    assert!(sweep_aabb_aabb(
        Vector::new(-100, 0),
        Vector::new(-20, 0),
        half,
        Vector::new(0, 0),
        Vector::new(0, 0),
        half
    ));
}
