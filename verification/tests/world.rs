use aabb_physics::{Body, BodyBuilder, BodyHandle, PhysicsEvent, PhysicsWorld, Shape, Vector};

fn square(x: i32, y: i32) -> BodyBuilder {
    BodyBuilder::new(Shape::AABB(Vector::new(10, 10)), Vector::new(x, y))
}

fn body_of(world: &PhysicsWorld, handle: BodyHandle) -> Body {
    *world.get_body(handle).unwrap()
}

#[test]
fn a_new_world_is_empty() {
    let world = PhysicsWorld::new();
    assert!(world.get_body(BodyHandle(0)).is_none());
    assert!(world.events().is_empty());
    assert!(world.manifolds().is_empty());
    assert_eq!(world.collision_graph().edge_count(), 0);
    assert_eq!(world.skin(), 1);
    assert_eq!(PhysicsWorld::with_skin(50).skin(), 50);
}

#[test]
fn the_world_counts_its_bodies() {
    let mut world = PhysicsWorld::new();
    assert_eq!(world.len(), 0);
    let first = world.add(square(1, 2).build());
    let _second = world.add(square(3, 4).build());
    assert_eq!(world.len(), 2);
    world.remove(&[first]);
    assert_eq!(world.len(), 1);
    world.remove(&[first]);
    assert_eq!(world.len(), 1);
    assert!(world.len() < aabb_physics::MAX_BODIES);
}

#[test]
fn added_bodies_are_found_by_their_handles() {
    let mut world = PhysicsWorld::new();
    let first = world.add(square(1, 2).build());
    let second = world.add(square(3, 4).with_velocity(Vector::new(5, 6)).build());
    assert!(first != second);
    assert_eq!(body_of(&world, first), square(1, 2).build());
    assert_eq!(body_of(&world, second).velocity, Vector::new(5, 6));
    assert!(world.get_body(BodyHandle(first.0.max(second.0) + 1)).is_none());
}

#[test]
fn bodies_are_changed_through_their_handles() {
    let mut world = PhysicsWorld::new();
    let first = world.add(square(1, 2).build());
    let second = world.add(square(3, 4).build());
    {
        let body = world.mut_body(first).unwrap();
        body.position = Vector::new(-9, 9);
        body.velocity = Vector::new(1, 1);
    }
    assert_eq!(body_of(&world, first).position, Vector::new(-9, 9));
    assert_eq!(body_of(&world, first).velocity, Vector::new(1, 1));
    assert_eq!(body_of(&world, second), square(3, 4).build());
    assert!(world.mut_body(BodyHandle(77)).is_none());
}

#[test]
fn removed_bodies_are_gone_and_the_rest_stays() {
    let mut world = PhysicsWorld::new();
    let first = world.add(square(1, 2).build());
    let second = world.add(square(3, 4).build());
    let third = world.add(square(5, 6).build());
    world.remove(&[first, third, BodyHandle(40)]);
    assert!(world.get_body(first).is_none());
    assert!(world.get_body(third).is_none());
    assert!(world.mut_body(first).is_none());
    assert_eq!(body_of(&world, second), square(3, 4).build());
    let fourth = world.add(square(7, 8).build());
    assert!(fourth != second);
    assert_eq!(body_of(&world, fourth), square(7, 8).build());
    assert_eq!(body_of(&world, second), square(3, 4).build());
}

#[test]
fn a_freed_slot_is_used_again() {
    let mut world = PhysicsWorld::new();
    let first = world.add(square(1, 2).build());
    let second = world.add(square(3, 4).build());
    world.remove(&[first]);
    let third = world.add(square(5, 6).build());
    // the handle of the body that is gone now names the new body
    assert_eq!(third, first);
    assert_eq!(body_of(&world, first), square(5, 6).build());
    assert_eq!(body_of(&world, second), square(3, 4).build());
    assert_eq!(world.len(), 2);
}

#[test]
fn removing_a_body_forgets_its_pairs() {
    let mut world = PhysicsWorld::new();
    let a = world.add(square(0, 0).build());
    let b = world.add(square(15, 0).make_static().build());
    let c = world.add(square(-15, 0).make_static().build());
    world.step(0);
    assert_eq!(world.collision_graph().edge_count(), 2);
    world.remove(&[b]);
    assert_eq!(world.collision_graph().edge_count(), 1);
    assert!(world.collision_graph().is_connected(a.0, c.0));
    assert!(!world.collision_graph().is_connected(a.0, b.0));
    world.remove(&[a]);
    assert_eq!(world.collision_graph().edge_count(), 0);
    world.step(1);
    assert!(world.events().is_empty());
}

#[test]
fn a_free_body_moves_by_velocity_times_time() {
    let mut world = PhysicsWorld::new();
    let mover = world.add(square(0, 0).with_velocity(Vector::new(3, -2)).build());
    let fixed = world.add(square(500, 500).with_velocity(Vector::new(3, -2)).make_static().build());
    world.step(5);
    assert_eq!(body_of(&world, mover).position, Vector::new(15, -10));
    assert_eq!(body_of(&world, mover).velocity, Vector::new(3, -2));
    assert_eq!(body_of(&world, fixed).position, Vector::new(500, 500));
    assert_eq!(body_of(&world, fixed).velocity, Vector::new(3, -2));
    world.step(1);
    assert_eq!(body_of(&world, mover).position, Vector::new(18, -12));
    assert!(world.events().is_empty());
    assert_eq!(world.collision_graph().edge_count(), 0);
}

#[test]
fn overlapping_solid_bodies_collide_and_the_first_is_pushed_out() {
    let mut world = PhysicsWorld::new();
    let a = world.add(square(0, 0).build());
    let b = world.add(square(15, 0).make_static().build());
    world.step(1);
    assert_eq!(world.events().as_slice(), &[PhysicsEvent::CollisionStarted(a, b)]);
    assert_eq!(world.manifolds().len(), 1);
    let (first, second, manifold) = world.manifolds()[0];
    assert_eq!((first, second), (a.0, b.0));
    assert_eq!(manifold.depth, Vector::new(5, 20));
    assert_eq!(manifold.normal, Vector::new(1, 0));
    assert_eq!(body_of(&world, a).position, Vector::new(-5, 0));
    assert_eq!(body_of(&world, b).position, Vector::new(15, 0));
    assert!(world.collision_graph().is_connected(a.0, b.0));
    assert!(!world.collision_graph().edge(0).fresh);

    // the bodies touch now: the pair stays, and nothing more is reported
    world.step(1);
    assert!(world.events().is_empty());
    assert_eq!(world.manifolds().len(), 1);
    assert_eq!(world.manifolds()[0].2.depth, Vector::new(0, 20));
    assert_eq!(body_of(&world, a).position, Vector::new(-5, 0));
    assert_eq!(world.collision_graph().edge_count(), 1);
}

#[test]
fn resolution_stops_the_body_along_the_contact_axis_only() {
    let mut world = PhysicsWorld::new();
    let a = world.add(square(0, 0).build());
    let _b = world.add(square(2, 15).make_static().build());
    world.mut_body(a).unwrap().velocity = Vector::new(0, 0);
    world.step(0);
    // the y axis is the less deep one
    assert_eq!(body_of(&world, a).position, Vector::new(0, -5));
    world.mut_body(a).unwrap().velocity = Vector::new(4, 9);
    world.step(0);
    assert_eq!(body_of(&world, a).position, Vector::new(0, -5));
    assert_eq!(body_of(&world, a).velocity, Vector::new(4, 0));
}

#[test]
fn bodies_that_are_moved_apart_end_their_collision() {
    let mut world = PhysicsWorld::new();
    let a = world.add(square(0, 0).build());
    let b = world.add(square(15, 0).make_static().build());
    world.step(1);
    world.mut_body(a).unwrap().position = Vector::new(-50, 0);
    world.step(1);
    assert_eq!(world.events().as_slice(), &[PhysicsEvent::CollisionEnded(a, b)]);
    assert!(world.manifolds().is_empty());
    assert_eq!(world.collision_graph().edge_count(), 0);
    world.step(1);
    assert!(world.events().is_empty());
}

#[test]
fn a_solid_body_crossing_a_zone_starts_and_ends_one_overlap() {
    let mut world = PhysicsWorld::new();
    let solid = world.add(
        BodyBuilder::new(Shape::AABB(Vector::new(5, 5)), Vector::new(-30, 0))
            .with_velocity(Vector::new(30, 0))
            .build(),
    );
    let zone = world.add(square(0, 0).make_static().sensor().build());
    let mut started = 0;
    let mut ended = 0;
    let mut log = Vec::new();
    for _ in 0..5 {
        world.step(1);
        assert!(world.manifolds().is_empty());
        for event in world.events().iter() {
            match event {
                PhysicsEvent::OverlapStarted(_, _) => started += 1,
                PhysicsEvent::OverlapEnded(_, _) => ended += 1,
                _ => panic!("a zone never collides"),
            }
            log.push(*event);
        }
    }
    assert_eq!(started, 1);
    assert_eq!(ended, 1);
    assert_eq!(log, vec![PhysicsEvent::OverlapStarted(solid, zone), PhysicsEvent::OverlapEnded(solid, zone)]);
    assert_eq!(body_of(&world, solid).position, Vector::new(120, 0));
}

#[test]
fn a_zone_overlap_is_reported_on_the_steps_it_starts_and_ends() {
    let mut world = PhysicsWorld::new();
    let solid = world.add(
        BodyBuilder::new(Shape::AABB(Vector::new(5, 5)), Vector::new(-30, 0))
            .with_velocity(Vector::new(30, 0))
            .build(),
    );
    let zone = world.add(square(0, 0).make_static().sensor().build());
    world.step(1);
    assert_eq!(body_of(&world, solid).position, Vector::new(0, 0));
    assert_eq!(world.events().as_slice(), &[PhysicsEvent::OverlapStarted(solid, zone)]);
    world.step(1);
    assert_eq!(body_of(&world, solid).position, Vector::new(30, 0));
    assert_eq!(world.events().as_slice(), &[PhysicsEvent::OverlapEnded(solid, zone)]);
    assert_eq!(world.collision_graph().edge_count(), 0);
    world.step(1);
    assert!(world.events().is_empty());
}

#[test]
fn an_overlap_with_a_zone_names_the_solid_body_first() {
    let mut world = PhysicsWorld::new();
    let zone = world.add(square(0, 0).sensor().build());
    let solid = world.add(square(5, 5).make_static().build());
    world.step(1);
    assert_eq!(world.events().as_slice(), &[PhysicsEvent::OverlapStarted(solid, zone)]);
    assert!(world.manifolds().is_empty());
    assert_eq!(body_of(&world, zone).position, Vector::new(0, 0));
    world.mut_body(zone).unwrap().position = Vector::new(100, 100);
    world.step(1);
    assert_eq!(world.events().as_slice(), &[PhysicsEvent::OverlapEnded(solid, zone)]);
}

#[test]
fn two_zones_report_their_overlap_in_the_order_found() {
    let mut world = PhysicsWorld::new();
    let first = world.add(square(0, 0).sensor().build());
    let second = world.add(square(5, 5).sensor().build());
    world.step(1);
    assert_eq!(world.events().as_slice(), &[PhysicsEvent::OverlapStarted(first, second)]);
    assert!(world.manifolds().is_empty());
    world.mut_body(second).unwrap().position = Vector::new(100, 100);
    world.step(1);
    assert_eq!(world.events().as_slice(), &[PhysicsEvent::OverlapEnded(first, second)]);
}

#[test]
fn static_bodies_are_never_paired_with_each_other() {
    let mut world = PhysicsWorld::new();
    let _a = world.add(square(0, 0).make_static().build());
    let _b = world.add(square(5, 5).make_static().build());
    world.step(1);
    assert!(world.events().is_empty());
    assert_eq!(world.collision_graph().edge_count(), 0);
}

#[test]
fn fast_bodies_do_not_pass_through_each_other() {
    let mut world = PhysicsWorld::new();
    let a = world.add(square(0, 0).with_velocity(Vector::new(200, 0)).build());
    let b = world.add(square(100, 0).with_velocity(Vector::new(-200, 0)).build());
    world.step(1);
    let a_pos = body_of(&world, a).position;
    let b_pos = body_of(&world, b).position;
    assert_eq!(a_pos, Vector::new(40, 0));
    assert_eq!(b_pos, Vector::new(61, 0));
    // neither has passed the other, and they are within the skin margin of touching
    let depth = 20 - (b_pos.x - a_pos.x);
    assert!(depth >= -world.skin());
    assert!(depth <= 0);
    // uncorrected, they would have changed sides
    assert!(body_of(&world, a).predicted_position(0).x < body_of(&world, b).predicted_position(0).x);
    world.step(1);
    assert_eq!(body_of(&world, a).position, Vector::new(40, 0));
    assert_eq!(body_of(&world, b).position, Vector::new(61, 0));
}

#[test]
fn a_fast_body_does_not_pass_through_a_thin_wall() {
    let mut world = PhysicsWorld::new();
    let bullet = world.add(
        BodyBuilder::new(Shape::AABB(Vector::new(5, 5)), Vector::new(0, 0))
            .with_velocity(Vector::new(1000, 0))
            .build(),
    );
    let _wall = world.add(
        BodyBuilder::new(Shape::AABB(Vector::new(1, 50)), Vector::new(100, 0)).make_static().build(),
    );
    world.step(1);
    assert_eq!(body_of(&world, bullet).position, Vector::new(93, 0));
    world.step(1);
    assert_eq!(body_of(&world, bullet).position, Vector::new(93, 0));
}

#[test]
fn a_fast_body_passes_through_a_zone() {
    let mut world = PhysicsWorld::new();
    let bullet = world.add(
        BodyBuilder::new(Shape::AABB(Vector::new(5, 5)), Vector::new(0, 0))
            .with_velocity(Vector::new(1000, 0))
            .build(),
    );
    let _zone = world.add(
        BodyBuilder::new(Shape::AABB(Vector::new(1, 50)), Vector::new(100, 0)).make_static().sensor().build(),
    );
    world.step(1);
    assert_eq!(body_of(&world, bullet).position, Vector::new(1000, 0));
    assert!(world.events().is_empty());
    assert_eq!(world.collision_graph().edge_count(), 0);
}

#[test]
fn a_body_stops_at_the_nearest_of_two_walls() {
    let mut world = PhysicsWorld::new();
    let far = world.add(
        BodyBuilder::new(Shape::AABB(Vector::new(1, 50)), Vector::new(300, 0)).make_static().build(),
    );
    let bullet = world.add(
        BodyBuilder::new(Shape::AABB(Vector::new(5, 5)), Vector::new(0, 0))
            .with_velocity(Vector::new(1000, 0))
            .build(),
    );
    let near = world.add(
        BodyBuilder::new(Shape::AABB(Vector::new(1, 50)), Vector::new(100, 0)).make_static().build(),
    );
    world.step(1);
    assert_eq!(body_of(&world, bullet).position, Vector::new(93, 0));
    assert_eq!(body_of(&world, far).position, Vector::new(300, 0));
    assert_eq!(body_of(&world, near).position, Vector::new(100, 0));
}

#[test]
fn an_impact_within_the_tolerance_keeps_the_body_in_place() {
    let mut world = PhysicsWorld::new();
    let mover = world.add(square(0, 0).with_velocity(Vector::new(1000, 0)).build());
    let _wall = world.add(square(25, 0).make_static().build());
    // the gap of 5 closes after 5/1000 of the step
    world.step(1);
    assert_eq!(body_of(&world, mover).position, Vector::new(0, 0));
    assert_eq!(body_of(&world, mover).velocity, Vector::new(1000, 0));
}

#[test]
fn a_body_pressed_into_another_is_settled_at_the_skin_margin() {
    let mut world = PhysicsWorld::with_skin(3);
    let mover = world.add(square(0, 0).with_velocity(Vector::new(0, 7)).build());
    let _wall = world.add(square(15, 0).make_static().build());
    world.step(1);
    assert_eq!(body_of(&world, mover).position, Vector::new(-8, 0));
    assert!(world.events().is_empty());
    assert_eq!(world.collision_graph().edge_count(), 0);
    // clear of the wall, the body slides on
    world.step(1);
    assert_eq!(body_of(&world, mover).position, Vector::new(-8, 7));
}

#[test]
fn bodies_whose_masks_do_not_match_ignore_each_other() {
    let mut world = PhysicsWorld::new();
    let a = world.add(square(0, 0).with_category(0b10).with_mask(0b01).build());
    let b = world.add(square(15, 0).with_category(0b01).with_mask(0b100).build());
    world.step(1);
    assert!(world.events().is_empty());
    assert!(world.manifolds().is_empty());
    assert_eq!(world.collision_graph().edge_count(), 0);
    assert_eq!(body_of(&world, a).position, Vector::new(0, 0));
    assert_eq!(body_of(&world, b).position, Vector::new(15, 0));
}

#[test]
fn bodies_whose_masks_match_collide() {
    let mut world = PhysicsWorld::new();
    let a = world.add(square(0, 0).with_category(0b10).with_mask(0b01).build());
    let b = world.add(square(15, 0).with_category(0b01).with_mask(0b10).build());
    world.step(1);
    assert_eq!(world.events().as_slice(), &[PhysicsEvent::CollisionStarted(a, b)]);
    assert_eq!(world.collision_graph().edge_count(), 1);
}

#[test]
fn a_fast_body_passes_through_a_body_it_does_not_interact_with() {
    let mut world = PhysicsWorld::new();
    let bullet = world.add(square(0, 0).with_velocity(Vector::new(1000, 0)).with_mask(0b10).build());
    let _wall = world.add(square(100, 0).make_static().build());
    world.step(1);
    assert_eq!(body_of(&world, bullet).position, Vector::new(1000, 0));
}

#[test]
fn a_step_of_no_length_changes_nothing_in_a_world_at_rest() {
    let mut world = PhysicsWorld::new();
    let a = world.add(square(0, 0).build());
    let b = world.add(square(15, 0).make_static().build());
    let c = world.add(square(400, 0).with_velocity(Vector::new(-9, 9)).build());
    let d = world.add(square(405, 0).sensor().with_velocity(Vector::new(1, 1)).build());
    world.step(1);
    let before: Vec<Body> = [a, b, c, d].iter().map(|h| body_of(&world, *h)).collect();
    let edges = world.collision_graph().edge_count();
    assert_eq!(edges, 2);
    for _ in 0..3 {
        world.step(0);
        let after: Vec<Body> = [a, b, c, d].iter().map(|h| body_of(&world, *h)).collect();
        assert_eq!(before, after);
        assert_eq!(world.collision_graph().edge_count(), edges);
        assert!(world.collision_graph().is_connected(a.0, b.0));
        assert!(world.collision_graph().is_connected(c.0, d.0));
        assert!(world.events().is_empty());
    }
}

#[test]
fn a_step_of_no_length_still_finds_what_was_never_looked_at() {
    let mut world = PhysicsWorld::new();
    let a = world.add(square(0, 0).build());
    let b = world.add(square(15, 0).build());
    world.step(0);
    assert_eq!(world.collision_graph().edge_count(), 1);
    assert_eq!(world.events().as_slice(), &[PhysicsEvent::CollisionStarted(a, b)]);
    assert_eq!(body_of(&world, a).position, Vector::new(-5, 0));
}

#[test]
fn events_last_until_the_next_step() {
    let mut world = PhysicsWorld::new();
    let a = world.add(square(0, 0).build());
    let b = world.add(square(15, 0).make_static().build());
    world.step(1);
    assert_eq!(world.events().len(), 1);
    assert_eq!(world.events().as_slice(), &[PhysicsEvent::CollisionStarted(a, b)]);
    world.step(1);
    assert!(world.events().is_empty());
}

#[test]
fn only_the_first_body_of_a_pair_is_pushed() {
    let mut world = PhysicsWorld::new();
    let a = world.add(square(0, 0).build());
    let b = world.add(square(15, 0).build());
    world.step(1);
    assert_eq!(body_of(&world, a).position, Vector::new(-5, 0));
    assert_eq!(body_of(&world, b).position, Vector::new(15, 0));
    assert_eq!(world.manifolds().len(), 1);
}

#[test]
fn contact_pair_gives_the_manifold_of_two_live_bodies() {
    let mut world = PhysicsWorld::new();
    let a = world.add(square(0, 0).build());
    let b = world.add(square(15, 0).build());
    let c = world.add(square(100, 0).build());
    assert_eq!(world.contact_pair(a, b).unwrap().depth, Vector::new(5, 20));
    assert_eq!(world.contact_pair(b, a).unwrap().normal, Vector::new(-1, 0));
    assert!(world.contact_pair(a, c).is_none());
    assert!(world.contact_pair(a, BodyHandle(9)).is_none());
    world.remove(&[b]);
    assert!(world.contact_pair(a, b).is_none());
}
