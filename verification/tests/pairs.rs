use aabb_physics::{
    detect_collision, BodyBuilder, BodyHandle, CollisionGraph, ContactInfo, Edge, PhysicsEvent, Shape, Vector,
};

fn square(x: i32, y: i32) -> BodyBuilder {
    BodyBuilder::new(Shape::AABB(Vector::new(10, 10)), Vector::new(x, y))
}

#[test]
fn a_new_pair_gets_a_fresh_edge() {
    let mut graph = CollisionGraph::with_capacity(8, 8);
    assert_eq!(graph.edge_count(), 0);
    graph.update_edge(3, 7);
    assert_eq!(graph.edge_count(), 1);
    assert_eq!(graph.edge(0), Edge { a: 3, b: 7, fresh: true });
    assert!(graph.is_connected(3, 7));
    assert!(graph.is_connected(7, 3));
    assert!(!graph.is_connected(3, 3));
    assert!(!graph.is_connected(3, 8));
}

#[test]
fn a_pair_has_one_edge_whatever_the_order() {
    let mut graph = CollisionGraph::with_capacity(8, 8);
    graph.update_edge(3, 7);
    graph.update_edge(7, 3);
    graph.update_edge(3, 7);
    assert_eq!(graph.edge_count(), 1);
    graph.update_edge(7, 1);
    assert_eq!(graph.edge_count(), 2);
    assert_eq!(graph.edge(1), Edge { a: 7, b: 1, fresh: true });
}

#[test]
fn a_body_is_not_paired_with_itself() {
    let mut graph = CollisionGraph::with_capacity(8, 8);
    graph.update_edge(4, 4);
    assert_eq!(graph.edge_count(), 0);
}

#[test]
fn removing_a_node_drops_its_edges_and_keeps_the_order() {
    let mut graph = CollisionGraph::with_capacity(8, 8);
    graph.update_edge(1, 2);
    graph.update_edge(2, 3);
    graph.update_edge(4, 1);
    graph.update_edge(3, 4);
    graph.remove_node(2);
    assert_eq!(graph.edge_count(), 2);
    assert_eq!(graph.edge(0), Edge { a: 4, b: 1, fresh: true });
    assert_eq!(graph.edge(1), Edge { a: 3, b: 4, fresh: true });
    graph.remove_node(9);
    assert_eq!(graph.edge_count(), 2);
}

fn classify(
    first: &BodyBuilder,
    second: &BodyBuilder,
    fresh: bool,
) -> (bool, bool, Vec<ContactInfo>, Vec<PhysicsEvent>) {
    let mut new_edge = fresh;
    let mut manifolds = Vec::new();
    let mut events = Vec::new();
    let remove = detect_collision(1, &first.build(), 2, &second.build(), &mut new_edge, &mut manifolds, &mut events);
    (remove, new_edge, manifolds, events)
}

#[test]
fn solid_bodies_that_meet_start_a_collision() {
    let (remove, new_edge, manifolds, events) = classify(&square(0, 0), &square(15, 0), true);
    assert!(!remove);
    assert!(!new_edge);
    assert_eq!(events, vec![PhysicsEvent::CollisionStarted(BodyHandle(1), BodyHandle(2))]);
    assert_eq!(manifolds.len(), 1);
    assert_eq!((manifolds[0].0, manifolds[0].1), (1, 2));
    assert_eq!(manifolds[0].2.depth, Vector::new(5, 20));
}

#[test]
fn solid_bodies_that_stay_together_keep_their_contact() {
    let (remove, new_edge, manifolds, events) = classify(&square(0, 0), &square(15, 0), false);
    assert!(!remove);
    assert!(!new_edge);
    assert!(events.is_empty());
    assert_eq!(manifolds.len(), 1);
}

#[test]
fn solid_bodies_that_part_end_their_collision() {
    let (remove, new_edge, manifolds, events) = classify(&square(0, 0), &square(50, 0), false);
    assert!(remove);
    assert!(!new_edge);
    assert_eq!(events, vec![PhysicsEvent::CollisionEnded(BodyHandle(1), BodyHandle(2))]);
    assert!(manifolds.is_empty());
}

#[test]
fn a_pair_found_apart_is_dropped_in_silence() {
    let (remove, new_edge, manifolds, events) = classify(&square(0, 0), &square(50, 0), true);
    assert!(remove);
    assert!(!new_edge);
    assert!(events.is_empty());
    assert!(manifolds.is_empty());
}

#[test]
fn a_zone_is_reported_after_the_solid_body() {
    let (remove, _, manifolds, events) = classify(&square(0, 0), &square(15, 0).sensor(), true);
    assert!(!remove);
    assert_eq!(events, vec![PhysicsEvent::OverlapStarted(BodyHandle(1), BodyHandle(2))]);
    assert!(manifolds.is_empty());

    let (remove, _, manifolds, events) = classify(&square(0, 0).sensor(), &square(15, 0), true);
    assert!(!remove);
    assert_eq!(events, vec![PhysicsEvent::OverlapStarted(BodyHandle(2), BodyHandle(1))]);
    assert!(manifolds.is_empty());

    let (remove, _, manifolds, events) = classify(&square(0, 0).sensor(), &square(50, 0), false);
    assert!(remove);
    assert_eq!(events, vec![PhysicsEvent::OverlapEnded(BodyHandle(2), BodyHandle(1))]);
    assert!(manifolds.is_empty());

    let (remove, _, _, events) = classify(&square(0, 0), &square(50, 0).sensor(), false);
    assert!(remove);
    assert_eq!(events, vec![PhysicsEvent::OverlapEnded(BodyHandle(1), BodyHandle(2))]);
}

#[test]
fn two_zones_are_reported_as_they_come() {
    let (remove, _, manifolds, events) = classify(&square(0, 0).sensor(), &square(15, 0).sensor(), true);
    assert!(!remove);
    assert_eq!(events, vec![PhysicsEvent::OverlapStarted(BodyHandle(1), BodyHandle(2))]);
    assert!(manifolds.is_empty());
    let (remove, _, _, events) = classify(&square(0, 0).sensor(), &square(50, 0).sensor(), false);
    assert!(remove);
    assert_eq!(events, vec![PhysicsEvent::OverlapEnded(BodyHandle(1), BodyHandle(2))]);
    let (remove, _, _, events) = classify(&square(0, 0).sensor(), &square(15, 0).sensor(), false);
    assert!(!remove);
    assert!(events.is_empty());
}

#[test]
fn what_was_recorded_before_stays_in_front() {
    let mut new_edge = true;
    let mut manifolds = Vec::new();
    let mut events = vec![PhysicsEvent::OverlapEnded(BodyHandle(8), BodyHandle(9))];
    detect_collision(
        1,
        &square(0, 0).build(),
        2,
        &square(15, 0).build(),
        &mut new_edge,
        &mut manifolds,
        &mut events,
    );
    assert_eq!(
        events,
        vec![
            PhysicsEvent::OverlapEnded(BodyHandle(8), BodyHandle(9)),
            PhysicsEvent::CollisionStarted(BodyHandle(1), BodyHandle(2)),
        ]
    );
}
