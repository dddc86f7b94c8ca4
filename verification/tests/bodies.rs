use aabb_physics::{
    collided, collision_info, Body, BodyBuilder, BodyHandle, BodyState, BodyType, ButtonsState, ContactManifold,
    Shape, Vector,
};

fn square(x: i32, y: i32) -> BodyBuilder {
    BodyBuilder::new(Shape::AABB(Vector::new(10, 10)), Vector::new(x, y))
}

#[test]
fn builder_has_the_documented_defaults() {
    let body = square(3, 4).build();
    assert_eq!(body.shape, Shape::AABB(Vector::new(10, 10)));
    assert_eq!(body.position, Vector::new(3, 4));
    assert_eq!(body.velocity, Vector::new(0, 0));
    assert_eq!(body.btype, BodyType::Dynamic);
    assert_eq!(body.state, BodyState::Solid);
    assert_eq!(body.category_bits, 1);
    assert_eq!(body.mask_bits, u32::MAX);
}

#[test]
fn builder_sets_each_property() {
    let body = square(0, 0)
        .with_position(Vector::new(7, 8))
        .with_velocity(Vector::new(-1, 2))
        .make_static()
        .sensor()
        .with_category(0b100)
        .with_mask(0b011)
        .build();
    assert_eq!(
        body,
        Body::new(
            Shape::AABB(Vector::new(10, 10)),
            Vector::new(7, 8),
            Vector::new(-1, 2),
            BodyType::Static,
            BodyState::Zone,
            0b100,
            0b011,
        )
    );
}

#[test]
fn bodies_collide_where_their_boxes_overlap() {
    let a = square(0, 0).build();
    let b = square(15, 0).build();
    let c = square(40, 0).build();
    assert!(collided(&a, &b));
    assert!(collided(&b, &a));
    assert!(!collided(&a, &c));
    let manifold = collision_info(&a, &b).unwrap();
    assert_eq!(manifold.depth, Vector::new(5, 20));
    assert_eq!(manifold.normal, Vector::new(1, 0));
    assert!(collision_info(&a, &c).is_none());
}

#[test]
fn mutual_masks_let_bodies_interact() {
    let first = square(0, 0).with_category(0b10).with_mask(0b01).build();
    let second = square(0, 0).with_category(0b01).with_mask(0b10).build();
    assert!(first.interacts_with(&second));
    assert!(second.interacts_with(&first));
}

#[test]
fn one_mask_that_misses_keeps_bodies_apart() {
    let first = square(0, 0).with_category(0b10).with_mask(0b01).build();
    let deaf = square(0, 0).with_category(0b01).with_mask(0b100).build();
    assert!(!first.interacts_with(&deaf));
    assert!(!deaf.interacts_with(&first));
    let unseen = square(0, 0).with_category(0b100).with_mask(0b10).build();
    assert!(!first.interacts_with(&unseen));
    assert!(!unseen.interacts_with(&first));
    let nothing = square(0, 0).with_category(0).with_mask(u32::MAX).build();
    assert!(!nothing.interacts_with(&nothing));
}

#[test]
fn dynamic_bodies_are_predicted_along_their_velocity() {
    let body = square(5, -5).with_velocity(Vector::new(3, -7)).build();
    assert_eq!(body.predicted_position(0), Vector::new(5, -5));
    assert_eq!(body.predicted_position(1), Vector::new(8, -12));
    assert_eq!(body.predicted_position(10), Vector::new(35, -75));
}

#[test]
fn static_bodies_stay_where_they_are() {
    let body = square(5, -5).with_velocity(Vector::new(3, -7)).make_static().build();
    assert_eq!(body.predicted_position(10), Vector::new(5, -5));
}

#[test]
fn predicted_positions_are_clamped() {
    let body = square(i32::MAX - 1, i32::MIN + 1).with_velocity(Vector::new(i32::MAX, i32::MIN)).build();
    assert_eq!(body.predicted_position(u32::MAX), Vector::new(i32::MAX, i32::MIN));
    assert_eq!(body.predicted_position(1), Vector::new(i32::MAX, i32::MIN));
}

#[test]
fn shapes_grow_by_a_margin() {
    let shape = Shape::AABB(Vector::new(10, 20));
    assert_eq!(shape.inflate(5), Shape::AABB(Vector::new(15, 25)));
    assert_eq!(shape.inflate(-30), Shape::AABB(Vector::new(-20, -10)));
    assert_eq!(Shape::AABB(Vector::new(i32::MAX, 0)).inflate(1), Shape::AABB(Vector::new(i32::MAX, 1)));
}

#[test]
fn handles_compare_by_their_key() {
    assert_eq!(BodyHandle(3), BodyHandle(3));
    assert!(BodyHandle(2) < BodyHandle(3));
}

#[test]
fn vectors_add_with_clamping() {
    assert_eq!(Vector::new(1, 2).plus(Vector::new(-5, 9)), Vector::new(-4, 11));
    assert_eq!(Vector::new(i32::MAX, i32::MIN).plus(Vector::new(1, -1)), Vector::new(i32::MAX, i32::MIN));
    assert_eq!(Vector::zero(), Vector::new(0, 0));
}

#[test]
fn defaults_are_all_zero() {
    assert_eq!(Vector::default(), Vector::new(0, 0));
    let manifold = ContactManifold::default();
    assert_eq!(manifold.depth, Vector::new(0, 0));
    assert_eq!(manifold.normal, Vector::new(0, 0));
    assert_eq!(manifold.contact_points, (Vector::new(0, 0), Vector::new(0, 0)));
    let buttons = ButtonsState::default();
    assert!(!buttons.is_pressed(aabb_physics::Button::Jump));
}

#[test]
fn resolving_a_contact_moves_and_stops_the_body() {
    let mut body = BodyBuilder::new(Shape::AABB(Vector::new(10, 10)), Vector::new(0, 0))
        .with_velocity(Vector::new(3, 4))
        .build();
    let other = BodyBuilder::new(Shape::AABB(Vector::new(10, 10)), Vector::new(-2, 17)).build();
    let contact = collision_info(&body, &other).unwrap().best_contact();
    assert_eq!(contact.depth, 3);
    assert_eq!(contact.normal, Vector::new(0, 1));
    body.resolve_contact(&contact);
    assert_eq!(body.position, Vector::new(0, -3));
    assert_eq!(body.velocity, Vector::new(3, 0));
}
