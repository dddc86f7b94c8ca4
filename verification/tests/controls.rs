use aabb_physics::shape::Contact;
use aabb_physics::{
    best_correction, classify_collision, BodyTag, Button, ButtonsState, CollisionData, CollisionGroup, Vector,
};

fn held(button: Button) -> [bool; 5] {
    let mut all = [false; 5];
    all[button.index()] = true;
    all
}

#[test]
fn buttons_have_their_places() {
    assert_eq!(Button::Left.index(), 0);
    assert_eq!(Button::Right.index(), 1);
    assert_eq!(Button::Up.index(), 2);
    assert_eq!(Button::Down.index(), 3);
    assert_eq!(Button::Jump.index(), 4);
}

#[test]
fn nothing_is_pressed_at_first() {
    let state = ButtonsState::new();
    for button in [Button::Left, Button::Right, Button::Up, Button::Down, Button::Jump] {
        assert!(!state.is_pressed(button));
        assert!(!state.pressed(button));
        assert!(!state.released(button));
    }
}

#[test]
fn a_button_is_just_pressed_for_one_update() {
    let mut state = ButtonsState::new();
    state.update(&held(Button::Jump));
    assert!(state.is_pressed(Button::Jump));
    assert!(state.pressed(Button::Jump));
    assert!(!state.released(Button::Jump));
    assert!(!state.is_pressed(Button::Left));
    state.update(&held(Button::Jump));
    assert!(state.is_pressed(Button::Jump));
    assert!(!state.pressed(Button::Jump));
    assert!(!state.released(Button::Jump));
}

#[test]
fn a_button_is_just_released_for_one_update() {
    let mut state = ButtonsState::new();
    state.update(&held(Button::Up));
    state.update(&[false; 5]);
    assert!(!state.is_pressed(Button::Up));
    assert!(!state.pressed(Button::Up));
    assert!(state.released(Button::Up));
    state.update(&[false; 5]);
    assert!(!state.released(Button::Up));
}

#[test]
fn a_long_hold_is_not_forgotten() {
    let mut state = ButtonsState::new();
    for _ in 0..20 {
        state.update(&held(Button::Right));
        assert!(state.is_pressed(Button::Right));
    }
    assert!(!state.pressed(Button::Right));
    state.update(&held(Button::Left));
    assert!(state.released(Button::Right));
    assert!(state.pressed(Button::Left));
}

#[test]
fn groups_have_a_category_bit_each() {
    assert_eq!(CollisionGroup::Terrain.category_bits(), 0b0001);
    assert_eq!(CollisionGroup::Ally.category_bits(), 0b0010);
    assert_eq!(CollisionGroup::Test1.category_bits(), 0b0100);
    assert_eq!(CollisionGroup::Test2.category_bits(), 0b1000);
}

#[test]
fn allies_accept_the_terrain_but_not_each_other() {
    let terrain = CollisionGroup::Terrain;
    let ally = CollisionGroup::Ally;
    assert_eq!(terrain.mask_bits(), u32::MAX);
    assert_eq!(ally.mask_bits(), 0b1101);
    assert!(ally.category_bits() & terrain.mask_bits() != 0);
    assert!(terrain.category_bits() & ally.mask_bits() != 0);
    assert!(ally.category_bits() & ally.mask_bits() == 0);
}

#[test]
fn the_larger_correction_wins() {
    assert_eq!(best_correction(3, -5), -5);
    assert_eq!(best_correction(-5, 3), -5);
    assert_eq!(best_correction(4, -4), 4);
    assert_eq!(best_correction(-4, 4), -4);
    assert_eq!(best_correction(0, 0), 0);
    assert_eq!(best_correction(i32::MIN, i32::MAX), i32::MIN);
}

fn contact(normal: Vector, depth: i32) -> Option<Contact> {
    Some(Contact { contact_point: Vector::new(0, 0), normal, depth })
}

#[test]
fn corrections_against_the_terrain_add_up_per_axis() {
    let ally = CollisionData { group: CollisionGroup::Ally };
    let terrain = CollisionData { group: CollisionGroup::Terrain };
    let mut correction = Vector::new(0, 0);
    classify_collision(&ally, &terrain, contact(Vector::new(1, 0), 4), &mut correction);
    assert_eq!(correction, Vector::new(-4, 0));
    classify_collision(&ally, &terrain, contact(Vector::new(0, -1), 7), &mut correction);
    assert_eq!(correction, Vector::new(-4, 7));
    classify_collision(&ally, &terrain, contact(Vector::new(-1, 0), 3), &mut correction);
    assert_eq!(correction, Vector::new(-4, 7));
    classify_collision(&ally, &terrain, contact(Vector::new(-1, 1), 9), &mut correction);
    assert_eq!(correction, Vector::new(9, -9));
}

#[test]
fn only_the_terrain_corrects() {
    let ally = CollisionData { group: CollisionGroup::Ally };
    let terrain = CollisionData { group: CollisionGroup::Terrain };
    let mut correction = Vector::new(1, 1);
    classify_collision(&terrain, &ally, contact(Vector::new(1, 0), 4), &mut correction);
    assert_eq!(correction, Vector::new(1, 1));
    classify_collision(&ally, &ally, contact(Vector::new(1, 0), 4), &mut correction);
    assert_eq!(correction, Vector::new(1, 1));
    classify_collision(&ally, &terrain, None, &mut correction);
    assert_eq!(correction, Vector::new(1, 1));
    classify_collision(&ally, &terrain, contact(Vector::new(1, 1), 0), &mut correction);
    assert_eq!(correction, Vector::new(1, 1));
    classify_collision(&terrain, &terrain, contact(Vector::new(1, 0), 4), &mut correction);
    assert_eq!(correction, Vector::new(-4, 1));
}

#[test]
fn tags_and_groups_compare() {
    assert_eq!(BodyTag::PC, BodyTag::PC);
    assert!(BodyTag::DummyArea != BodyTag::RectangleUnder);
    assert!(BodyTag::RectangleRight != BodyTag::PC);
    assert!(CollisionGroup::Test1 != CollisionGroup::Test2);
}
