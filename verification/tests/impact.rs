use aabb_physics::toi::advance;
use aabb_physics::{time_of_impact, Toi, Vector};

fn half() -> Vector {
    Vector::new(10, 10)
}

#[test]
fn head_on_boxes_meet_after_a_fifth_of_the_step() {
    let toi = time_of_impact(
        Vector::new(0, 0),
        Vector::new(200, 0),
        half(),
        Vector::new(100, 0),
        Vector::new(-100, 0),
        half(),
    );
    assert_eq!(toi, Some(Toi { num: 80, den: 400 }));
}

#[test]
fn time_of_impact_is_the_same_for_both_boxes() {
    let first = time_of_impact(
        Vector::new(0, 0),
        Vector::new(200, 0),
        half(),
        Vector::new(100, 0),
        Vector::new(-100, 0),
        half(),
    );
    let second = time_of_impact(
        Vector::new(100, 0),
        Vector::new(-100, 0),
        half(),
        Vector::new(0, 0),
        Vector::new(200, 0),
        half(),
    );
    assert_eq!(first, second);
}

#[test]
fn overlapping_boxes_meet_at_once() {
    let toi = time_of_impact(
        Vector::new(0, 0),
        Vector::new(50, 0),
        half(),
        Vector::new(15, 0),
        Vector::new(15, 0),
        half(),
    );
    assert_eq!(toi, Some(Toi { num: 0, den: 1 }));
}

#[test]
fn touching_boxes_meet_at_once() {
    let toi = time_of_impact(
        Vector::new(0, 0),
        Vector::new(0, 50),
        half(),
        Vector::new(20, 0),
        Vector::new(20, 0),
        half(),
    );
    assert_eq!(toi, Some(Toi { num: 0, den: 1 }));
}

#[test]
fn boxes_that_stop_short_do_not_meet() {
    let toi = time_of_impact(
        Vector::new(0, 0),
        Vector::new(29, 0),
        half(),
        Vector::new(50, 0),
        Vector::new(50, 0),
        half(),
    );
    assert_eq!(toi, None);
}

#[test]
fn boxes_that_just_reach_meet_at_the_end() {
    let toi = time_of_impact(
        Vector::new(0, 0),
        Vector::new(30, 0),
        half(),
        Vector::new(50, 0),
        Vector::new(50, 0),
        half(),
    );
    assert_eq!(toi, Some(Toi { num: 30, den: 30 }));
}

#[test]
fn boxes_moving_apart_do_not_meet() {
    let toi = time_of_impact(
        Vector::new(0, 0),
        Vector::new(-100, 0),
        half(),
        Vector::new(50, 0),
        Vector::new(150, 0),
        half(),
    );
    assert_eq!(toi, None);
}

#[test]
fn boxes_moving_alike_do_not_meet() {
    let toi = time_of_impact(
        Vector::new(0, 0),
        Vector::new(100, 0),
        half(),
        Vector::new(50, 0),
        Vector::new(150, 0),
        half(),
    );
    assert_eq!(toi, None);
}

#[test]
fn a_box_passing_beside_does_not_meet() {
    let toi = time_of_impact(
        Vector::new(0, 0),
        Vector::new(200, 0),
        half(),
        Vector::new(100, 25),
        Vector::new(100, 25),
        half(),
    );
    assert_eq!(toi, None);
}

#[test]
fn the_later_axis_decides() {
    // the gap of 30 along x closes at 3/10 of the step, the gap of 10 along y at 1/10
    let toi = time_of_impact(
        Vector::new(0, 0),
        Vector::new(100, 100),
        half(),
        Vector::new(50, 30),
        Vector::new(50, 30),
        half(),
    );
    assert_eq!(toi, Some(Toi { num: 30, den: 100 }));
}

#[test]
fn a_box_that_has_left_one_axis_before_the_other_closes_does_not_meet() {
    // along x the boxes overlap only until 1/10 of the step; along y they touch from 8/10 on
    let toi = time_of_impact(
        Vector::new(0, 0),
        Vector::new(300, 100),
        half(),
        Vector::new(-10, 100),
        Vector::new(-10, 100),
        half(),
    );
    assert_eq!(toi, None);
}

#[test]
fn moments_compare_by_value() {
    let third = Toi { num: 1, den: 3 };
    let two_sixths = Toi { num: 2, den: 6 };
    let half = Toi { num: 5, den: 10 };
    assert!(third.is_before(&half));
    assert!(!half.is_before(&third));
    assert!(!third.is_before(&two_sixths));
    assert!(!two_sixths.is_before(&third));
    assert!(Toi { num: 1, den: 100 }.is_within(1, 100));
    assert!(Toi { num: 0, den: 1 }.is_within(1, 100));
    assert!(!Toi { num: 2, den: 100 }.is_within(1, 100));
    assert!(!Toi { num: 101, den: 10000 }.is_within(1, 100));
}

#[test]
fn advancing_rounds_toward_the_start() {
    let third = Toi { num: 1, den: 3 };
    assert_eq!(advance(Vector::new(0, 0), Vector::new(10, -10), &third), Vector::new(3, -3));
    assert_eq!(advance(Vector::new(5, 5), Vector::new(7, 3), &third), Vector::new(5, 5));
    assert_eq!(advance(Vector::new(5, 5), Vector::new(8, 2), &third), Vector::new(6, 4));
    let whole = Toi { num: 7, den: 7 };
    assert_eq!(
        advance(Vector::new(i32::MIN, i32::MAX), Vector::new(i32::MAX, i32::MIN), &whole),
        Vector::new(i32::MAX, i32::MIN)
    );
    let none = Toi { num: 0, den: 1 };
    assert_eq!(advance(Vector::new(1, 2), Vector::new(100, 200), &none), Vector::new(1, 2));
}

#[test]
fn boxes_stopped_at_their_impact_touch() {
    let a_pos = Vector::new(0, 0);
    let a_next = Vector::new(200, 0);
    let b_pos = Vector::new(100, 0);
    let b_next = Vector::new(-100, 0);
    let toi = time_of_impact(a_pos, a_next, half(), b_pos, b_next, half()).unwrap();
    let a_stop = advance(a_pos, a_next, &toi);
    let b_stop = advance(b_pos, b_next, &toi);
    assert_eq!(a_stop, Vector::new(40, 0));
    assert_eq!(b_stop, Vector::new(60, 0));
}

#[test]
fn boxes_stopped_at_their_impact_are_at_most_one_step_apart() {
    for speed_a in 1..40 {
        for speed_b in 0..40 {
            let a_pos = Vector::new(0, 0);
            let a_next = Vector::new(speed_a, 0);
            let b_pos = Vector::new(31, 0);
            let b_next = Vector::new(31 - speed_b, 0);
            match time_of_impact(a_pos, a_next, half(), b_pos, b_next, half()) {
                Some(toi) => {
                    assert!(speed_a + speed_b >= 11);
                    let gap = advance(b_pos, b_next, &toi).x - advance(a_pos, a_next, &toi).x - 20;
                    assert!(gap == 0 || gap == 1);
                }
                None => assert!(speed_a + speed_b < 11),
            }
        }
    }
}

fn meets_at(a_pos: Vector, a_next: Vector, a_half: Vector, b_pos: Vector, b_half: Vector, n: i64, m: i64) -> bool {
    let on_axis = |a: i32, an: i32, ah: i32, b: i32, bh: i32| {
        let p = (b - a) as i64;
        let d = -((an - a) as i64);
        let h = (ah + bh) as i64;
        (m * p + n * d).abs() <= m * h
    };
    on_axis(a_pos.x, a_next.x, a_half.x, b_pos.x, b_half.x) && on_axis(a_pos.y, a_next.y, a_half.y, b_pos.y, b_half.y)
}

#[test]
fn time_of_impact_is_the_first_moment_of_contact() {
    // with speeds of at most 6 every gap closes at a multiple of 1/60 of the step
    let a_half = Vector::new(1, 1);
    let b_half = Vector::new(1, 2);
    let b_pos = Vector::new(0, 0);
    let mut hits = 0;
    let mut misses = 0;
    for ax in -7..=7 {
        for ay in -7..=7 {
            for dx in -6..=6 {
                for dy in -6..=6 {
                    let a_pos = Vector::new(ax, ay);
                    let a_next = Vector::new(ax + dx, ay + dy);
                    let first = (0..=60).find(|n| meets_at(a_pos, a_next, a_half, b_pos, b_half, *n, 60));
                    let toi = time_of_impact(a_pos, a_next, a_half, b_pos, b_pos, b_half);
                    match (first, toi) {
                        (Some(n), Some(t)) => {
                            assert_eq!(n * t.den, t.num * 60);
                            hits += 1;
                        }
                        (None, None) => misses += 1,
                        _ => panic!("the first contact of {:?} moving to {:?} is {:?}, not {:?}", a_pos, a_next, first, toi),
                    }
                }
            }
        }
    }
    assert!(hits > 1000);
    assert!(misses > 1000);
}
