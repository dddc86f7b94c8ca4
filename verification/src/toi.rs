//! Time of impact of two moving boxes.
//!
//! Both boxes move in a straight line during a step. A moment of the step is
//! a fraction `n / m` with `0 <= n <= m`; everything here is stated over such
//! fractions by cross-multiplication, so it is exact.

use vstd::prelude::*;
use crate::shape::{high, low, sweeps_overlap};
use crate::vector::{magnitude, Vector};

verus! {

/// Two moving boxes seen from the first one: where the second box is, how it
/// moves during the step, and how far apart the centres must be to separate them.
pub struct Sweep {
    pub px: int,
    pub py: int,
    pub dx: int,
    pub dy: int,
    pub hx: int,
    pub hy: int,
}

/// A moment of a step, the fraction `num / den` of it.
#[derive(Clone, Copy, Debug, PartialEq, Eq, Structural)]
pub struct Toi {
    pub num: i64,
    pub den: i64,
}

/// On one axis the boxes touch or overlap at the moment `n / m`.
pub open spec fn axis_meets(p: int, d: int, h: int, n: int, m: int) -> bool {
    -(m * h) <= m * p + n * d <= m * h
}

/// The boxes touch or overlap at the moment `n / m`.
pub open spec fn meets(s: Sweep, n: int, m: int) -> bool {
    axis_meets(s.px, s.dx, s.hx, n, m) && axis_meets(s.py, s.dy, s.hy, n, m)
}

/// The speed at which the distance between the centres shrinks on one axis.
pub open spec fn closing_speed(p: int, d: int) -> int {
    if p > 0 {
        -d
    } else {
        d
    }
}

/// The first moment of the step at which one axis no longer separates the
/// boxes: the start if it does not separate them then, the moment the gap is
/// closed if it is closed within the step, and no moment otherwise.
pub open spec fn axis_entry(p: int, d: int, h: int) -> Option<(int, int)> {
    let gap = magnitude(p) - h;
    if gap <= 0 {
        Some((0, 1))
    } else if h >= 0 && closing_speed(p, d) >= gap {
        Some((gap, closing_speed(p, d)))
    } else {
        None
    }
}

/// The later of two moments, the first one when they coincide.
pub open spec fn later(a: (int, int), b: (int, int)) -> (int, int) {
    if a.0 * b.1 >= b.0 * a.1 {
        a
    } else {
        b
    }
}

/// The time of impact: the moment at which the last axis stops separating
/// the boxes, provided the other axis has not begun to separate them by then.
pub open spec fn toi_of(s: Sweep) -> Option<(int, int)> {
    match (axis_entry(s.px, s.dx, s.hx), axis_entry(s.py, s.dy, s.hy)) {
        (Some(ex), Some(ey)) => {
            let t = later(ex, ey);
            if meets(s, t.0, t.1) {
                Some(t)
            } else {
                None
            }
        },
        _ => None,
    }
}

/// The sweep of box `b` relative to box `a`, each moving from its position
/// to its next position.
pub open spec fn sweep_of(
    a_pos: Vector,
    a_next: Vector,
    a_half: Vector,
    b_pos: Vector,
    b_next: Vector,
    b_half: Vector,
) -> Sweep {
    Sweep {
        px: b_pos.x - a_pos.x,
        py: b_pos.y - a_pos.y,
        dx: (b_next.x - b_pos.x) - (a_next.x - a_pos.x),
        dy: (b_next.y - b_pos.y) - (a_next.y - a_pos.y),
        hx: a_half.x + b_half.x,
        hy: a_half.y + b_half.y,
    }
}

impl Toi {
    /// The fraction as a pair of integers.
    pub open spec fn view(&self) -> (int, int) {
        (self.num as int, self.den as int)
    }

    /// A moment of a step: a fraction between 0 and 1 of magnitudes that
    /// differences of coordinates can have.
    pub open spec fn wf(&self) -> bool {
        0 <= self.num <= self.den && 0 < self.den <= 0x4_0000_0000
    }

    /// `self` comes strictly before `other`.
    pub open spec fn before(&self, other: &Toi) -> bool {
        self.num * other.den < other.num * self.den
    }

    /// Tells whether `self` comes strictly before `other`.
    pub fn is_before(&self, other: &Toi) -> (r: bool)
        requires
            self.wf(),
            other.wf(),
        ensures
            r == self.before(other),
    {
        let a: i128 = self.num as i128;
        let b: i128 = other.den as i128;
        let c: i128 = other.num as i128;
        let d: i128 = self.den as i128;
        assert(0 <= a * b <= 0x4_0000_0000 * 0x4_0000_0000) by (nonlinear_arith)
            requires
                0 <= a <= 0x4_0000_0000,
                0 <= b <= 0x4_0000_0000,
        ;
        assert(0 <= c * d <= 0x4_0000_0000 * 0x4_0000_0000) by (nonlinear_arith)
            requires
                0 <= c <= 0x4_0000_0000,
                0 <= d <= 0x4_0000_0000,
        ;
        a * b < c * d
    }

    /// The moment is no later than the fraction `tol_num / tol_den` of the step.
    pub open spec fn within(&self, tol_num: int, tol_den: int) -> bool {
        self.num * tol_den <= tol_num * self.den
    }

    /// Tells whether the moment is no later than a small fraction of the step.
    pub fn is_within(&self, tol_num: i64, tol_den: i64) -> (r: bool)
        requires
            self.wf(),
            0 <= tol_num <= 0x1_0000,
            0 <= tol_den <= 0x1_0000,
        ensures
            r == self.within(tol_num as int, tol_den as int),
    {
        let a: i128 = self.num as i128;
        let b: i128 = tol_den as i128;
        let c: i128 = tol_num as i128;
        let d: i128 = self.den as i128;
        assert(0 <= a * b <= 0x4_0000_0000 * 0x1_0000) by (nonlinear_arith)
            requires
                0 <= a <= 0x4_0000_0000,
                0 <= b <= 0x1_0000,
        ;
        assert(0 <= c * d <= 0x4_0000_0000 * 0x1_0000) by (nonlinear_arith)
            requires
                0 <= c <= 0x1_0000,
                0 <= d <= 0x4_0000_0000,
        ;
        a * b <= c * d
    }
}

/// The moment a computed time of impact stands for, if there is one.
pub open spec fn moment_of(toi: Option<Toi>) -> Option<(int, int)> {
    match toi {
        Some(t) => Some(t@),
        None => None,
    }
}

/// Differences and sums of two coordinates, and differences of two such differences.
pub open spec fn sweep_bounded(p: int, d: int, h: int) -> bool {
    &&& -0x1_0000_0000 < p < 0x1_0000_0000
    &&& -0x2_0000_0000 < d < 0x2_0000_0000
    &&& -0x1_0000_0000 <= h < 0x1_0000_0000
}

fn axis_entry_of(p: i64, d: i64, h: i64) -> (e: Option<Toi>)
    requires
        sweep_bounded(p as int, d as int, h as int),
    ensures
        moment_of(e) == axis_entry(p as int, d as int, h as int),
        e matches Some(t) ==> t.wf(),
{
    let reach: i64 = if p < 0 {
        -p
    } else {
        p
    };
    let gap: i64 = reach - h;
    let closing: i64 = if p > 0 {
        -d
    } else {
        d
    };
    if gap <= 0 {
        Some(Toi { num: 0, den: 1 })
    } else if h >= 0 && closing >= gap {
        Some(Toi { num: gap, den: closing })
    } else {
        None
    }
}

fn axis_meets_at(p: i64, d: i64, h: i64, t: &Toi) -> (r: bool)
    requires
        sweep_bounded(p as int, d as int, h as int),
        t.wf(),
    ensures
        r == axis_meets(p as int, d as int, h as int, t.num as int, t.den as int),
{
    let n: i128 = t.num as i128;
    let m: i128 = t.den as i128;
    let pw: i128 = p as i128;
    let dw: i128 = d as i128;
    let hw: i128 = h as i128;
    assert(-0x4_0000_0000 * 0x1_0000_0000 <= m * pw <= 0x4_0000_0000 * 0x1_0000_0000)
        by (nonlinear_arith)
        requires
            0 < m <= 0x4_0000_0000,
            -0x1_0000_0000 < pw < 0x1_0000_0000,
    ;
    assert(-0x4_0000_0000 * 0x1_0000_0000 <= m * hw <= 0x4_0000_0000 * 0x1_0000_0000)
        by (nonlinear_arith)
        requires
            0 < m <= 0x4_0000_0000,
            -0x1_0000_0000 <= hw < 0x1_0000_0000,
    ;
    assert(-0x4_0000_0000 * 0x2_0000_0000 <= n * dw <= 0x4_0000_0000 * 0x2_0000_0000)
        by (nonlinear_arith)
        requires
            0 <= n <= 0x4_0000_0000,
            -0x2_0000_0000 < dw < 0x2_0000_0000,
    ;
    let reach: i128 = m * hw;
    let at: i128 = m * pw + n * dw;
    -reach <= at && at <= reach
}

/// Computes the time of impact of box `a`, moving from `a_pos` to `a_next`,
/// and box `b`, moving from `b_pos` to `b_next`: the first moment of the step
/// at which the boxes touch, or `None` when they stay apart throughout.
pub fn time_of_impact(
    a_pos: Vector,
    a_next: Vector,
    a_half: Vector,
    b_pos: Vector,
    b_next: Vector,
    b_half: Vector,
) -> (toi: Option<Toi>)
    ensures
        moment_of(toi) == toi_of(sweep_of(a_pos, a_next, a_half, b_pos, b_next, b_half)),
        toi matches Some(t) ==> t.wf(),
{
    let px: i64 = b_pos.x as i64 - a_pos.x as i64;
    let py: i64 = b_pos.y as i64 - a_pos.y as i64;
    let dx: i64 = (b_next.x as i64 - b_pos.x as i64) - (a_next.x as i64 - a_pos.x as i64);
    let dy: i64 = (b_next.y as i64 - b_pos.y as i64) - (a_next.y as i64 - a_pos.y as i64);
    let hx: i64 = a_half.x as i64 + b_half.x as i64;
    let hy: i64 = a_half.y as i64 + b_half.y as i64;
    match (axis_entry_of(px, dx, hx), axis_entry_of(py, dy, hy)) {
        (Some(ex), Some(ey)) => {
            let t = if ex.is_before(&ey) {
                ey
            } else {
                ex
            };
            if axis_meets_at(px, dx, hx, &t) && axis_meets_at(py, dy, hy, &t) {
                Some(t)
            } else {
                None
            }
        },
        _ => None,
    }
}

/// An axis that stops separating the boxes does so within the step, and at
/// that moment the boxes meet on it.
pub proof fn lemma_axis_entry_meets(p: int, d: int, h: int)
    requires
        axis_entry(p, d, h).is_some(),
    ensures
        ({
            let e = axis_entry(p, d, h).unwrap();
            0 <= e.0 <= e.1 && 0 < e.1 && axis_meets(p, d, h, e.0, e.1)
        }),
{
    let gap = magnitude(p) - h;
    let c = closing_speed(p, d);
    if gap > 0 {
        assert(c * h >= 0) by (nonlinear_arith)
            requires
                c > 0,
                h >= 0,
        ;
        if p > 0 {
            assert(c * p + gap * d == c * h) by (nonlinear_arith)
                requires
                    d == -c,
                    gap == p - h,
            ;
        } else {
            assert(c * p + gap * d == -(c * h)) by (nonlinear_arith)
                requires
                    d == c,
                    gap == -p - h,
            ;
        }
    }
}

/// Before an axis stops separating the boxes, they do not meet on it.
pub proof fn lemma_axis_clear_before(p: int, d: int, h: int, n: int, m: int)
    requires
        axis_entry(p, d, h).is_some(),
        m > 0,
        n >= 0,
        n * axis_entry(p, d, h).unwrap().1 < axis_entry(p, d, h).unwrap().0 * m,
    ensures
        !axis_meets(p, d, h, n, m),
{
    let gap = magnitude(p) - h;
    let c = closing_speed(p, d);
    if gap > 0 {
        if p > 0 {
            assert(m * p + n * d > m * h) by (nonlinear_arith)
                requires
                    d == -c,
                    gap == p - h,
                    n * c < gap * m,
            ;
        } else {
            assert(m * p + n * d < -(m * h)) by (nonlinear_arith)
                requires
                    d == c,
                    gap == -p - h,
                    n * c < gap * m,
            ;
        }
    } else {
        assert(n * 1 < 0 * m);
    }
}

/// An axis that keeps separating the boxes does so at every moment of the step.
pub proof fn lemma_axis_never(p: int, d: int, h: int, n: int, m: int)
    requires
        axis_entry(p, d, h).is_none(),
        m > 0,
        0 <= n <= m,
    ensures
        !axis_meets(p, d, h, n, m),
{
    let gap = magnitude(p) - h;
    let c = closing_speed(p, d);
    if h < 0 {
        assert(m * h < 0) by (nonlinear_arith)
            requires
                m > 0,
                h < 0,
        ;
    } else {
        assert(n * c < m * gap) by (nonlinear_arith)
            requires
                c < gap,
                gap > 0,
                m > 0,
                0 <= n <= m,
        ;
        if p > 0 {
            assert(m * p + n * d > m * h) by (nonlinear_arith)
                requires
                    d == -c,
                    gap == p - h,
                    n * c < m * gap,
            ;
        } else {
            assert(m * p + n * d < -(m * h)) by (nonlinear_arith)
                requires
                    d == c,
                    gap == -p - h,
                    n * c < m * gap,
            ;
        }
    }
}

/// The moments at which the boxes meet on an axis form an interval: between
/// two such moments they meet as well.
pub proof fn lemma_axis_meets_between(p: int, d: int, h: int, n1: int, m1: int, n2: int, m2: int, n: int, m: int)
    requires
        m1 > 0,
        m2 > 0,
        m > 0,
        axis_meets(p, d, h, n1, m1),
        axis_meets(p, d, h, n2, m2),
        n1 * m <= n * m1,
        n * m2 <= n2 * m,
    ensures
        axis_meets(p, d, h, n, m),
{
    let g1 = m1 * p + n1 * d;
    let g2 = m2 * p + n2 * d;
    let g = m * p + n * d;
    if d >= 0 {
        assert(m2 * g <= m * g2) by (nonlinear_arith)
            requires
                g == m * p + n * d,
                g2 == m2 * p + n2 * d,
                n * m2 <= n2 * m,
                d >= 0,
        ;
        assert(g <= m * h) by (nonlinear_arith)
            requires
                m2 * g <= m * g2,
                g2 <= m2 * h,
                m2 > 0,
                m > 0,
        ;
        assert(m1 * g >= m * g1) by (nonlinear_arith)
            requires
                g == m * p + n * d,
                g1 == m1 * p + n1 * d,
                n1 * m <= n * m1,
                d >= 0,
        ;
        assert(g >= -(m * h)) by (nonlinear_arith)
            requires
                m1 * g >= m * g1,
                g1 >= -(m1 * h),
                m1 > 0,
                m > 0,
        ;
    } else {
        assert(m1 * g <= m * g1) by (nonlinear_arith)
            requires
                g == m * p + n * d,
                g1 == m1 * p + n1 * d,
                n1 * m <= n * m1,
                d < 0,
        ;
        assert(g <= m * h) by (nonlinear_arith)
            requires
                m1 * g <= m * g1,
                g1 <= m1 * h,
                m1 > 0,
                m > 0,
        ;
        assert(m2 * g >= m * g2) by (nonlinear_arith)
            requires
                g == m * p + n * d,
                g2 == m2 * p + n2 * d,
                n * m2 <= n2 * m,
                d < 0,
        ;
        assert(g >= -(m * h)) by (nonlinear_arith)
            requires
                m2 * g >= m * g2,
                g2 >= -(m2 * h),
                m2 > 0,
                m > 0,
        ;
    }
}

/// Two boxes have one time of impact, whichever is named first.
pub proof fn lemma_toi_is_mutual(
    a_pos: Vector,
    a_next: Vector,
    a_half: Vector,
    b_pos: Vector,
    b_next: Vector,
    b_half: Vector,
)
    ensures
        toi_of(sweep_of(a_pos, a_next, a_half, b_pos, b_next, b_half)) == toi_of(
            sweep_of(b_pos, b_next, b_half, a_pos, a_next, a_half),
        ),
{
    let s = sweep_of(a_pos, a_next, a_half, b_pos, b_next, b_half);
    let r = sweep_of(b_pos, b_next, b_half, a_pos, a_next, a_half);
    if toi_of(s).is_some() || toi_of(r).is_some() {
        let ex = axis_entry(s.px, s.dx, s.hx).unwrap();
        let ey = axis_entry(s.py, s.dy, s.hy).unwrap();
        let t = later(ex, ey);
        assert(t.1 * r.px + t.0 * r.dx == -(t.1 * s.px + t.0 * s.dx)) by (nonlinear_arith)
            requires
                r.px == -s.px,
                r.dx == -s.dx,
        ;
        assert(t.1 * r.py + t.0 * r.dy == -(t.1 * s.py + t.0 * s.dy)) by (nonlinear_arith)
            requires
                r.py == -s.py,
                r.dy == -s.dy,
        ;
    }
}

/// A time of impact is a moment of the step.
pub proof fn lemma_toi_in_step(s: Sweep)
    ensures
        toi_of(s).is_some() ==> 0 <= toi_of(s).unwrap().0 <= toi_of(s).unwrap().1 && 0 < toi_of(
            s,
        ).unwrap().1,
{
    if toi_of(s).is_some() {
        lemma_axis_entry_meets(s.px, s.dx, s.hx);
        lemma_axis_entry_meets(s.py, s.dy, s.hy);
    }
}

/// At their time of impact the boxes meet.
pub proof fn lemma_toi_meets(s: Sweep)
    requires
        toi_of(s).is_some(),
    ensures
        meets(s, toi_of(s).unwrap().0, toi_of(s).unwrap().1),
{
}

/// A time of impact is a moment of the step at which the boxes meet, and
/// they do not meet at any earlier moment.
pub proof fn lemma_toi_is_first_contact(s: Sweep, n: int, m: int)
    requires
        toi_of(s).is_some(),
        m > 0,
        n >= 0,
        n * toi_of(s).unwrap().1 < toi_of(s).unwrap().0 * m,
    ensures
        0 <= toi_of(s).unwrap().0 <= toi_of(s).unwrap().1,
        0 < toi_of(s).unwrap().1,
        meets(s, toi_of(s).unwrap().0, toi_of(s).unwrap().1),
        !meets(s, n, m),
{
    let ex = axis_entry(s.px, s.dx, s.hx).unwrap();
    let ey = axis_entry(s.py, s.dy, s.hy).unwrap();
    lemma_axis_entry_meets(s.px, s.dx, s.hx);
    lemma_axis_entry_meets(s.py, s.dy, s.hy);
    if later(ex, ey) == ex {
        lemma_axis_clear_before(s.px, s.dx, s.hx, n, m);
    } else {
        lemma_axis_clear_before(s.py, s.dy, s.hy, n, m);
    }
}

/// Where there is no time of impact, the boxes meet at no moment of the step.
pub proof fn lemma_no_toi_no_contact(s: Sweep, n: int, m: int)
    requires
        toi_of(s).is_none(),
        m > 0,
        0 <= n <= m,
    ensures
        !meets(s, n, m),
{
    let ox = axis_entry(s.px, s.dx, s.hx);
    let oy = axis_entry(s.py, s.dy, s.hy);
    if ox.is_none() {
        lemma_axis_never(s.px, s.dx, s.hx, n, m);
    } else if oy.is_none() {
        lemma_axis_never(s.py, s.dy, s.hy, n, m);
    } else {
        let ex = ox.unwrap();
        let ey = oy.unwrap();
        let t = later(ex, ey);
        lemma_axis_entry_meets(s.px, s.dx, s.hx);
        lemma_axis_entry_meets(s.py, s.dy, s.hy);
        if meets(s, n, m) {
            // Each axis has stopped separating the boxes by the moment n / m.
            if n * ex.1 < ex.0 * m {
                lemma_axis_clear_before(s.px, s.dx, s.hx, n, m);
            }
            if n * ey.1 < ey.0 * m {
                lemma_axis_clear_before(s.py, s.dy, s.hy, n, m);
            }
            assert(ex.0 * t.1 <= t.0 * ex.1 && ey.0 * t.1 <= t.0 * ey.1) by (nonlinear_arith)
                requires
                    t == later(ex, ey),
            ;
            lemma_axis_meets_between(s.px, s.dx, s.hx, ex.0, ex.1, n, m, t.0, t.1);
            lemma_axis_meets_between(s.py, s.dy, s.hy, ey.0, ey.1, n, m, t.0, t.1);
        }
    }
}

proof fn lemma_axis_sweeps_overlap(ap: int, an: int, ah: int, bp: int, bn: int, bh: int, n: int, m: int)
    requires
        m > 0,
        0 <= n <= m,
        axis_meets(bp - ap, (bn - bp) - (an - ap), ah + bh, n, m),
    ensures
        low(ap, an) - ah <= high(bp, bn) + bh,
        low(bp, bn) - bh <= high(ap, an) + ah,
{
    let at_a = m * ap + n * (an - ap);
    let at_b = m * bp + n * (bn - bp);
    assert(m * (bp - ap) + n * ((bn - bp) - (an - ap)) == at_b - at_a) by (nonlinear_arith)
        requires
            at_a == m * ap + n * (an - ap),
            at_b == m * bp + n * (bn - bp),
    ;
    assert(m * (ah + bh) == m * ah + m * bh) by (nonlinear_arith);
    assert(m * low(ap, an) <= at_a <= m * high(ap, an)) by (nonlinear_arith)
        requires
            at_a == m * ap + n * (an - ap),
            0 <= n <= m,
            low(ap, an) <= ap <= high(ap, an),
            low(ap, an) <= an <= high(ap, an),
    ;
    assert(m * low(bp, bn) <= at_b <= m * high(bp, bn)) by (nonlinear_arith)
        requires
            at_b == m * bp + n * (bn - bp),
            0 <= n <= m,
            low(bp, bn) <= bp <= high(bp, bn),
            low(bp, bn) <= bn <= high(bp, bn),
    ;
    assert(low(ap, an) - ah <= high(bp, bn) + bh) by (nonlinear_arith)
        requires
            m > 0,
            m * low(ap, an) - m * ah <= m * high(bp, bn) + m * bh,
    ;
    assert(low(bp, bn) - bh <= high(ap, an) + ah) by (nonlinear_arith)
        requires
            m > 0,
            m * low(bp, bn) - m * bh <= m * high(ap, an) + m * ah,
    ;
}

/// Boxes that meet at some moment of the step sweep regions that overlap:
/// a test of the swept regions misses no impact.
pub proof fn lemma_contact_within_sweeps(
    a_pos: Vector,
    a_next: Vector,
    a_half: Vector,
    b_pos: Vector,
    b_next: Vector,
    b_half: Vector,
    n: int,
    m: int,
)
    requires
        m > 0,
        0 <= n <= m,
        meets(sweep_of(a_pos, a_next, a_half, b_pos, b_next, b_half), n, m),
    ensures
        sweeps_overlap(a_pos, a_next, a_half, b_pos, b_next, b_half),
{
    lemma_axis_sweeps_overlap(
        a_pos.x as int,
        a_next.x as int,
        a_half.x as int,
        b_pos.x as int,
        b_next.x as int,
        b_half.x as int,
        n,
        m,
    );
    lemma_axis_sweeps_overlap(
        a_pos.y as int,
        a_next.y as int,
        a_half.y as int,
        b_pos.y as int,
        b_next.y as int,
        b_half.y as int,
        n,
        m,
    );
}

/// The quotient of `a` by a positive `b`, rounded toward zero.
pub open spec fn trunc_div(a: int, b: int) -> int {
    if a >= 0 {
        a / b
    } else {
        -((-a) / b)
    }
}

/// The point reached at the moment `n / m` on the way from `pos` to `next`,
/// each coordinate rounded toward `pos`.
pub open spec fn partway(pos: Vector, next: Vector, n: int, m: int) -> Vector {
    Vector {
        x: (pos.x + trunc_div((next.x - pos.x) * n, m)) as i32,
        y: (pos.y + trunc_div((next.y - pos.y) * n, m)) as i32,
    }
}

/// A fraction of a distance is no longer than the distance.
proof fn lemma_fraction_bounded(a: int, n: int, m: int)
    requires
        0 <= a,
        0 <= n <= m,
        0 < m,
    ensures
        0 <= (a * n) / m <= a,
{
    assert(0 <= a * n <= a * m) by (nonlinear_arith)
        requires
            0 <= a,
            0 <= n <= m,
    ;
    vstd::arithmetic::div_mod::lemma_div_is_ordered(a * n, a * m, m);
    vstd::arithmetic::div_mod::lemma_div_pos_is_pos(a * n, m);
    vstd::arithmetic::div_mod::lemma_div_multiples_vanish(a, m);
    assert(a * m == m * a) by (nonlinear_arith);
}

/// Rounding toward zero loses less than one.
proof fn lemma_trunc_div_bounds(x: int, m: int)
    requires
        m > 0,
    ensures
        x >= 0 ==> m * trunc_div(x, m) <= x < m * trunc_div(x, m) + m,
        x < 0 ==> x <= m * trunc_div(x, m) < x + m,
{
    if x >= 0 {
        vstd::arithmetic::div_mod::lemma_fundamental_div_mod(x, m);
        vstd::arithmetic::div_mod::lemma_mod_bound(x, m);
    } else {
        vstd::arithmetic::div_mod::lemma_fundamental_div_mod(-x, m);
        vstd::arithmetic::div_mod::lemma_mod_bound(-x, m);
        assert(m * (-((-x) / m)) == -(m * ((-x) / m))) by (nonlinear_arith);
    }
}

/// A point part of the way from one point to another lies between the two.
pub proof fn lemma_partway_between(pos: int, next: int, n: int, m: int)
    requires
        0 <= n <= m,
        0 < m,
    ensures
        pos <= next ==> pos <= pos + trunc_div((next - pos) * n, m) <= next,
        pos > next ==> next <= pos + trunc_div((next - pos) * n, m) <= pos,
{
    let d = next - pos;
    if d >= 0 {
        lemma_fraction_bounded(d, n, m);
        assert(d * n >= 0) by (nonlinear_arith)
            requires
                d >= 0,
                n >= 0,
        ;
    } else {
        lemma_fraction_bounded(-d, n, m);
        assert(-(d * n) == (-d) * n) by (nonlinear_arith);
        assert((-d) * n >= 0) by (nonlinear_arith)
            requires
                d < 0,
                n >= 0,
        ;
        if d * n == 0 {
            assert(0int / m == 0) by (nonlinear_arith)
                requires
                    m > 0,
            ;
        }
    }
}

/// On one axis two boxes begin apart and end, on the same side of each
/// other, touching or one lattice step apart. The boxes have their centres
/// at `a0` and `b0` first and at `a1` and `b1` then; `h` is the sum of
/// their half-extents.
pub open spec fn stops_at_contact(a0: int, b0: int, a1: int, b1: int, h: int) -> bool {
    ||| (b0 - a0 > h && h <= b1 - a1 <= h + 1)
    ||| (a0 - b0 > h && h <= a1 - b1 <= h + 1)
}

/// On the axis that is the last to stop separating two boxes, the boxes,
/// each moved as far as the moment takes it at which that axis stops
/// separating them, end on the same side of each other, touching or one
/// lattice step apart.
pub proof fn lemma_axis_stops_at_contact(a: int, an: int, b: int, bn: int, h: int)
    requires
        axis_entry(b - a, (bn - b) - (an - a), h).is_some(),
        axis_entry(b - a, (bn - b) - (an - a), h).unwrap().0 > 0,
    ensures
        ({
            let e = axis_entry(b - a, (bn - b) - (an - a), h).unwrap();
            stops_at_contact(
                a,
                b,
                a + trunc_div((an - a) * e.0, e.1),
                b + trunc_div((bn - b) * e.0, e.1),
                h,
            )
        }),
{
    let p = b - a;
    let da = an - a;
    let db = bn - b;
    let d = db - da;
    let e = axis_entry(p, d, h).unwrap();
    let n = e.0;
    let m = e.1;
    let qa = trunc_div(da * n, m);
    let qb = trunc_div(db * n, m);
    lemma_trunc_div_bounds(da * n, m);
    lemma_trunc_div_bounds(db * n, m);
    assert(da >= 0 ==> da * n >= 0) by (nonlinear_arith)
        requires
            n > 0,
    ;
    assert(da < 0 ==> da * n < 0) by (nonlinear_arith)
        requires
            n > 0,
    ;
    assert(db >= 0 ==> db * n >= 0) by (nonlinear_arith)
        requires
            n > 0,
    ;
    assert(db < 0 ==> db * n < 0) by (nonlinear_arith)
        requires
            n > 0,
    ;
    if p > 0 {
        // the gap p - h closes at speed da - db
        assert(m * p + (db * n - da * n) == m * h) by (nonlinear_arith)
            requires
                m == da - db,
                n == p - h,
        ;
        let r = (p + qb - qa) - h;
        assert(m * r == (m * qb - db * n) - (m * qa - da * n)) by (nonlinear_arith)
            requires
                r == (p + qb - qa) - h,
                m * p + (db * n - da * n) == m * h,
        ;
        assert(0 <= r <= 1) by (nonlinear_arith)
            requires
                m > 0,
                -m < m * r < 2 * m,
        ;
    } else {
        assert(m * p + (db * n - da * n) == -(m * h)) by (nonlinear_arith)
            requires
                m == db - da,
                n == -p - h,
        ;
        let r = (-p + qa - qb) - h;
        assert(m * r == (m * qa - da * n) - (m * qb - db * n)) by (nonlinear_arith)
            requires
                r == (-p + qa - qb) - h,
                m * p + (db * n - da * n) == -(m * h),
        ;
        assert(0 <= r <= 1) by (nonlinear_arith)
            requires
                m > 0,
                -m < m * r < 2 * m,
        ;
    }
}

/// Two boxes that begin apart and run into each other during the step,
/// each moved as far as the time of impact takes it, end with neither
/// having passed through the other: on one axis they are on the side of
/// each other on which they began, touching or one lattice step apart.
pub proof fn lemma_clamped_pair_stops_at_contact(
    a_pos: Vector,
    a_next: Vector,
    a_half: Vector,
    b_pos: Vector,
    b_next: Vector,
    b_half: Vector,
)
    requires
        toi_of(sweep_of(a_pos, a_next, a_half, b_pos, b_next, b_half)).is_some(),
        toi_of(sweep_of(a_pos, a_next, a_half, b_pos, b_next, b_half)).unwrap().0 > 0,
    ensures
        ({
            let t = toi_of(sweep_of(a_pos, a_next, a_half, b_pos, b_next, b_half)).unwrap();
            let a_stop = partway(a_pos, a_next, t.0, t.1);
            let b_stop = partway(b_pos, b_next, t.0, t.1);
            ||| stops_at_contact(
                a_pos.x as int,
                b_pos.x as int,
                a_stop.x as int,
                b_stop.x as int,
                a_half.x + b_half.x,
            )
            ||| stops_at_contact(
                a_pos.y as int,
                b_pos.y as int,
                a_stop.y as int,
                b_stop.y as int,
                a_half.y + b_half.y,
            )
        }),
{
    let s = sweep_of(a_pos, a_next, a_half, b_pos, b_next, b_half);
    let t = toi_of(s).unwrap();
    lemma_toi_in_step(s);
    lemma_partway_between(a_pos.x as int, a_next.x as int, t.0, t.1);
    lemma_partway_between(a_pos.y as int, a_next.y as int, t.0, t.1);
    lemma_partway_between(b_pos.x as int, b_next.x as int, t.0, t.1);
    lemma_partway_between(b_pos.y as int, b_next.y as int, t.0, t.1);
    let ex = axis_entry(s.px, s.dx, s.hx).unwrap();
    let ey = axis_entry(s.py, s.dy, s.hy).unwrap();
    if later(ex, ey) == ex {
        lemma_axis_stops_at_contact(
            a_pos.x as int,
            a_next.x as int,
            b_pos.x as int,
            b_next.x as int,
            a_half.x + b_half.x,
        );
    } else {
        lemma_axis_stops_at_contact(
            a_pos.y as int,
            a_next.y as int,
            b_pos.y as int,
            b_next.y as int,
            a_half.y + b_half.y,
        );
    }
}

fn advance_axis(pos: i32, next: i32, t: &Toi) -> (r: i32)
    requires
        t.wf(),
    ensures
        r == pos + trunc_div((next - pos) * t.num, t.den as int),
{
    let n: i128 = t.num as i128;
    let m: i128 = t.den as i128;
    let d: i128 = next as i128 - pos as i128;
    if d >= 0 {
        assert(0 <= d * n <= 0x1_0000_0000 * 0x4_0000_0000) by (nonlinear_arith)
            requires
                0 <= d <= 0x1_0000_0000,
                0 <= n <= 0x4_0000_0000,
        ;
        proof {
            lemma_fraction_bounded(d as int, n as int, m as int);
        }
        let q: i128 = (d * n) / m;
        (pos as i128 + q) as i32
    } else {
        let a: i128 = -d;
        assert(0 <= a * n <= 0x1_0000_0000 * 0x4_0000_0000) by (nonlinear_arith)
            requires
                0 <= a <= 0x1_0000_0000,
                0 <= n <= 0x4_0000_0000,
        ;
        proof {
            lemma_fraction_bounded(a as int, n as int, m as int);
            assert(-(d * n) == a * n) by (nonlinear_arith)
                requires
                    a == -d,
            ;
            assert(d * n < 0 || d * n == 0) by (nonlinear_arith)
                requires
                    d < 0,
                    n >= 0,
            ;
            if d * n == 0 {
                assert(0int / (m as int) == 0) by (nonlinear_arith)
                    requires
                        m > 0,
                ;
            }
        }
        let q: i128 = (a * n) / m;
        (pos as i128 - q) as i32
    }
}

/// Moves from `pos` toward `next` up to the moment `t` of the step.
pub fn advance(pos: Vector, next: Vector, t: &Toi) -> (v: Vector)
    requires
        t.wf(),
    ensures
        v == partway(pos, next, t.num as int, t.den as int),
{
    Vector { x: advance_axis(pos.x, next.x, t), y: advance_axis(pos.y, next.y, t) }
}

} // verus!
