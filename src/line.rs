//! Line rasterization: Cohen–Sutherland segment clipping and Bresenham stepping
//! on integer pixel coordinates.

use vstd::prelude::*;
use vstd::arithmetic::div_mod::lemma_fundamental_div_mod_converse_div;
use crate::rgb_image::{RgbCanvas, holds_pixels, rgb_image_dimensions, rgb_image_pixels, with_map_pixels};

verus! {

/// Largest magnitude accepted for a pixel coordinate; it keeps every
/// intermediate product of the clipper and the stepper inside machine integers.
pub const COORD_LIMIT: i64 = 0x100_0000_0000;

/// A pixel coordinate whose magnitude is within `COORD_LIMIT`.
pub open spec fn coord_ok(v: int) -> bool {
    -COORD_LIMIT <= v <= COORD_LIMIT
}

pub open spec fn point_ok(p: (i64, i64)) -> bool {
    coord_ok(p.0 as int) && coord_ok(p.1 as int)
}

pub open spec fn abs(v: int) -> int {
    if v < 0 { -v } else { v }
}

/// The nearest integer to `k * m / n`, halves rounded up (0 when `n` is 0).
pub open spec fn round_ratio(k: int, m: int, n: int) -> int {
    if n == 0 { 0 } else { (2 * k * m + n) / (2 * n) }
}

/// `base` moved by `off`, downwards when `down` holds.
pub open spec fn offset_by(base: int, off: int, down: bool) -> int {
    if down { base - off } else { base + off }
}

/// The endpoint a line is stepped from: the one with the smaller x, or with the
/// smaller y when both share an x.
pub open spec fn line_start(a: (i64, i64), b: (i64, i64)) -> (i64, i64) {
    if a.0 < b.0 || (a.0 == b.0 && a.1 <= b.1) { a } else { b }
}

pub open spec fn line_end(a: (i64, i64), b: (i64, i64)) -> (i64, i64) {
    if a.0 < b.0 || (a.0 == b.0 && a.1 <= b.1) { b } else { a }
}

/// Number of unit steps along the axis of greater extent.
pub open spec fn major_len(a: (i64, i64), b: (i64, i64)) -> int {
    let dx = abs(b.0 - a.0);
    let dy = abs(b.1 - a.1);
    if dy <= dx { dx } else { dy }
}

/// The `k`-th pixel that the line from `a` to `b` plots: one pixel per unit step
/// along the major axis, the minor coordinate being the line's own value there
/// rounded to the nearest integer (halves away from the start point).
pub open spec fn line_point(a: (i64, i64), b: (i64, i64), k: int) -> (int, int) {
    let s = line_start(a, b);
    let e = line_end(a, b);
    let dx = e.0 - s.0;
    let dy = abs(e.1 - s.1);
    let down = e.1 < s.1;
    if dy <= dx {
        (s.0 + k, offset_by(s.1 as int, round_ratio(k, dy, dx), down))
    } else {
        (s.0 + round_ratio(k, dx, dy), offset_by(s.1 as int, k, down))
    }
}

/// Every pixel that the line from `a` to `b` plots, in stepping order.
pub open spec fn line_seq(a: (i64, i64), b: (i64, i64)) -> Seq<(int, int)> {
    Seq::new((major_len(a, b) + 1) as nat, |k: int| line_point(a, b, k))
}

/// The set of pixels that the line from `a` to `b` plots.
pub open spec fn line_set(a: (i64, i64), b: (i64, i64)) -> Set<(int, int)> {
    line_seq(a, b).to_set()
}

/// `q` is the floor of `a / b` when `b * q <= a < b * (q + 1)`.
proof fn lemma_div_by_bounds(a: int, b: int, q: int)
    requires
        0 < b,
        b * q <= a < b * (q + 1),
    ensures
        a / b == q,
{
    let r = a - b * q;
    assert(a == q * b + r) by (nonlinear_arith)
        requires r == a - b * q;
    assert(r < b) by (nonlinear_arith)
        requires r == a - b * q, a < b * (q + 1);
    lemma_fundamental_div_mod_converse_div(a, b, q, r);
}

/// The floor `q` of `a / b` satisfies `b * q <= a < b * (q + 1)`.
proof fn lemma_div_bounds(a: int, b: int)
    requires
        0 < b,
    ensures
        b * (a / b) <= a < b * (a / b + 1),
{
    vstd::arithmetic::div_mod::lemma_fundamental_div_mod(a, b);
    vstd::arithmetic::div_mod::lemma_mod_bound(a, b);
    let q = a / b;
    assert(b * (q + 1) == b * q + b) by (nonlinear_arith);
}

/// One step of the midpoint decision: the rounded ratio either stays or grows
/// by one, as the sign of the decision variable says, and the decision variable
/// follows.
proof fn lemma_round_step(k: int, m: int, n: int, q: int, d: int)
    requires
        0 <= m <= n,
        0 < n,
        0 <= k,
        q == round_ratio(k, m, n),
        d == 2 * m * (k + 1) - n - 2 * n * q,
    ensures
        d < 0 ==> round_ratio(k + 1, m, n) == q,
        d < 0 ==> d + 2 * m == 2 * m * (k + 2) - n - 2 * n * q,
        d >= 0 ==> round_ratio(k + 1, m, n) == q + 1,
        d >= 0 ==> d + 2 * (m - n) == 2 * m * (k + 2) - n - 2 * n * (q + 1),
        -2 * n <= d < 2 * m,
{
    let a = 2 * k * m + n;
    let b = 2 * n;
    lemma_div_bounds(a, b);
    assert(q == a / b);
    let a2 = 2 * (k + 1) * m + n;
    assert(a2 == a + 2 * m) by (nonlinear_arith)
        requires a == 2 * k * m + n, a2 == 2 * (k + 1) * m + n;
    assert(d == a2 - b * (q + 1)) by (nonlinear_arith)
        requires d == 2 * m * (k + 1) - n - 2 * n * q, a2 == 2 * (k + 1) * m + n, b == 2 * n;
    assert(d + 2 * m == 2 * m * (k + 2) - n - 2 * n * q) by (nonlinear_arith)
        requires d == 2 * m * (k + 1) - n - 2 * n * q;
    assert(d + 2 * (m - n) == 2 * m * (k + 2) - n - 2 * n * (q + 1)) by (nonlinear_arith)
        requires d == 2 * m * (k + 1) - n - 2 * n * q;
    if d < 0 {
        lemma_div_by_bounds(a2, b, q);
    } else {
        assert(a2 < b * (q + 2)) by (nonlinear_arith)
            requires a < b * (q + 1), a2 == a + 2 * m, m <= n, b == 2 * n;
        lemma_div_by_bounds(a2, b, q + 1);
    }
    assert(-2 * n <= d) by (nonlinear_arith)
        requires d == a2 - b * (q + 1), b * q <= a, a2 == a + 2 * m, b == 2 * n, m >= 0;
}

/// The pixels of the line from `p0` to `p1`, in stepping order (Bresenham).
///
/// The endpoints are ordered so that x never decreases; a slope steeper than 1
/// swaps the roles of x and y, and a falling slope is reflected, so that the
/// midpoint decision variable always steps along the axis of greater extent.
pub fn line_pixels(p0: (i64, i64), p1: (i64, i64)) -> (r: Vec<(i64, i64)>)
    requires
        point_ok(p0),
        point_ok(p1),
    ensures
        r@.len() == line_seq(p0, p1).len(),
        forall|i: int| 0 <= i < r@.len() ==> (r@[i].0 as int, r@[i].1 as int) == line_seq(p0, p1)[i],
{
    let (s, e) = if p0.0 < p1.0 || (p0.0 == p1.0 && p0.1 <= p1.1) { (p0, p1) } else { (p1, p0) };
    let dx: i64 = e.0 - s.0;
    let descending: bool = e.1 < s.1;
    let dy: i64 = if descending { s.1 - e.1 } else { e.1 - s.1 };
    let steep: bool = dy > dx;
    let (n, m): (i64, i64) = if steep { (dy, dx) } else { (dx, dy) };
    let incr_n: i64 = 2 * m;
    let incr_ne: i64 = 2 * (m - n);
    let mut d: i64 = 2 * m - n;
    let mut minor: i64 = 0;
    let mut k: i64 = 0;
    let mut out: Vec<(i64, i64)> = Vec::new();
    assert(n == major_len(p0, p1));
    proof {
        if n > 0 {
            lemma_div_by_bounds(n as int, 2 * n, 0);
        }
        assert(2 * m * (0 + 1) - n - 2 * n * 0 == 2 * m - n) by (nonlinear_arith);
        assert(2 * 0 * m + n == n) by (nonlinear_arith);
        assert(round_ratio(0, m as int, n as int) == 0);
    }
    while k <= n
        invariant
            0 <= m <= n,
            n == major_len(p0, p1),
            n <= 2 * COORD_LIMIT,
            s == line_start(p0, p1),
            e == line_end(p0, p1),
            point_ok(s),
            point_ok(e),
            dx == e.0 - s.0,
            dy == abs(e.1 - s.1),
            descending == (e.1 < s.1),
            steep == (dy > dx),
            n == (if steep { dy } else { dx }),
            m == (if steep { dx } else { dy }),
            incr_n == 2 * m,
            incr_ne == 2 * (m - n),
            0 <= k <= n + 1,
            k <= n ==> minor == round_ratio(k as int, m as int, n as int),
            k <= n ==> d == 2 * m * (k + 1) - n - 2 * n * minor,
            0 <= minor <= k,
            out@.len() == k,
            forall|i: int|
                0 <= i < k ==> (#[trigger] out@[i].0 as int, out@[i].1 as int) == line_point(p0, p1, i),
        decreases n + 1 - k,
    {
        proof {
            if n > 0 {
                lemma_round_step(k as int, m as int, n as int, minor as int, d as int);
            }
        }
        let step: i64 = if descending { -minor } else { minor };
        let p: (i64, i64) = if steep {
            (s.0 + minor, if descending { s.1 - k } else { s.1 + k })
        } else {
            (s.0 + k, s.1 + step)
        };
        assert((p.0 as int, p.1 as int) == line_point(p0, p1, k as int));
        out.push(p);
        if k < n {
            if d < 0 {
                d = d + incr_n;
            } else {
                minor = minor + 1;
                d = d + incr_ne;
            }
        }
        k = k + 1;
    }
    out
}

/// Which sides of a rectangle a point lies beyond: the four bits of the
/// Cohen–Sutherland outcode.
#[derive(Clone, Copy)]
pub struct OutCode {
    pub left: bool,
    pub right: bool,
    pub bottom: bool,
    pub top: bool,
}

impl OutCode {
    pub open spec fn is_inside(self) -> bool {
        !self.left && !self.right && !self.bottom && !self.top
    }

    /// Both codes lie beyond one common side.
    pub open spec fn shares_side(self, o: OutCode) -> bool {
        (self.left && o.left) || (self.right && o.right) || (self.bottom && o.bottom) || (
        self.top && o.top)
    }

    /// The code read as a 4-bit number: left 1, right 2, bottom 4, top 8.
    pub open spec fn rank(self) -> int {
        (if self.left { 1int } else { 0 }) + (if self.right { 2int } else { 0 }) + (if self.bottom {
            4int
        } else {
            0
        }) + (if self.top { 8int } else { 0 })
    }

    fn rank_exec(&self) -> (r: u8)
        ensures
            r == self.rank(),
    {
        (if self.left { 1u8 } else { 0 }) + (if self.right { 2u8 } else { 0 }) + (if self.bottom {
            4u8
        } else {
            0
        }) + (if self.top { 8u8 } else { 0 })
    }
}

/// A rectangle with `lo <= hi` on both axes and corners within `COORD_LIMIT`.
pub open spec fn rect_ok(lo: (i64, i64), hi: (i64, i64)) -> bool {
    point_ok(lo) && point_ok(hi) && lo.0 <= hi.0 && lo.1 <= hi.1
}

pub open spec fn point_inside(p: (i64, i64), lo: (i64, i64), hi: (i64, i64)) -> bool {
    lo.0 <= p.0 <= hi.0 && lo.1 <= p.1 <= hi.1
}

/// A parameter `t = t.0 / t.1` in `[0, 1]` along a segment, as a fraction with
/// a positive denominator.
pub open spec fn param_ok(t: (int, int)) -> bool {
    0 < t.1 && 0 <= t.0 <= t.1
}

/// `s <= t` for two fractions with positive denominators.
pub open spec fn param_le(s: (int, int), t: (int, int)) -> bool {
    s.0 * t.1 <= t.0 * s.1
}

/// `t.1` times the coordinate, on one axis, of the point at parameter `t` of
/// the segment whose endpoints have coordinates `a0` and `a1` there.
pub open spec fn scaled(a0: int, a1: int, t: (int, int)) -> int {
    t.1 * a0 + t.0 * (a1 - a0)
}

/// The linear form `t.1 * k + t.0 * d` of a parameter `t`. Each side of the
/// rectangle gives one, positive exactly at the points beyond that side.
pub open spec fn lin(kd: (int, int), t: (int, int)) -> int {
    t.1 * kd.0 + t.0 * kd.1
}

/// The form of the left side, `x < lo.0`.
pub open spec fn left_form(p0: (i64, i64), p1: (i64, i64), lo: (i64, i64)) -> (int, int) {
    (lo.0 - p0.0, p0.0 - p1.0)
}

/// The form of the right side, `x > hi.0`.
pub open spec fn right_form(p0: (i64, i64), p1: (i64, i64), hi: (i64, i64)) -> (int, int) {
    (p0.0 - hi.0, p1.0 - p0.0)
}

/// The form of the bottom side, `y < lo.1`.
pub open spec fn bottom_form(p0: (i64, i64), p1: (i64, i64), lo: (i64, i64)) -> (int, int) {
    (lo.1 - p0.1, p0.1 - p1.1)
}

/// The form of the top side, `y > hi.1`.
pub open spec fn top_form(p0: (i64, i64), p1: (i64, i64), hi: (i64, i64)) -> (int, int) {
    (p0.1 - hi.1, p1.1 - p0.1)
}

/// The outcode of the exact point at parameter `t` of the segment `p0 p1`.
pub open spec fn code_at(p0: (i64, i64), p1: (i64, i64), lo: (i64, i64), hi: (i64, i64), t: (int, int)) -> OutCode {
    OutCode {
        left: lin(left_form(p0, p1, lo), t) > 0,
        right: lin(right_form(p0, p1, hi), t) > 0,
        bottom: lin(bottom_form(p0, p1, lo), t) > 0,
        top: lin(top_form(p0, p1, hi), t) > 0,
    }
}

/// The point at parameter `t` of the segment `p0 p1` lies in the closed
/// rectangle.
pub open spec fn inside_at(p0: (i64, i64), p1: (i64, i64), lo: (i64, i64), hi: (i64, i64), t: (int, int)) -> bool {
    code_at(p0, p1, lo, hi, t).is_inside()
}

/// Some point of the segment `p0 p1` lies in the closed rectangle.
pub open spec fn segment_meets_rect(p0: (i64, i64), p1: (i64, i64), lo: (i64, i64), hi: (i64, i64)) -> bool {
    exists|t: (int, int)| param_ok(t) && #[trigger] inside_at(p0, p1, lo, hi, t)
}

/// Where a form is zero: the parameter at which the segment crosses the side.
pub open spec fn root(kd: (int, int)) -> (int, int) {
    if kd.1 < 0 { (kd.0, -kd.1) } else { (-kd.0, kd.1) }
}

/// The form of the side that `c` names first, in the order top, bottom, right,
/// left.
pub open spec fn edge_form(p0: (i64, i64), p1: (i64, i64), lo: (i64, i64), hi: (i64, i64), c: OutCode) -> (int, int) {
    if c.top {
        top_form(p0, p1, hi)
    } else if c.bottom {
        bottom_form(p0, p1, lo)
    } else if c.right {
        right_form(p0, p1, hi)
    } else {
        left_form(p0, p1, lo)
    }
}

/// Cohen–Sutherland clipping of the segment `p0 p1`, from the sub-segment
/// between parameters `a` and `b`, with at most `fuel` endpoint replacements:
/// reject when both outcodes share a side, accept when both are zero, else
/// move the endpoint with the larger outcode to where the segment crosses the
/// side that its code names, and look again. All of it is exact.
pub open spec fn clip_params(
    p0: (i64, i64),
    p1: (i64, i64),
    lo: (i64, i64),
    hi: (i64, i64),
    a: (int, int),
    b: (int, int),
    fuel: nat,
) -> Option<((int, int), (int, int))>
    decreases fuel,
{
    let ca = code_at(p0, p1, lo, hi, a);
    let cb = code_at(p0, p1, lo, hi, b);
    if ca.shares_side(cb) {
        None
    } else if ca.is_inside() && cb.is_inside() {
        Some((a, b))
    } else if fuel == 0 {
        None
    } else if ca.rank() > cb.rank() {
        clip_params(p0, p1, lo, hi, root(edge_form(p0, p1, lo, hi, ca)), b, (fuel - 1) as nat)
    } else {
        clip_params(p0, p1, lo, hi, a, root(edge_form(p0, p1, lo, hi, cb)), (fuel - 1) as nat)
    }
}

/// The pixel holding the point at parameter `t`: the floor of each coordinate.
pub open spec fn pixel_at_param(p0: (i64, i64), p1: (i64, i64), t: (int, int)) -> (i64, i64) {
    ((scaled(p0.0 as int, p1.0 as int, t) / t.1) as i64, (scaled(p0.1 as int, p1.1 as int, t) / t.1) as i64)
}

/// The clipped segment, as the pixels holding its two exact endpoints, or
/// `None` when Cohen–Sutherland rejects it. Four replacements always suffice:
/// each one clips against a side not used before.
pub open spec fn clip_segment(p0: (i64, i64), p1: (i64, i64), lo: (i64, i64), hi: (i64, i64)) -> Option<
    ((i64, i64), (i64, i64)),
> {
    match clip_params(p0, p1, lo, hi, (0, 1), (1, 1), 4) {
        Some(ab) => Some((pixel_at_param(p0, p1, ab.0), pixel_at_param(p0, p1, ab.1))),
        None => None,
    }
}

/// How a form changes between two parameters: by its slope times their
/// (scaled) difference.
proof fn lemma_lin_identity(kd: (int, int), s: (int, int), t: (int, int))
    ensures
        lin(kd, t) * s.1 - lin(kd, s) * t.1 == kd.1 * (t.0 * s.1 - s.0 * t.1),
{
    assert(lin(kd, t) * s.1 - lin(kd, s) * t.1 == kd.1 * (t.0 * s.1 - s.0 * t.1)) by (nonlinear_arith)
        requires lin(kd, t) == t.1 * kd.0 + t.0 * kd.1, lin(kd, s) == s.1 * kd.0 + s.0 * kd.1;
}

/// A form that is positive (or not positive) at both ends of a sub-segment is
/// so all along it.
proof fn lemma_lin_between(kd: (int, int), a: (int, int), b: (int, int), t: (int, int))
    requires
        a.1 > 0,
        b.1 > 0,
        t.1 > 0,
        param_le(a, t),
        param_le(t, b),
    ensures
        lin(kd, a) > 0 && lin(kd, b) > 0 ==> lin(kd, t) > 0,
        lin(kd, a) <= 0 && lin(kd, b) <= 0 ==> lin(kd, t) <= 0,
{
    lemma_lin_identity(kd, a, t);
    lemma_lin_identity(kd, b, t);
    let la = lin(kd, a);
    let lb = lin(kd, b);
    let lt = lin(kd, t);
    let dd = kd.1;
    if dd >= 0 {
        assert(lt * a.1 >= la * t.1) by (nonlinear_arith)
            requires lt * a.1 - la * t.1 == dd * (t.0 * a.1 - a.0 * t.1), dd >= 0, a.0 * t.1 <= t.0 * a.1;
        assert(lt * b.1 <= lb * t.1) by (nonlinear_arith)
            requires lt * b.1 - lb * t.1 == dd * (t.0 * b.1 - b.0 * t.1), dd >= 0, t.0 * b.1 <= b.0 * t.1;
    } else {
        assert(lt * a.1 <= la * t.1) by (nonlinear_arith)
            requires lt * a.1 - la * t.1 == dd * (t.0 * a.1 - a.0 * t.1), dd < 0, a.0 * t.1 <= t.0 * a.1;
        assert(lt * b.1 >= lb * t.1) by (nonlinear_arith)
            requires lt * b.1 - lb * t.1 == dd * (t.0 * b.1 - b.0 * t.1), dd < 0, t.0 * b.1 <= b.0 * t.1;
    }
    assert(la > 0 && lb > 0 ==> lt > 0) by (nonlinear_arith)
        requires
            a.1 > 0, b.1 > 0, t.1 > 0,
            lt * a.1 >= la * t.1 || lt * b.1 >= lb * t.1;
    assert(la <= 0 && lb <= 0 ==> lt <= 0) by (nonlinear_arith)
        requires
            a.1 > 0, b.1 > 0, t.1 > 0,
            lt * a.1 <= la * t.1 || lt * b.1 <= lb * t.1;
}

/// Cutting a sub-segment `[a, b]` whose one end lies beyond a side and whose
/// other end does not: the crossing lies between them, the form is zero there,
/// and the parameters not beyond the side are exactly those on the kept side of
/// the crossing.
proof fn lemma_cut(kd: (int, int), a: (int, int), b: (int, int))
    requires
        param_ok(a),
        param_ok(b),
        param_le(a, b),
        (lin(kd, a) > 0 && lin(kd, b) <= 0) || (lin(kd, b) > 0 && lin(kd, a) <= 0),
    ensures
        kd.1 != 0,
        param_ok(root(kd)),
        param_le(a, root(kd)),
        param_le(root(kd), b),
        lin(kd, root(kd)) == 0,
        lin(kd, a) > 0 ==> forall|t: (int, int)| t.1 > 0 ==> (#[trigger] lin(kd, t) <= 0 <==> param_le(root(kd), t)),
        lin(kd, b) > 0 ==> forall|t: (int, int)| t.1 > 0 ==> (#[trigger] lin(kd, t) <= 0 <==> param_le(t, root(kd))),
{
    let c = root(kd);
    let k = kd.0;
    let d = kd.1;
    assert forall|t: (int, int)| #[trigger] lin(kd, t) == t.1 * k + t.0 * d by {}
    if d == 0 {
        assert(false) by (nonlinear_arith)
            requires
                a.1 > 0, b.1 > 0, d == 0,
                lin(kd, a) == a.1 * k + a.0 * d, lin(kd, b) == b.1 * k + b.0 * d,
                (lin(kd, a) > 0 && lin(kd, b) <= 0) || (lin(kd, b) > 0 && lin(kd, a) <= 0),
;
    }
    if d < 0 {
        assert forall|t: (int, int)| #[trigger] lin(kd, t) == t.1 * c.0 - t.0 * c.1 by {
            assert(t.1 * k + t.0 * d == t.1 * k - t.0 * (-d)) by (nonlinear_arith);
        }
    } else {
        assert forall|t: (int, int)| #[trigger] lin(kd, t) == t.0 * c.1 - t.1 * c.0 by {
            assert(t.1 * k + t.0 * d == t.0 * d - t.1 * (-k)) by (nonlinear_arith);
        }
    }
    assert(lin(kd, c) == 0) by (nonlinear_arith)
        requires
            lin(kd, c) == c.1 * k + c.0 * d,
            c == (if d < 0 { (k, -d) } else { (-k, d) });
    // the form falls from a to b when a is beyond, rises when b is
    lemma_lin_identity(kd, a, b);
    if lin(kd, a) > 0 {
        assert(d < 0) by (nonlinear_arith)
            requires
                lin(kd, b) * a.1 - lin(kd, a) * b.1 == d * (b.0 * a.1 - a.0 * b.1),
                lin(kd, a) > 0, lin(kd, b) <= 0, a.1 > 0, b.1 > 0, a.0 * b.1 <= b.0 * a.1;
        assert(a.0 * c.1 < c.0 * a.1);
        assert(c.0 * b.1 <= b.0 * c.1);
        assert(param_ok(c)) by (nonlinear_arith)
            requires
                a.0 * c.1 < c.0 * a.1, c.0 * b.1 <= b.0 * c.1, c.1 > 0,
                0 <= a.0, 0 < a.1, 0 <= b.0 <= b.1, 0 < b.1;
    } else {
        assert(d > 0) by (nonlinear_arith)
            requires
                lin(kd, b) * a.1 - lin(kd, a) * b.1 == d * (b.0 * a.1 - a.0 * b.1),
                lin(kd, b) > 0, lin(kd, a) <= 0, a.1 > 0, b.1 > 0, a.0 * b.1 <= b.0 * a.1, d != 0;
        assert(c.0 * b.1 < b.0 * c.1);
        assert(a.0 * c.1 <= c.0 * a.1);
        assert(param_ok(c)) by (nonlinear_arith)
            requires
                c.0 * b.1 < b.0 * c.1, a.0 * c.1 <= c.0 * a.1, c.1 > 0,
                0 <= a.0, 0 < a.1, 0 <= b.0 <= b.1, 0 < b.1;
    }
}

/// The sides a sub-segment has already been cut against: neither end lies
/// beyond any of them.
pub open spec fn sides_cleared(p0: (i64, i64), p1: (i64, i64), lo: (i64, i64), hi: (i64, i64), a: (int, int), b: (int, int), done: OutCode) -> bool {
    let ca = code_at(p0, p1, lo, hi, a);
    let cb = code_at(p0, p1, lo, hi, b);
    &&& (done.left ==> !ca.left && !cb.left)
    &&& (done.right ==> !ca.right && !cb.right)
    &&& (done.bottom ==> !ca.bottom && !cb.bottom)
    &&& (done.top ==> !ca.top && !cb.top)
}

pub open spec fn side_count(c: OutCode) -> int {
    (if c.left { 1int } else { 0 }) + (if c.right { 1int } else { 0 }) + (if c.bottom { 1int } else { 0 }) + (if c.top { 1int } else { 0 })
}

/// What Cohen–Sutherland keeps while it runs: `a <= b` in `[0, 1]`, and every
/// point of the segment in the rectangle lies between them.
pub open spec fn clip_state(p0: (i64, i64), p1: (i64, i64), lo: (i64, i64), hi: (i64, i64), a: (int, int), b: (int, int)) -> bool {
    &&& param_ok(a)
    &&& param_ok(b)
    &&& param_le(a, b)
    &&& forall|t: (int, int)| param_ok(t) && #[trigger] inside_at(p0, p1, lo, hi, t) ==> param_le(a, t) && param_le(t, b)
}

/// The side that outcode `c` names first.
pub open spec fn first_side(c: OutCode) -> OutCode {
    if c.top {
        OutCode { left: false, right: false, bottom: false, top: true }
    } else if c.bottom {
        OutCode { left: false, right: false, bottom: true, top: false }
    } else if c.right {
        OutCode { left: false, right: true, bottom: false, top: false }
    } else {
        OutCode { left: true, right: false, bottom: false, top: false }
    }
}

pub open spec fn with_side(done: OutCode, s: OutCode) -> OutCode {
    OutCode { left: done.left || s.left, right: done.right || s.right, bottom: done.bottom || s.bottom, top: done.top || s.top }
}

/// One replacement keeps the clipping state, and cuts against a side not
/// used before.
proof fn lemma_clip_step(p0: (i64, i64), p1: (i64, i64), lo: (i64, i64), hi: (i64, i64), a: (int, int), b: (int, int), done: OutCode)
    requires
        rect_ok(lo, hi),
        clip_state(p0, p1, lo, hi, a, b),
        sides_cleared(p0, p1, lo, hi, a, b, done),
        !code_at(p0, p1, lo, hi, a).shares_side(code_at(p0, p1, lo, hi, b)),
        !(code_at(p0, p1, lo, hi, a).is_inside() && code_at(p0, p1, lo, hi, b).is_inside()),
    ensures
        ({
            let ca = code_at(p0, p1, lo, hi, a);
            let cb = code_at(p0, p1, lo, hi, b);
            let c = if ca.rank() > cb.rank() { ca } else { cb };
            let s = first_side(c);
            let e = root(edge_form(p0, p1, lo, hi, c));
            let (na, nb) = if ca.rank() > cb.rank() { (e, b) } else { (a, e) };
            &&& clip_state(p0, p1, lo, hi, na, nb)
            &&& sides_cleared(p0, p1, lo, hi, na, nb, with_side(done, s))
            &&& side_count(with_side(done, s)) == side_count(done) + 1
        }),
{
    let ca = code_at(p0, p1, lo, hi, a);
    let cb = code_at(p0, p1, lo, hi, b);
    let pick_a = ca.rank() > cb.rank();
    let c = if pick_a { ca } else { cb };
    let kd = edge_form(p0, p1, lo, hi, c);
    let e = root(kd);
    lemma_cut(kd, a, b);
    let (na, nb) = if pick_a { (e, b) } else { (a, e) };
    assert forall|t: (int, int)| param_ok(t) && #[trigger] inside_at(p0, p1, lo, hi, t) implies param_le(na, t) && param_le(t, nb) by {
        assert(lin(kd, t) <= 0);
    }
    let forms = seq![left_form(p0, p1, lo), right_form(p0, p1, hi), bottom_form(p0, p1, lo), top_form(p0, p1, hi)];
    assert forall|i: int| 0 <= i < 4 implies (lin(#[trigger] forms[i], a) <= 0 && lin(forms[i], b) <= 0 ==> lin(forms[i], e) <= 0) by {
        lemma_lin_between(forms[i], a, b, e);
    }
    assert(forms[0] == left_form(p0, p1, lo));
    assert(forms[1] == right_form(p0, p1, hi));
    assert(forms[2] == bottom_form(p0, p1, lo));
    assert(forms[3] == top_form(p0, p1, hi));
    // the crossing lies on its side, hence not beyond the opposite one
    let ce = code_at(p0, p1, lo, hi, e);
    assert(e.1 > 0);
    if c.top {
        assert(lin(bottom_form(p0, p1, lo), e) <= 0) by (nonlinear_arith)
            requires
                lin(top_form(p0, p1, hi), e) == 0,
                lin(top_form(p0, p1, hi), e) == e.1 * (p0.1 - hi.1) + e.0 * (p1.1 - p0.1),
                lin(bottom_form(p0, p1, lo), e) == e.1 * (lo.1 - p0.1) + e.0 * (p0.1 - p1.1),
                lo.1 <= hi.1, e.1 > 0;
    } else if c.bottom {
        assert(lin(top_form(p0, p1, hi), e) <= 0) by (nonlinear_arith)
            requires
                lin(bottom_form(p0, p1, lo), e) == 0,
                lin(top_form(p0, p1, hi), e) == e.1 * (p0.1 - hi.1) + e.0 * (p1.1 - p0.1),
                lin(bottom_form(p0, p1, lo), e) == e.1 * (lo.1 - p0.1) + e.0 * (p0.1 - p1.1),
                lo.1 <= hi.1, e.1 > 0;
    } else if c.right {
        assert(lin(left_form(p0, p1, lo), e) <= 0) by (nonlinear_arith)
            requires
                lin(right_form(p0, p1, hi), e) == 0,
                lin(right_form(p0, p1, hi), e) == e.1 * (p0.0 - hi.0) + e.0 * (p1.0 - p0.0),
                lin(left_form(p0, p1, lo), e) == e.1 * (lo.0 - p0.0) + e.0 * (p0.0 - p1.0),
                lo.0 <= hi.0, e.1 > 0;
    } else {
        assert(lin(right_form(p0, p1, hi), e) <= 0) by (nonlinear_arith)
            requires
                lin(left_form(p0, p1, lo), e) == 0,
                lin(right_form(p0, p1, hi), e) == e.1 * (p0.0 - hi.0) + e.0 * (p1.0 - p0.0),
                lin(left_form(p0, p1, lo), e) == e.1 * (lo.0 - p0.0) + e.0 * (p0.0 - p1.0),
                lo.0 <= hi.0, e.1 > 0;
    }
}

/// What exact Cohen–Sutherland returns from a clipping state: `None` exactly
/// when no point of the segment lies in the rectangle; otherwise the two
/// parameters that bound the points of the segment in the rectangle, an end
/// that was already inside being kept.
proof fn lemma_clip_params(p0: (i64, i64), p1: (i64, i64), lo: (i64, i64), hi: (i64, i64), a: (int, int), b: (int, int), fuel: nat, done: OutCode)
    requires
        rect_ok(lo, hi),
        clip_state(p0, p1, lo, hi, a, b),
        sides_cleared(p0, p1, lo, hi, a, b, done),
        fuel >= 4 - side_count(done),
    ensures
        clip_params(p0, p1, lo, hi, a, b, fuel) is None <==> !segment_meets_rect(p0, p1, lo, hi),
        clip_params(p0, p1, lo, hi, a, b, fuel) matches Some(r) ==> {
            &&& param_ok(r.0)
            &&& param_ok(r.1)
            &&& inside_at(p0, p1, lo, hi, r.0)
            &&& inside_at(p0, p1, lo, hi, r.1)
            &&& (inside_at(p0, p1, lo, hi, a) ==> r.0 == a)
            &&& (inside_at(p0, p1, lo, hi, b) ==> r.1 == b)
            &&& forall|t: (int, int)| param_ok(t) ==> (#[trigger] inside_at(p0, p1, lo, hi, t) <==> (param_le(r.0, t) && param_le(t, r.1)))
        },
    decreases fuel,
{
    let ca = code_at(p0, p1, lo, hi, a);
    let cb = code_at(p0, p1, lo, hi, b);
    let forms = seq![left_form(p0, p1, lo), right_form(p0, p1, hi), bottom_form(p0, p1, lo), top_form(p0, p1, hi)];
    assert(forms[0] == left_form(p0, p1, lo));
    assert(forms[1] == right_form(p0, p1, hi));
    assert(forms[2] == bottom_form(p0, p1, lo));
    assert(forms[3] == top_form(p0, p1, hi));
    if ca.shares_side(cb) {
        assert forall|t: (int, int)| param_ok(t) implies !#[trigger] inside_at(p0, p1, lo, hi, t) by {
            if inside_at(p0, p1, lo, hi, t) {
                assert forall|i: int| 0 <= i < 4 implies (lin(#[trigger] forms[i], a) > 0 && lin(forms[i], b) > 0 ==> lin(forms[i], t) > 0) by {
                    lemma_lin_between(forms[i], a, b, t);
                }
            }
        }
    } else if ca.is_inside() && cb.is_inside() {
        assert forall|t: (int, int)| param_ok(t) implies (#[trigger] inside_at(p0, p1, lo, hi, t) <==> (param_le(a, t) && param_le(t, b))) by {
            if param_le(a, t) && param_le(t, b) {
                assert forall|i: int| 0 <= i < 4 implies (lin(#[trigger] forms[i], a) <= 0 && lin(forms[i], b) <= 0 ==> lin(forms[i], t) <= 0) by {
                    lemma_lin_between(forms[i], a, b, t);
                }
            }
        }
        assert(inside_at(p0, p1, lo, hi, a));
    } else if fuel == 0 {
        assert(false);
    } else {
        lemma_clip_step(p0, p1, lo, hi, a, b, done);
        let c = if ca.rank() > cb.rank() { ca } else { cb };
        let e = root(edge_form(p0, p1, lo, hi, c));
        if ca.rank() > cb.rank() {
            lemma_clip_params(p0, p1, lo, hi, e, b, (fuel - 1) as nat, with_side(done, first_side(c)));
        } else {
            lemma_clip_params(p0, p1, lo, hi, a, e, (fuel - 1) as nat, with_side(done, first_side(c)));
        }
    }
}

/// A form at the start and at the end of the segment.
proof fn lemma_lin_ends(kd: (int, int))
    ensures
        lin(kd, (0int, 1int)) == kd.0,
        lin(kd, (1int, 1int)) == kd.0 + kd.1,
{
    assert(lin(kd, (0int, 1int)) == kd.0) by (nonlinear_arith)
        requires lin(kd, (0int, 1int)) == 1 * kd.0 + 0 * kd.1;
    assert(lin(kd, (1int, 1int)) == kd.0 + kd.1) by (nonlinear_arith)
        requires lin(kd, (1int, 1int)) == 1 * kd.0 + 1 * kd.1;
}

/// The pixel holding a point of the rectangle lies in the rectangle; the
/// pixel at either end of the segment is that endpoint.
proof fn lemma_pixel_at_param(p0: (i64, i64), p1: (i64, i64), lo: (i64, i64), hi: (i64, i64), t: (int, int))
    requires
        rect_ok(lo, hi),
        point_ok(p0),
        point_ok(p1),
        param_ok(t),
    ensures
        inside_at(p0, p1, lo, hi, t) ==> point_inside(pixel_at_param(p0, p1, t), lo, hi),
        inside_at(p0, p1, lo, hi, t) ==> lo.0 <= scaled(p0.0 as int, p1.0 as int, t) / t.1 <= hi.0,
        inside_at(p0, p1, lo, hi, t) ==> lo.1 <= scaled(p0.1 as int, p1.1 as int, t) / t.1 <= hi.1,
        t == (0int, 1int) ==> pixel_at_param(p0, p1, t) == p0 && (inside_at(p0, p1, lo, hi, t) <==> point_inside(p0, lo, hi)),
        t == (1int, 1int) ==> pixel_at_param(p0, p1, t) == p1 && (inside_at(p0, p1, lo, hi, t) <==> point_inside(p1, lo, hi)),
{
    let sx = scaled(p0.0 as int, p1.0 as int, t);
    let sy = scaled(p0.1 as int, p1.1 as int, t);
    lemma_div_bounds(sx, t.1);
    lemma_div_bounds(sy, t.1);
    if inside_at(p0, p1, lo, hi, t) {
        assert(t.1 * lo.0 <= sx <= t.1 * hi.0) by (nonlinear_arith)
            requires
                lin(left_form(p0, p1, lo), t) <= 0, lin(right_form(p0, p1, hi), t) <= 0,
                lin(left_form(p0, p1, lo), t) == t.1 * (lo.0 - p0.0) + t.0 * (p0.0 - p1.0),
                lin(right_form(p0, p1, hi), t) == t.1 * (p0.0 - hi.0) + t.0 * (p1.0 - p0.0),
                sx == t.1 * p0.0 + t.0 * (p1.0 - p0.0);
        assert(t.1 * lo.1 <= sy <= t.1 * hi.1) by (nonlinear_arith)
            requires
                lin(bottom_form(p0, p1, lo), t) <= 0, lin(top_form(p0, p1, hi), t) <= 0,
                lin(bottom_form(p0, p1, lo), t) == t.1 * (lo.1 - p0.1) + t.0 * (p0.1 - p1.1),
                lin(top_form(p0, p1, hi), t) == t.1 * (p0.1 - hi.1) + t.0 * (p1.1 - p0.1),
                sy == t.1 * p0.1 + t.0 * (p1.1 - p0.1);
        let qx = sx / t.1;
        let qy = sy / t.1;
        assert(lo.0 <= qx <= hi.0) by (nonlinear_arith)
            requires t.1 * lo.0 <= sx <= t.1 * hi.0, t.1 * qx <= sx < t.1 * (qx + 1), t.1 > 0;
        assert(lo.1 <= qy <= hi.1) by (nonlinear_arith)
            requires t.1 * lo.1 <= sy <= t.1 * hi.1, t.1 * qy <= sy < t.1 * (qy + 1), t.1 > 0;
    }
    let forms = seq![left_form(p0, p1, lo), right_form(p0, p1, hi), bottom_form(p0, p1, lo), top_form(p0, p1, hi)];
    if t == (1int, 1int) {
        assert(sx == p1.0 && sy == p1.1) by (nonlinear_arith)
            requires sx == t.1 * p0.0 + t.0 * (p1.0 - p0.0), sy == t.1 * p0.1 + t.0 * (p1.1 - p0.1), t == (1int, 1int);
        lemma_div_by_bounds(sx, 1, p1.0 as int);
        lemma_div_by_bounds(sy, 1, p1.1 as int);
        assert forall|i: int| 0 <= i < 4 implies lin(#[trigger] forms[i], t) == forms[i].0 + forms[i].1 by {
            lemma_lin_ends(forms[i]);
        }
    }
    if t == (0int, 1int) {
        assert(sx == p0.0 && sy == p0.1) by (nonlinear_arith)
            requires sx == t.1 * p0.0 + t.0 * (p1.0 - p0.0), sy == t.1 * p0.1 + t.0 * (p1.1 - p0.1), t == (0int, 1int);
        lemma_div_by_bounds(sx, 1, p0.0 as int);
        lemma_div_by_bounds(sy, 1, p0.1 as int);
        assert forall|i: int| 0 <= i < 4 implies lin(#[trigger] forms[i], t) == forms[i].0 by {
            lemma_lin_ends(forms[i]);
        }
    }
    assert(forms[0] == left_form(p0, p1, lo));
    assert(forms[1] == right_form(p0, p1, hi));
    assert(forms[2] == bottom_form(p0, p1, lo));
    assert(forms[3] == top_form(p0, p1, hi));
}

/// Clipping rejects exactly the segments that miss the rectangle. A kept
/// segment runs between the pixels holding the first and the last point of the
/// segment in the rectangle (all points in between lie in it too); both pixels
/// lie in the rectangle, and an endpoint already inside is kept.
pub proof fn lemma_clip_segment(p0: (i64, i64), p1: (i64, i64), lo: (i64, i64), hi: (i64, i64))
    requires
        rect_ok(lo, hi),
        point_ok(p0),
        point_ok(p1),
    ensures
        clip_segment(p0, p1, lo, hi) is None <==> !segment_meets_rect(p0, p1, lo, hi),
        clip_segment(p0, p1, lo, hi) matches Some(q) ==> {
            &&& point_inside(q.0, lo, hi)
            &&& point_inside(q.1, lo, hi)
            &&& (point_inside(p0, lo, hi) ==> q.0 == p0)
            &&& (point_inside(p1, lo, hi) ==> q.1 == p1)
            &&& exists|t0: (int, int), t1: (int, int)|
                q.0 == pixel_at_param(p0, p1, t0) && q.1 == pixel_at_param(p0, p1, t1) && param_ok(t0) && param_ok(t1)
                    && forall|t: (int, int)| param_ok(t) ==> (#[trigger] inside_at(p0, p1, lo, hi, t) <==> (param_le(t0, t) && param_le(t, t1)))
        },
{
    let a = (0int, 1int);
    let b = (1int, 1int);
    let none = OutCode { left: false, right: false, bottom: false, top: false };
    assert forall|t: (int, int)| param_ok(t) && #[trigger] inside_at(p0, p1, lo, hi, t) implies param_le(a, t) && param_le(t, b) by {}
    lemma_clip_params(p0, p1, lo, hi, a, b, 4, none);
    lemma_pixel_at_param(p0, p1, lo, hi, a);
    lemma_pixel_at_param(p0, p1, lo, hi, b);
    if let Some(r) = clip_params(p0, p1, lo, hi, a, b, 4) {
        lemma_pixel_at_param(p0, p1, lo, hi, r.0);
        lemma_pixel_at_param(p0, p1, lo, hi, r.1);
    }
}

/// The same point seen from the other end of the segment: parameter `t`
/// becomes `1 - t`, over the same denominator.
pub open spec fn flip(t: (int, int)) -> (int, int) {
    (t.1 - t.0, t.1)
}

/// A side's form for the reversed segment: the same form, read at the flipped
/// parameter.
pub open spec fn reversed_form(kd: (int, int)) -> (int, int) {
    (kd.0 + kd.1, -kd.1)
}

proof fn lemma_reversed_form(kd: (int, int), t: (int, int))
    ensures
        lin(reversed_form(kd), flip(t)) == lin(kd, t),
        kd.1 != 0 ==> root(reversed_form(kd)) == flip(root(kd)),
{
    assert(lin(reversed_form(kd), flip(t)) == lin(kd, t)) by (nonlinear_arith)
        requires
            lin(reversed_form(kd), flip(t)) == t.1 * (kd.0 + kd.1) + (t.1 - t.0) * (-kd.1),
            lin(kd, t) == t.1 * kd.0 + t.0 * kd.1;
}

/// Reversing the segment leaves the outcode of every point as it was.
proof fn lemma_reversed_code(p0: (i64, i64), p1: (i64, i64), lo: (i64, i64), hi: (i64, i64), t: (int, int))
    ensures
        code_at(p1, p0, lo, hi, flip(t)) == code_at(p0, p1, lo, hi, t),
        forall|c: OutCode| #![auto] edge_form(p1, p0, lo, hi, c) == reversed_form(edge_form(p0, p1, lo, hi, c)),
        pixel_at_param(p1, p0, flip(t)) == pixel_at_param(p0, p1, t),
{
    lemma_reversed_form(left_form(p0, p1, lo), t);
    lemma_reversed_form(right_form(p0, p1, hi), t);
    lemma_reversed_form(bottom_form(p0, p1, lo), t);
    lemma_reversed_form(top_form(p0, p1, hi), t);
    assert(left_form(p1, p0, lo) == reversed_form(left_form(p0, p1, lo)));
    assert(right_form(p1, p0, hi) == reversed_form(right_form(p0, p1, hi)));
    assert(bottom_form(p1, p0, lo) == reversed_form(bottom_form(p0, p1, lo)));
    assert(top_form(p1, p0, hi) == reversed_form(top_form(p0, p1, hi)));
    assert(scaled(p1.0 as int, p0.0 as int, flip(t)) == scaled(p0.0 as int, p1.0 as int, t)) by (nonlinear_arith)
        requires
            scaled(p1.0 as int, p0.0 as int, flip(t)) == t.1 * p1.0 + (t.1 - t.0) * (p0.0 - p1.0),
            scaled(p0.0 as int, p1.0 as int, t) == t.1 * p0.0 + t.0 * (p1.0 - p0.0);
    assert(scaled(p1.1 as int, p0.1 as int, flip(t)) == scaled(p0.1 as int, p1.1 as int, t)) by (nonlinear_arith)
        requires
            scaled(p1.1 as int, p0.1 as int, flip(t)) == t.1 * p1.1 + (t.1 - t.0) * (p0.1 - p1.1),
            scaled(p0.1 as int, p1.1 as int, t) == t.1 * p0.1 + t.0 * (p1.1 - p0.1);
}

/// Clipping the reversed segment runs the same steps from the other end and
/// ends at the same two points, in reverse order.
proof fn lemma_clip_params_reversed(p0: (i64, i64), p1: (i64, i64), lo: (i64, i64), hi: (i64, i64), a: (int, int), b: (int, int), fuel: nat, done: OutCode)
    requires
        rect_ok(lo, hi),
        clip_state(p0, p1, lo, hi, a, b),
        sides_cleared(p0, p1, lo, hi, a, b, done),
    ensures
        clip_params(p1, p0, lo, hi, flip(b), flip(a), fuel) == match clip_params(p0, p1, lo, hi, a, b, fuel) {
            Some(r) => Some((flip(r.1), flip(r.0))),
            None => None,
        },
    decreases fuel,
{
    lemma_reversed_code(p0, p1, lo, hi, a);
    lemma_reversed_code(p0, p1, lo, hi, b);
    let ca = code_at(p0, p1, lo, hi, a);
    let cb = code_at(p0, p1, lo, hi, b);
    if ca.shares_side(cb) || (ca.is_inside() && cb.is_inside()) || fuel == 0 {
    } else {
        assert(ca.rank() != cb.rank());
        lemma_clip_step(p0, p1, lo, hi, a, b, done);
        let c = if ca.rank() > cb.rank() { ca } else { cb };
        let kd = edge_form(p0, p1, lo, hi, c);
        lemma_cut(kd, a, b);
        lemma_reversed_form(kd, a);
        let e = root(kd);
        if ca.rank() > cb.rank() {
            lemma_clip_params_reversed(p0, p1, lo, hi, e, b, (fuel - 1) as nat, with_side(done, first_side(c)));
        } else {
            lemma_clip_params_reversed(p0, p1, lo, hi, a, e, (fuel - 1) as nat, with_side(done, first_side(c)));
        }
    }
}

/// Clipping is blind to the direction of a segment: the reversed segment is
/// kept exactly when the segment is, between the same two pixels.
pub proof fn lemma_clip_segment_reversed(p0: (i64, i64), p1: (i64, i64), lo: (i64, i64), hi: (i64, i64))
    requires
        rect_ok(lo, hi),
    ensures
        clip_segment(p1, p0, lo, hi) == match clip_segment(p0, p1, lo, hi) {
            Some(q) => Some((q.1, q.0)),
            None => None,
        },
{
    let a = (0int, 1int);
    let b = (1int, 1int);
    let none = OutCode { left: false, right: false, bottom: false, top: false };
    assert forall|t: (int, int)| param_ok(t) && #[trigger] inside_at(p0, p1, lo, hi, t) implies param_le(a, t) && param_le(t, b) by {}
    lemma_clip_params_reversed(p0, p1, lo, hi, a, b, 4, none);
    assert(flip(a) == b && flip(b) == a);
    if let Some(r) = clip_params(p0, p1, lo, hi, a, b, 4) {
        lemma_reversed_code(p0, p1, lo, hi, r.0);
        lemma_reversed_code(p0, p1, lo, hi, r.1);
    }
}

/// Drawing a clipped segment from either end plots the same pixels.
pub proof fn lemma_clipped_line_symmetric(p0: (i64, i64), p1: (i64, i64), lo: (i64, i64), hi: (i64, i64))
    requires
        rect_ok(lo, hi),
    ensures
        clipped_line_set(p0, p1, lo, hi) == clipped_line_set(p1, p0, lo, hi),
{
    lemma_clip_segment_reversed(p0, p1, lo, hi);
    if let Some(q) = clip_segment(p0, p1, lo, hi) {
        lemma_line_symmetric(q.0, q.1);
    }
}

/// The floor of `a / b`.
fn div_floor(a: i128, b: i128) -> (r: i128)
    requires
        0 < b <= 0x1_0000_0000_0000,
        -0x1_0000_0000_0000_0000_0000_0000 <= a <= 0x1_0000_0000_0000_0000_0000_0000,
    ensures
        r == a as int / b as int,
{
    if a >= 0 {
        let q = ((a as u128) / (b as u128)) as i128;
        proof {
            lemma_div_bounds(a as int, b as int);
        }
        q
    } else {
        let n: u128 = (-a) as u128 + (b as u128) - 1;
        let q: u128 = n / (b as u128);
        proof {
            lemma_div_bounds(n as int, b as int);
            assert(b * q <= n < b * (q + 1));
            assert(b * (-(q as int)) <= a < b * (-(q as int) + 1)) by (nonlinear_arith)
                requires b * q <= n < b * (q + 1), n == -a + b - 1, b > 0;
            lemma_div_by_bounds(a as int, b as int, -(q as int));
            assert(q <= n) by (nonlinear_arith)
                requires b * q <= n, b >= 1, q >= 0;
        }
        -(q as i128)
    }
}

fn lin_exec(k: i128, d: i128, t: (i128, i128)) -> (r: i128)
    requires
        -0x400_0000_0000 <= k <= 0x400_0000_0000,
        -0x400_0000_0000 <= d <= 0x400_0000_0000,
        0 <= t.0 <= t.1 <= 0x400_0000_0000,
    ensures
        r == lin((k as int, d as int), (t.0 as int, t.1 as int)),
{
    assert(-0x10_0000_0000_0000_0000_0000 <= t.1 * k <= 0x10_0000_0000_0000_0000_0000) by (nonlinear_arith)
        requires -0x400_0000_0000 <= k <= 0x400_0000_0000, 0 <= t.1 <= 0x400_0000_0000;
    assert(-0x10_0000_0000_0000_0000_0000 <= t.0 * d <= 0x10_0000_0000_0000_0000_0000) by (nonlinear_arith)
        requires -0x400_0000_0000 <= d <= 0x400_0000_0000, 0 <= t.0 <= 0x400_0000_0000;
    t.1 * k + t.0 * d
}

/// The forms of the four sides, left, right, bottom, top, as machine integers.
fn forms_exec(p0: (i64, i64), p1: (i64, i64), lo: (i64, i64), hi: (i64, i64)) -> (r: [(i128, i128); 4])
    requires
        point_ok(p0),
        point_ok(p1),
        rect_ok(lo, hi),
    ensures
        (r[0].0 as int, r[0].1 as int) == left_form(p0, p1, lo),
        (r[1].0 as int, r[1].1 as int) == right_form(p0, p1, hi),
        (r[2].0 as int, r[2].1 as int) == bottom_form(p0, p1, lo),
        (r[3].0 as int, r[3].1 as int) == top_form(p0, p1, hi),
        forall|i: int| 0 <= i < 4 ==> -0x400_0000_0000 <= #[trigger] r[i].0 <= 0x400_0000_0000 && -0x400_0000_0000 <= r[i].1 <= 0x400_0000_0000,
{
    let (x0, y0) = (p0.0 as i128, p0.1 as i128);
    let (x1, y1) = (p1.0 as i128, p1.1 as i128);
    [
        (lo.0 as i128 - x0, x0 - x1),
        (x0 - hi.0 as i128, x1 - x0),
        (lo.1 as i128 - y0, y0 - y1),
        (y0 - hi.1 as i128, y1 - y0),
    ]
}

fn code_exec(f: &[(i128, i128); 4], t: (i128, i128)) -> (r: OutCode)
    requires
        forall|i: int| 0 <= i < 4 ==> -0x400_0000_0000 <= #[trigger] f[i].0 <= 0x400_0000_0000 && -0x400_0000_0000 <= f[i].1 <= 0x400_0000_0000,
        0 <= t.0 <= t.1 <= 0x400_0000_0000,
    ensures
        r == (OutCode {
            left: lin((f[0].0 as int, f[0].1 as int), (t.0 as int, t.1 as int)) > 0,
            right: lin((f[1].0 as int, f[1].1 as int), (t.0 as int, t.1 as int)) > 0,
            bottom: lin((f[2].0 as int, f[2].1 as int), (t.0 as int, t.1 as int)) > 0,
            top: lin((f[3].0 as int, f[3].1 as int), (t.0 as int, t.1 as int)) > 0,
        }),
{
    OutCode {
        left: lin_exec(f[0].0, f[0].1, t) > 0,
        right: lin_exec(f[1].0, f[1].1, t) > 0,
        bottom: lin_exec(f[2].0, f[2].1, t) > 0,
        top: lin_exec(f[3].0, f[3].1, t) > 0,
    }
}

/// The pixel holding the point at parameter `t`.
fn pixel_exec(p0: (i64, i64), p1: (i64, i64), lo: (i64, i64), hi: (i64, i64), t: (i128, i128)) -> (r: (i64, i64))
    requires
        point_ok(p0),
        point_ok(p1),
        rect_ok(lo, hi),
        param_ok((t.0 as int, t.1 as int)),
        t.1 <= 0x400_0000_0000,
        inside_at(p0, p1, lo, hi, (t.0 as int, t.1 as int)),
    ensures
        r == pixel_at_param(p0, p1, (t.0 as int, t.1 as int)),
{
    let ghost tt = (t.0 as int, t.1 as int);
    proof {
        lemma_pixel_at_param(p0, p1, lo, hi, tt);
    }
    let dx = p1.0 as i128 - p0.0 as i128;
    let dy = p1.1 as i128 - p0.1 as i128;
    assert(-0x1_0000_0000_0000_0000_0000_0000 <= t.1 * p0.0 + t.0 * dx <= 0x1_0000_0000_0000_0000_0000_0000) by (nonlinear_arith)
        requires 0 <= t.0 <= t.1 <= 0x400_0000_0000, -COORD_LIMIT <= p0.0 <= COORD_LIMIT, -0x400_0000_0000 <= dx <= 0x400_0000_0000;
    assert(-0x1_0000_0000_0000_0000_0000_0000 <= t.1 * p0.1 + t.0 * dy <= 0x1_0000_0000_0000_0000_0000_0000) by (nonlinear_arith)
        requires 0 <= t.0 <= t.1 <= 0x400_0000_0000, -COORD_LIMIT <= p0.1 <= COORD_LIMIT, -0x400_0000_0000 <= dy <= 0x400_0000_0000;
    assert(-0x400_0000_0000_0000_0000_0000 <= t.1 * p0.0 <= 0x400_0000_0000_0000_0000_0000) by (nonlinear_arith)
        requires 0 <= t.1 <= 0x400_0000_0000, -COORD_LIMIT <= p0.0 <= COORD_LIMIT;
    assert(-0x400_0000_0000_0000_0000_0000 <= t.1 * p0.1 <= 0x400_0000_0000_0000_0000_0000) by (nonlinear_arith)
        requires 0 <= t.1 <= 0x400_0000_0000, -COORD_LIMIT <= p0.1 <= COORD_LIMIT;
    assert(-0x1000_0000_0000_0000_0000_0000 <= t.0 * dx <= 0x1000_0000_0000_0000_0000_0000) by (nonlinear_arith)
        requires 0 <= t.0 <= 0x400_0000_0000, -0x400_0000_0000 <= dx <= 0x400_0000_0000;
    assert(-0x1000_0000_0000_0000_0000_0000 <= t.0 * dy <= 0x1000_0000_0000_0000_0000_0000) by (nonlinear_arith)
        requires 0 <= t.0 <= 0x400_0000_0000, -0x400_0000_0000 <= dy <= 0x400_0000_0000;
    let sx = t.1 * (p0.0 as i128) + t.0 * dx;
    let sy = t.1 * (p0.1 as i128) + t.0 * dy;
    assert(sx == scaled(p0.0 as int, p1.0 as int, tt));
    assert(sy == scaled(p0.1 as int, p1.1 as int, tt));
    let qx = div_floor(sx, t.1);
    let qy = div_floor(sy, t.1);
    (qx as i64, qy as i64)
}

/// Cohen–Sutherland clipping of the segment `p0 p1` against the rectangle
/// `[rect_min.0, rect_max.0] x [rect_min.1, rect_max.1]`.
///
/// Returns `None` exactly when no point of the segment lies in the rectangle.
/// Otherwise the endpoints outside it are moved, exactly, to where the segment
/// crosses its sides, until both lie inside; the result is the pair of pixels
/// holding those two points, an endpoint that was inside being kept.
pub fn line_clip(p0: (i64, i64), p1: (i64, i64), rect_min: (i64, i64), rect_max: (i64, i64)) -> (r:
    Option<((i64, i64), (i64, i64))>)
    requires
        point_ok(p0),
        point_ok(p1),
        rect_ok(rect_min, rect_max),
    ensures
        r == clip_segment(p0, p1, rect_min, rect_max),
        r is None <==> !segment_meets_rect(p0, p1, rect_min, rect_max),
        r matches Some(q) ==> point_inside(q.0, rect_min, rect_max) && point_inside(q.1, rect_min, rect_max),
        r matches Some(q) ==> (point_inside(p0, rect_min, rect_max) ==> q.0 == p0) && (point_inside(
            p1,
            rect_min,
            rect_max,
        ) ==> q.1 == p1),
{
    let lo = rect_min;
    let hi = rect_max;
    let forms = forms_exec(p0, p1, lo, hi);
    let mut a: (i128, i128) = (0, 1);
    let mut b: (i128, i128) = (1, 1);
    let mut ca = code_exec(&forms, a);
    let mut cb = code_exec(&forms, b);
    let ghost mut done = OutCode { left: false, right: false, bottom: false, top: false };
    let ghost mut fuel: nat = 4;
    assert forall|t: (int, int)| param_ok(t) && #[trigger] inside_at(p0, p1, lo, hi, t) implies param_le((0int, 1int), t) && param_le(t, (1int, 1int)) by {}
    loop
        invariant
            point_ok(p0),
            point_ok(p1),
            rect_ok(lo, hi),
            lo == rect_min,
            hi == rect_max,
            (forms[0].0 as int, forms[0].1 as int) == left_form(p0, p1, lo),
            (forms[1].0 as int, forms[1].1 as int) == right_form(p0, p1, hi),
            (forms[2].0 as int, forms[2].1 as int) == bottom_form(p0, p1, lo),
            (forms[3].0 as int, forms[3].1 as int) == top_form(p0, p1, hi),
            forall|i: int| 0 <= i < 4 ==> -0x400_0000_0000 <= #[trigger] forms[i].0 <= 0x400_0000_0000 && -0x400_0000_0000 <= forms[i].1 <= 0x400_0000_0000,
            a.1 <= 0x400_0000_0000,
            b.1 <= 0x400_0000_0000,
            clip_state(p0, p1, lo, hi, (a.0 as int, a.1 as int), (b.0 as int, b.1 as int)),
            ca == code_at(p0, p1, lo, hi, (a.0 as int, a.1 as int)),
            cb == code_at(p0, p1, lo, hi, (b.0 as int, b.1 as int)),
            sides_cleared(p0, p1, lo, hi, (a.0 as int, a.1 as int), (b.0 as int, b.1 as int), done),
            fuel == 4 - side_count(done),
            clip_params(p0, p1, lo, hi, (a.0 as int, a.1 as int), (b.0 as int, b.1 as int), fuel)
                == clip_params(p0, p1, lo, hi, (0, 1), (1, 1), 4),
        decreases fuel,
    {
        let ghost ga = (a.0 as int, a.1 as int);
        let ghost gb = (b.0 as int, b.1 as int);
        if (ca.left && cb.left) || (ca.right && cb.right) || (ca.bottom && cb.bottom) || (ca.top
            && cb.top) {
            assert(ca.shares_side(cb));
            proof {
                lemma_clip_segment(p0, p1, lo, hi);
            }
            return None;
        }
        if !ca.left && !ca.right && !ca.bottom && !ca.top && !cb.left && !cb.right && !cb.bottom
            && !cb.top {
            let q0 = pixel_exec(p0, p1, lo, hi, a);
            let q1 = pixel_exec(p0, p1, lo, hi, b);
            proof {
                lemma_clip_segment(p0, p1, lo, hi);
            }
            return Some((q0, q1));
        }
        proof {
            lemma_clip_step(p0, p1, lo, hi, ga, gb, done);
            if fuel == 0 {
                assert(done.left && done.right && done.bottom && done.top);
            }
        }
        let pick_a = ca.rank_exec() > cb.rank_exec();
        let c = if pick_a { ca } else { cb };
        let kd: (i128, i128) = if c.top {
            forms[3]
        } else if c.bottom {
            forms[2]
        } else if c.right {
            forms[1]
        } else {
            forms[0]
        };
        let e: (i128, i128) = if kd.1 < 0 { (kd.0, -kd.1) } else { (-kd.0, kd.1) };
        assert((e.0 as int, e.1 as int) == root(edge_form(p0, p1, lo, hi, c)));
        let ce = code_exec(&forms, e);
        proof {
            done = with_side(done, first_side(c));
            fuel = (fuel - 1) as nat;
        }
        if pick_a {
            a = e;
            ca = ce;
        } else {
            b = e;
            cb = ce;
        }
    }
}

/// The pixels that drawing the segment `p0 p1` plots once it is clipped to the
/// rectangle: none when clipping rejects it.
pub open spec fn clipped_line_set(p0: (i64, i64), p1: (i64, i64), lo: (i64, i64), hi: (i64, i64)) -> Set<
    (int, int),
> {
    match clip_segment(p0, p1, lo, hi) {
        Some(seg) => line_set(seg.0, seg.1),
        None => Set::empty(),
    }
}

/// Every pixel of a line lies in the bounding box of its endpoints.
pub proof fn lemma_line_in_box(a: (i64, i64), b: (i64, i64), k: int)
    requires
        0 <= k <= major_len(a, b),
    ensures
        ({
            let p = line_point(a, b, k);
            &&& (a.0 <= p.0 <= b.0 || b.0 <= p.0 <= a.0)
            &&& (a.1 <= p.1 <= b.1 || b.1 <= p.1 <= a.1)
        }),
{
    let s = line_start(a, b);
    let e = line_end(a, b);
    let dx = e.0 - s.0;
    let dy = abs(e.1 - s.1);
    if dy <= dx {
        if dx > 0 {
            lemma_round_bounds(k, dy, dx);
        }
    } else {
        lemma_round_bounds(k, dx, dy);
    }
}

/// The rounded ratio `k * m / n` lies between 0 and `m` for `0 <= k <= n`.
proof fn lemma_round_bounds(k: int, m: int, n: int)
    requires
        0 <= m <= n,
        0 < n,
        0 <= k <= n,
    ensures
        0 <= round_ratio(k, m, n) <= m,
{
    let a = 2 * k * m + n;
    lemma_div_bounds(a, 2 * n);
    let q = a / (2 * n);
    assert(0 <= a <= 2 * n * m + n) by (nonlinear_arith)
        requires a == 2 * k * m + n, 0 <= k <= n, 0 <= m, 0 < n;
    assert(0 <= q <= m) by (nonlinear_arith)
        requires 2 * n * q <= a < 2 * n * (q + 1), 0 <= a <= 2 * n * m + n, 0 < n;
}

/// Drawing a line from `a` to `b` or from `b` to `a` plots the same pixels, in
/// the same order; the first is the start point and the last the end point.
pub proof fn lemma_line_symmetric(a: (i64, i64), b: (i64, i64))
    ensures
        line_seq(a, b) == line_seq(b, a),
        line_set(a, b) == line_set(b, a),
        line_seq(a, b)[0] == (line_start(a, b).0 as int, line_start(a, b).1 as int),
        line_seq(a, b).last() == (line_end(a, b).0 as int, line_end(a, b).1 as int),
{
    assert(line_seq(a, b) =~= line_seq(b, a));
    let s = line_start(a, b);
    let e = line_end(a, b);
    let dx = e.0 - s.0;
    let dy = abs(e.1 - s.1);
    assert(2 * 0 * dy + dx == dx && 2 * 0 * dx + dy == dy) by (nonlinear_arith);
    if dy <= dx {
        if dx > 0 {
            lemma_div_by_bounds(dx, 2 * dx, 0);
            assert(2 * dx * dy <= 2 * dx * dy + dx < 2 * dx * (dy + 1)) by (nonlinear_arith)
                requires dx > 0;
            assert(2 * dx * dy + dx == 2 * dx * dy + dx);
            lemma_div_by_bounds(2 * dx * dy + dx, 2 * dx, dy);
        }
    } else {
        lemma_div_by_bounds(dy, 2 * dy, 0);
        assert(2 * dy * dx <= 2 * dy * dx + dy < 2 * dy * (dx + 1)) by (nonlinear_arith)
            requires dy > 0;
        lemma_div_by_bounds(2 * dy * dx + dy, 2 * dy, dx);
    }
}

/// Every pixel of a clipped line lies inside the clipping rectangle.
pub proof fn lemma_clipped_line_inside(p0: (i64, i64), p1: (i64, i64), lo: (i64, i64), hi: (i64, i64), p: (int, int))
    requires
        rect_ok(lo, hi),
        point_ok(p0),
        point_ok(p1),
        clipped_line_set(p0, p1, lo, hi).contains(p),
    ensures
        lo.0 <= p.0 <= hi.0,
        lo.1 <= p.1 <= hi.1,
{
    lemma_clip_segment(p0, p1, lo, hi);
    let seg = clip_segment(p0, p1, lo, hi).unwrap();
    let k = choose|k: int| 0 <= k < line_seq(seg.0, seg.1).len() && line_seq(seg.0, seg.1)[k] == p;
    lemma_line_in_box(seg.0, seg.1, k);
}

/// A line has no gaps: each pixel after the first is one step along the
/// major axis from the one before, and at most one step along the minor axis.
pub proof fn lemma_line_connected(a: (i64, i64), b: (i64, i64), k: int)
    requires
        0 <= k < major_len(a, b),
    ensures
        ({
            let p = line_point(a, b, k);
            let q = line_point(a, b, k + 1);
            &&& -1 <= q.0 - p.0 <= 1
            &&& -1 <= q.1 - p.1 <= 1
            &&& p != q
        }),
{
    let s = line_start(a, b);
    let e = line_end(a, b);
    let dx = e.0 - s.0;
    let dy = abs(e.1 - s.1);
    let (m, n) = if dy <= dx { (dy, dx) } else { (dx, dy) };
    let q = round_ratio(k, m, n);
    lemma_round_step(k, m, n, q, 2 * m * (k + 1) - n - 2 * n * q);
}

/// The pixels that drawing the segment `p0 p1` on a `width x height` image
/// plots.
pub open spec fn image_line_set(width: int, height: int, p0: (i32, i32), p1: (i32, i32)) -> Set<(int, int)> {
    if width <= 0 || height <= 0 {
        Set::empty()
    } else {
        clipped_line_set(
            (p0.0 as i64, p0.1 as i64),
            (p1.0 as i64, p1.1 as i64),
            (0, 0),
            ((width - 1) as i64, (height - 1) as i64),
        )
    }
}

/// Drawing on an image from either end plots the same pixels.
pub proof fn lemma_image_line_symmetric(width: int, height: int, p0: (i32, i32), p1: (i32, i32))
    requires
        width <= u32::MAX,
        height <= u32::MAX,
    ensures
        image_line_set(width, height, p0, p1) == image_line_set(width, height, p1, p0),
{
    if width > 0 && height > 0 {
        lemma_clipped_line_symmetric(
            (p0.0 as i64, p0.1 as i64),
            (p1.0 as i64, p1.1 as i64),
            (0, 0),
            ((width - 1) as i64, (height - 1) as i64),
        );
    }
}

/// Draws the segment `p0 p1` in `color` on `img`: it is clipped to the image
/// (Cohen–Sutherland) and the pixels of what is left are plotted (Bresenham).
pub fn draw_line(p0: (i32, i32), p1: (i32, i32), img: &mut RgbCanvas, color: [u8; 3])
    ensures
        rgb_image_dimensions(*final(img)) == rgb_image_dimensions(*old(img)),
        rgb_image_pixels(*final(img)) == with_map_pixels(
            rgb_image_pixels(*old(img)),
            image_line_set(rgb_image_dimensions(*old(img)).0, rgb_image_dimensions(*old(img)).1, p0, p1),
            color,
        ),
{
    let (w, h) = img.dimensions();
    let ghost start = rgb_image_pixels(*img);
    let ghost dims = rgb_image_dimensions(*img);
    if w == 0 || h == 0 {
        assert(rgb_image_pixels(*img) =~= with_map_pixels(start, image_line_set(dims.0, dims.1, p0, p1), color));
        return;
    }
    let lo: (i64, i64) = (0, 0);
    let hi: (i64, i64) = (w as i64 - 1, h as i64 - 1);
    let a: (i64, i64) = (p0.0 as i64, p0.1 as i64);
    let b: (i64, i64) = (p1.0 as i64, p1.1 as i64);
    let clipped = line_clip(a, b, lo, hi);
    proof {
        lemma_clip_segment(a, b, lo, hi);
    }
    match clipped {
        None => {
            assert(rgb_image_pixels(*img) =~= with_map_pixels(start, image_line_set(dims.0, dims.1, p0, p1), color));
        },
        Some((q0, q1)) => {
            plot_line(q0, q1, img, color);
        },
    }
}

/// Draws the segment `p0 p1` in `color` on `img` without clipping; both
/// endpoints must lie in the image.
pub fn line(p0: (i32, i32), p1: (i32, i32), img: &mut RgbCanvas, color: [u8; 3])
    requires
        rgb_image_pixels(*old(img)).dom().contains((p0.0 as int, p0.1 as int)),
        rgb_image_pixels(*old(img)).dom().contains((p1.0 as int, p1.1 as int)),
    ensures
        rgb_image_dimensions(*final(img)) == rgb_image_dimensions(*old(img)),
        rgb_image_pixels(*final(img)) == with_map_pixels(
            rgb_image_pixels(*old(img)),
            line_set((p0.0 as i64, p0.1 as i64), (p1.0 as i64, p1.1 as i64)),
            color,
        ),
{
    plot_line((p0.0 as i64, p0.1 as i64), (p1.0 as i64, p1.1 as i64), img, color);
}

/// Plots every pixel of the line from `q0` to `q1`, both inside the image.
fn plot_line(q0: (i64, i64), q1: (i64, i64), img: &mut RgbCanvas, color: [u8; 3])
    requires
        point_ok(q0),
        point_ok(q1),
        rgb_image_pixels(*old(img)).dom().contains((q0.0 as int, q0.1 as int)),
        rgb_image_pixels(*old(img)).dom().contains((q1.0 as int, q1.1 as int)),
    ensures
        rgb_image_dimensions(*final(img)) == rgb_image_dimensions(*old(img)),
        rgb_image_pixels(*final(img)) == with_map_pixels(rgb_image_pixels(*old(img)), line_set(q0, q1), color),
{
    let (w, h) = img.dimensions();
    let ghost start = rgb_image_pixels(*img);
    let ghost dims = rgb_image_dimensions(*img);
    let lo: (i64, i64) = (0, 0);
    let hi: (i64, i64) = (w as i64 - 1, h as i64 - 1);
    let pts = line_pixels(q0, q1);
    let ghost whole = line_seq(q0, q1);
    let mut k: usize = 0;
    assert(start =~= with_map_pixels(start, whole.subrange(0, 0).to_set(), color));
    while k < pts.len()
        invariant
            rgb_image_dimensions(*img) == dims,
            dims == (w as int, h as int),
            holds_pixels(start, w as int, h as int),
            point_inside(q0, lo, hi),
            point_inside(q1, lo, hi),
            lo == (0i64, 0i64),
            hi.0 == w - 1 && hi.1 == h - 1,
            whole == line_seq(q0, q1),
            pts@.len() == whole.len(),
            forall|i: int|
                0 <= i < pts@.len() ==> (#[trigger] pts@[i].0 as int, pts@[i].1 as int) == whole[i],
            0 <= k <= pts@.len(),
            rgb_image_pixels(*img) == with_map_pixels(start, whole.subrange(0, k as int).to_set(), color),
        decreases pts@.len() - k,
    {
        let p = pts[k];
        proof {
            lemma_line_in_box(q0, q1, k as int);
            lemma_prefix_set_push(whole, k as int);
            assert(with_map_pixels(start, whole.subrange(0, k as int).to_set(), color).insert(
                (p.0 as int, p.1 as int),
                color,
            ) =~= with_map_pixels(start, whole.subrange(0, k + 1).to_set(), color));
        }
        img.put_pixel(p.0 as u32, p.1 as u32, color);
        k = k + 1;
    }
    assert(whole.subrange(0, k as int) =~= whole);
}

/// The items of a prefix one longer are those of the prefix and the next item.
pub proof fn lemma_prefix_set_push<A>(s: Seq<A>, k: int)
    requires
        0 <= k < s.len(),
    ensures
        s.subrange(0, k + 1).to_set() == s.subrange(0, k).to_set().insert(s[k]),
{
    let long = s.subrange(0, k + 1);
    let short = s.subrange(0, k);
    assert forall|x: A| long.to_set().contains(x) implies short.to_set().insert(s[k]).contains(x) by {
        let j = choose|j: int| 0 <= j < long.len() && #[trigger] long[j] == x;
        if j < k {
            assert(short[j] == x);
        }
    }
    assert forall|x: A| short.to_set().insert(s[k]).contains(x) implies long.to_set().contains(x) by {
        if x == s[k] {
            assert(long[k] == x);
        } else {
            let j = choose|j: int| 0 <= j < short.len() && #[trigger] short[j] == x;
            assert(long[j] == x);
        }
    }
    assert(long.to_set() =~= short.to_set().insert(s[k]));
}

} // verus!
