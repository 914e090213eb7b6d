//! Linear coordinate transform between two integer rectangles.
//!
//! A `Viewport` pairs a model rectangle (grid cells) with a view rectangle
//! (pixels).  Points are mapped linearly between the two spaces, rounding
//! toward negative infinity on each axis so that boundary cells map
//! consistently for negative coordinates and for flipped axes (a span may
//! be negative to express a Y flip between model-up and screen-down).

use vstd::prelude::*;

verus! {

/// Floor division: the real quotient rounded toward negative infinity.
///
/// In spec code `/` and `%` are Euclidean (the remainder is never negative),
/// which agrees with floor division for positive divisors; for a negative
/// divisor the quotient is one lower whenever the division is inexact.
pub open spec fn floor_div(a: int, b: int) -> int
    recommends
        b != 0,
{
    if b > 0 || a % b == 0 {
        a / b
    } else {
        a / b - 1
    }
}

/// The Euclidean remainder is non-negative and smaller than the divisor's
/// magnitude, for either sign of the divisor.
pub proof fn lemma_mod_range_any(a: int, b: int)
    requires
        b != 0,
    ensures
        0 <= a % b,
        b > 0 ==> a % b < b,
        b < 0 ==> a % b < -b,
{
    if b > 0 {
        vstd::arithmetic::div_mod::lemma_mod_bound(a, b);
    } else {
        assert(0 <= a % b < -b) by (nonlinear_arith)
            requires
                b < 0,
        ;
    }
}

/// The floor quotient is characterised by bracketing `a` between consecutive
/// multiples of the divisor: the remainder `a - b * q` has the divisor's sign.
pub proof fn lemma_floor_div_bounds(a: int, b: int)
    requires
        b != 0,
    ensures
        b > 0 ==> b * floor_div(a, b) <= a < b * (floor_div(a, b) + 1),
        b < 0 ==> b * floor_div(a, b) >= a > b * (floor_div(a, b) + 1),
{
    let q = a / b;
    let r = a % b;
    vstd::arithmetic::div_mod::lemma_fundamental_div_mod(a, b);
    lemma_mod_range_any(a, b);
    assert(a == b * q + r);
    if b > 0 {
        assert(b * (q + 1) == b * q + b) by (nonlinear_arith);
    } else {
        if r == 0 {
            assert(b * (q + 1) == b * q + b) by (nonlinear_arith);
        } else {
            assert(b * (q - 1) == b * q - b) by (nonlinear_arith);
        }
    }
}

/// Dividing an exact multiple recovers the factor, whatever the divisor's sign.
pub proof fn lemma_floor_div_exact(m: int, b: int)
    requires
        b != 0,
    ensures
        floor_div(m * b, b) == m,
{
    vstd::arithmetic::div_mod::lemma_fundamental_div_mod(m * b, b);
    lemma_mod_range_any(m * b, b);
    let q = (m * b) / b;
    let r = (m * b) % b;
    assert(m * b == b * q + r);
    assert((m - q) * b == r) by (nonlinear_arith)
        requires
            m * b == b * q + r,
    ;
    if m != q {
        assert((m - q) * b >= (if b > 0 { b } else { -b })) by (nonlinear_arith)
            requires
                m - q != 0,
                b != 0,
                (m - q) * b >= 0,
        ;
        assert(false);
    }
    assert((m - q) * b == 0) by (nonlinear_arith)
        requires
            m == q,
    ;
    assert(r == 0);
}

/// Floor division on machine integers, computed through the operands'
/// magnitudes so that only unsigned division is needed: for equal signs the
/// quotient is the magnitude quotient, for opposite signs it is its negation,
/// lowered by one when the division is inexact.
fn floor_div_i128(a: i128, b: i128) -> (q: i128)
    requires
        b != 0,
        a != i128::MIN,
        b != i128::MIN,
    ensures
        q == floor_div(a as int, b as int),
{
    let ua: u128 = if a >= 0 {
        a as u128
    } else {
        (-a) as u128
    };
    let ub: u128 = if b >= 0 {
        b as u128
    } else {
        (-b) as u128
    };
    let qu: u128 = ua / ub;
    let ru: u128 = ua % ub;
    proof {
        vstd::arithmetic::div_mod::lemma_fundamental_div_mod(ua as int, ub as int);
        vstd::arithmetic::div_mod::lemma_mod_bound(ua as int, ub as int);
        assert(qu as int <= ua as int) by (nonlinear_arith)
            requires
                ua as int == ub as int * (qu as int) + ru as int,
                ru as int >= 0,
                ub as int >= 1,
                qu as int >= 0,
        ;
        lemma_magnitude_floor_div(a as int, b as int, ua as int, ub as int, qu as int, ru as int);
    }
    if (a >= 0) == (b >= 0) {
        qu as i128
    } else if ru == 0 {
        -(qu as i128)
    } else {
        -(qu as i128) - 1
    }
}

/// Where one axis of the rectangle `(x0, y0, x1, y1)` lands a value `v`
/// taken from the matching axis of `from`: the offset of `v` inside `from`
/// is scaled by the ratio of the two spans, rounding toward negative
/// infinity, and rebased at `to`'s origin.
pub open spec fn axis_map(v: int, f0: int, f1: int, t0: int, t1: int) -> int
    recommends
        f1 != f0,
{
    floor_div((v - f0) * (t1 - t0), f1 - f0) + t0
}

/// Both spans of a rectangle are non-zero, so it can serve as the source of
/// a conversion (each axis divides by its span).
pub open spec fn spans_nonzero(r: (i32, i32, i32, i32)) -> bool {
    r.2 != r.0 && r.3 != r.1
}

/// The horizontal image of `x` under the conversion taking `from` to `to`.
pub open spec fn map_x(x: int, from: (i32, i32, i32, i32), to: (i32, i32, i32, i32)) -> int {
    axis_map(x, from.0 as int, from.2 as int, to.0 as int, to.2 as int)
}

/// The vertical image of `y` under the conversion taking `from` to `to`.
pub open spec fn map_y(y: int, from: (i32, i32, i32, i32), to: (i32, i32, i32, i32)) -> int {
    axis_map(y, from.1 as int, from.3 as int, to.1 as int, to.3 as int)
}

/// The image of the point stays representable in 32 bits; a machine limit,
/// not a property of the mathematical map.
pub open spec fn point_in_range(x: int, y: int, from: (i32, i32, i32, i32), to: (i32, i32, i32, i32)) -> bool {
    &&& i32::MIN <= map_x(x, from, to) <= i32::MAX
    &&& i32::MIN <= map_y(y, from, to) <= i32::MAX
}

/// Maps an integer point from the coordinate space of the rectangle `from`
/// into that of the rectangle `to`, linearly, rounding each axis toward
/// negative infinity.
pub fn convert(value: (i32, i32), from: (i32, i32, i32, i32), to: (i32, i32, i32, i32)) -> (r: (
    i32,
    i32,
))
    requires
        spans_nonzero(from),
        point_in_range(value.0 as int, value.1 as int, from, to),
    ensures
        r.0 == map_x(value.0 as int, from, to),
        r.1 == map_y(value.1 as int, from, to),
{
    let dx: i128 = value.0 as i128 - from.0 as i128;
    let sx: i128 = to.2 as i128 - to.0 as i128;
    let mx: i128 = from.2 as i128 - from.0 as i128;
    proof {
        lemma_product_of_small(dx as int, sx as int);
    }
    let qx = floor_div_i128(dx * sx, mx);
    let x = (qx + to.0 as i128) as i32;
    let dy: i128 = value.1 as i128 - from.1 as i128;
    let sy: i128 = to.3 as i128 - to.1 as i128;
    let my: i128 = from.3 as i128 - from.1 as i128;
    proof {
        lemma_product_of_small(dy as int, sy as int);
    }
    let qy = floor_div_i128(dy * sy, my);
    let y = (qy + to.1 as i128) as i32;
    (x, y)
}

/// The product of two differences of 32-bit values is far from the 128-bit
/// limits.
proof fn lemma_product_of_small(a: int, b: int)
    requires
        -0x1_0000_0000 <= a <= 0x1_0000_0000,
        -0x1_0000_0000 <= b <= 0x1_0000_0000,
    ensures
        -0x1_0000_0000_0000_0000_0000 <= a * b <= 0x1_0000_0000_0000_0000_0000,
{
    assert(-0x1_0000_0000_0000_0000_0000 <= a * b <= 0x1_0000_0000_0000_0000_0000)
        by (nonlinear_arith)
        requires
            -0x1_0000_0000 <= a <= 0x1_0000_0000,
            -0x1_0000_0000 <= b <= 0x1_0000_0000,
    ;
}

/// An axis-aligned rectangle in some integer coordinate space, held as its
/// top-left corner and a non-negative size.
#[derive(Clone, Copy, Debug, PartialEq, Eq, Structural)]
pub struct Rect {
    pub x: i32,
    pub y: i32,
    pub width: u32,
    pub height: u32,
}

impl Rect {
    /// Builds the rectangle with corner `(x, y)` and size `width` by `height`.
    pub fn new(x: i32, y: i32, width: u32, height: u32) -> (r: Rect)
        ensures
            r == (Rect { x, y, width, height }),
    {
        Rect { x, y, width, height }
    }
}

/// The rectangle's far corner, `(x + width, y + height)`, stays within
/// 32 bits, so the corner can be formed without overflow.
pub open spec fn rect_corners_representable(rect: Rect) -> bool {
    &&& rect.width <= i32::MAX
    &&& rect.height <= i32::MAX
    &&& rect.x + rect.width <= i32::MAX
    &&& rect.y + rect.height <= i32::MAX
}

/// Both corners of the rectangle land within 32 bits under the conversion.
pub open spec fn rect_in_range(rect: Rect, from: (i32, i32, i32, i32), to: (i32, i32, i32, i32)) -> bool {
    &&& point_in_range(rect.x as int, rect.y as int, from, to)
    &&& point_in_range(rect.x + rect.width, rect.y + rect.height, from, to)
}

/// The image of a rectangle: both corners are mapped independently and the
/// result is re-normalised by min and max, so it is well-formed even when
/// the conversion flips an axis.
pub open spec fn rect_map(rect: Rect, from: (i32, i32, i32, i32), to: (i32, i32, i32, i32)) -> Rect
    recommends
        spans_nonzero(from),
        rect_in_range(rect, from, to),
{
    let cx = map_x(rect.x as int, from, to);
    let cy = map_y(rect.y as int, from, to);
    let dx = map_x(rect.x + rect.width, from, to);
    let dy = map_y(rect.y + rect.height, from, to);
    let x1 = vstd::math::min(cx, dx);
    let x2 = vstd::math::max(cx, dx);
    let y1 = vstd::math::min(cy, dy);
    let y2 = vstd::math::max(cy, dy);
    Rect { x: x1 as i32, y: y1 as i32, width: (x2 - x1) as u32, height: (y2 - y1) as u32 }
}

/// Maps a rectangle from the space of `from` into the space of `to`,
/// converting both corners and re-normalising so the result has
/// non-negative extents even across an axis flip.
pub fn convert_rect(rect: Rect, from: (i32, i32, i32, i32), to: (i32, i32, i32, i32)) -> (res:
    Rect)
    requires
        spans_nonzero(from),
        rect_corners_representable(rect),
        rect_in_range(rect, from, to),
    ensures
        res == rect_map(rect, from, to),
{
    let a = (rect.x, rect.y);
    let b = (rect.x + rect.width as i32, rect.y + rect.height as i32);
    let c = convert(a, from, to);
    let d = convert(b, from, to);
    let x1 = if c.0 <= d.0 {
        c.0
    } else {
        d.0
    };
    let x2 = if c.0 <= d.0 {
        d.0
    } else {
        c.0
    };
    let y1 = if c.1 <= d.1 {
        c.1
    } else {
        d.1
    };
    let y2 = if c.1 <= d.1 {
        d.1
    } else {
        c.1
    };
    let w = (x2 as i64 - x1 as i64) as u32;
    let h = (y2 as i64 - y1 as i64) as u32;
    Rect::new(x1, y1, w, h)
}

/// A pairing of a model-space rectangle (grid cells) and a view-space
/// rectangle (pixels).  The view's spans may be negative relative to the
/// model's, flipping an axis between the two spaces.
#[derive(Debug)]
pub struct Viewport {
    pub model: (i32, i32, i32, i32),
    pub view: (i32, i32, i32, i32),
}

impl Viewport {
    /// Both rectangles have non-zero extents on both axes, the invariant a
    /// viewport must keep for its whole lifetime: each direction of the
    /// conversion divides by one of the spans.
    pub open spec fn wf(self) -> bool {
        spans_nonzero(self.model) && spans_nonzero(self.view)
    }

    /// Maps a model-space point into view space.
    pub fn model_to_view(&self, point: (i32, i32)) -> (r: (i32, i32))
        requires
            spans_nonzero(self.model),
            point_in_range(point.0 as int, point.1 as int, self.model, self.view),
        ensures
            r.0 == map_x(point.0 as int, self.model, self.view),
            r.1 == map_y(point.1 as int, self.model, self.view),
    {
        convert(point, self.model, self.view)
    }

    /// Maps a view-space point into model space.
    pub fn view_to_model(&self, point: (i32, i32)) -> (r: (i32, i32))
        requires
            spans_nonzero(self.view),
            point_in_range(point.0 as int, point.1 as int, self.view, self.model),
        ensures
            r.0 == map_x(point.0 as int, self.view, self.model),
            r.1 == map_y(point.1 as int, self.view, self.model),
    {
        convert(point, self.view, self.model)
    }

    /// Maps a model-space rectangle into view space.
    pub fn model_to_view_rect(&self, rect: Rect) -> (res: Rect)
        requires
            spans_nonzero(self.model),
            rect_corners_representable(rect),
            rect_in_range(rect, self.model, self.view),
        ensures
            res == rect_map(rect, self.model, self.view),
    {
        convert_rect(rect, self.model, self.view)
    }

    /// Maps a view-space rectangle into model space.
    pub fn view_to_model_rect(&self, rect: Rect) -> (res: Rect)
        requires
            spans_nonzero(self.view),
            rect_corners_representable(rect),
            rect_in_range(rect, self.view, self.model),
        ensures
            res == rect_map(rect, self.view, self.model),
    {
        convert_rect(rect, self.view, self.model)
    }

    /// Shifts both corners of the model rectangle by `delta`, panning the
    /// visible window without changing its size; the view rectangle is
    /// untouched.
    pub fn translate(&mut self, delta: (i32, i32))
        requires
            i32::MIN <= old(self).model.0 + delta.0 <= i32::MAX,
            i32::MIN <= old(self).model.1 + delta.1 <= i32::MAX,
            i32::MIN <= old(self).model.2 + delta.0 <= i32::MAX,
            i32::MIN <= old(self).model.3 + delta.1 <= i32::MAX,
        ensures
            final(self).model.0 == old(self).model.0 + delta.0,
            final(self).model.1 == old(self).model.1 + delta.1,
            final(self).model.2 == old(self).model.2 + delta.0,
            final(self).model.3 == old(self).model.3 + delta.1,
            final(self).view == old(self).view,
    {
        self.model.0 = self.model.0 + delta.0;
        self.model.1 = self.model.1 + delta.1;
        self.model.2 = self.model.2 + delta.0;
        self.model.3 = self.model.3 + delta.1;
    }
}

/// One axis of the conversion is exactly invertible when the target span is
/// an integer multiple of the source span: no information is lost to the
/// floor, so mapping there and back returns every value unchanged.
pub proof fn lemma_axis_round_trip(v: int, f0: int, f1: int, t0: int, t1: int)
    requires
        f1 != f0,
        t1 != t0,
        (t1 - t0) % (f1 - f0) == 0,
    ensures
        axis_map(axis_map(v, f0, f1, t0, t1), t0, t1, f0, f1) == v,
{
    let d = f1 - f0;
    let e = t1 - t0;
    let k = e / d;
    vstd::arithmetic::div_mod::lemma_fundamental_div_mod(e, d);
    assert(e == d * k);
    assert(k != 0) by (nonlinear_arith)
        requires
            e == d * k,
            e != 0,
    ;
    assert((v - f0) * e == ((v - f0) * k) * d) by (nonlinear_arith)
        requires
            e == d * k,
    ;
    lemma_floor_div_exact((v - f0) * k, d);
    let w = axis_map(v, f0, f1, t0, t1);
    assert(w - t0 == (v - f0) * k);
    assert((w - t0) * d == (v - f0) * e) by (nonlinear_arith)
        requires
            w - t0 == (v - f0) * k,
            e == d * k,
    ;
    lemma_floor_div_exact(v - f0, e);
    assert((v - f0) * e == (v - f0) * e);
}

/// The coordinate transform is a left-inverse pair on both axes when the
/// view spans are integer multiples of the model spans: a model point sent
/// to view space and back is returned unchanged, including across an axis
/// flip (a negative multiple).
pub proof fn lemma_model_view_round_trip(vp: Viewport, x: int, y: int)
    requires
        vp.wf(),
        (vp.view.2 - vp.view.0) % (vp.model.2 - vp.model.0) == 0,
        (vp.view.3 - vp.view.1) % (vp.model.3 - vp.model.1) == 0,
    ensures
        map_x(map_x(x, vp.model, vp.view), vp.view, vp.model) == x,
        map_y(map_y(y, vp.model, vp.view), vp.view, vp.model) == y,
{
    lemma_axis_round_trip(x, vp.model.0 as int, vp.model.2 as int, vp.view.0 as int, vp.view.2 as int);
    lemma_axis_round_trip(y, vp.model.1 as int, vp.model.3 as int, vp.view.1 as int, vp.view.3 as int);
}

/// Reassembles the floor quotient of two signed numbers from the Euclidean
/// quotient and remainder of their magnitudes.
proof fn lemma_magnitude_floor_div(a: int, b: int, ua: int, ub: int, qu: int, ru: int)
    requires
        b != 0,
        ua == (if a >= 0 { a } else { -a }),
        ub == (if b >= 0 { b } else { -b }),
        ua == ub * qu + ru,
        0 <= ru < ub,
    ensures
        (a >= 0) == (b >= 0) ==> qu == floor_div(a, b),
        (a >= 0) != (b >= 0) && ru == 0 ==> -qu == floor_div(a, b),
        (a >= 0) != (b >= 0) && ru != 0 ==> -qu - 1 == floor_div(a, b),
{
    if a >= 0 && b > 0 {
        lemma_floor_div_unique(a, b, qu, ru);
    } else if a < 0 && b < 0 {
        assert(a == b * qu + (-ru)) by (nonlinear_arith)
            requires
                a == -ua,
                b == -ub,
                ua == ub * qu + ru,
        ;
        lemma_floor_div_unique(a, b, qu, -ru);
    } else if a >= 0 && b < 0 {
        if ru == 0 {
            assert(a == b * (-qu) + 0) by (nonlinear_arith)
                requires
                    a == ua,
                    b == -ub,
                    ua == ub * qu + ru,
                    ru == 0,
            ;
            lemma_floor_div_unique(a, b, -qu, 0);
        } else {
            assert(a == b * (-qu - 1) + (ru + b)) by (nonlinear_arith)
                requires
                    a == ua,
                    b == -ub,
                    ua == ub * qu + ru,
            ;
            lemma_floor_div_unique(a, b, -qu - 1, ru + b);
        }
    } else {
        if ru == 0 {
            assert(a == b * (-qu) + 0) by (nonlinear_arith)
                requires
                    a == -ua,
                    b == ub,
                    ua == ub * qu + ru,
                    ru == 0,
            ;
            lemma_floor_div_unique(a, b, -qu, 0);
        } else {
            assert(a == b * (-qu - 1) + (b - ru)) by (nonlinear_arith)
                requires
                    a == -ua,
                    b == ub,
                    ua == ub * qu + ru,
            ;
            lemma_floor_div_unique(a, b, -qu - 1, b - ru);
        }
    }
}

/// Any quotient whose remainder lies in the floor-division range is the
/// floor quotient.
proof fn lemma_floor_div_unique(a: int, b: int, q: int, r: int)
    requires
        b != 0,
        a == b * q + r,
        b > 0 ==> 0 <= r < b,
        b < 0 ==> b < r <= 0,
    ensures
        q == floor_div(a, b),
{
    let f = floor_div(a, b);
    lemma_floor_div_bounds(a, b);
    if q != f {
        assert(b * (f + 1) == b * f + b) by (nonlinear_arith);
        assert(b * q - b * f == (q - f) * b) by (nonlinear_arith);
        assert((q - f) * b >= (if b > 0 { b } else { -b }) || (q - f) * b <= (if b > 0 {
            -b
        } else {
            b
        })) by (nonlinear_arith)
            requires
                q - f != 0,
                b != 0,
        ;
        assert(false);
    }
}

} // verus!


