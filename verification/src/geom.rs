//! Shape primitives: rectangles, circles, and their intersection and
//! containment tests.
//!
//! Coordinates live on an integer grid (`i32`). All comparisons are
//! inclusive: regions are closed, so two shapes that merely touch count as
//! intersecting, and a shape lying exactly on a boundary line is treated as
//! overlapping both sides. Executable code computes in `i64`/`i128` so that
//! no intermediate product can overflow for any `i32` input.

use vstd::prelude::*;

verus! {

/// An axis-aligned rectangle: the closed region
/// `[x, x + width] x [y, y + height]`.
#[derive(Clone, Copy, PartialEq, Eq, Structural, Debug)]
pub struct Rectangle {
    pub x: i32,
    pub y: i32,
    pub width: i32,
    pub height: i32,
}

/// A circle: the closed disc of the given radius around `(x, y)`.
#[derive(Clone, Copy, PartialEq, Eq, Structural, Debug)]
pub struct Circle {
    pub x: i32,
    pub y: i32,
    pub radius: i32,
}

/// The two shape variants an entity can carry.
#[derive(Clone, Copy, PartialEq, Eq, Structural, Debug)]
pub enum ShapeEnum {
    Circle(Circle),
    Rectangle(Rectangle),
}

/// A node rectangle is well formed when its sides are non-negative and its
/// far corner still fits on the `i32` grid.
pub open spec fn rect_wf(r: Rectangle) -> bool {
    &&& r.width >= 0
    &&& r.height >= 0
    &&& r.x + r.width <= i32::MAX
    &&& r.y + r.height <= i32::MAX
}

/// A shape is valid when its extent is strictly positive; anything else is a
/// caller contract violation (`InvalidShape`).
pub open spec fn spec_shape_valid(s: ShapeEnum) -> bool {
    match s {
        ShapeEnum::Circle(c) => c.radius > 0,
        ShapeEnum::Rectangle(r) => r.width > 0 && r.height > 0,
    }
}

/// Left edge of a shape's bounding box.
pub open spec fn bb_x0(s: ShapeEnum) -> int {
    match s {
        ShapeEnum::Circle(c) => c.x - c.radius,
        ShapeEnum::Rectangle(r) => r.x as int,
    }
}

/// Right edge of a shape's bounding box.
pub open spec fn bb_x1(s: ShapeEnum) -> int {
    match s {
        ShapeEnum::Circle(c) => c.x + c.radius,
        ShapeEnum::Rectangle(r) => r.x + r.width,
    }
}

/// Bottom edge of a shape's bounding box.
pub open spec fn bb_y0(s: ShapeEnum) -> int {
    match s {
        ShapeEnum::Circle(c) => c.y - c.radius,
        ShapeEnum::Rectangle(r) => r.y as int,
    }
}

/// Top edge of a shape's bounding box.
pub open spec fn bb_y1(s: ShapeEnum) -> int {
    match s {
        ShapeEnum::Circle(c) => c.y + c.radius,
        ShapeEnum::Rectangle(r) => r.y + r.height,
    }
}

/// Closed intervals `[a0, a1]` and `[b0, b1]` overlap.
pub open spec fn ivals_overlap(a0: int, a1: int, b0: int, b1: int) -> bool {
    a0 <= b1 && b0 <= a1
}

/// The bounding boxes of two shapes overlap.
pub open spec fn spec_bb_overlap(a: ShapeEnum, b: ShapeEnum) -> bool {
    &&& ivals_overlap(bb_x0(a), bb_x1(a), bb_x0(b), bb_x1(b))
    &&& ivals_overlap(bb_y0(a), bb_y1(a), bb_y0(b), bb_y1(b))
}

/// A shape's bounding box overlaps a rectangle (the pruning test used by the
/// query traversal).
pub open spec fn spec_bb_sects_rect(s: ShapeEnum, r: Rectangle) -> bool {
    &&& ivals_overlap(bb_x0(s), bb_x1(s), r.x as int, r.x + r.width)
    &&& ivals_overlap(bb_y0(s), bb_y1(s), r.y as int, r.y + r.height)
}

/// A shape's bounding box lies fully inside a rectangle.
pub open spec fn spec_shape_in_rect(s: ShapeEnum, r: Rectangle) -> bool {
    &&& r.x <= bb_x0(s)
    &&& bb_x1(s) <= r.x + r.width
    &&& r.y <= bb_y0(s)
    &&& bb_y1(s) <= r.y + r.height
}

/// Rectangle `a` lies fully inside rectangle `b`.
pub open spec fn spec_rect_in_rect(a: Rectangle, b: Rectangle) -> bool {
    &&& b.x <= a.x
    &&& a.x + a.width <= b.x + b.width
    &&& b.y <= a.y
    &&& a.y + a.height <= b.y + b.height
}

/// `v` clamped into `[lo, hi]`.
pub open spec fn clampi(v: int, lo: int, hi: int) -> int {
    if v < lo {
        lo
    } else if v > hi {
        hi
    } else {
        v
    }
}

/// Two circles intersect: their centres are no farther apart than the sum of
/// the radii.
pub open spec fn spec_cc_sects(a: Circle, b: Circle) -> bool {
    let dx: int = a.x - b.x;
    let dy: int = a.y - b.y;
    let rr: int = a.radius + b.radius;
    dx * dx + dy * dy <= rr * rr
}

/// A circle and a rectangle intersect: the point of the rectangle nearest to
/// the centre is within the radius.
pub open spec fn spec_cr_sects(c: Circle, r: Rectangle) -> bool {
    let px: int = clampi(c.x as int, r.x as int, r.x + r.width);
    let py: int = clampi(c.y as int, r.y as int, r.y + r.height);
    let dx: int = c.x - px;
    let dy: int = c.y - py;
    dx * dx + dy * dy <= c.radius * c.radius
}

/// Two shapes intersect (closed regions: touching counts).
pub open spec fn spec_sects(a: ShapeEnum, b: ShapeEnum) -> bool {
    match (a, b) {
        (ShapeEnum::Rectangle(_), ShapeEnum::Rectangle(_)) => spec_bb_overlap(a, b),
        (ShapeEnum::Circle(ca), ShapeEnum::Circle(cb)) => spec_cc_sects(ca, cb),
        (ShapeEnum::Circle(ca), ShapeEnum::Rectangle(rb)) => spec_cr_sects(ca, rb),
        (ShapeEnum::Rectangle(ra), ShapeEnum::Circle(cb)) => spec_cr_sects(cb, ra),
    }
}

/// Quadrant `q` of a rectangle: 0 = NW, 1 = NE, 2 = SW, 3 = SE, produced by
/// halving the sides (the east/south halves absorb an odd remainder).
pub open spec fn spec_quadrant(r: Rectangle, q: int) -> Rectangle {
    let w1: int = r.width / 2;
    let h1: int = r.height / 2;
    if q == 0 {
        Rectangle { x: r.x, y: r.y, width: w1 as i32, height: h1 as i32 }
    } else if q == 1 {
        Rectangle {
            x: (r.x + w1) as i32,
            y: r.y,
            width: (r.width - w1) as i32,
            height: h1 as i32,
        }
    } else if q == 2 {
        Rectangle {
            x: r.x,
            y: (r.y + h1) as i32,
            width: w1 as i32,
            height: (r.height - h1) as i32,
        }
    } else {
        Rectangle {
            x: (r.x + w1) as i32,
            y: (r.y + h1) as i32,
            width: (r.width - w1) as i32,
            height: (r.height - h1) as i32,
        }
    }
}

/// `x * x <= m * m` whenever `|x| <= m`.
pub proof fn lemma_square_bound(x: int, m: int)
    requires
        -m <= x,
        x <= m,
        0 <= m,
    ensures
        0 <= x * x,
        x * x <= m * m,
{
    assert(0 <= x * x) by (nonlinear_arith);
    assert(x * x <= m * m) by (nonlinear_arith)
        requires
            -m <= x,
            x <= m,
            0 <= m,
    ;
}

/// `|x| <= m` whenever `x * x <= m * m` and `m >= 0`.
pub proof fn lemma_square_le_implies_abs_le(x: int, m: int)
    requires
        x * x <= m * m,
        0 <= m,
    ensures
        -m <= x,
        x <= m,
{
    assert(-m <= x && x <= m) by (nonlinear_arith)
        requires
            x * x <= m * m,
            0 <= m,
    ;
}

/// Every valid shape intersects itself.
pub proof fn lemma_sects_self(s: ShapeEnum)
    requires
        spec_shape_valid(s),
    ensures
        spec_sects(s, s),
{
    match s {
        ShapeEnum::Circle(c) => {
            lemma_square_bound(0, 2 * c.radius);
        }
        ShapeEnum::Rectangle(_) => {}
    }
}

/// Intersection is symmetric.
pub proof fn lemma_sects_symm(a: ShapeEnum, b: ShapeEnum)
    ensures
        spec_sects(a, b) == spec_sects(b, a),
{
    match (a, b) {
        (ShapeEnum::Circle(ca), ShapeEnum::Circle(cb)) => {
            assert((ca.x - cb.x) * (ca.x - cb.x) == (cb.x - ca.x) * (cb.x - ca.x))
                by (nonlinear_arith);
            assert((ca.y - cb.y) * (ca.y - cb.y) == (cb.y - ca.y) * (cb.y - ca.y))
                by (nonlinear_arith);
        }
        _ => {}
    }
}

/// If two valid shapes intersect, their bounding boxes overlap.
pub proof fn lemma_sects_implies_bb_overlap(a: ShapeEnum, b: ShapeEnum)
    requires
        spec_shape_valid(a),
        spec_shape_valid(b),
        spec_sects(a, b),
    ensures
        spec_bb_overlap(a, b),
{
    match (a, b) {
        (ShapeEnum::Circle(ca), ShapeEnum::Circle(cb)) => {
            let dx: int = ca.x - cb.x;
            let dy: int = ca.y - cb.y;
            let rr: int = ca.radius + cb.radius;
            lemma_square_bound(dx, if dx >= 0 { dx } else { -dx });
            lemma_square_bound(dy, if dy >= 0 { dy } else { -dy });
            assert(dx * dx <= rr * rr);
            assert(dy * dy <= rr * rr);
            lemma_square_le_implies_abs_le(dx, rr);
            lemma_square_le_implies_abs_le(dy, rr);
        }
        (ShapeEnum::Circle(ca), ShapeEnum::Rectangle(rb)) => {
            lemma_cr_sects_implies_bb_overlap(ca, rb);
        }
        (ShapeEnum::Rectangle(ra), ShapeEnum::Circle(cb)) => {
            lemma_cr_sects_implies_bb_overlap(cb, ra);
        }
        (ShapeEnum::Rectangle(_), ShapeEnum::Rectangle(_)) => {}
    }
}

/// Helper for the circle/rectangle case of `lemma_sects_implies_bb_overlap`.
proof fn lemma_cr_sects_implies_bb_overlap(c: Circle, r: Rectangle)
    requires
        c.radius > 0,
        r.width > 0,
        r.height > 0,
        spec_cr_sects(c, r),
    ensures
        ivals_overlap(c.x - c.radius, c.x + c.radius, r.x as int, r.x + r.width),
        ivals_overlap(c.y - c.radius, c.y + c.radius, r.y as int, r.y + r.height),
{
    let px: int = clampi(c.x as int, r.x as int, r.x + r.width);
    let py: int = clampi(c.y as int, r.y as int, r.y + r.height);
    let dx: int = c.x - px;
    let dy: int = c.y - py;
    lemma_square_bound(dx, if dx >= 0 { dx } else { -dx });
    lemma_square_bound(dy, if dy >= 0 { dy } else { -dy });
    assert(dx * dx <= c.radius * c.radius);
    assert(dy * dy <= c.radius * c.radius);
    lemma_square_le_implies_abs_le(dx, c.radius as int);
    lemma_square_le_implies_abs_le(dy, c.radius as int);
}

/// A query shape whose bounding box misses a rectangle cannot intersect any
/// valid shape contained in that rectangle: this justifies pruning a whole
/// subtree during a collision query.
pub proof fn lemma_prune(q: ShapeEnum, s: ShapeEnum, r: Rectangle)
    requires
        spec_shape_valid(q),
        spec_shape_valid(s),
        spec_shape_in_rect(s, r),
        !spec_bb_sects_rect(q, r),
    ensures
        !spec_sects(q, s),
{
    if spec_sects(q, s) {
        lemma_sects_implies_bb_overlap(q, s);
    }
}

/// Each quadrant of a well-formed rectangle is well formed and lies inside
/// its parent.
pub proof fn lemma_quadrant(r: Rectangle, q: int)
    requires
        rect_wf(r),
        0 <= q < 4,
    ensures
        rect_wf(spec_quadrant(r, q)),
        spec_rect_in_rect(spec_quadrant(r, q), r),
{
    assert(0 <= r.width / 2 <= r.width);
    assert(0 <= r.height / 2 <= r.height);
}

/// Containment in nested rectangles composes.
pub proof fn lemma_shape_in_rect_trans(s: ShapeEnum, a: Rectangle, b: Rectangle)
    requires
        spec_shape_in_rect(s, a),
        spec_rect_in_rect(a, b),
    ensures
        spec_shape_in_rect(s, b),
{
}

/// `v * v`, exactly, for any `v` small enough that the square fits `i128`.
fn sq(v: i64) -> (res: i128)
    requires
        -0x8_0000_0000 <= v <= 0x8_0000_0000,
    ensures
        res == v * v,
        0 <= res <= 0x40_0000_0000_0000_0000,
{
    proof {
        lemma_square_bound(v as int, 0x8_0000_0000);
    }
    (v as i128) * (v as i128)
}

/// Reports whether a shape has strictly positive extent.
pub fn shape_valid(s: &ShapeEnum) -> (res: bool)
    ensures
        res == spec_shape_valid(*s),
{
    match s {
        ShapeEnum::Circle(c) => c.radius > 0,
        ShapeEnum::Rectangle(r) => r.width > 0 && r.height > 0,
    }
}

/// Left edge of the bounding box, widened to `i64`.
fn bb_x0_e(s: &ShapeEnum) -> (res: i64)
    ensures
        res == bb_x0(*s),
{
    match s {
        ShapeEnum::Circle(c) => c.x as i64 - c.radius as i64,
        ShapeEnum::Rectangle(r) => r.x as i64,
    }
}

/// Right edge of the bounding box, widened to `i64`.
fn bb_x1_e(s: &ShapeEnum) -> (res: i64)
    ensures
        res == bb_x1(*s),
{
    match s {
        ShapeEnum::Circle(c) => c.x as i64 + c.radius as i64,
        ShapeEnum::Rectangle(r) => r.x as i64 + r.width as i64,
    }
}

/// Bottom edge of the bounding box, widened to `i64`.
fn bb_y0_e(s: &ShapeEnum) -> (res: i64)
    ensures
        res == bb_y0(*s),
{
    match s {
        ShapeEnum::Circle(c) => c.y as i64 - c.radius as i64,
        ShapeEnum::Rectangle(r) => r.y as i64,
    }
}

/// Top edge of the bounding box, widened to `i64`.
fn bb_y1_e(s: &ShapeEnum) -> (res: i64)
    ensures
        res == bb_y1(*s),
{
    match s {
        ShapeEnum::Circle(c) => c.y as i64 + c.radius as i64,
        ShapeEnum::Rectangle(r) => r.y as i64 + r.height as i64,
    }
}

/// Circle/circle intersection test.
fn cc_sects(a: &Circle, b: &Circle) -> (res: bool)
    ensures
        res == spec_cc_sects(*a, *b),
{
    let dx: i64 = a.x as i64 - b.x as i64;
    let dy: i64 = a.y as i64 - b.y as i64;
    let rr: i64 = a.radius as i64 + b.radius as i64;
    let d2: i128 = sq(dx) + sq(dy);
    d2 <= sq(rr)
}

/// Circle/rectangle intersection test: clamp the centre into the rectangle
/// and compare the squared distance with the squared radius.
fn cr_sects(c: &Circle, r: &Rectangle) -> (res: bool)
    ensures
        res == spec_cr_sects(*c, *r),
{
    let x1: i64 = r.x as i64 + r.width as i64;
    let y1: i64 = r.y as i64 + r.height as i64;
    let cx: i64 = c.x as i64;
    let cy: i64 = c.y as i64;
    let px: i64 = if cx < r.x as i64 {
        r.x as i64
    } else if cx > x1 {
        x1
    } else {
        cx
    };
    let py: i64 = if cy < r.y as i64 {
        r.y as i64
    } else if cy > y1 {
        y1
    } else {
        cy
    };
    let d2: i128 = sq(cx - px) + sq(cy - py);
    d2 <= sq(c.radius as i64)
}

/// Reports whether two shapes intersect (closed regions: touching counts).
pub fn sects(a: &ShapeEnum, b: &ShapeEnum) -> (res: bool)
    ensures
        res == spec_sects(*a, *b),
{
    match (a, b) {
        (ShapeEnum::Circle(ca), ShapeEnum::Circle(cb)) => cc_sects(ca, cb),
        (ShapeEnum::Circle(ca), ShapeEnum::Rectangle(rb)) => cr_sects(ca, rb),
        (ShapeEnum::Rectangle(ra), ShapeEnum::Circle(cb)) => cr_sects(cb, ra),
        (ShapeEnum::Rectangle(_), ShapeEnum::Rectangle(_)) => {
            bb_x0_e(a) <= bb_x1_e(b) && bb_x0_e(b) <= bb_x1_e(a) && bb_y0_e(a) <= bb_y1_e(b)
                && bb_y0_e(b) <= bb_y1_e(a)
        }
    }
}

/// Reports whether a shape's bounding box lies fully inside a rectangle.
pub fn shape_in_rect(s: &ShapeEnum, r: &Rectangle) -> (res: bool)
    ensures
        res == spec_shape_in_rect(*s, *r),
{
    let rx1: i64 = r.x as i64 + r.width as i64;
    let ry1: i64 = r.y as i64 + r.height as i64;
    r.x as i64 <= bb_x0_e(s) && bb_x1_e(s) <= rx1 && r.y as i64 <= bb_y0_e(s) && bb_y1_e(s) <= ry1
}

/// Reports whether a shape's bounding box overlaps a rectangle.
pub fn bb_sects_rect(s: &ShapeEnum, r: &Rectangle) -> (res: bool)
    ensures
        res == spec_bb_sects_rect(*s, *r),
{
    let rx1: i64 = r.x as i64 + r.width as i64;
    let ry1: i64 = r.y as i64 + r.height as i64;
    bb_x0_e(s) <= rx1 && r.x as i64 <= bb_x1_e(s) && bb_y0_e(s) <= ry1 && r.y as i64 <= bb_y1_e(s)
}

/// Quadrant `q` of a well-formed rectangle (0 = NW, 1 = NE, 2 = SW, 3 = SE).
pub fn quadrant(r: &Rectangle, q: usize) -> (res: Rectangle)
    requires
        rect_wf(*r),
        q < 4,
    ensures
        res == spec_quadrant(*r, q as int),
        rect_wf(res),
        spec_rect_in_rect(res, *r),
{
    proof {
        lemma_quadrant(*r, q as int);
    }
    let w1: i32 = r.width / 2;
    let h1: i32 = r.height / 2;
    if q == 0 {
        Rectangle { x: r.x, y: r.y, width: w1, height: h1 }
    } else if q == 1 {
        Rectangle { x: r.x + w1, y: r.y, width: r.width - w1, height: h1 }
    } else if q == 2 {
        Rectangle { x: r.x, y: r.y + h1, width: w1, height: r.height - h1 }
    } else {
        Rectangle { x: r.x + w1, y: r.y + h1, width: r.width - w1, height: r.height - h1 }
    }
}

} // verus!
