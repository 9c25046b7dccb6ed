//! The shape abstraction: every shape reduces to a basic form, and overlap
//! tests dispatch on the pair of basic forms.
use vstd::prelude::*;
use crate::geometry::{dist2, square_dist, Point, TOLERANCE};

verus! {

/// Slack on a distance (not a squared distance) that covers `TOLERANCE`:
/// its square is at least `TOLERANCE`.
pub const LINEAR_TOLERANCE: u64 = 32;

/// The kind of outline a shape has.
#[derive(Clone, Copy, Debug, PartialEq, Eq, Structural)]
pub enum ShapeType {
    Circle,
    Rect,
    RegularPolygon,
    Star,
    Other,
}

/// The reduced form of a shape, used to pick an overlap test.
#[derive(Clone, Debug)]
pub enum BasicShape {
    /// A disc: center and radius.
    Circle(Point, u32),
    /// An axis-aligned box: its top-left corner, width and height; it
    /// extends right and down (towards smaller `y`) from the corner.
    Rect(Point, u32, u32),
    /// Any other outline, given by points sampled along its boundary.
    Other(Vec<Point>),
}

/// The point `(x, y)` lies in the disc of center `c` and radius `r`, up to
/// the tolerance.
pub open spec fn covers(c: Point, r: int, x: int, y: int) -> bool {
    (c.x - x) * (c.x - x) + (c.y - y) * (c.y - y) <= r * r + TOLERANCE
}

/// The seven outline points of a box that the disc test samples: the
/// corner, the midpoint and end of its left edge, the midpoint and end of
/// its bottom edge, the midpoint of its right edge and its last corner.
pub open spec fn rect_samples(cl: Point, w: int, h: int) -> Seq<(int, int)> {
    seq![
        (cl.x as int, cl.y as int),
        (cl.x as int, cl.y - h / 2),
        (cl.x as int, cl.y - h),
        (cl.x + w / 2, cl.y - h),
        (cl.x + w, cl.y - h),
        (cl.x + w, cl.y - h / 2),
        (cl.x + w, cl.y as int),
    ]
}

/// Some point of `pts` lies in the disc of center `c` and radius `r`, up to
/// the tolerance.
pub open spec fn covers_any(c: Point, r: int, pts: Seq<(int, int)>) -> bool
    decreases pts.len(),
{
    if pts.len() == 0 {
        false
    } else {
        covers_any(c, r, pts.drop_last()) || covers(c, r, pts.last().0, pts.last().1)
    }
}

/// The coordinates of a sequence of points.
pub open spec fn coords(pts: Seq<Point>) -> Seq<(int, int)> {
    pts.map_values(|p: Point| (p.x as int, p.y as int))
}

/// A disc overlaps a basic form.
pub open spec fn disc_overlaps(c: Point, r: int, other: BasicShape) -> bool {
    match other {
        BasicShape::Circle(c2, r2) => dist2(c, c2) <= (r + r2) * (r + r2) + TOLERANCE,
        BasicShape::Rect(cl, w, h) => covers_any(c, r, rect_samples(cl, w as int, h as int)),
        BasicShape::Other(pts) => covers_any(c, r, coords(pts@)),
    }
}

/// Two basic forms overlap. Pairs that hold a disc use the disc's test;
/// pairs without a disc have no test and never overlap.
pub open spec fn forms_overlap(a: BasicShape, b: BasicShape) -> bool {
    match a {
        BasicShape::Circle(c, r) => disc_overlaps(c, r as int, b),
        _ => match b {
            BasicShape::Circle(c, r) => disc_overlaps(c, r as int, a),
            _ => false,
        },
    }
}

/// A basic form contains a point: for a disc, the squared distance to its
/// center is at most the squared radius, up to the tolerance.
pub open spec fn form_contains(a: BasicShape, p: Point) -> bool {
    match a {
        BasicShape::Circle(c, r) => dist2(c, p) <= r * r + TOLERANCE,
        BasicShape::Rect(cl, w, h) => cl.x <= p.x <= cl.x + w && cl.y - h <= p.y <= cl.y,
        BasicShape::Other(_) => false,
    }
}

/// What every shape offers.
pub trait Shape {
    spec fn form(&self) -> BasicShape;

    spec fn center(&self) -> Point;

    /// Whether this shape overlaps another shape given by its basic form.
    fn collides(&self, other: &BasicShape) -> (r: bool)
        ensures
            r == forms_overlap(self.form(), *other),
    ;

    /// Whether this shape contains a point.
    fn contains_point(&self, p: Point) -> (r: bool)
        ensures
            r == form_contains(self.form(), p),
    ;

    fn get_center(&self) -> (r: Point)
        ensures
            r == self.center(),
    ;

    fn get_shape_type(&self) -> ShapeType;

    fn into_basic_shape(&self) -> (r: BasicShape)
        ensures
            r == self.form(),
    ;
}

/// Whether `(x, y)` lies in the disc of center `c` and radius `r`, up to the
/// tolerance.
fn covers_at(c: Point, r: u32, x: i64, y: i64) -> (b: bool)
    requires
        -0x2_0000_0000 <= x <= 0x2_0000_0000,
        -0x2_0000_0000 <= y <= 0x2_0000_0000,
    ensures
        b == covers(c, r as int, x as int, y as int),
{
    let dx: i128 = c.x as i128 - x as i128;
    let dy: i128 = c.y as i128 - y as i128;
    assert(dx * dx <= 0x10_0000_0000_0000_0000 && dy * dy <= 0x10_0000_0000_0000_0000)
        by (nonlinear_arith)
        requires -0x4_0000_0000 <= dx <= 0x4_0000_0000, -0x4_0000_0000 <= dy <= 0x4_0000_0000;
    assert(0 <= dx * dx && 0 <= dy * dy) by (nonlinear_arith);
    assert((r as int) * (r as int) <= 0x1_0000_0000_0000_0000) by (nonlinear_arith)
        requires r <= 0xffff_ffff;
    let rr: i128 = r as i128 * r as i128;
    dx * dx + dy * dy <= rr + TOLERANCE as i128
}

/// Whether the disc of center `c` and radius `r` overlaps a basic form.
pub fn disc_collides(c: Point, r: u32, other: &BasicShape) -> (b: bool)
    ensures
        b == disc_overlaps(c, r as int, *other),
{
    match other {
        BasicShape::Circle(c2, r2) => {
            let d = square_dist(c, *c2);
            let s: u128 = r as u128 + *r2 as u128;
            assert(s * s <= 0x4_0000_0000_0000_0000) by (nonlinear_arith)
                requires s <= 0x2_0000_0000;
            d <= s * s + TOLERANCE
        },
        BasicShape::Rect(cl, w, h) => {
            let x0: i64 = cl.x as i64;
            let y0: i64 = cl.y as i64;
            let wi: i64 = *w as i64;
            let hi: i64 = *h as i64;
            let xs: [i64; 7] = [x0, x0, x0, x0 + wi / 2, x0 + wi, x0 + wi, x0 + wi];
            let ys: [i64; 7] = [y0, y0 - hi / 2, y0 - hi, y0 - hi, y0 - hi, y0 - hi / 2, y0];
            let ghost samples = rect_samples(*cl, *w as int, *h as int);
            assert(samples.len() == 7);
            assert(forall|j: int| 0 <= j < 7 ==> xs[j] == #[trigger] samples[j].0 && ys[j] == samples[j].1);
            let mut k: usize = 0;
            while k < 7
                invariant
                    0 <= k <= 7,
                    *other == BasicShape::Rect(*cl, *w, *h),
                    samples == rect_samples(*cl, *w as int, *h as int),
                    samples.len() == 7,
                    forall|j: int| 0 <= j < 7 ==> -0x2_0000_0000 <= #[trigger] xs[j] <= 0x2_0000_0000
                        && -0x2_0000_0000 <= ys[j] <= 0x2_0000_0000,
                    forall|j: int| 0 <= j < 7 ==> xs[j] == #[trigger] samples[j].0 && ys[j] == samples[j].1,
                    !covers_any(c, r as int, samples.take(k as int)),
                decreases 7 - k,
            {
                assert(samples.take(k + 1).drop_last() == samples.take(k as int));
                if covers_at(c, r, xs[k], ys[k]) {
                    proof {
                        lemma_covers_any_prefix(c, r as int, samples, k as int + 1);
                    }
                    return true;
                }
                k = k + 1;
            }
            assert(samples.take(7) == samples);
            false
        },
        BasicShape::Other(pts) => {
            let ghost samples = coords(pts@);
            let mut k: usize = 0;
            while k < pts.len()
                invariant
                    0 <= k <= pts.len(),
                    *other == BasicShape::Other(*pts),
                    samples == coords(pts@),
                    samples.len() == pts.len(),
                    !covers_any(c, r as int, samples.take(k as int)),
                decreases pts.len() - k,
            {
                assert(samples.take(k + 1).drop_last() == samples.take(k as int));
                if covers_at(c, r, pts[k].x as i64, pts[k].y as i64) {
                    proof {
                        lemma_covers_any_prefix(c, r as int, samples, k as int + 1);
                    }
                    return true;
                }
                k = k + 1;
            }
            assert(samples.take(pts.len() as int) == samples);
            false
        },
    }
}

/// A prefix with a covered point makes the whole sequence covered.
proof fn lemma_covers_any_prefix(c: Point, r: int, pts: Seq<(int, int)>, n: int)
    requires
        0 <= n <= pts.len(),
        covers_any(c, r, pts.take(n)),
    ensures
        covers_any(c, r, pts),
    decreases pts.len() - n,
{
    if n < pts.len() {
        assert(pts.take(n + 1).drop_last() == pts.take(n));
        lemma_covers_any_prefix(c, r, pts, n + 1);
    } else {
        assert(pts.take(n) == pts);
    }
}

/// Whether two basic forms overlap.
pub fn basic_forms_overlap(a: &BasicShape, b: &BasicShape) -> (r: bool)
    ensures
        r == forms_overlap(*a, *b),
{
    match a {
        BasicShape::Circle(c, r) => disc_collides(*c, *r, b),
        _ => match b {
            BasicShape::Circle(c, r) => disc_collides(*c, *r, a),
            _ => false,
        },
    }
}

/// Whether the disc of center `c` and radius `r` contains `p`, up to the
/// tolerance.
pub fn disc_contains(c: Point, r: u32, p: Point) -> (b: bool)
    ensures
        b == form_contains(BasicShape::Circle(c, r), p),
{
    let d = square_dist(c, p);
    assert((r as int) * (r as int) <= 0x1_0000_0000_0000_0000) by (nonlinear_arith)
        requires r <= 0xffff_ffff;
    let rr: u128 = r as u128 * r as u128;
    d <= rr + TOLERANCE
}

/// Two discs whose centers are closer than the sum of their radii less the
/// tolerance overlap, and two discs whose centers are farther apart than
/// that sum plus the tolerance do not.
pub proof fn lemma_disc_overlap_band(c1: Point, r1: u32, c2: Point, r2: u32)
    ensures
        ({
            let a = BasicShape::Circle(c1, r1);
            let b = BasicShape::Circle(c2, r2);
            let s = r1 + r2;
            let t = LINEAR_TOLERANCE as int;
            &&& (s >= t && dist2(c1, c2) < (s - t) * (s - t) ==> forms_overlap(a, b))
            &&& (dist2(c1, c2) > (s + t) * (s + t) ==> !forms_overlap(a, b))
        }),
{
    let s: int = r1 + r2;
    let t: int = LINEAR_TOLERANCE as int;
    assert(s >= t ==> (s - t) * (s - t) <= s * s) by (nonlinear_arith)
        requires s >= 0, t >= 0;
    assert((s + t) * (s + t) >= s * s + TOLERANCE) by (nonlinear_arith)
        requires s >= 0, t == 32;
}

/// A disc contains a point exactly when the squared distance from its
/// center is within the tolerance of the squared radius or below it.
pub proof fn lemma_disc_contains(c: Point, r: u32, p: Point)
    ensures
        form_contains(BasicShape::Circle(c, r), p) <==> dist2(p, c) <= r * r + TOLERANCE,
{
    assert(dist2(p, c) == dist2(c, p)) by (nonlinear_arith);
}


/// Overlap does not depend on the order of the two forms.
pub proof fn lemma_overlap_symmetric(a: BasicShape, b: BasicShape)
    ensures
        forms_overlap(a, b) == forms_overlap(b, a),
{
    match (a, b) {
        (BasicShape::Circle(c1, r1), BasicShape::Circle(c2, r2)) => {
            assert(dist2(c1, c2) == dist2(c2, c1)) by (nonlinear_arith);
            assert((r1 + r2) * (r1 + r2) == (r2 + r1) * (r2 + r1));
        },
        _ => {},
    }
}

} // verus!
