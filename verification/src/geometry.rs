//! Points, rectangles and transforms.

use vstd::prelude::*;

use crate::number::scalar::Scalar;

verus! {

/// One of the two directions of the plane.
#[derive(Clone, Copy, Debug, PartialEq, Eq, Structural)]
pub enum Axis {
    Horizontal,
    Vertical,
}

/// A position.
#[derive(Clone, Copy, Debug, PartialEq)]
pub struct Point {
    pub x: Scalar,
    pub y: Scalar,
}

/// A displacement.
#[derive(Clone, Copy, Debug, PartialEq)]
pub struct Vec2 {
    pub x: Scalar,
    pub y: Scalar,
}

/// A width and a height.
#[derive(Clone, Copy, Debug, PartialEq)]
pub struct Size {
    pub width: Scalar,
    pub height: Scalar,
}

/// A rectangle by its edges. Nothing forbids a negative width or height.
#[derive(Clone, Copy, Debug, PartialEq)]
pub struct Rect {
    pub x0: Scalar,
    pub y0: Scalar,
    pub x1: Scalar,
    pub y1: Scalar,
}

/// The map that takes `(x, y)` to `(a * x + c * y + e, b * x + d * y + f)`.
#[derive(Clone, Copy, Debug, PartialEq)]
pub struct Affine {
    pub a: Scalar,
    pub b: Scalar,
    pub c: Scalar,
    pub d: Scalar,
    pub e: Scalar,
    pub f: Scalar,
}

impl Point {
    pub open spec fn spec_new(x: Scalar, y: Scalar) -> Point {
        Point { x, y }
    }

    #[verifier::when_used_as_spec(spec_new)]
    pub fn new(x: Scalar, y: Scalar) -> (r: Point)
        ensures
            r == Point::new(x, y),
    {
        Point { x, y }
    }

    pub open spec fn spec_origin() -> Point {
        Point { x: Scalar::zero(), y: Scalar::zero() }
    }

    /// The point that coordinates are counted from.
    #[verifier::when_used_as_spec(spec_origin)]
    pub fn origin() -> (r: Point)
        ensures
            r == Point::origin(),
    {
        Point { x: Scalar::zero(), y: Scalar::zero() }
    }

    pub open spec fn spec_same(self, other: Point) -> bool {
        self.x.same(other.x) && self.y.same(other.y)
    }

    /// Whether both coordinates are the same numbers.
    #[verifier::when_used_as_spec(spec_same)]
    pub fn same(self, other: Point) -> (r: bool)
        ensures
            r == self.same(other),
    {
        self.x.same(other.x) && self.y.same(other.y)
    }

    pub open spec fn spec_to(self, other: Point) -> Vec2 {
        Vec2 { x: other.x.minus(self.x), y: other.y.minus(self.y) }
    }

    /// The displacement from here to `other`.
    #[verifier::when_used_as_spec(spec_to)]
    pub fn to(self, other: Point) -> (r: Vec2)
        ensures
            r == self.to(other),
    {
        Vec2 { x: other.x.minus(self.x), y: other.y.minus(self.y) }
    }

    pub open spec fn spec_back(self, by: Vec2) -> Point {
        Point { x: self.x.minus(by.x), y: self.y.minus(by.y) }
    }

    /// The point that `by` leads here from.
    #[verifier::when_used_as_spec(spec_back)]
    pub fn back(self, by: Vec2) -> (r: Point)
        ensures
            r == self.back(by),
    {
        Point { x: self.x.minus(by.x), y: self.y.minus(by.y) }
    }
}

impl Vec2 {
    pub open spec fn spec_new(x: Scalar, y: Scalar) -> Vec2 {
        Vec2 { x, y }
    }

    #[verifier::when_used_as_spec(spec_new)]
    pub fn new(x: Scalar, y: Scalar) -> (r: Vec2)
        ensures
            r == Vec2::new(x, y),
    {
        Vec2 { x, y }
    }
}

impl Size {
    pub open spec fn spec_new(width: Scalar, height: Scalar) -> Size {
        Size { width, height }
    }

    #[verifier::when_used_as_spec(spec_new)]
    pub fn new(width: Scalar, height: Scalar) -> (r: Size)
        ensures
            r == Size::new(width, height),
    {
        Size { width, height }
    }

    pub open spec fn spec_zero() -> Size {
        Size { width: Scalar::zero(), height: Scalar::zero() }
    }

    #[verifier::when_used_as_spec(spec_zero)]
    pub fn zero() -> (r: Size)
        ensures
            r == Size::zero(),
    {
        Size { width: Scalar::zero(), height: Scalar::zero() }
    }

    pub open spec fn spec_same(self, other: Size) -> bool {
        self.width.same(other.width) && self.height.same(other.height)
    }

    /// Whether both extents are the same numbers.
    #[verifier::when_used_as_spec(spec_same)]
    pub fn same(self, other: Size) -> (r: bool)
        ensures
            r == self.same(other),
    {
        self.width.same(other.width) && self.height.same(other.height)
    }
}

impl Rect {
    pub open spec fn spec_new(x0: Scalar, y0: Scalar, x1: Scalar, y1: Scalar) -> Rect {
        Rect { x0, y0, x1, y1 }
    }

    #[verifier::when_used_as_spec(spec_new)]
    pub fn new(x0: Scalar, y0: Scalar, x1: Scalar, y1: Scalar) -> (r: Rect)
        ensures
            r == Rect::new(x0, y0, x1, y1),
    {
        Rect { x0, y0, x1, y1 }
    }

    pub open spec fn spec_zero() -> Rect {
        Rect::new(Scalar::zero(), Scalar::zero(), Scalar::zero(), Scalar::zero())
    }

    #[verifier::when_used_as_spec(spec_zero)]
    pub fn zero() -> (r: Rect)
        ensures
            r == Rect::zero(),
    {
        Rect::new(Scalar::zero(), Scalar::zero(), Scalar::zero(), Scalar::zero())
    }

    pub open spec fn spec_abs(self) -> Rect {
        Rect::new(
            self.x0.min(self.x1),
            self.y0.min(self.y1),
            self.x0.max(self.x1),
            self.y0.max(self.y1),
        )
    }

    /// The same edges, in ascending order.
    #[verifier::when_used_as_spec(spec_abs)]
    pub fn abs(self) -> (r: Rect)
        ensures
            r == self.abs(),
    {
        Rect::new(
            self.x0.min(self.x1),
            self.y0.min(self.y1),
            self.x0.max(self.x1),
            self.y0.max(self.y1),
        )
    }

    pub open spec fn spec_from_points(p: Point, q: Point) -> Rect {
        Rect::new(p.x, p.y, q.x, q.y).abs()
    }

    /// The rectangle with `p` and `q` at opposite corners.
    #[verifier::when_used_as_spec(spec_from_points)]
    pub fn from_points(p: Point, q: Point) -> (r: Rect)
        ensures
            r == Rect::from_points(p, q),
    {
        Rect::new(p.x, p.y, q.x, q.y).abs()
    }

    pub open spec fn spec_from_origin_size(origin: Point, size: Size) -> Rect {
        Rect::from_points(
            origin,
            Point { x: origin.x.plus(size.width), y: origin.y.plus(size.height) },
        )
    }

    /// The rectangle of the given size at `origin`.
    #[verifier::when_used_as_spec(spec_from_origin_size)]
    pub fn from_origin_size(origin: Point, size: Size) -> (r: Rect)
        ensures
            r == Rect::from_origin_size(origin, size),
    {
        Rect::from_points(
            origin,
            Point { x: origin.x.plus(size.width), y: origin.y.plus(size.height) },
        )
    }

    pub open spec fn spec_width(self) -> Scalar {
        self.x1.minus(self.x0)
    }

    #[verifier::when_used_as_spec(spec_width)]
    pub fn width(self) -> (r: Scalar)
        ensures
            r == self.width(),
    {
        self.x1.minus(self.x0)
    }

    pub open spec fn spec_height(self) -> Scalar {
        self.y1.minus(self.y0)
    }

    #[verifier::when_used_as_spec(spec_height)]
    pub fn height(self) -> (r: Scalar)
        ensures
            r == self.height(),
    {
        self.y1.minus(self.y0)
    }

    pub open spec fn spec_size(self) -> Size {
        Size { width: self.width(), height: self.height() }
    }

    #[verifier::when_used_as_spec(spec_size)]
    pub fn size(self) -> (r: Size)
        ensures
            r == self.size(),
    {
        Size { width: self.width(), height: self.height() }
    }

    pub open spec fn spec_origin(self) -> Point {
        Point { x: self.x0, y: self.y0 }
    }

    #[verifier::when_used_as_spec(spec_origin)]
    pub fn origin(self) -> (r: Point)
        ensures
            r == self.origin(),
    {
        Point { x: self.x0, y: self.y0 }
    }

    pub open spec fn spec_contains(self, point: Point) -> bool {
        self.x0.at_most(point.x) && point.x.less(self.x1) && self.y0.at_most(point.y)
            && point.y.less(self.y1)
    }

    /// Whether `point` lies inside. The left and top edges count, the others do not.
    #[verifier::when_used_as_spec(spec_contains)]
    pub fn contains(self, point: Point) -> (r: bool)
        ensures
            r == self.contains(point),
    {
        self.x0.at_most(point.x) && point.x.less(self.x1) && self.y0.at_most(point.y)
            && point.y.less(self.y1)
    }

    pub open spec fn spec_overlaps(self, other: Rect) -> bool {
        self.x0.at_most(other.x1) && other.x0.at_most(self.x1) && self.y0.at_most(other.y1)
            && other.y0.at_most(self.y1)
    }

    /// Whether the two rectangles have a point in common, edges included.
    #[verifier::when_used_as_spec(spec_overlaps)]
    pub fn overlaps(self, other: Rect) -> (r: bool)
        ensures
            r == self.overlaps(other),
    {
        self.x0.at_most(other.x1) && other.x0.at_most(self.x1) && self.y0.at_most(other.y1)
            && other.y0.at_most(self.y1)
    }

    pub open spec fn spec_inflate(self, width: Scalar, height: Scalar) -> Rect {
        Rect::new(
            self.x0.minus(width),
            self.y0.minus(height),
            self.x1.plus(width),
            self.y1.plus(height),
        )
    }

    /// Every edge moved outwards: the sides by `width`, top and bottom by `height`.
    #[verifier::when_used_as_spec(spec_inflate)]
    pub fn inflate(self, width: Scalar, height: Scalar) -> (r: Rect)
        ensures
            r == self.inflate(width, height),
    {
        Rect::new(
            self.x0.minus(width),
            self.y0.minus(height),
            self.x1.plus(width),
            self.y1.plus(height),
        )
    }

    pub open spec fn spec_inset(self, by: Scalar) -> Rect {
        self.abs().inflate(by, by)
    }

    /// Every edge of the rectangle, edges put in order, moved outwards by `by`.
    #[verifier::when_used_as_spec(spec_inset)]
    pub fn inset(self, by: Scalar) -> (r: Rect)
        ensures
            r == self.inset(by),
    {
        self.abs().inflate(by, by)
    }

    pub open spec fn spec_union(self, other: Rect) -> Rect {
        Rect::new(
            self.x0.min(other.x0),
            self.y0.min(other.y0),
            self.x1.max(other.x1),
            self.y1.max(other.y1),
        )
    }

    /// The smallest rectangle around both.
    #[verifier::when_used_as_spec(spec_union)]
    pub fn union(self, other: Rect) -> (r: Rect)
        ensures
            r == self.union(other),
    {
        Rect::new(
            self.x0.min(other.x0),
            self.y0.min(other.y0),
            self.x1.max(other.x1),
            self.y1.max(other.y1),
        )
    }
}

impl Affine {
    pub open spec fn spec_identity() -> Affine {
        Affine::scale(Scalar::from_whole(1))
    }

    /// The map that moves nothing.
    #[verifier::when_used_as_spec(spec_identity)]
    pub fn identity() -> (r: Affine)
        ensures
            r == Affine::identity(),
    {
        Affine::scale(Scalar::from_whole(1))
    }

    pub open spec fn spec_scale(s: Scalar) -> Affine {
        Affine {
            a: s,
            b: Scalar::zero(),
            c: Scalar::zero(),
            d: s,
            e: Scalar::zero(),
            f: Scalar::zero(),
        }
    }

    /// The map that multiplies every distance from the origin by `s`.
    #[verifier::when_used_as_spec(spec_scale)]
    pub fn scale(s: Scalar) -> (r: Affine)
        ensures
            r == Affine::scale(s),
    {
        Affine {
            a: s,
            b: Scalar::zero(),
            c: Scalar::zero(),
            d: s,
            e: Scalar::zero(),
            f: Scalar::zero(),
        }
    }

    pub open spec fn spec_translate(by: Vec2) -> Affine {
        Affine {
            a: Scalar::from_whole(1),
            b: Scalar::zero(),
            c: Scalar::zero(),
            d: Scalar::from_whole(1),
            e: by.x,
            f: by.y,
        }
    }

    /// The map that moves every point by `by`.
    #[verifier::when_used_as_spec(spec_translate)]
    pub fn translate(by: Vec2) -> (r: Affine)
        ensures
            r == Affine::translate(by),
    {
        Affine {
            a: Scalar::from_whole(1),
            b: Scalar::zero(),
            c: Scalar::zero(),
            d: Scalar::from_whole(1),
            e: by.x,
            f: by.y,
        }
    }

    pub open spec fn spec_after(self, first: Affine) -> Affine {
        Affine {
            a: self.a.times(first.a).plus(self.c.times(first.b)),
            b: self.b.times(first.a).plus(self.d.times(first.b)),
            c: self.a.times(first.c).plus(self.c.times(first.d)),
            d: self.b.times(first.c).plus(self.d.times(first.d)),
            e: self.a.times(first.e).plus(self.c.times(first.f)).plus(self.e),
            f: self.b.times(first.e).plus(self.d.times(first.f)).plus(self.f),
        }
    }

    /// The map that applies `first` and then this one.
    #[verifier::when_used_as_spec(spec_after)]
    pub fn after(self, first: Affine) -> (r: Affine)
        ensures
            r == self.after(first),
    {
        Affine {
            a: self.a.times(first.a).plus(self.c.times(first.b)),
            b: self.b.times(first.a).plus(self.d.times(first.b)),
            c: self.a.times(first.c).plus(self.c.times(first.d)),
            d: self.b.times(first.c).plus(self.d.times(first.d)),
            e: self.a.times(first.e).plus(self.c.times(first.f)).plus(self.e),
            f: self.b.times(first.e).plus(self.d.times(first.f)).plus(self.f),
        }
    }

    pub open spec fn spec_at(self, p: Point) -> Point {
        Point {
            x: self.a.times(p.x).plus(self.c.times(p.y)).plus(self.e),
            y: self.b.times(p.x).plus(self.d.times(p.y)).plus(self.f),
        }
    }

    /// Where the map takes `p`.
    #[verifier::when_used_as_spec(spec_at)]
    pub fn at(self, p: Point) -> (r: Point)
        ensures
            r == self.at(p),
    {
        Point {
            x: self.a.times(p.x).plus(self.c.times(p.y)).plus(self.e),
            y: self.b.times(p.x).plus(self.d.times(p.y)).plus(self.f),
        }
    }

    pub open spec fn spec_determinant(self) -> Scalar {
        self.a.times(self.d).minus(self.b.times(self.c))
    }

    /// How much the map scales areas.
    #[verifier::when_used_as_spec(spec_determinant)]
    pub fn determinant(self) -> (r: Scalar)
        ensures
            r == self.determinant(),
    {
        self.a.times(self.d).minus(self.b.times(self.c))
    }

    pub open spec fn spec_inverse(self) -> Affine {
        let k = Scalar::from_whole(1).over(self.determinant());
        Affine {
            a: k.times(self.d),
            b: k.negated().times(self.b),
            c: k.negated().times(self.c),
            d: k.times(self.a),
            e: k.times(self.c.times(self.f).minus(self.d.times(self.e))),
            f: k.times(self.b.times(self.e).minus(self.a.times(self.f))),
        }
    }

    /// The map that takes points back, up to rounding.
    #[verifier::when_used_as_spec(spec_inverse)]
    pub fn inverse(self) -> (r: Affine)
        ensures
            r == self.inverse(),
    {
        let k = Scalar::from_whole(1).over(self.determinant());
        Affine {
            a: k.times(self.d),
            b: k.negated().times(self.b),
            c: k.negated().times(self.c),
            d: k.times(self.a),
            e: k.times(self.c.times(self.f).minus(self.d.times(self.e))),
            f: k.times(self.b.times(self.e).minus(self.a.times(self.f))),
        }
    }

    pub open spec fn spec_bounds_of(self, rect: Rect) -> Rect {
        Rect::from_points(
            self.at(Point { x: rect.x0, y: rect.y0 }),
            self.at(Point { x: rect.x0, y: rect.y1 }),
        ).union(
            Rect::from_points(
                self.at(Point { x: rect.x1, y: rect.y0 }),
                self.at(Point { x: rect.x1, y: rect.y1 }),
            ),
        )
    }

    /// The smallest rectangle around where the map takes the corners of `rect`.
    #[verifier::when_used_as_spec(spec_bounds_of)]
    pub fn bounds_of(self, rect: Rect) -> (r: Rect)
        ensures
            r == self.bounds_of(rect),
    {
        Rect::from_points(
            self.at(Point { x: rect.x0, y: rect.y0 }),
            self.at(Point { x: rect.x0, y: rect.y1 }),
        ).union(
            Rect::from_points(
                self.at(Point { x: rect.x1, y: rect.y0 }),
                self.at(Point { x: rect.x1, y: rect.y1 }),
            ),
        )
    }

    pub open spec fn spec_same(self, other: Affine) -> bool {
        self.a.same(other.a) && self.b.same(other.b) && self.c.same(other.c) && self.d.same(
            other.d,
        ) && self.e.same(other.e) && self.f.same(other.f)
    }

    /// Whether all coefficients are the same numbers.
    #[verifier::when_used_as_spec(spec_same)]
    pub fn same(self, other: Affine) -> (r: bool)
        ensures
            r == self.same(other),
    {
        self.a.same(other.a) && self.b.same(other.b) && self.c.same(other.c) && self.d.same(
            other.d,
        ) && self.e.same(other.e) && self.f.same(other.f)
    }
}

/// Whether `outer` fully contains `inner`. Edges may coincide.
pub fn contains_rect(outer: Rect, inner: Rect) -> (r: bool)
    ensures
        r == spec_contains_rect(outer, inner),
{
    outer.x0.at_most(inner.x0) && outer.y0.at_most(inner.y0) && inner.x1.at_most(outer.x1)
        && inner.y1.at_most(outer.y1)
}

pub open spec fn spec_contains_rect(outer: Rect, inner: Rect) -> bool {
    outer.x0.at_most(inner.x0) && outer.y0.at_most(inner.y0) && inner.x1.at_most(outer.x1)
        && inner.y1.at_most(outer.y1)
}

/// Whether all edges are numbers.
pub open spec fn has_edges(rect: Rect) -> bool {
    !rect.x0.is_nan() && !rect.y0.is_nan() && !rect.x1.is_nan() && !rect.y1.is_nan()
}

/// Containment of rectangles is an order: every one contains itself, and what is inside of
/// something inside is inside.
pub proof fn law_containment_is_an_order(a: Rect, b: Rect, c: Rect)
    ensures
        has_edges(a) ==> spec_contains_rect(a, a),
        spec_contains_rect(a, b) && spec_contains_rect(b, c) ==> spec_contains_rect(a, c),
{
}

/// A rectangle that contains another contains its points.
pub proof fn law_containment_is_of_points(outer: Rect, inner: Rect, p: Point)
    requires
        spec_contains_rect(outer, inner),
        inner.contains(p),
    ensures
        outer.contains(p),
{
}

} // verus!
