//! What rectangles and transforms are, by their coordinates.

use vstd::prelude::*;

use crate::geometry::{Affine, Point, Rect, Size, Vec2};
use crate::number::exact::GRID_REACH;
use crate::number::rounding::{HIDDEN, UNIT_EXPONENT};
use crate::number::scalar::Scalar;

verus! {

/// Whether both coordinates are numbers.
pub open spec fn has_place(p: Point) -> bool {
    !p.x.is_nan() && !p.y.is_nan()
}

/// Whether the edges are numbers, left before right and top before bottom.
pub open spec fn ascending_edges(rect: Rect) -> bool {
    &&& crate::geometry::has_edges(rect)
    &&& rect.x0.value() <= rect.x1.value()
    &&& rect.y0.value() <= rect.y1.value()
}

/// Whether a point lies inside a rectangle or on any of its edges.
pub open spec fn touches(rect: Rect, p: Point) -> bool {
    &&& crate::geometry::has_edges(rect)
    &&& has_place(p)
    &&& rect.x0.value() <= p.x.value() <= rect.x1.value()
    &&& rect.y0.value() <= p.y.value() <= rect.y1.value()
}

/// A point is inside where both of its coordinates are. The left and top edges belong to a
/// rectangle, the other two do not.
pub proof fn law_inside_is_by_coordinates(rect: Rect, p: Point)
    ensures
        rect.contains(p) ==> has_place(p),
        crate::geometry::has_edges(rect) && has_place(p) ==> (rect.contains(p) <==> (
        rect.x0.value() <= p.x.value() < rect.x1.value() && rect.y0.value() <= p.y.value()
            < rect.y1.value())),
{
}

/// Two rectangles overlap exactly where they have a point in common, edges included.
pub proof fn law_overlap_is_a_common_point(a: Rect, b: Rect)
    requires
        ascending_edges(a),
        ascending_edges(b),
    ensures
        a.overlaps(b) <==> exists|p: Point| #[trigger] touches(a, p) && touches(b, p),
        a.overlaps(b) == b.overlaps(a),
{
    if a.overlaps(b) {
        let p = Point {
            x: if a.x0.value() < b.x0.value() {
                b.x0
            } else {
                a.x0
            },
            y: if a.y0.value() < b.y0.value() {
                b.y0
            } else {
                a.y0
            },
        };
        assert(touches(a, p) && touches(b, p));
    }
}

/// Whether `got` is `exact` units, up to one rounding: off by no more than a part of itself
/// that is one in two to the power 52, and exact wherever there is such a number.
pub open spec fn rounded_once(got: Scalar, exact: int) -> bool {
    &&& HIDDEN * crate::number::error::far(got.value() - exact) <= crate::number::error::far(exact)
        + HIDDEN
    &&& forall|x: Scalar| #[trigger] x.finite() && x.value() == exact ==> got.value() == exact
}

pub proof fn lemma_sum_rounded_once(x: Scalar, y: Scalar)
    requires
        x.finite(),
        y.finite(),
        x.plus(y).finite(),
    ensures
        rounded_once(x.plus(y), x.value() + y.value()),
{
    crate::number::error::lemma_sum_error(x, y);
    crate::number::exact::lemma_plus_nearest(x, y);
    assert forall|z: Scalar| #[trigger] z.finite() && z.value() == x.value() + y.value() implies
        x.plus(y).value() == x.value() + y.value() by {
        crate::number::exact::lemma_nearest_to_own(z);
    }
}

pub proof fn lemma_difference_rounded_once(x: Scalar, y: Scalar)
    requires
        x.finite(),
        y.finite(),
        x.minus(y).finite(),
    ensures
        rounded_once(x.minus(y), x.value() - y.value()),
{
    crate::number::exact::lemma_negated(y);
    lemma_sum_rounded_once(x, y.negated());
}

/// One side of a rectangle that begins at `at` and is `length` long.
proof fn lemma_side(at: Scalar, length: Scalar)
    requires
        at.finite(),
        length.finite(),
        at.plus(length).finite(),
    ensures
        ({
            let to = at.plus(length);
            let low = at.min(to);
            let high = at.max(to);
            &&& low.finite() && high.finite()
            &&& low.value() <= high.value()
            &&& length.value() >= 0 ==> low.value() == at.value() && rounded_once(
                high,
                at.value() + length.value(),
            )
            &&& length.value() <= 0 ==> high.value() == at.value() && rounded_once(
                low,
                at.value() + length.value(),
            )
        }),
{
    lemma_sum_rounded_once(at, length);
    crate::number::exact::lemma_plus_nearest(at, length);
    crate::number::exact::lemma_nearest_to_own(at);
    if length.value() >= 0 {
        crate::number::exact::lemma_nearest_to_order(at.value(), at.value() + length.value());
    }
    if length.value() <= 0 {
        crate::number::exact::lemma_nearest_to_order(at.value() + length.value(), at.value());
    }
}

/// The rectangle of a size at an origin has one corner there and the opposite one that size
/// away, rounded once. The origin is the top left corner of a size that is not negative.
pub proof fn law_rect_begins_at_its_origin(origin: Point, size: Size)
    requires
        origin.x.finite(),
        origin.y.finite(),
        size.width.finite(),
        size.height.finite(),
        origin.x.plus(size.width).finite(),
        origin.y.plus(size.height).finite(),
    ensures
        ({
            let rect = Rect::from_origin_size(origin, size);
            &&& rect.x0.finite() && rect.y0.finite() && rect.x1.finite() && rect.y1.finite()
            &&& ascending_edges(rect)
            &&& size.width.value() >= 0 ==> rect.x0.value() == origin.x.value() && rounded_once(
                rect.x1,
                origin.x.value() + size.width.value(),
            )
            &&& size.height.value() >= 0 ==> rect.y0.value() == origin.y.value() && rounded_once(
                rect.y1,
                origin.y.value() + size.height.value(),
            )
            &&& size.width.value() <= 0 ==> rect.x1.value() == origin.x.value() && rounded_once(
                rect.x0,
                origin.x.value() + size.width.value(),
            )
            &&& size.height.value() <= 0 ==> rect.y1.value() == origin.y.value() && rounded_once(
                rect.y0,
                origin.y.value() + size.height.value(),
            )
        }),
{
    lemma_side(origin.x, size.width);
    lemma_side(origin.y, size.height);
}

/// The extents of a rectangle are the distances between its edges, rounded once.
pub proof fn law_extents_are_distances(rect: Rect)
    requires
        rect.x0.finite(),
        rect.y0.finite(),
        rect.x1.finite(),
        rect.y1.finite(),
        rect.width().finite(),
        rect.height().finite(),
    ensures
        rounded_once(rect.size().width, rect.x1.value() - rect.x0.value()),
        rounded_once(rect.size().height, rect.y1.value() - rect.y0.value()),
        rect.size().width.value() == rect.width().value(),
        rect.size().height.value() == rect.height().value(),
        rect.origin().x.value() == rect.x0.value(),
        rect.origin().y.value() == rect.y0.value(),
{
    lemma_difference_rounded_once(rect.x1, rect.x0);
    lemma_difference_rounded_once(rect.y1, rect.y0);
}

/// Inflating moves every edge outwards: the sides by one length, top and bottom by the
/// other.
pub proof fn law_inflating_moves_edges_outwards(rect: Rect, width: Scalar, height: Scalar)
    requires
        rect.x0.finite(),
        rect.y0.finite(),
        rect.x1.finite(),
        rect.y1.finite(),
        width.finite(),
        height.finite(),
        ({
            let out = rect.inflate(width, height);
            out.x0.finite() && out.y0.finite() && out.x1.finite() && out.y1.finite()
        }),
    ensures
        ({
            let out = rect.inflate(width, height);
            &&& rounded_once(out.x0, rect.x0.value() - width.value())
            &&& rounded_once(out.y0, rect.y0.value() - height.value())
            &&& rounded_once(out.x1, rect.x1.value() + width.value())
            &&& rounded_once(out.y1, rect.y1.value() + height.value())
        }),
{
    lemma_difference_rounded_once(rect.x0, width);
    lemma_difference_rounded_once(rect.y0, height);
    lemma_sum_rounded_once(rect.x1, width);
    lemma_sum_rounded_once(rect.y1, height);
}

/// The union of two rectangles contains both, and everything that does contains it.
pub proof fn law_union_is_the_smallest_around_both(a: Rect, b: Rect, outer: Rect)
    requires
        crate::geometry::has_edges(a),
        crate::geometry::has_edges(b),
    ensures
        crate::geometry::spec_contains_rect(a.union(b), a),
        crate::geometry::spec_contains_rect(a.union(b), b),
        crate::geometry::spec_contains_rect(outer, a) && crate::geometry::spec_contains_rect(
            outer,
            b,
        ) ==> crate::geometry::spec_contains_rect(outer, a.union(b)),
{
}

/// One rectangle contains another where none of its edges cuts anything off.
pub proof fn law_containment_is_by_edges(outer: Rect, inner: Rect)
    requires
        crate::geometry::has_edges(outer),
        crate::geometry::has_edges(inner),
    ensures
        crate::geometry::spec_contains_rect(outer, inner) <==> (outer.x0.value()
            <= inner.x0.value() && outer.y0.value() <= inner.y0.value() && inner.x1.value()
            <= outer.x1.value() && inner.y1.value() <= outer.y1.value()),
{
}

/// The bounds of what a map makes of a rectangle hold all four corners, and no rectangle
/// that does is smaller.
pub proof fn law_bounds_hold_the_corners(map: Affine, rect: Rect, outer: Rect)
    requires
        has_place(map.at(Point { x: rect.x0, y: rect.y0 })),
        has_place(map.at(Point { x: rect.x0, y: rect.y1 })),
        has_place(map.at(Point { x: rect.x1, y: rect.y0 })),
        has_place(map.at(Point { x: rect.x1, y: rect.y1 })),
    ensures
        touches(map.bounds_of(rect), map.at(Point { x: rect.x0, y: rect.y0 })),
        touches(map.bounds_of(rect), map.at(Point { x: rect.x0, y: rect.y1 })),
        touches(map.bounds_of(rect), map.at(Point { x: rect.x1, y: rect.y0 })),
        touches(map.bounds_of(rect), map.at(Point { x: rect.x1, y: rect.y1 })),
        touches(outer, map.at(Point { x: rect.x0, y: rect.y0 })) && touches(
            outer,
            map.at(Point { x: rect.x0, y: rect.y1 }),
        ) && touches(outer, map.at(Point { x: rect.x1, y: rect.y0 })) && touches(
            outer,
            map.at(Point { x: rect.x1, y: rect.y1 }),
        ) ==> crate::geometry::spec_contains_rect(outer, map.bounds_of(rect)),
{
}

/// The identity moves no point.
pub proof fn law_identity_moves_nothing(p: Point)
    requires
        p.x.finite(),
        p.y.finite(),
    ensures
        Affine::identity().at(p).x.value() == p.x.value(),
        Affine::identity().at(p).y.value() == p.y.value(),
{
    let one = Scalar::from_whole(1);
    let zero = Scalar::zero();
    crate::number::exact::lemma_from_whole(1);
    crate::number::exact::lemma_unit_interval();
    crate::number::exact::lemma_times_one(p.x);
    crate::number::exact::lemma_times_one(p.y);
    crate::canvas::view_laws::lemma_row(one, p.x, zero, p.y);
    crate::canvas::view_laws::lemma_row(one, p.y, zero, p.x);
    crate::number::exact::lemma_plus_nothing(one.times(p.x).plus(zero.times(p.y)), zero);
    crate::number::exact::lemma_plus_nothing(zero.times(p.x).plus(one.times(p.y)), zero);
}

/// A translation moves every point by the same displacement, rounded once.
pub proof fn law_translation_moves_points(by: Vec2, p: Point)
    requires
        p.x.finite(),
        p.y.finite(),
        by.x.finite(),
        by.y.finite(),
        p.x.plus(by.x).finite(),
        p.y.plus(by.y).finite(),
    ensures
        rounded_once(Affine::translate(by).at(p).x, p.x.value() + by.x.value()),
        rounded_once(Affine::translate(by).at(p).y, p.y.value() + by.y.value()),
{
    let one = Scalar::from_whole(1);
    let zero = Scalar::zero();
    crate::number::exact::lemma_from_whole(1);
    crate::number::exact::lemma_unit_interval();
    crate::number::exact::lemma_times_one(p.x);
    crate::number::exact::lemma_times_one(p.y);
    crate::canvas::view_laws::lemma_row(one, p.x, zero, p.y);
    crate::canvas::view_laws::lemma_row(one, p.y, zero, p.x);
    let across = one.times(p.x).plus(zero.times(p.y));
    let down = zero.times(p.x).plus(one.times(p.y));
    crate::number::exact::lemma_plus_by_value(across, by.x, p.x, by.x);
    crate::number::exact::lemma_plus_by_value(down, by.y, p.y, by.y);
    lemma_sum_rounded_once(across, by.x);
    lemma_sum_rounded_once(down, by.y);
}

/// The displacement between two points leads from one to the other, and taking it back
/// leads there again, each rounded once.
pub proof fn law_displacement_leads_there(from: Point, to: Point, by: Vec2)
    requires
        from.x.finite(),
        from.y.finite(),
        to.x.finite(),
        to.y.finite(),
        by.x.finite(),
        by.y.finite(),
        from.to(to).x.finite(),
        from.to(to).y.finite(),
        to.back(by).x.finite(),
        to.back(by).y.finite(),
    ensures
        rounded_once(from.to(to).x, to.x.value() - from.x.value()),
        rounded_once(from.to(to).y, to.y.value() - from.y.value()),
        rounded_once(to.back(by).x, to.x.value() - by.x.value()),
        rounded_once(to.back(by).y, to.y.value() - by.y.value()),
{
    lemma_difference_rounded_once(to.x, from.x);
    lemma_difference_rounded_once(to.y, from.y);
    lemma_difference_rounded_once(to.x, by.x);
    lemma_difference_rounded_once(to.y, by.y);
}

/// Whether `x` is the whole number `n`, and that is within two to the power 53.
pub open spec fn is_whole(x: Scalar, n: int) -> bool {
    &&& x.finite()
    &&& x.value() == n * crate::number::rounding::one_in_units()
    &&& -9007199254740992 <= n <= 9007199254740992
}

/// There is a number for every such whole number.
proof fn lemma_whole_number(n: int) -> (z: Scalar)
    requires
        -9007199254740992 <= n <= 9007199254740992,
    ensures
        is_whole(z, n),
{
    let one = crate::number::rounding::one_in_units() as int;
    crate::number::rounding::lemma_two_to_positive(UNIT_EXPONENT as nat);
    crate::number::exact::lemma_whole_on_grid(n, UNIT_EXPONENT as nat);
    assert(-(GRID_REACH * one) <= n * one <= GRID_REACH * one) by (nonlinear_arith)
        requires
            -9007199254740992 <= n <= 9007199254740992,
            GRID_REACH == 9007199254740992,
            one >= 1,
    ;
    crate::number::exact::lemma_grid_number(n * one, UNIT_EXPONENT as nat);
    crate::number::exact::nearest_to(n * one)
}

proof fn lemma_whole_sum(x: Scalar, y: Scalar, n: int, m: int)
    requires
        is_whole(x, n),
        is_whole(y, m),
        -9007199254740992 <= n + m <= 9007199254740992,
    ensures
        is_whole(x.plus(y), n + m),
{
    let one = crate::number::rounding::one_in_units() as int;
    crate::number::rounding::lemma_two_to_positive(UNIT_EXPONENT as nat);
    crate::number::exact::lemma_whole_on_grid(n, UNIT_EXPONENT as nat);
    crate::number::exact::lemma_whole_on_grid(m, UNIT_EXPONENT as nat);
    assert(n * one + m * one == (n + m) * one) by (nonlinear_arith);
    assert(-(GRID_REACH * one) <= (n + m) * one <= GRID_REACH * one) by (nonlinear_arith)
        requires
            -9007199254740992 <= n + m <= 9007199254740992,
            GRID_REACH == 9007199254740992,
            one >= 1,
    ;
    crate::number::exact::lemma_grid_plus(x, y, UNIT_EXPONENT as nat);
}

proof fn lemma_whole_negated(x: Scalar, n: int)
    requires
        is_whole(x, n),
    ensures
        is_whole(x.negated(), -n),
{
    crate::number::exact::lemma_negated(x);
    let one = crate::number::rounding::one_in_units() as int;
    assert((-n) * one == -(n * one)) by (nonlinear_arith);
}

proof fn lemma_whole_difference(x: Scalar, y: Scalar, n: int, m: int)
    requires
        is_whole(x, n),
        is_whole(y, m),
        -9007199254740992 <= n - m <= 9007199254740992,
    ensures
        is_whole(x.minus(y), n - m),
{
    lemma_whole_negated(y, m);
    lemma_whole_sum(x, y.negated(), n, -m);
}

proof fn lemma_whole_product(x: Scalar, y: Scalar, n: int, m: int)
    requires
        is_whole(x, n),
        is_whole(y, m),
        -9007199254740992 <= n * m <= 9007199254740992,
    ensures
        is_whole(x.times(y), n * m),
{
    let one = crate::number::rounding::one_in_units() as int;
    crate::number::rounding::lemma_two_to_positive(UNIT_EXPONENT as nat);
    let k = n * m;
    let z = lemma_whole_number(k);
    let exact = x.value() * y.value();
    assert(exact == one * (k * one)) by (nonlinear_arith)
        requires
            exact == (n * one) * (m * one),
            k == n * m,
    ;
    crate::number::rounding::lemma_two_to_adds(53, 47);
    crate::number::rounding::lemma_two_to_positive(47);
    crate::number::exact::lemma_known_power();
    assert(crate::number::rounding::two_to(53) == 9007199254740992);
    let hundred = crate::number::rounding::two_to(100) as int;
    assert(hundred >= 9007199254740992) by (nonlinear_arith)
        requires
            hundred == 9007199254740992 * crate::number::rounding::two_to(47),
            crate::number::rounding::two_to(47) >= 1,
    ;
    let wide = crate::number::error::breadth();
    assert(wide == hundred * one);
    assert(crate::number::error::far(k * one) <= wide) by (nonlinear_arith)
        requires
            -9007199254740992 <= k <= 9007199254740992,
            crate::number::error::far(k * one) == (if k * one < 0 {
                -(k * one)
            } else {
                k * one
            }),
            hundred >= 9007199254740992,
            wide == hundred * one,
            one >= 1,
    ;
    crate::number::error::lemma_far_times(one, k * one);
    assert(crate::number::error::far(exact) <= one * wide) by (nonlinear_arith)
        requires
            crate::number::error::far(exact) == one * crate::number::error::far(k * one),
            crate::number::error::far(k * one) <= wide,
            one >= 1,
    ;
    crate::number::error::lemma_product_is_finite(x, y);
    crate::number::laws::law_product_is_the_nearest_number(x, y, z);
    let p = x.times(y).value();
    assert(one * p == one * (k * one));
    assert(p == k * one) by (nonlinear_arith)
        requires
            one * p == one * (k * one),
            one >= 1,
    ;
}

/// Whether the coefficients of a map are these whole numbers, each within `bound`.
pub open spec fn is_whole_map(
    map: Affine,
    a: int,
    b: int,
    c: int,
    d: int,
    e: int,
    f: int,
    bound: int,
) -> bool {
    &&& is_whole(map.a, a) && is_whole(map.b, b) && is_whole(map.c, c)
    &&& is_whole(map.d, d) && is_whole(map.e, e) && is_whole(map.f, f)
    &&& -bound <= a <= bound && -bound <= b <= bound && -bound <= c <= bound
    &&& -bound <= d <= bound && -bound <= e <= bound && -bound <= f <= bound
}

/// `p * x + q * y` in whole numbers.
proof fn lemma_whole_row(p: Scalar, x: Scalar, q: Scalar, y: Scalar, i: int, n: int, j: int, m: int)
    requires
        is_whole(p, i),
        is_whole(x, n),
        is_whole(q, j),
        is_whole(y, m),
        -4503599627370496 <= i * n <= 4503599627370496,
        -4503599627370496 <= j * m <= 4503599627370496,
    ensures
        is_whole(p.times(x).plus(q.times(y)), i * n + j * m),
        is_whole(p.times(x).minus(q.times(y)), i * n - j * m),
{
    lemma_whole_product(p, x, i, n);
    lemma_whole_product(q, y, j, m);
    lemma_whole_sum(p.times(x), q.times(y), i * n, j * m);
    lemma_whole_difference(p.times(x), q.times(y), i * n, j * m);
}

proof fn lemma_bounded_product(i: int, n: int, x: int, y: int)
    requires
        -x <= i <= x,
        -y <= n <= y,
        x >= 0,
        y >= 0,
    ensures
        -(x * y) <= i * n <= x * y,
{
    assert(-(x * y) <= i * n <= x * y) by (nonlinear_arith)
        requires
            -x <= i <= x,
            -y <= n <= y,
            x >= 0,
            y >= 0,
    ;
}

/// A map of whole coefficients takes a whole point to where it says: each coordinate is the
/// sum of the two products and the displacement.
pub proof fn law_map_takes_points_by_its_coefficients(
    map: Affine,
    p: Point,
    a: int,
    b: int,
    c: int,
    d: int,
    e: int,
    f: int,
    x: int,
    y: int,
)
    requires
        is_whole_map(map, a, b, c, d, e, f, 4194304),
        is_whole(p.x, x),
        is_whole(p.y, y),
        -4194304 <= x <= 4194304,
        -4194304 <= y <= 4194304,
    ensures
        is_whole(map.at(p).x, a * x + c * y + e),
        is_whole(map.at(p).y, b * x + d * y + f),
        -(40000000000000) <= a * x + c * y + e <= 40000000000000,
        -(40000000000000) <= b * x + d * y + f <= 40000000000000,
{
    let k: int = 4194304;
    lemma_bounded_product(a, x, k, k);
    lemma_bounded_product(b, x, k, k);
    lemma_bounded_product(c, y, k, k);
    lemma_bounded_product(d, y, k, k);
    lemma_whole_row(map.a, p.x, map.c, p.y, a, x, c, y);
    lemma_whole_row(map.b, p.x, map.d, p.y, b, x, d, y);
    lemma_whole_sum(map.a.times(p.x).plus(map.c.times(p.y)), map.e, a * x + c * y, e);
    lemma_whole_sum(map.b.times(p.x).plus(map.d.times(p.y)), map.f, b * x + d * y, f);
}

/// Composing maps of whole coefficients applies one after the other: each coefficient of the
/// composition is the row of the later map times the column of the earlier.
pub proof fn law_composition_applies_one_after_the_other(
    later: Affine,
    first: Affine,
    a: int,
    b: int,
    c: int,
    d: int,
    e: int,
    f: int,
    i: int,
    j: int,
    k: int,
    l: int,
    m: int,
    n: int,
    x: int,
    y: int,
)
    requires
        is_whole_map(later, a, b, c, d, e, f, 1024),
        is_whole_map(first, i, j, k, l, m, n, 1024),
    ensures
        ({
            let both = later.after(first);
            &&& is_whole(both.a, a * i + c * j)
            &&& is_whole(both.b, b * i + d * j)
            &&& is_whole(both.c, a * k + c * l)
            &&& is_whole(both.d, b * k + d * l)
            &&& is_whole(both.e, a * m + c * n + e)
            &&& is_whole(both.f, b * m + d * n + f)
        }),
        (a * i + c * j) * x + (a * k + c * l) * y + (a * m + c * n + e) == a * (i * x + k * y + m)
            + c * (j * x + l * y + n) + e,
        (b * i + d * j) * x + (b * k + d * l) * y + (b * m + d * n + f) == b * (i * x + k * y + m)
            + d * (j * x + l * y + n) + f,
{
    let t: int = 1024;
    lemma_bounded_product(a, i, t, t);
    lemma_bounded_product(c, j, t, t);
    lemma_bounded_product(b, i, t, t);
    lemma_bounded_product(d, j, t, t);
    lemma_bounded_product(a, k, t, t);
    lemma_bounded_product(c, l, t, t);
    lemma_bounded_product(b, k, t, t);
    lemma_bounded_product(d, l, t, t);
    lemma_bounded_product(a, m, t, t);
    lemma_bounded_product(c, n, t, t);
    lemma_bounded_product(b, m, t, t);
    lemma_bounded_product(d, n, t, t);
    lemma_whole_row(later.a, first.a, later.c, first.b, a, i, c, j);
    lemma_whole_row(later.b, first.a, later.d, first.b, b, i, d, j);
    lemma_whole_row(later.a, first.c, later.c, first.d, a, k, c, l);
    lemma_whole_row(later.b, first.c, later.d, first.d, b, k, d, l);
    lemma_whole_row(later.a, first.e, later.c, first.f, a, m, c, n);
    lemma_whole_row(later.b, first.e, later.d, first.f, b, m, d, n);
    lemma_whole_sum(
        later.a.times(first.e).plus(later.c.times(first.f)),
        later.e,
        a * m + c * n,
        e,
    );
    lemma_whole_sum(
        later.b.times(first.e).plus(later.d.times(first.f)),
        later.f,
        b * m + d * n,
        f,
    );
    lemma_composed(a, c, e, i, j, k, l, m, n, x, y);
    lemma_composed(b, d, f, i, j, k, l, m, n, x, y);
}

proof fn lemma_composed(
    a: int,
    c: int,
    e: int,
    i: int,
    j: int,
    k: int,
    l: int,
    m: int,
    n: int,
    x: int,
    y: int,
)
    ensures
        (a * i + c * j) * x + (a * k + c * l) * y + (a * m + c * n + e) == a * (i * x + k * y + m)
            + c * (j * x + l * y + n) + e,
{
    assert((a * i + c * j) * x == a * (i * x) + c * (j * x)) by (nonlinear_arith);
    assert((a * k + c * l) * y == a * (k * y) + c * (l * y)) by (nonlinear_arith);
    assert(a * (i * x + k * y + m) == a * (i * x) + a * (k * y) + a * m) by (nonlinear_arith);
    assert(c * (j * x + l * y + n) == c * (j * x) + c * (l * y) + c * n) by (nonlinear_arith);
}

/// One over one, or over minus one, is that again.
proof fn lemma_whole_inverse(det: Scalar, k: int)
    requires
        is_whole(det, k),
        k == 1 || k == -1,
    ensures
        is_whole(Scalar::from_whole(1).over(det), k),
{
    let one = crate::number::rounding::one_in_units() as int;
    crate::number::rounding::lemma_two_to_positive(UNIT_EXPONENT as nat);
    let unit = Scalar::from_whole(1);
    crate::number::exact::lemma_from_whole(1);
    assert(1 * one == one && (-1) * one == -one);
    if k == 1 {
        crate::number::exact::lemma_over_same(unit, det);
    } else {
        crate::number::exact::lemma_negated(det);
        crate::number::exact::lemma_over_same(unit, det.negated());
        crate::number::laws::law_quotient_has_both_signs(unit, det);
    }
}

/// The inverse of a map of whole coefficients that keeps areas takes every whole point back to
/// where it came from, whether the map turns, skews or mirrors.
pub proof fn law_inverse_takes_points_back(
    map: Affine,
    p: Point,
    a: int,
    b: int,
    c: int,
    d: int,
    e: int,
    f: int,
    x: int,
    y: int,
)
    requires
        is_whole_map(map, a, b, c, d, e, f, 1024),
        a * d - b * c == 1 || a * d - b * c == -1,
        is_whole(p.x, x),
        is_whole(p.y, y),
        -1024 <= x <= 1024,
        -1024 <= y <= 1024,
    ensures
        map.inverse().at(map.at(p)).x.value() == p.x.value(),
        map.inverse().at(map.at(p)).y.value() == p.y.value(),
        is_whole(map.determinant(), a * d - b * c),
{
    let t: int = 1024;
    let q = map.at(p);
    law_map_takes_points_by_its_coefficients(map, p, a, b, c, d, e, f, x, y);
    let u = a * x + c * y + e;
    let v = b * x + d * y + f;
    lemma_bounded_product(a, x, t, t);
    lemma_bounded_product(c, y, t, t);
    lemma_bounded_product(b, x, t, t);
    lemma_bounded_product(d, y, t, t);
    lemma_bounded_product(a, d, t, t);
    lemma_bounded_product(b, c, t, t);
    lemma_bounded_product(c, f, t, t);
    lemma_bounded_product(d, e, t, t);
    lemma_bounded_product(b, e, t, t);
    lemma_bounded_product(a, f, t, t);
    lemma_whole_row(map.a, map.d, map.b, map.c, a, d, b, c);
    let det = a * d - b * c;
    let k = Scalar::from_whole(1).over(map.determinant());
    lemma_whole_inverse(map.determinant(), det);
    lemma_whole_negated(k, det);
    let back = map.inverse();
    lemma_bounded_product(det, d, 1, t);
    lemma_bounded_product(-det, b, 1, t);
    lemma_bounded_product(-det, c, 1, t);
    lemma_bounded_product(det, a, 1, t);
    lemma_whole_product(k, map.d, det, d);
    lemma_whole_product(k.negated(), map.b, -det, b);
    lemma_whole_product(k.negated(), map.c, -det, c);
    lemma_whole_product(k, map.a, det, a);
    lemma_whole_row(map.c, map.f, map.d, map.e, c, f, d, e);
    lemma_whole_row(map.b, map.e, map.a, map.f, b, e, a, f);
    let g = c * f - d * e;
    let h = b * e - a * f;
    lemma_bounded_product(det, g, 1, 2 * t * t);
    lemma_bounded_product(det, h, 1, 2 * t * t);
    lemma_whole_product(k, map.c.times(map.f).minus(map.d.times(map.e)), det, g);
    lemma_whole_product(k, map.b.times(map.e).minus(map.a.times(map.f)), det, h);
    assert(is_whole_map(back, det * d, -det * b, -det * c, det * a, det * g, det * h, 4194304));
    law_map_takes_points_by_its_coefficients(
        back,
        q,
        det * d,
        -det * b,
        -det * c,
        det * a,
        det * g,
        det * h,
        u,
        v,
    );
    lemma_taken_back(a, b, c, d, e, f, x, y);
}

proof fn lemma_taken_back(a: int, b: int, c: int, d: int, e: int, f: int, x: int, y: int)
    requires
        a * d - b * c == 1 || a * d - b * c == -1,
    ensures
        ({
            let det = a * d - b * c;
            let u = a * x + c * y + e;
            let v = b * x + d * y + f;
            &&& (det * d) * u + (-det * c) * v + det * (c * f - d * e) == x
            &&& (-det * b) * u + (det * a) * v + det * (b * e - a * f) == y
        }),
{
    let det = a * d - b * c;
    let u = a * x + c * y + e;
    let v = b * x + d * y + f;
    let one = d * u - c * v + (c * f - d * e);
    let two = -(b * u) + a * v + (b * e - a * f);
    assert(one == det * x) by (nonlinear_arith)
        requires
            one == d * u - c * v + (c * f - d * e),
            u == a * x + c * y + e,
            v == b * x + d * y + f,
            det == a * d - b * c,
    ;
    assert(two == det * y) by (nonlinear_arith)
        requires
            two == -(b * u) + a * v + (b * e - a * f),
            u == a * x + c * y + e,
            v == b * x + d * y + f,
            det == a * d - b * c,
    ;
    assert((det * d) * u + (-det * c) * v + det * (c * f - d * e) == det * one)
        by (nonlinear_arith)
        requires
            one == d * u - c * v + (c * f - d * e),
    ;
    assert((-det * b) * u + (det * a) * v + det * (b * e - a * f) == det * two)
        by (nonlinear_arith)
        requires
            two == -(b * u) + a * v + (b * e - a * f),
    ;
    assert(det * (det * x) == x && det * (det * y) == y) by (nonlinear_arith)
        requires
            det == 1 || det == -1,
    ;
}

} // verus!
