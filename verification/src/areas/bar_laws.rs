//! What holds of the splitters of a tiled screen.

use vstd::prelude::*;

use crate::areas::laws::{aligned_rect, proper};
use crate::areas::screen::{bar_thickness, ScreenState};
use crate::areas::shape::{AreaId, Bar, NodeId, Shape};
use crate::geometry::{Axis, Point, Rect, Size};
use crate::number::exact::GRID_REACH;
use crate::number::rounding::UNIT_EXPONENT;
use crate::number::scalar::Scalar;

verus! {

/// The node that area `id` sits at, if it is in the shape.
pub open spec fn leaf_of(shape: Shape, id: AreaId) -> NodeId
    decreases shape,
{
    match shape {
        Shape::Area { node, .. } => node,
        Shape::Split { first, second, .. } => if first.has_area(id) {
            leaf_of(*first, id)
        } else {
            leaf_of(*second, id)
        },
    }
}

/// Whether `after` is `before` with the entry at `i` replaced by `x` and `y`.
#[verifier::opaque]
pub open spec fn replaced_at<T>(before: Seq<T>, after: Seq<T>, i: int, x: T, y: T) -> bool {
    &&& 0 <= i < before.len()
    &&& after == before.update(i, x).insert(i + 1, y)
}

/// Whether `after` is `before` with `x` inserted at `k`.
#[verifier::opaque]
pub open spec fn inserted_at<T>(before: Seq<T>, after: Seq<T>, k: int, x: T) -> bool {
    &&& 0 <= k <= before.len()
    &&& after == before.insert(k, x)
}

proof fn lemma_replaced_in_first<T>(p: Seq<T>, then: Seq<T>, q: Seq<T>, i: int, x: T, y: T)
    requires
        replaced_at(p, then, i, x, y),
    ensures
        replaced_at(p + q, then + q, i, x, y),
        (p + q)[i] == p[i],
{
    reveal(replaced_at);
    assert(then + q =~= (p + q).update(i, x).insert(i + 1, y));
}

proof fn lemma_replaced_in_second<T>(p: Seq<T>, q: Seq<T>, then: Seq<T>, i: int, x: T, y: T)
    requires
        replaced_at(q, then, i, x, y),
    ensures
        replaced_at(p + q, p + then, p.len() + i, x, y),
        (p + q)[p.len() + i] == q[i],
{
    reveal(replaced_at);
    assert(p + then =~= (p + q).update(p.len() + i, x).insert(p.len() + i + 1, y));
}

proof fn lemma_inserted_in_first<T>(
    here: Seq<T>,
    u: Seq<T>,
    then: Seq<T>,
    v: Seq<T>,
    k: int,
    x: T,
)
    requires
        inserted_at(u, then, k, x),
    ensures
        inserted_at(here + u + v, here + then + v, here.len() + k, x),
{
    reveal(inserted_at);
    assert(here + then + v =~= (here + u + v).insert(here.len() + k, x));
}

proof fn lemma_inserted_in_second<T>(
    here: Seq<T>,
    u: Seq<T>,
    v: Seq<T>,
    then: Seq<T>,
    k: int,
    x: T,
)
    requires
        inserted_at(v, then, k, x),
    ensures
        inserted_at(here + u + v, here + u + then, here.len() + u.len() + k, x),
{
    reveal(inserted_at);
    assert(here + u + then =~= (here + u + v).insert(here.len() + u.len() + k, x));
}

/// The parts of area `area` after a split of it, and the splitter between them.
pub open spec fn split_parts(
    shape: Shape,
    rect: Rect,
    bar: Scalar,
    area: AreaId,
    axis: Axis,
    ratio: Scalar,
) -> (Rect, Bar, Rect) {
    let whole = crate::areas::laws::rect_of(shape, rect, bar, area);
    let (one, mid, two) = crate::areas::shape::divided(whole, axis, ratio, bar);
    (one, Bar { split: leaf_of(shape, area), axis, rect: mid, span: whole }, two)
}

/// A split of a screen with one area.
proof fn lemma_split_of_one(
    node: NodeId,
    rect: Rect,
    bar: Scalar,
    area: AreaId,
    axis: Axis,
    ratio: Scalar,
    a: NodeId,
    b: NodeId,
    fresh: AreaId,
)
    ensures
        ({
            let shape = Shape::Area { node, area };
            let after = shape.with_split(area, axis, ratio, a, b, fresh);
            let (one, new, two) = split_parts(shape, rect, bar, area, axis, ratio);
            &&& replaced_at(
                shape.placed(rect, bar),
                after.placed(rect, bar),
                0,
                (area, one),
                (fresh, two),
            )
            &&& shape.placed(rect, bar)[0] == (area, new.span)
            &&& inserted_at(shape.bars(rect, bar), after.bars(rect, bar), 0, new)
        }),
{
    reveal(replaced_at);
    reveal(inserted_at);
    let shape = Shape::Area { node, area };
    let after = shape.with_split(area, axis, ratio, a, b, fresh);
    let (first_part, new, last_part) = split_parts(shape, rect, bar, area, axis, ratio);
    let leaf_a = Shape::Area { node: a, area };
    let leaf_b = Shape::Area { node: b, area: fresh };
    assert(leaf_a.placed(first_part, bar) == seq![(area, first_part)]);
    assert(leaf_b.placed(last_part, bar) == seq![(fresh, last_part)]);
    assert(leaf_a.bars(first_part, bar) == Seq::<Bar>::empty());
    assert(leaf_b.bars(last_part, bar) == Seq::<Bar>::empty());
    assert(after.placed(rect, bar) =~= shape.placed(rect, bar).update(
        0,
        (area, first_part),
    ).insert(1, (fresh, last_part)));
    assert(after.bars(rect, bar) =~= shape.bars(rect, bar).insert(0, new));
}

/// A split changes a layout in one place: the area that was split keeps its id and the
/// first part of its rectangle, the new one comes right after it with the last part, and
/// one new splitter lies between them. Every other area and every other splitter is exactly
/// where it was, in the same order.
///
/// Returns the place among the areas and the one among the splitters.
pub proof fn law_split_changes_one_place(
    shape: Shape,
    rect: Rect,
    bar: Scalar,
    area: AreaId,
    axis: Axis,
    ratio: Scalar,
    a: NodeId,
    b: NodeId,
    fresh: AreaId,
) -> (at: (int, int))
    requires
        shape.orderly(),
        shape.has_area(area),
    ensures
        ({
            let after = shape.with_split(area, axis, ratio, a, b, fresh);
            let (one, new, two) = split_parts(shape, rect, bar, area, axis, ratio);
            &&& replaced_at(
                shape.placed(rect, bar),
                after.placed(rect, bar),
                at.0,
                (area, one),
                (fresh, two),
            )
            &&& 0 <= at.0 < shape.placed(rect, bar).len()
            &&& shape.placed(rect, bar)[at.0] == (area, new.span)
            &&& inserted_at(shape.bars(rect, bar), after.bars(rect, bar), at.1, new)
        }),
    decreases shape,
{
    let after = shape.with_split(area, axis, ratio, a, b, fresh);
    let (first_part, new, last_part) = split_parts(shape, rect, bar, area, axis, ratio);
    match shape {
        Shape::Area { node, .. } => {
            lemma_split_of_one(node, rect, bar, area, axis, ratio, a, b, fresh);
            (0, 0)
        },
        Shape::Split { node, axis: own, ratio: share, first, second } => {
            let (one, mid, two) = crate::areas::shape::divided(rect, own, share, bar);
            let here = seq![Bar { split: node, axis: own, rect: mid, span: rect }];
            let x = (area, first_part);
            let y = (fresh, last_part);
            let left = first.with_split(area, axis, ratio, a, b, fresh);
            let right = second.with_split(area, axis, ratio, a, b, fresh);
            let p = first.placed(one, bar);
            let q = second.placed(two, bar);
            let u = first.bars(one, bar);
            let v = second.bars(two, bar);
            if first.has_area(area) {
                let (i, k) = law_split_changes_one_place(
                    *first,
                    one,
                    bar,
                    area,
                    axis,
                    ratio,
                    a,
                    b,
                    fresh,
                );
                crate::areas::shape::lemma_split_elsewhere(
                    *second,
                    area,
                    axis,
                    ratio,
                    a,
                    b,
                    fresh,
                );
                lemma_replaced_in_first(p, left.placed(one, bar), q, i, x, y);
                lemma_inserted_in_first(here, u, left.bars(one, bar), v, k, new);
                (i, k + 1)
            } else {
                let (i, k) = law_split_changes_one_place(
                    *second,
                    two,
                    bar,
                    area,
                    axis,
                    ratio,
                    a,
                    b,
                    fresh,
                );
                crate::areas::shape::lemma_split_elsewhere(
                    *first,
                    area,
                    axis,
                    ratio,
                    a,
                    b,
                    fresh,
                );
                lemma_replaced_in_second(p, q, right.placed(two, bar), i, x, y);
                lemma_inserted_in_second(here, u, v, right.bars(two, bar), k, new);
                (p.len() + i, u.len() + 1 + k)
            }
        },
    }
}

/// A layout stays on the grid that it started on: so do the edges of every area, of every
/// splitter, and of all that a splitter divides.
pub proof fn law_layout_stays_on_the_grid(shape: Shape, rect: Rect, bar: Scalar, gx: nat, gy: nat)
    requires
        proper(shape),
        aligned_rect(rect, gx, gy),
        crate::areas::laws::aligned_bar(bar, gx),
        crate::areas::laws::aligned_bar(bar, gy),
    ensures
        forall|k: int|
            0 <= k < shape.placed(rect, bar).len() ==> aligned_rect(
                (#[trigger] shape.placed(rect, bar)[k]).1,
                gx,
                gy,
            ),
        forall|k: int|
            0 <= k < shape.bars(rect, bar).len() ==> aligned_rect(
                (#[trigger] shape.bars(rect, bar)[k]).rect,
                gx,
                gy,
            ) && aligned_rect(shape.bars(rect, bar)[k].span, gx, gy),
    decreases shape,
{
    let placed = shape.placed(rect, bar);
    let bars = shape.bars(rect, bar);
    match shape {
        Shape::Area { area, .. } => {
            assert(placed[0] == (area, rect));
        },
        Shape::Split { node, axis, ratio, first, second } => {
            let (one, mid, two) = crate::areas::shape::divided(rect, axis, ratio, bar);
            crate::areas::laws::lemma_division(rect, axis, ratio, bar, gx, gy);
            law_layout_stays_on_the_grid(*first, one, bar, gx, gy);
            law_layout_stays_on_the_grid(*second, two, bar, gx, gy);
            let p = first.placed(one, bar);
            let q = second.placed(two, bar);
            let u = first.bars(one, bar);
            let v = second.bars(two, bar);
            assert forall|k: int| 0 <= k < placed.len() implies aligned_rect(
                (#[trigger] placed[k]).1,
                gx,
                gy,
            ) by {
                if k < p.len() {
                    assert(placed[k] == p[k]);
                } else {
                    assert(placed[k] == q[k - p.len()]);
                }
            }
            assert forall|k: int| 0 <= k < bars.len() implies aligned_rect(
                (#[trigger] bars[k]).rect,
                gx,
                gy,
            ) && aligned_rect(bars[k].span, gx, gy) by {
                if k == 0 {
                    assert(bars[0] == (Bar { split: node, axis, rect: mid, span: rect }));
                } else if k < u.len() + 1 {
                    assert(bars[k] == u[k - 1]);
                } else {
                    assert(bars[k] == v[k - u.len() - 1]);
                }
            }
        },
    }
}

/// Whether a number is whole.
pub open spec fn whole(x: Scalar) -> bool {
    x.finite() && x.value() % (crate::number::rounding::one_in_units() as int) == 0
}

/// Whether all edges are whole numbers of pixels.
pub open spec fn whole_corners(rect: Rect) -> bool {
    whole(rect.x0) && whole(rect.y0) && whole(rect.x1) && whole(rect.y1)
}

/// Whether the interval from `lo` to `hi` runs forward, and neither its ends nor its length
/// take more than 53 bits' worth of pixels.
pub open spec fn spans(lo: Scalar, hi: Scalar) -> bool {
    let reach = GRID_REACH * crate::number::rounding::one_in_units();
    &&& -reach <= lo.value() <= reach
    &&& -reach <= hi.value() <= reach
    &&& 0 <= hi.value() - lo.value() <= reach
}

/// A rectangle with whole corners is tiled exactly, by areas and splitters with whole
/// corners: every point of it lies in one of them and in one only.
pub proof fn law_whole_corners_stay_whole(shape: Shape, rect: Rect, bar: Scalar, p: Point)
    requires
        proper(shape),
        whole_corners(rect),
        spans(rect.x0, rect.x1),
        spans(rect.y0, rect.y1),
        whole(bar),
        bar.value() >= 0,
    ensures
        shape.fits(rect, bar),
        crate::areas::laws::areas_at(shape.placed(rect, bar), p) + crate::areas::laws::bars_at(
            shape.bars(rect, bar),
            p,
        ) == (if rect.contains(p) {
            1nat
        } else {
            0nat
        }),
        forall|k: int|
            0 <= k < shape.placed(rect, bar).len() ==> whole_corners(
                (#[trigger] shape.placed(rect, bar)[k]).1,
            ),
        forall|k: int|
            0 <= k < shape.bars(rect, bar).len() ==> whole_corners(
                (#[trigger] shape.bars(rect, bar)[k]).rect,
            ) && whole_corners(shape.bars(rect, bar)[k].span),
{
    let g = UNIT_EXPONENT as nat;
    assert(aligned_rect(rect, g, g));
    crate::areas::laws::law_aligned_fits(shape, rect, bar, g, g);
    crate::areas::laws::law_tiling(shape, rect, bar, g, g, p);
    law_layout_stays_on_the_grid(shape, rect, bar, g, g);
    let placed = shape.placed(rect, bar);
    let bars = shape.bars(rect, bar);
    assert forall|k: int| 0 <= k < placed.len() implies whole_corners((#[trigger] placed[k]).1) by {
        assert(aligned_rect(shape.placed(rect, bar)[k].1, g, g));
    }
    assert forall|k: int| 0 <= k < bars.len() implies whole_corners((#[trigger] bars[k]).rect)
        && whole_corners(bars[k].span) by {
        assert(aligned_rect(shape.bars(rect, bar)[k].rect, g, g));
    }
}

/// What `split` divides, if it is a split of the shape.
pub open spec fn span_of(shape: Shape, rect: Rect, bar: Scalar, split: NodeId) -> Rect
    decreases shape,
{
    match shape {
        Shape::Area { .. } => rect,
        Shape::Split { node, axis, ratio, first, second } => {
            let (one, _, two) = crate::areas::shape::divided(rect, axis, ratio, bar);
            if node == split {
                rect
            } else if first.has_node(split) {
                span_of(*first, one, bar, split)
            } else {
                span_of(*second, two, bar, split)
            }
        },
    }
}

/// The axis that `split` divides along, and the first area on each of its sides.
pub open spec fn sides_of(shape: Shape, split: NodeId) -> (Axis, AreaId, AreaId)
    decreases shape,
{
    match shape {
        Shape::Area { area, .. } => (Axis::Horizontal, area, area),
        Shape::Split { node, axis, first, second, .. } => if node == split {
            (axis, first_area(*first), first_area(*second))
        } else if first.has_node(split) {
            sides_of(*first, split)
        } else {
            sides_of(*second, split)
        },
    }
}

/// The first area of a shape.
pub open spec fn first_area(shape: Shape) -> AreaId
    decreases shape,
{
    match shape {
        Shape::Area { area, .. } => area,
        Shape::Split { first, .. } => first_area(*first),
    }
}

proof fn lemma_bar_of_join(a: Seq<Bar>, b: Seq<Bar>, split: NodeId)
    ensures
        crate::areas::screen::bar_of(a + b, split)
            == (match crate::areas::screen::bar_of(a, split) {
            Some(bar) => Some(bar),
            None => crate::areas::screen::bar_of(b, split),
        }),
    decreases a.len(),
{
    if a.len() == 0 {
        assert(a + b =~= b);
    } else {
        assert((a + b)[0] == a[0]);
        assert((a + b).skip(1) =~= a.skip(1) + b);
        lemma_bar_of_join(a.skip(1), b, split);
    }
}

proof fn lemma_no_bar(shape: Shape, rect: Rect, bar: Scalar, split: NodeId)
    requires
        !shape.has_node(split),
    ensures
        crate::areas::screen::bar_of(shape.bars(rect, bar), split) is None,
    decreases shape,
{
    match shape {
        Shape::Area { .. } => {},
        Shape::Split { node, axis, ratio, first, second } => {
            let (one, mid, two) = crate::areas::shape::divided(rect, axis, ratio, bar);
            let here = seq![Bar { split: node, axis, rect: mid, span: rect }];
            lemma_one_bar(here[0], split);
            lemma_no_bar(*first, one, bar, split);
            lemma_no_bar(*second, two, bar, split);
            lemma_bar_of_join(here, first.bars(one, bar), split);
            lemma_bar_of_join(here + first.bars(one, bar), second.bars(two, bar), split);
        },
    }
}

proof fn lemma_one_bar(bar: Bar, split: NodeId)
    ensures
        crate::areas::screen::bar_of(seq![bar], split) == (if bar.split == split {
            Some(bar)
        } else {
            None
        }),
{
    let here = seq![bar];
    assert(here[0] == bar);
    assert(here.skip(1) =~= Seq::<Bar>::empty());
    assert(crate::areas::screen::bar_of(here.skip(1), split) is None);
}

/// Where a splitter and the areas on its two sides go, if both sides are single areas.
proof fn lemma_leaf_split(
    shape: Shape,
    rect: Rect,
    bar: Scalar,
    split: NodeId,
    gx: nat,
    gy: nat,
)
    requires
        shape.orderly(),
        crate::areas::laws::is_leaf_split(shape, split),
    ensures
        ({
            let span = span_of(shape, rect, bar, split);
            let (axis, x, y) = sides_of(shape, split);
            let ratio = shape.ratio_of(split).unwrap();
            let (one, mid, two) = crate::areas::shape::divided(span, axis, ratio, bar);
            &&& shape.ratio_of(split) is Some
            &&& proper(shape) ==> crate::areas::laws::proper_ratio(ratio)
            &&& proper(shape) && aligned_rect(rect, gx, gy) && crate::areas::laws::aligned_bar(
                bar,
                gx,
            ) && crate::areas::laws::aligned_bar(bar, gy) ==> aligned_rect(span, gx, gy)
            &&& shape.has_area(x)
            &&& shape.has_area(y)
            &&& x != y
            &&& crate::areas::laws::rect_of(shape, rect, bar, x) == one
            &&& crate::areas::laws::rect_of(shape, rect, bar, y) == two
            &&& crate::areas::screen::bar_of(shape.bars(rect, bar), split) == Some(
                Bar { split, axis, rect: mid, span },
            )
        }),
    decreases shape,
{
    match shape {
        Shape::Area { .. } => {},
        Shape::Split { node, axis, ratio, first, second } => {
            let (one, mid, two) = crate::areas::shape::divided(rect, axis, ratio, bar);
            let here = seq![Bar { split: node, axis, rect: mid, span: rect }];
            let u = first.bars(one, bar);
            let v = second.bars(two, bar);
            lemma_one_bar(here[0], split);
            lemma_bar_of_join(here, u, split);
            lemma_bar_of_join(here + u, v, split);
            if proper(shape) && aligned_rect(rect, gx, gy)
                && crate::areas::laws::aligned_bar(bar, gx)
                && crate::areas::laws::aligned_bar(bar, gy) {
                crate::areas::laws::lemma_division(rect, axis, ratio, bar, gx, gy);
            }
            if node == split {
                reveal_with_fuel(crate::areas::laws::rect_of, 2);
                reveal_with_fuel(Shape::has_area, 2);
                let x = first_area(*first);
                let y = first_area(*second);
                assert(first.has_area(x) && second.has_area(y));
                assert(!(first.has_area(y) && second.has_area(y)));
            } else if crate::areas::laws::is_leaf_split(*first, split) {
                crate::areas::laws::law_leaf_split_has_two_sides(*first, split);
                lemma_leaf_split(*first, one, bar, split, gx, gy);
            } else {
                crate::areas::laws::law_leaf_split_has_two_sides(*second, split);
                assert(!(first.has_node(split) && second.has_node(split)));
                lemma_no_bar(*first, one, bar, split);
                lemma_leaf_split(*second, two, bar, split, gx, gy);
                let (_, x, y) = sides_of(*second, split);
                assert(!(first.has_area(x) && second.has_area(x)));
                assert(!(first.has_area(y) && second.has_area(y)));
            }
        },
    }
}

/// Moving a splitter changes neither what it divides nor what is on its sides.
proof fn lemma_move_keeps_sides(
    shape: Shape,
    rect: Rect,
    bar: Scalar,
    split: NodeId,
    new: Scalar,
)
    requires
        shape.orderly(),
        shape.has_node(split),
        crate::areas::laws::is_leaf_split(shape, split),
    ensures
        ({
            let moved = shape.with_ratio(split, new);
            &&& crate::areas::laws::is_leaf_split(moved, split)
            &&& span_of(moved, rect, bar, split) == span_of(shape, rect, bar, split)
            &&& sides_of(moved, split) == sides_of(shape, split)
        }),
    decreases shape,
{
    match shape {
        Shape::Area { .. } => {},
        Shape::Split { node, axis, ratio, first, second } => {
            let (one, _, two) = crate::areas::shape::divided(rect, axis, ratio, bar);
            crate::areas::shape::lemma_ratio_keeps(*first, split, new);
            let left = first.with_ratio(split, new);
            assert(left.has_node(split) <==> first.has_node(split));
            if node == split {
                assert(left == *first);
            } else if crate::areas::laws::is_leaf_split(*first, split) {
                crate::areas::laws::law_leaf_split_has_two_sides(*first, split);
                lemma_move_keeps_sides(*first, one, bar, split, new);
            } else {
                crate::areas::laws::law_leaf_split_has_two_sides(*second, split);
                assert(!(first.has_node(split) && second.has_node(split)));
                lemma_move_keeps_sides(*second, two, bar, split, new);
            }
        },
    }
}

/// Two ratios that put a splitter in different places give both sides different lengths.
proof fn lemma_both_sides_change(
    lo: Scalar,
    hi: Scalar,
    old_ratio: Scalar,
    new_ratio: Scalar,
    bar: Scalar,
    g: nat,
)
    requires
        crate::areas::laws::aligned(lo, hi, g),
        crate::areas::laws::aligned_bar(bar, g),
        crate::areas::laws::proper_ratio(old_ratio),
        crate::areas::laws::proper_ratio(new_ratio),
        ({
            let extent = hi.minus(lo);
            let room = extent.minus(bar.min(extent));
            let f = room.times(old_ratio).round().clamp(Scalar::zero(), room);
            let h = room.times(new_ratio).round().clamp(Scalar::zero(), room);
            lo.plus(f).value() != lo.plus(h).value()
        }),
    ensures
        ({
            let extent = hi.minus(lo);
            let thick = bar.min(extent);
            let room = extent.minus(thick);
            let f = lo.plus(room.times(old_ratio).round().clamp(Scalar::zero(), room));
            let h = lo.plus(room.times(new_ratio).round().clamp(Scalar::zero(), room));
            let end = lo.plus(extent);
            &&& f.minus(lo).value() != h.minus(lo).value()
            &&& end.minus(f.plus(thick)).value() != end.minus(h.plus(thick)).value()
        }),
{
    let extent = hi.minus(lo);
    let thick = bar.min(extent);
    let room = extent.minus(thick);
    let f = lo.plus(room.times(old_ratio).round().clamp(Scalar::zero(), room));
    let h = lo.plus(room.times(new_ratio).round().clamp(Scalar::zero(), room));
    let end = lo.plus(extent);
    crate::areas::laws::lemma_cut(lo, hi, old_ratio, bar, g);
    crate::areas::laws::lemma_cut(lo, hi, new_ratio, bar, g);
    crate::number::exact::lemma_grid_minus(f, lo, g);
    crate::number::exact::lemma_grid_minus(h, lo, g);
    crate::number::exact::lemma_grid_minus(end, f.plus(thick), g);
    crate::number::exact::lemma_grid_minus(end, h.plus(thick), g);
}

/// How many entries of a layout are of areas that have not been told of their size.
spec fn untold(sizes: Seq<Option<Size>>, placed: Seq<(AreaId, Rect)>) -> nat
    decreases placed.len(),
{
    if placed.len() == 0 {
        0
    } else {
        untold(sizes, placed.drop_last()) + if crate::areas::laws::told_of(sizes, placed.last()) {
            0nat
        } else {
            1nat
        }
    }
}

/// A layout pass tells exactly those that have not been told.
proof fn lemma_settled_counts(sizes: Seq<Option<Size>>, placed: Seq<(AreaId, Rect)>)
    requires
        forall|k: int| 0 <= k < placed.len() ==> (#[trigger] placed[k]).0 < sizes.len(),
        forall|i: int, j: int|
            0 <= i < j < placed.len() ==> (#[trigger] placed[i]).0 != (#[trigger] placed[j]).0,
    ensures
        crate::areas::screen::settled(sizes, placed).1 == untold(sizes, placed),
        crate::areas::screen::settled(sizes, placed).0.len() == sizes.len(),
        forall|id: int|
            0 <= id < sizes.len() && (forall|k: int|
                0 <= k < placed.len() ==> (#[trigger] placed[k]).0 != id)
                ==> #[trigger] crate::areas::screen::settled(sizes, placed).0[id] == sizes[id],
    decreases placed.len(),
{
    if placed.len() > 0 {
        let before = placed.drop_last();
        assert forall|k: int| 0 <= k < before.len() implies (#[trigger] before[k]).0
            < sizes.len() by {
            assert(before[k] == placed[k]);
        }
        assert forall|i: int, j: int| 0 <= i < j < before.len() implies (#[trigger] before[i]).0
            != (#[trigger] before[j]).0 by {
            assert(before[i] == placed[i] && before[j] == placed[j]);
        }
        lemma_settled_counts(sizes, before);
        let told = crate::areas::screen::settled(sizes, before).0;
        let after = crate::areas::screen::settled(sizes, placed).0;
        let n = placed.len() - 1;
        let id = placed[n].0 as int;
        assert forall|k: int| 0 <= k < before.len() implies (#[trigger] before[k]).0 != id by {
            assert(before[k] == placed[k]);
            assert(placed[k].0 != placed[n].0);
        }
        assert(told[id] == sizes[id]);
        assert forall|id: int|
            0 <= id < sizes.len() && (forall|k: int|
                0 <= k < placed.len() ==> (#[trigger] placed[k]).0 != id) implies #[trigger]
            after[id] == sizes[id] by {
            assert(placed[n].0 != id);
            assert forall|k: int| 0 <= k < before.len() implies (#[trigger] before[k]).0 != id by {
                assert(before[k] == placed[k]);
            }
            assert(told[id] == sizes[id]);
        }
    }
}

/// Two entries that have not been told count for two.
proof fn lemma_two_untold(sizes: Seq<Option<Size>>, placed: Seq<(AreaId, Rect)>, i: int, j: int)
    requires
        0 <= i < placed.len(),
        0 <= j < placed.len(),
        !crate::areas::laws::told_of(sizes, placed[i]),
        !crate::areas::laws::told_of(sizes, placed[j]),
    ensures
        untold(sizes, placed) >= 1,
        i != j ==> untold(sizes, placed) >= 2,
    decreases placed.len(),
{
    let n = placed.len() - 1;
    let before = placed.drop_last();
    if i < n {
        assert(before[i] == placed[i]);
        if j < n {
            assert(before[j] == placed[j]);
            lemma_two_untold(sizes, before, i, j);
        } else {
            lemma_two_untold(sizes, before, i, i);
        }
    } else if j < n {
        assert(before[j] == placed[j]);
        lemma_two_untold(sizes, before, j, j);
    }
}

/// Whether a splitter has been moved to another place along its axis.
pub open spec fn shifted(before: Bar, after: Bar) -> bool {
    &&& crate::areas::shape::start(after.rect, after.axis).finite()
    &&& crate::areas::shape::start(after.rect, after.axis).value() != crate::areas::shape::start(
        before.rect,
        before.axis,
    ).value()
}

/// A ratio that is no number puts a splitter nowhere.
proof fn lemma_nowhere(rect: Rect, axis: Axis, ratio: Scalar, bar: Scalar)
    requires
        ratio.is_nan(),
    ensures
        !crate::areas::shape::start(
            crate::areas::shape::divided(rect, axis, ratio, bar).1,
            axis,
        ).finite(),
{
    let room = crate::areas::shape::usable(rect, axis, bar);
    assert(room.times(ratio).is_nan());
    assert(room.times(ratio).round().is_nan());
    let first = room.times(ratio).round().clamp(Scalar::zero(), room);
    assert(first.is_nan());
    assert(crate::areas::shape::start(rect, axis).plus(first).is_nan());
}

/// Dragging the splitter between two single areas to another place resizes exactly those
/// two, however many areas the screen holds.
pub proof fn law_leaf_drag_resizes_both_sides(
    state: ScreenState,
    size: Size,
    split: NodeId,
    pos: Point,
    dirty: nat,
)
    requires
        state.shape.orderly(),
        proper(state.shape),
        forall|id: AreaId| #[trigger] state.shape.has_area(id) ==> id < state.sizes.len(),
        crate::areas::laws::screen_length(size.width),
        crate::areas::laws::screen_length(size.height),
        state.bars == state.shape.bars(ScreenState::bounds(size), bar_thickness()),
        crate::areas::laws::all_told(
            state.sizes,
            state.shape.placed(ScreenState::bounds(size), bar_thickness()),
        ),
        state.counters.area_resizes + state.shape.leaves() <= u64::MAX,
        crate::areas::laws::is_leaf_split(state.shape, split),
        ({
            let after = state.dragged(split, pos).laid_out(size, dirty);
            shifted(
                crate::areas::screen::bar_of(state.bars, split).unwrap(),
                crate::areas::screen::bar_of(after.bars, split).unwrap(),
            )
        }),
    ensures
        ({
            let after = state.dragged(split, pos).laid_out(size, dirty);
            after.counters.area_resizes == state.counters.area_resizes + 2
        }),
{
    let bounds = ScreenState::bounds(size);
    let bar = bar_thickness();
    let shape = state.shape;
    let (gx, gy) = crate::areas::laws::lemma_bounds(size);
    lemma_leaf_split(shape, bounds, bar, split, gx, gy);
    crate::areas::laws::law_leaf_split_has_two_sides(shape, split);
    let moved = state.dragged(split, pos);
    let after = moved.laid_out(size, dirty);
    assert(moved.shape != shape);
    let wanted = crate::areas::shape::implied_ratio(
        crate::areas::screen::bar_of(state.bars, split).unwrap(),
        pos,
        bar,
    );
    let new = wanted.clamp(Scalar::zero(), Scalar::from_whole(1));
    let laid = shape.with_ratio(split, new);
    assert(moved.shape == laid);
    crate::areas::shape::lemma_ratio_keeps(shape, split, new);
    crate::areas::laws::lemma_ratio_of_moved(shape, split, new);
    lemma_move_keeps_sides(shape, bounds, bar, split, new);
    lemma_leaf_split(laid, bounds, bar, split, gx, gy);
    let span = span_of(shape, bounds, bar, split);
    let (axis, x, y) = sides_of(shape, split);
    if new.is_nan() {
        lemma_nowhere(span, axis, new, bar);
    }
    assert(!wanted.is_nan());
    crate::areas::laws::lemma_clamped_is_proper(wanted);
    let share = shape.ratio_of(split).unwrap();
    match axis {
        Axis::Horizontal => lemma_both_sides_change(span.x0, span.x1, share, new, bar, gx),
        Axis::Vertical => lemma_both_sides_change(span.y0, span.y1, share, new, bar, gy),
    }
    // Who has to be told.
    crate::areas::laws::law_every_area_is_placed_once(laid, bounds, bar);
    crate::areas::laws::law_every_area_is_placed_once(shape, bounds, bar);
    let placed = laid.placed(bounds, bar);
    let i = lemma_resized_entry(state.sizes, shape, laid, bounds, bar, x);
    let j = lemma_resized_entry(state.sizes, shape, laid, bounds, bar, y);
    lemma_two_untold(state.sizes, placed, i, j);
    assert forall|k: int| 0 <= k < placed.len() implies (#[trigger] placed[k]).0
        < state.sizes.len() by {
        assert(laid.has_area(laid.placed(bounds, bar)[k].0));
        assert(shape.has_area(placed[k].0));
    }
    lemma_settled_counts(state.sizes, placed);
    crate::areas::laws::law_drag_resizes_its_sides_only(state, size, split, pos, dirty);
    lemma_untold_bounded(state.sizes, placed);
}

proof fn lemma_untold_bounded(sizes: Seq<Option<Size>>, placed: Seq<(AreaId, Rect)>)
    ensures
        untold(sizes, placed) <= placed.len(),
    decreases placed.len(),
{
    if placed.len() > 0 {
        lemma_untold_bounded(sizes, placed.drop_last());
    }
}

/// An area whose rectangle has another size in a new layout has not been told of it.
proof fn lemma_resized_entry(
    sizes: Seq<Option<Size>>,
    shape: Shape,
    laid: Shape,
    rect: Rect,
    bar: Scalar,
    id: AreaId,
) -> (i: int)
    requires
        shape.orderly(),
        laid.orderly(),
        shape.has_area(id),
        laid.has_area(id),
        crate::areas::laws::all_told(sizes, shape.placed(rect, bar)),
        ({
            let before = crate::areas::laws::rect_of(shape, rect, bar, id);
            let after = crate::areas::laws::rect_of(laid, rect, bar, id);
            before.width().value() != after.width().value() || before.height().value()
                != after.height().value()
        }),
    ensures
        0 <= i < laid.placed(rect, bar).len(),
        laid.placed(rect, bar)[i].0 == id,
        !crate::areas::laws::told_of(sizes, laid.placed(rect, bar)[i]),
{
    crate::areas::laws::law_every_area_is_placed_once(laid, rect, bar);
    crate::areas::laws::law_every_area_is_placed_once(shape, rect, bar);
    let i = choose|i: int| 0 <= i < laid.leaves() && (#[trigger] laid.placed(rect, bar)[i]).0 == id;
    let j = choose|j: int|
        0 <= j < shape.leaves() && (#[trigger] shape.placed(rect, bar)[j]).0 == id;
    crate::areas::laws::law_placed_at_own_rect(laid, rect, bar, i);
    crate::areas::laws::law_placed_at_own_rect(shape, rect, bar, j);
    assert(crate::areas::laws::told_of(sizes, shape.placed(rect, bar)[j]));
    i
}

} // verus!
