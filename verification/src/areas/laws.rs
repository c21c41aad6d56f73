//! What holds of a tiled screen as a whole.

use vstd::prelude::*;

use crate::areas::screen::{bar_thickness, ScreenState};
use crate::areas::shape::{AreaId, Bar, NodeId, Shape};
use crate::geometry::{Axis, Point, Rect, Size};
use crate::number::exact::GRID_REACH;
use crate::number::rounding::{HIDDEN, UNIT_EXPONENT};
use crate::number::scalar::Scalar;
use crate::widget::PointerEvent;

verus! {

/// Whether a ratio is a number from zero to one.
pub open spec fn proper_ratio(ratio: Scalar) -> bool {
    ratio.finite() && 0 <= ratio.value() <= crate::number::rounding::one_in_units()
}

/// Whether every split of the shape has a proper ratio.
pub open spec fn proper(shape: Shape) -> bool
    decreases shape,
{
    match shape {
        Shape::Area { .. } => true,
        Shape::Split { ratio, first, second, .. } => proper_ratio(ratio) && proper(*first)
            && proper(*second),
    }
}

/// Whether the interval from `lo` to `hi` has both ends and its length on a grid.
pub open spec fn aligned(lo: Scalar, hi: Scalar, g: nat) -> bool {
    &&& g <= UNIT_EXPONENT
    &&& crate::number::exact::on_grid(lo, g)
    &&& crate::number::exact::on_grid(hi, g)
    &&& 0 <= hi.value() - lo.value() <= GRID_REACH * crate::number::rounding::two_to(g)
}

/// Whether a rectangle has its edges on one grid for each axis.
///
/// So it is wherever the edges are whole pixels, or any other multiples of one power of
/// two, and none is more than 53 bits' worth of them from zero.
pub open spec fn aligned_rect(rect: Rect, gx: nat, gy: nat) -> bool {
    aligned(rect.x0, rect.x1, gx) && aligned(rect.y0, rect.y1, gy)
}

/// Whether a splitter can be `bar` thick on a grid.
pub open spec fn aligned_bar(bar: Scalar, g: nat) -> bool {
    &&& bar.finite()
    &&& bar.value() >= 0
    &&& bar.value() % (crate::number::rounding::two_to(g) as int) == 0
}

pub open spec fn finish(rect: Rect, axis: Axis) -> Scalar {
    match axis {
        Axis::Horizontal => rect.x1,
        Axis::Vertical => rect.y1,
    }
}

/// How an aligned interval is divided: without rounding, in order, and to its very end.
pub proof fn lemma_cut(lo: Scalar, hi: Scalar, ratio: Scalar, bar: Scalar, g: nat)
    requires
        aligned(lo, hi, g),
        aligned_bar(bar, g),
        proper_ratio(ratio),
    ensures
        ({
            let extent = hi.minus(lo);
            let thick = bar.min(extent);
            let room = extent.minus(thick);
            let first = room.times(ratio).round().clamp(Scalar::zero(), room);
            let bar_start = lo.plus(first);
            let second_start = bar_start.plus(thick);
            let end = lo.plus(extent);
            &&& Scalar::zero().at_most(room)
            &&& aligned(lo, bar_start, g)
            &&& aligned(bar_start, second_start, g)
            &&& aligned(second_start, end, g)
            &&& end.value() == hi.value()
            &&& bar_start.value() == lo.value() + first.value()
            &&& second_start.value() == bar_start.value() + thick.value()
            &&& room.finite()
            &&& room.value() == extent.value() - thick.value()
            &&& extent.value() == hi.value() - lo.value()
            &&& 0 <= first.value() <= room.value()
        }),
{
    let step = crate::number::rounding::two_to(g) as int;
    let one = crate::number::rounding::one_in_units() as int;
    crate::number::rounding::lemma_two_to_positive(g);
    let reach = GRID_REACH * step;
    let extent = hi.minus(lo);
    crate::number::exact::lemma_grid_minus(hi, lo, g);
    let thick = bar.min(extent);
    crate::number::exact::lemma_grid_minus(extent, thick, g);
    let room = extent.minus(thick);
    assert(0 <= room.value() <= extent.value());
    let product = room.times(ratio);
    crate::number::exact::lemma_times_shrinks(room, ratio);
    crate::number::exact::lemma_whole_on_grid(1, g);
    assert(reach <= GRID_REACH * one) by (nonlinear_arith)
        requires
            reach == GRID_REACH * step,
            step <= one,
    ;
    crate::number::exact::lemma_round_whole(product);
    let rounded = product.round();
    crate::number::exact::lemma_whole_on_grid(product.nearest_whole() as int, g);
    let first = rounded.clamp(Scalar::zero(), room);
    crate::number::exact::lemma_unit_interval();
    assert(first.finite() && first.value() % step == 0 && 0 <= first.value() <= room.value()) by {
        vstd::arithmetic::div_mod::lemma_mod_multiples_basic(0, step);
    }
    crate::number::exact::lemma_grid_plus(lo, first, g);
    let bar_start = lo.plus(first);
    crate::number::exact::lemma_grid_plus(bar_start, thick, g);
    crate::number::exact::lemma_grid_plus(lo, extent, g);
}

/// A split of an aligned rectangle.
pub proof fn lemma_division(rect: Rect, axis: Axis, ratio: Scalar, bar: Scalar, gx: nat, gy: nat)
    requires
        aligned_rect(rect, gx, gy),
        aligned_bar(bar, gx),
        aligned_bar(bar, gy),
        proper_ratio(ratio),
    ensures
        Scalar::zero().at_most(crate::areas::shape::usable(rect, axis, bar)),
        ({
            let (one, mid, two) = crate::areas::shape::divided(rect, axis, ratio, bar);
            &&& aligned_rect(one, gx, gy)
            &&& aligned_rect(mid, gx, gy)
            &&& aligned_rect(two, gx, gy)
            &&& finish(two, axis).value() == finish(rect, axis).value()
        }),
{
    match axis {
        Axis::Horizontal => lemma_cut(rect.x0, rect.x1, ratio, bar, gx),
        Axis::Vertical => lemma_cut(rect.y0, rect.y1, ratio, bar, gy),
    }
}

/// Laying out an aligned rectangle with proper ratios meets no length that is not a number.
pub proof fn law_aligned_fits(shape: Shape, rect: Rect, bar: Scalar, gx: nat, gy: nat)
    requires
        proper(shape),
        aligned_rect(rect, gx, gy),
        aligned_bar(bar, gx),
        aligned_bar(bar, gy),
    ensures
        shape.fits(rect, bar),
    decreases shape,
{
    match shape {
        Shape::Area { .. } => {},
        Shape::Split { axis, ratio, first, second, .. } => {
            lemma_division(rect, axis, ratio, bar, gx, gy);
            let (one, _, two) = crate::areas::shape::divided(rect, axis, ratio, bar);
            law_aligned_fits(*first, one, bar, gx, gy);
            law_aligned_fits(*second, two, bar, gx, gy);
        },
    }
}

/// How many of the areas contain a point.
pub open spec fn areas_at(placed: Seq<(AreaId, Rect)>, p: Point) -> nat
    decreases placed.len(),
{
    if placed.len() == 0 {
        0
    } else {
        areas_at(placed.drop_last(), p) + if placed.last().1.contains(p) {
            1nat
        } else {
            0nat
        }
    }
}

/// How many of the bars contain a point.
pub open spec fn bars_at(bars: Seq<Bar>, p: Point) -> nat
    decreases bars.len(),
{
    if bars.len() == 0 {
        0
    } else {
        bars_at(bars.drop_last(), p) + if bars.last().rect.contains(p) {
            1nat
        } else {
            0nat
        }
    }
}

proof fn lemma_areas_at_join(a: Seq<(AreaId, Rect)>, b: Seq<(AreaId, Rect)>, p: Point)
    ensures
        areas_at(a + b, p) == areas_at(a, p) + areas_at(b, p),
    decreases b.len(),
{
    if b.len() == 0 {
        assert(a + b =~= a);
    } else {
        assert((a + b).drop_last() =~= a + b.drop_last());
        lemma_areas_at_join(a, b.drop_last(), p);
    }
}

proof fn lemma_bars_at_join(a: Seq<Bar>, b: Seq<Bar>, p: Point)
    ensures
        bars_at(a + b, p) == bars_at(a, p) + bars_at(b, p),
    decreases b.len(),
{
    if b.len() == 0 {
        assert(a + b =~= a);
    } else {
        assert((a + b).drop_last() =~= a + b.drop_last());
        lemma_bars_at_join(a, b.drop_last(), p);
    }
}

/// A layout tiles the screen exactly: every point of it lies in one area or in one
/// splitter, never in two of them and never in none, and no area or splitter sticks out.
pub proof fn law_tiling(shape: Shape, rect: Rect, bar: Scalar, gx: nat, gy: nat, p: Point)
    requires
        proper(shape),
        aligned_rect(rect, gx, gy),
        aligned_bar(bar, gx),
        aligned_bar(bar, gy),
    ensures
        areas_at(shape.placed(rect, bar), p) + bars_at(shape.bars(rect, bar), p) == (
        if rect.contains(p) {
            1nat
        } else {
            0nat
        }),
    decreases shape,
{
    match shape {
        Shape::Area { area, .. } => {
            let placed = seq![(area, rect)];
            assert(placed.drop_last() =~= Seq::<(AreaId, Rect)>::empty());
            assert(areas_at(placed.drop_last(), p) == 0);
            assert(bars_at(Seq::<Bar>::empty(), p) == 0);
        },
        Shape::Split { node, axis, ratio, first, second } => {
            let (one, mid, two) = crate::areas::shape::divided(rect, axis, ratio, bar);
            lemma_division(rect, axis, ratio, bar, gx, gy);
            law_tiling(*first, one, bar, gx, gy, p);
            law_tiling(*second, two, bar, gx, gy, p);
            lemma_areas_at_join(first.placed(one, bar), second.placed(two, bar), p);
            let own = seq![Bar { split: node, axis, rect: mid, span: rect }];
            assert(own.drop_last() =~= Seq::<Bar>::empty());
            assert(bars_at(own.drop_last(), p) == 0);
            lemma_bars_at_join(own, first.bars(one, bar), p);
            lemma_bars_at_join(own + first.bars(one, bar), second.bars(two, bar), p);
        },
    }
}

/// A length of a screen that can be tiled: from zero up to 53 bits' worth of pixels.
pub open spec fn screen_length(x: Scalar) -> bool {
    x.finite() && 0 <= x.value() < GRID_REACH * crate::number::rounding::one_in_units()
}

/// Every such length is aligned with zero on some grid.
pub proof fn lemma_length_grid(x: Scalar) -> (g: nat)
    requires
        screen_length(x),
    ensures
        aligned(Scalar::zero(), x, g),
{
    let h = HIDDEN as nat;
    let m = x.magnitude();
    let one = crate::number::rounding::one_in_units() as int;
    let u = crate::number::rounding::units(m) as int;
    crate::number::arithmetic::lemma_zero_units(m);
    assert(x.value() == u);
    let g: nat = if m < HIDDEN {
        0
    } else {
        (m / h - 1) as nat
    };
    let step = crate::number::rounding::two_to(g) as int;
    crate::number::rounding::lemma_two_to_positive(g);
    let n: int = if m < HIDDEN {
        m as int
    } else {
        (h + m % h) as int
    };
    assert(u == n * step) by {
        if m < HIDDEN {
            assert(crate::number::rounding::two_to(0) == 1);
            assert(n * 1 == n);
        }
    }
    if m >= HIDDEN {
        assert(m % h < h);
        if g > UNIT_EXPONENT {
            let d = (g - UNIT_EXPONENT) as nat;
            crate::number::rounding::lemma_two_to_adds(d, UNIT_EXPONENT as nat);
            assert(crate::number::rounding::two_to(d) >= 2) by {
                crate::number::rounding::lemma_two_to_positive((d - 1) as nat);
            }
            let k = crate::number::rounding::two_to(d) as int;
            assert(u >= GRID_REACH * one) by (nonlinear_arith)
                requires
                    u == n * step,
                    step == k * one,
                    k >= 2,
                    n >= h,
                    GRID_REACH == 2 * h,
                    one >= 1,
            ;
        }
    }
    vstd::arithmetic::div_mod::lemma_mod_multiples_basic(n, step);
    vstd::arithmetic::div_mod::lemma_mod_multiples_basic(0, step);
    assert(u <= GRID_REACH * step && -(GRID_REACH * step) <= 0) by (nonlinear_arith)
        requires
            u == n * step,
            0 <= n <= GRID_REACH,
            step >= 1,
    ;
    crate::number::exact::lemma_unit_interval();
    g
}

/// The bounds of a screen of a given size.
pub proof fn lemma_bounds(size: Size) -> (g: (nat, nat))
    requires
        screen_length(size.width),
        screen_length(size.height),
    ensures
        aligned_rect(ScreenState::bounds(size), g.0, g.1),
        aligned_bar(bar_thickness(), g.0),
        aligned_bar(bar_thickness(), g.1),
        ScreenState::bounds(size).x0.value() == 0,
        ScreenState::bounds(size).y0.value() == 0,
        ScreenState::bounds(size).x1.value() == size.width.value(),
        ScreenState::bounds(size).y1.value() == size.height.value(),
{
    let gx = lemma_length_grid(size.width);
    let gy = lemma_length_grid(size.height);
    crate::number::exact::lemma_unit_interval();
    crate::number::exact::lemma_grid_plus(Scalar::zero(), size.width, gx);
    crate::number::exact::lemma_grid_plus(Scalar::zero(), size.height, gy);
    crate::number::exact::lemma_from_whole(4);
    crate::number::exact::lemma_whole_on_grid(4, gx);
    crate::number::exact::lemma_whole_on_grid(4, gy);
    (gx, gy)
}

/// A screen of any size is tiled exactly: every point of it lies in one area or in one
/// splitter, and in one only.
pub proof fn law_screen_is_tiled(shape: Shape, size: Size, p: Point)
    requires
        proper(shape),
        screen_length(size.width),
        screen_length(size.height),
    ensures
        shape.fits(ScreenState::bounds(size), bar_thickness()),
        areas_at(shape.placed(ScreenState::bounds(size), bar_thickness()), p) + bars_at(
            shape.bars(ScreenState::bounds(size), bar_thickness()),
            p,
        ) == (if ScreenState::bounds(size).contains(p) {
            1nat
        } else {
            0nat
        }),
{
    let (gx, gy) = lemma_bounds(size);
    law_aligned_fits(shape, ScreenState::bounds(size), bar_thickness(), gx, gy);
    law_tiling(shape, ScreenState::bounds(size), bar_thickness(), gx, gy, p);
}

/// Clamping keeps a number proper.
pub proof fn lemma_clamped_is_proper(ratio: Scalar)
    requires
        !ratio.is_nan(),
    ensures
        proper_ratio(ratio.clamp(Scalar::zero(), Scalar::from_whole(1))),
{
    crate::number::exact::lemma_unit_interval();
    crate::number::exact::lemma_from_whole(1);
    let one = crate::number::rounding::one_in_units() as int;
    assert(1 * one == one);
    let top = Scalar::from_whole(1);
    if ratio.infinite() {
        if ratio.negative() {
            crate::number::arithmetic::lemma_zero_units(ratio.magnitude());
        } else {
            crate::number::rounding::lemma_units_ascend(top.magnitude(), ratio.magnitude());
        }
    }
}

/// A balanced tree has proper ratios only.
pub proof fn law_balanced_is_proper(leaves: nat, depth: nat, area: nat, node: nat)
    requires
        leaves <= u64::MAX,
    ensures
        proper(Shape::balanced(leaves, depth, area, node)),
    decreases leaves,
{
    if leaves > 1 {
        let half = leaves / 2;
        crate::number::exact::lemma_whole_ascend(half as u64, leaves as u64);
        crate::number::exact::lemma_whole_ascend(leaves as u64, leaves as u64);
        crate::number::exact::lemma_whole_ascend(half as u64, half as u64);
        crate::number::exact::lemma_over_at_most_one(
            Scalar::from_whole(half as u64),
            Scalar::from_whole(leaves as u64),
        );
        law_balanced_is_proper(half, depth + 1, area, node);
        law_balanced_is_proper(
            (leaves - half) as nat,
            depth + 1,
            area + half,
            (node + 2 * half - 1) as nat,
        );
        assert(proper(Shape::balanced(leaves, depth, area, node)));
    }
}

/// Splitting an area keeps ratios proper, as long as the new one is a number.
pub proof fn law_split_keeps_proper(
    shape: Shape,
    id: AreaId,
    axis: Axis,
    ratio: Scalar,
    a: NodeId,
    b: NodeId,
    fresh: AreaId,
)
    requires
        proper(shape),
        !ratio.is_nan(),
    ensures
        proper(
            shape.with_split(
                id,
                axis,
                ratio.clamp(Scalar::zero(), Scalar::from_whole(1)),
                a,
                b,
                fresh,
            ),
        ),
    decreases shape,
{
    lemma_clamped_is_proper(ratio);
    match shape {
        Shape::Area { .. } => {
            reveal_with_fuel(proper, 2);
        },
        Shape::Split { first, second, .. } => {
            law_split_keeps_proper(*first, id, axis, ratio, a, b, fresh);
            law_split_keeps_proper(*second, id, axis, ratio, a, b, fresh);
        },
    }
}

proof fn lemma_with_ratio_proper(shape: Shape, split: NodeId, new: Scalar)
    requires
        proper(shape),
        proper_ratio(new),
    ensures
        proper(shape.with_ratio(split, new)),
    decreases shape,
{
    match shape {
        Shape::Area { .. } => {},
        Shape::Split { first, second, .. } => {
            lemma_with_ratio_proper(*first, split, new);
            lemma_with_ratio_proper(*second, split, new);
        },
    }
}

/// Dragging a splitter keeps ratios proper, wherever the pointer goes.
pub proof fn law_drag_keeps_proper(shape: Shape, split: NodeId, ratio: Scalar)
    requires
        proper(shape),
        !ratio.is_nan(),
    ensures
        proper(shape.dragged(split, ratio)),
{
    lemma_clamped_is_proper(ratio);
    lemma_with_ratio_proper(
        shape,
        split,
        ratio.clamp(Scalar::zero(), Scalar::from_whole(1)),
    );
}

pub proof fn lemma_ratio_of_moved(shape: Shape, split: NodeId, new: Scalar)
    requires
        shape.orderly(),
        shape.has_node(split),
        shape.ratio_of(split) is Some,
    ensures
        shape.with_ratio(split, new).ratio_of(split) == Some(new),
    decreases shape,
{
    match shape {
        Shape::Area { .. } => {},
        Shape::Split { node, first, second, .. } => {
            crate::areas::shape::lemma_ratio_keeps(*first, split, new);
            crate::areas::shape::lemma_ratio_keeps(*second, split, new);
            let one = first.with_ratio(split, new);
            assert(one.has_node(split) <==> first.has_node(split));
            if node != split {
                if first.has_node(split) {
                    lemma_ratio_of_moved(*first, split, new);
                } else {
                    lemma_ratio_of_moved(*second, split, new);
                }
            }
        },
    }
}

/// A splitter that moved has the ratio that was asked for, pinned to zero or one where it
/// lies outside, and asking for the same again moves nothing.
pub proof fn law_move_is_pinned_and_settles(shape: Shape, split: NodeId, ratio: Scalar)
    requires
        shape.orderly(),
        shape.moves(split, ratio),
        !ratio.is_nan(),
    ensures
        shape.dragged(split, ratio).ratio_of(split) == Some(
            ratio.clamp(Scalar::zero(), Scalar::from_whole(1)),
        ),
        proper_ratio(ratio.clamp(Scalar::zero(), Scalar::from_whole(1))),
        !shape.dragged(split, ratio).moves(split, ratio),
{
    lemma_clamped_is_proper(ratio);
    lemma_ratio_of_moved(
        shape,
        split,
        ratio.clamp(Scalar::zero(), Scalar::from_whole(1)),
    );
}

/// A layout names every area, and none twice.
pub proof fn law_every_area_is_placed_once(shape: Shape, rect: Rect, bar: Scalar)
    requires
        shape.orderly(),
    ensures
        shape.placed(rect, bar).len() == shape.leaves(),
        forall|i: int, j: int|
            0 <= i < j < shape.leaves() ==> (#[trigger] shape.placed(rect, bar)[i]).0 != (
            #[trigger] shape.placed(rect, bar)[j]).0,
        forall|id: AreaId|
            shape.has_area(id) ==> exists|k: int|
                0 <= k < shape.leaves() && (#[trigger] shape.placed(rect, bar)[k]).0 == id,
        forall|k: int|
            0 <= k < shape.leaves() ==> shape.has_area(
                (#[trigger] shape.placed(rect, bar)[k]).0,
            ),
    decreases shape,
{
    crate::areas::shape::law_one_bar_less_than_areas(shape, rect, bar);
    let all = shape.placed(rect, bar);
    assert forall|k: int| 0 <= k < shape.leaves() implies shape.has_area((#[trigger] all[k]).0) by {
        assert(shape.has_area(shape.placed(rect, bar)[k].0));
    }
    match shape {
        Shape::Area { area, .. } => {
            assert(all[0] == (area, rect));
        },
        Shape::Split { axis, ratio, first, second, .. } => {
            let (one, _, two) = crate::areas::shape::divided(rect, axis, ratio, bar);
            let left = first.placed(one, bar);
            let right = second.placed(two, bar);
            law_every_area_is_placed_once(*first, one, bar);
            law_every_area_is_placed_once(*second, two, bar);
            assert forall|i: int, j: int| 0 <= i < j < shape.leaves() implies (
            #[trigger] all[i]).0 != (#[trigger] all[j]).0 by {
                if j < left.len() {
                    assert(left[i].0 != left[j].0);
                } else if i >= left.len() {
                    assert(right[i - left.len()].0 != right[j - left.len()].0);
                } else {
                    assert(first.has_area(left[i].0));
                    assert(second.has_area(right[j - left.len()].0));
                }
            }
            assert forall|id: AreaId| shape.has_area(id) implies exists|k: int|
                0 <= k < shape.leaves() && (#[trigger] all[k]).0 == id by {
                assert(first.has_area(id) || second.has_area(id));
                if first.has_area(id) {
                    let k = choose|k: int| 0 <= k < first.leaves() && (#[trigger] left[k]).0 == id;
                    assert(all[k] == left[k]);
                } else {
                    let k = choose|k: int|
                        0 <= k < second.leaves() && (#[trigger] right[k]).0 == id;
                    assert(all[k + left.len()] == right[k]);
                }
            }
        },
    }
}

/// Where area `id` is placed, if it is in the shape.
pub open spec fn rect_of(shape: Shape, rect: Rect, bar: Scalar, id: AreaId) -> Rect
    decreases shape,
{
    match shape {
        Shape::Area { .. } => rect,
        Shape::Split { axis, ratio, first, second, .. } => {
            let (one, _, two) = crate::areas::shape::divided(rect, axis, ratio, bar);
            if first.has_area(id) {
                rect_of(*first, one, bar, id)
            } else {
                rect_of(*second, two, bar, id)
            }
        },
    }
}

/// A layout places each area at its own rectangle.
pub proof fn law_placed_at_own_rect(shape: Shape, rect: Rect, bar: Scalar, k: int)
    requires
        shape.orderly(),
        0 <= k < shape.leaves(),
    ensures
        k < shape.placed(rect, bar).len(),
        shape.placed(rect, bar)[k].1 == rect_of(
            shape,
            rect,
            bar,
            shape.placed(rect, bar)[k].0,
        ),
    decreases shape,
{
    crate::areas::shape::law_one_bar_less_than_areas(shape, rect, bar);
    match shape {
        Shape::Area { .. } => {},
        Shape::Split { axis, ratio, first, second, .. } => {
            let (one, _, two) = crate::areas::shape::divided(rect, axis, ratio, bar);
            crate::areas::shape::law_one_bar_less_than_areas(*first, one, bar);
            crate::areas::shape::law_one_bar_less_than_areas(*second, two, bar);
            if k < first.leaves() {
                law_placed_at_own_rect(*first, one, bar, k);
            } else {
                law_placed_at_own_rect(*second, two, bar, k - first.leaves());
                assert(second.has_area(second.placed(two, bar)[k - first.leaves()].0));
            }
        },
    }
}

/// A split is non-destructive: every other area stays where it was, and the one that was
/// split keeps its id and the first part of its rectangle. The new one gets the last part.
pub proof fn law_split_disturbs_nobody_else(
    shape: Shape,
    rect: Rect,
    bar: Scalar,
    area: AreaId,
    axis: Axis,
    ratio: Scalar,
    a: NodeId,
    b: NodeId,
    fresh: AreaId,
    id: AreaId,
)
    requires
        shape.orderly(),
        shape.has_area(area),
        !shape.has_node(a),
        !shape.has_node(b),
        a != b,
        !shape.has_area(fresh),
        shape.has_area(id) || id == fresh,
    ensures
        ({
            let after = shape.with_split(area, axis, ratio, a, b, fresh);
            let (one, _, two) = crate::areas::shape::divided(
                rect_of(shape, rect, bar, area),
                axis,
                ratio,
                bar,
            );
            &&& after.has_area(id)
            &&& rect_of(after, rect, bar, id) == (if id == area {
                one
            } else if id == fresh {
                two
            } else {
                rect_of(shape, rect, bar, id)
            })
        }),
    decreases shape,
{
    let after = shape.with_split(area, axis, ratio, a, b, fresh);
    crate::areas::shape::lemma_split(shape, area, axis, ratio, a, b, fresh);
    assert(after.has_area(id));
    match shape {
        Shape::Area { .. } => {
            reveal_with_fuel(rect_of, 2);
            reveal_with_fuel(Shape::has_area, 2);
        },
        Shape::Split { axis: own, ratio: share, first, second, .. } => {
            let (one, _, two) = crate::areas::shape::divided(rect, own, share, bar);
            let left = first.with_split(area, axis, ratio, a, b, fresh);
            let right = second.with_split(area, axis, ratio, a, b, fresh);
            if first.has_area(area) {
                crate::areas::shape::lemma_split(*first, area, axis, ratio, a, b, fresh);
                crate::areas::shape::lemma_split_elsewhere(
                    *second,
                    area,
                    axis,
                    ratio,
                    a,
                    b,
                    fresh,
                );
                assert(left.has_area(id) <==> first.has_area(id) || id == fresh);
                if first.has_area(id) || id == fresh {
                    law_split_disturbs_nobody_else(
                        *first,
                        one,
                        bar,
                        area,
                        axis,
                        ratio,
                        a,
                        b,
                        fresh,
                        id,
                    );
                }
            } else {
                crate::areas::shape::lemma_split(*second, area, axis, ratio, a, b, fresh);
                crate::areas::shape::lemma_split_elsewhere(
                    *first,
                    area,
                    axis,
                    ratio,
                    a,
                    b,
                    fresh,
                );
                assert(right.has_area(id) <==> second.has_area(id) || id == fresh);
                assert(first.has_area(id) ==> !second.has_area(id));
                if second.has_area(id) || id == fresh {
                    law_split_disturbs_nobody_else(
                        *second,
                        two,
                        bar,
                        area,
                        axis,
                        ratio,
                        a,
                        b,
                        fresh,
                        id,
                    );
                }
            }
        },
    }
}

/// Whether area `id` lies on one of the sides of `split`.
pub open spec fn under(shape: Shape, split: NodeId, id: AreaId) -> bool
    decreases shape,
{
    match shape {
        Shape::Area { .. } => false,
        Shape::Split { node, first, second, .. } => if node == split {
            shape.has_area(id)
        } else {
            under(*first, split, id) || under(*second, split, id)
        },
    }
}

/// Moving a splitter disturbs nobody but the areas on its two sides.
pub proof fn law_move_disturbs_its_sides_only(
    shape: Shape,
    rect: Rect,
    bar: Scalar,
    split: NodeId,
    new: Scalar,
    id: AreaId,
)
    requires
        shape.orderly(),
        shape.has_area(id),
        !under(shape, split, id),
    ensures
        shape.with_ratio(split, new).has_area(id),
        rect_of(shape.with_ratio(split, new), rect, bar, id) == rect_of(shape, rect, bar, id),
    decreases shape,
{
    crate::areas::shape::lemma_ratio_keeps(shape, split, new);
    match shape {
        Shape::Area { .. } => {},
        Shape::Split { axis, ratio, first, second, .. } => {
            let (one, _, two) = crate::areas::shape::divided(rect, axis, ratio, bar);
            crate::areas::shape::lemma_ratio_keeps(*first, split, new);
            let left = first.with_ratio(split, new);
            assert(left.has_area(id) <==> first.has_area(id));
            if first.has_area(id) {
                law_move_disturbs_its_sides_only(*first, one, bar, split, new, id);
            } else {
                law_move_disturbs_its_sides_only(*second, two, bar, split, new, id);
            }
        },
    }
}

/// Whether an area has been told of its size.
pub open spec fn told_of(sizes: Seq<Option<Size>>, at: (AreaId, Rect)) -> bool {
    at.0 < sizes.len() && !crate::widget::resized(sizes[at.0 as int], at.1.size())
}

/// Whether every area has been told of its size.
pub open spec fn all_told(sizes: Seq<Option<Size>>, placed: Seq<(AreaId, Rect)>) -> bool {
    forall|k: int| 0 <= k < placed.len() ==> told_of(sizes, #[trigger] placed[k])
}

/// Whether a layout gives every area a size that is one, among `count` areas, and none two.
pub open spec fn sound_layout(placed: Seq<(AreaId, Rect)>, count: nat) -> bool {
    &&& forall|k: int| 0 <= k < placed.len() ==> (#[trigger] placed[k]).0 < count
    &&& forall|k: int|
        0 <= k < placed.len() ==> !(#[trigger] placed[k]).1.width().is_nan()
            && !placed[k].1.height().is_nan()
    &&& forall|i: int, j: int|
        0 <= i < j < placed.len() ==> (#[trigger] placed[i]).0 != (#[trigger] placed[j]).0
}

/// A layout pass tells every area of its size.
pub proof fn lemma_settled_tells(sizes: Seq<Option<Size>>, placed: Seq<(AreaId, Rect)>)
    requires
        sound_layout(placed, sizes.len()),
    ensures
        all_told(crate::areas::screen::settled(sizes, placed).0, placed),
        crate::areas::screen::settled(sizes, placed).0.len() == sizes.len(),
        forall|id: int|
            0 <= id < sizes.len() && (forall|k: int|
                0 <= k < placed.len() ==> (#[trigger] placed[k]).0 != id)
                ==> #[trigger] crate::areas::screen::settled(sizes, placed).0[id] == sizes[id],
    decreases placed.len(),
{
    if placed.len() > 0 {
        let before = placed.drop_last();
        assert forall|k: int| 0 <= k < before.len() implies (#[trigger] before[k]).0 < sizes.len()
            && !before[k].1.width().is_nan() && !before[k].1.height().is_nan() by {
            assert(before[k] == placed[k]);
        }
        assert forall|i: int, j: int| 0 <= i < j < before.len() implies (#[trigger] before[i]).0
            != (#[trigger] before[j]).0 by {
            assert(before[i] == placed[i] && before[j] == placed[j]);
        }
        lemma_settled_tells(sizes, before);
        let told = crate::areas::screen::settled(sizes, before).0;
        let after = crate::areas::screen::settled(sizes, placed).0;
        let n = placed.len() - 1;
        assert forall|k: int| 0 <= k < placed.len() implies told_of(after, #[trigger] placed[k]) by {
            if k < n {
                assert(before[k] == placed[k]);
                assert(placed[k].0 != placed[n].0);
            }
        }
        assert forall|id: int|
            0 <= id < sizes.len() && (forall|k: int|
                0 <= k < placed.len() ==> (#[trigger] placed[k]).0 != id) implies #[trigger]
            after[id] == sizes[id] by {
            assert(placed[n].0 != id);
            assert forall|k: int| 0 <= k < before.len() implies (#[trigger] before[k]).0 != id by {
                assert(before[k] == placed[k]);
            }
            assert(told[id] == sizes[id]);
        }
    }
}

/// Where everybody has been told, a layout pass tells nobody.
proof fn lemma_settled_quiet(sizes: Seq<Option<Size>>, placed: Seq<(AreaId, Rect)>)
    requires
        all_told(sizes, placed),
    ensures
        crate::areas::screen::settled(sizes, placed) == (sizes, 0nat),
    decreases placed.len(),
{
    if placed.len() > 0 {
        let before = placed.drop_last();
        assert forall|k: int| 0 <= k < before.len() implies told_of(sizes, #[trigger] before[k]) by {
            assert(before[k] == placed[k]);
        }
        lemma_settled_quiet(sizes, before);
        assert(told_of(sizes, placed[placed.len() - 1]));
    }
}

/// On a screen of any size, every area gets a size that is one.
pub proof fn law_layout_is_sound(shape: Shape, size: Size, count: nat)
    requires
        shape.orderly(),
        proper(shape),
        forall|id: AreaId| #[trigger] shape.has_area(id) ==> id < count,
        screen_length(size.width),
        screen_length(size.height),
    ensures
        sound_layout(shape.placed(ScreenState::bounds(size), bar_thickness()), count),
{
    let bounds = ScreenState::bounds(size);
    let bar = bar_thickness();
    let (gx, gy) = lemma_bounds(size);
    law_every_area_is_placed_once(shape, bounds, bar);
    let placed = shape.placed(bounds, bar);
    assert forall|k: int| 0 <= k < placed.len() implies (#[trigger] placed[k]).0 < count
        && !placed[k].1.width().is_nan() && !placed[k].1.height().is_nan() by {
        assert(shape.has_area(shape.placed(bounds, bar)[k].0));
        lemma_placed_aligned(shape, bounds, bar, gx, gy, k);
        let r = placed[k].1;
        crate::number::exact::lemma_grid_minus(r.x1, r.x0, gx);
        crate::number::exact::lemma_grid_minus(r.y1, r.y0, gy);
    }
}

proof fn lemma_placed_aligned(shape: Shape, rect: Rect, bar: Scalar, gx: nat, gy: nat, k: int)
    requires
        proper(shape),
        aligned_rect(rect, gx, gy),
        aligned_bar(bar, gx),
        aligned_bar(bar, gy),
        0 <= k < shape.leaves(),
    ensures
        k < shape.placed(rect, bar).len(),
        aligned_rect(shape.placed(rect, bar)[k].1, gx, gy),
    decreases shape,
{
    crate::areas::shape::law_one_bar_less_than_areas(shape, rect, bar);
    match shape {
        Shape::Area { .. } => {},
        Shape::Split { axis, ratio, first, second, .. } => {
            let (one, _, two) = crate::areas::shape::divided(rect, axis, ratio, bar);
            lemma_division(rect, axis, ratio, bar, gx, gy);
            crate::areas::shape::law_one_bar_less_than_areas(*first, one, bar);
            if k < first.leaves() {
                lemma_placed_aligned(*first, one, bar, gx, gy, k);
            } else {
                lemma_placed_aligned(*second, two, bar, gx, gy, k - first.leaves());
            }
        },
    }
}

/// An idle screen is idle: a second layout pass at the same size gives no area another
/// size, whatever the host thinks is dirty.
pub proof fn law_idle_screen_resizes_nothing(
    state: ScreenState,
    size: Size,
    dirty: nat,
    dirty_again: nat,
)
    requires
        sound_layout(
            state.shape.placed(ScreenState::bounds(size), bar_thickness()),
            state.sizes.len(),
        ),
    ensures
        ({
            let once = state.laid_out(size, dirty);
            let twice = once.laid_out(size, dirty_again);
            &&& twice.counters.area_resizes == once.counters.area_resizes
            &&& twice.sizes == once.sizes
            &&& twice.rects == once.rects
            &&& twice.bars == once.bars
            &&& all_told(once.sizes, once.rects)
        }),
{
    let placed = state.shape.placed(ScreenState::bounds(size), bar_thickness());
    lemma_settled_tells(state.sizes, placed);
    lemma_settled_quiet(crate::areas::screen::settled(state.sizes, placed).0, placed);
}

/// How many areas lie on the two sides of `split`.
pub open spec fn side_areas(shape: Shape, split: NodeId) -> nat
    decreases shape,
{
    match shape {
        Shape::Area { .. } => 0,
        Shape::Split { node, first, second, .. } => if node == split {
            shape.leaves()
        } else {
            side_areas(*first, split) + side_areas(*second, split)
        },
    }
}

/// Whether both sides of `split` are single areas.
pub open spec fn is_leaf_split(shape: Shape, split: NodeId) -> bool
    decreases shape,
{
    match shape {
        Shape::Area { .. } => false,
        Shape::Split { node, first, second, .. } => if node == split {
            *first is Area && *second is Area
        } else {
            is_leaf_split(*first, split) || is_leaf_split(*second, split)
        },
    }
}

proof fn lemma_no_sides(shape: Shape, split: NodeId)
    requires
        !shape.has_node(split),
    ensures
        side_areas(shape, split) == 0,
        !is_leaf_split(shape, split),
    decreases shape,
{
    match shape {
        Shape::Area { .. } => {},
        Shape::Split { first, second, .. } => {
            lemma_no_sides(*first, split);
            lemma_no_sides(*second, split);
        },
    }
}

/// A splitter between two leaves has two areas on its sides.
pub proof fn law_leaf_split_has_two_sides(shape: Shape, split: NodeId)
    requires
        shape.orderly(),
        is_leaf_split(shape, split),
    ensures
        side_areas(shape, split) == 2,
        shape.has_node(split),
    decreases shape,
{
    match shape {
        Shape::Area { .. } => {},
        Shape::Split { node, first, second, .. } => {
            if node == split {
                reveal_with_fuel(Shape::leaves, 2);
            } else {
                if is_leaf_split(*first, split) {
                    law_leaf_split_has_two_sides(*first, split);
                    assert(first.has_node(split));
                    lemma_no_sides(*second, split);
                } else {
                    law_leaf_split_has_two_sides(*second, split);
                    assert(first.has_node(split) ==> !second.has_node(split));
                    lemma_no_sides(*first, split);
                }
            }
        },
    }
}

/// How many entries of a layout are of areas on the sides of `split`.
spec fn side_entries(placed: Seq<(AreaId, Rect)>, shape: Shape, split: NodeId) -> nat
    decreases placed.len(),
{
    if placed.len() == 0 {
        0
    } else {
        side_entries(placed.drop_last(), shape, split) + if under(
            shape,
            split,
            placed.last().0,
        ) {
            1nat
        } else {
            0nat
        }
    }
}

proof fn lemma_side_entries_join(
    a: Seq<(AreaId, Rect)>,
    b: Seq<(AreaId, Rect)>,
    shape: Shape,
    split: NodeId,
)
    ensures
        side_entries(a + b, shape, split) == side_entries(a, shape, split) + side_entries(
            b,
            shape,
            split,
        ),
    decreases b.len(),
{
    if b.len() == 0 {
        assert(a + b =~= a);
    } else {
        assert((a + b).drop_last() =~= a + b.drop_last());
        lemma_side_entries_join(a, b.drop_last(), shape, split);
    }
}

/// Only what the areas of the entries are under matters.
proof fn lemma_side_entries_agree(
    placed: Seq<(AreaId, Rect)>,
    shape: Shape,
    other: Shape,
    split: NodeId,
)
    requires
        forall|k: int|
            0 <= k < placed.len() ==> under(shape, split, (#[trigger] placed[k]).0) == under(
                other,
                split,
                placed[k].0,
            ),
    ensures
        side_entries(placed, shape, split) == side_entries(placed, other, split),
    decreases placed.len(),
{
    if placed.len() > 0 {
        let before = placed.drop_last();
        assert forall|k: int| 0 <= k < before.len() implies under(
            shape,
            split,
            (#[trigger] before[k]).0,
        ) == under(other, split, before[k].0) by {
            assert(before[k] == placed[k]);
        }
        lemma_side_entries_agree(before, shape, other, split);
        assert(placed[placed.len() - 1] == placed.last());
    }
}

proof fn lemma_side_entries_all(placed: Seq<(AreaId, Rect)>, shape: Shape, split: NodeId)
    requires
        forall|k: int| 0 <= k < placed.len() ==> under(shape, split, (#[trigger] placed[k]).0),
    ensures
        side_entries(placed, shape, split) == placed.len(),
    decreases placed.len(),
{
    if placed.len() > 0 {
        let before = placed.drop_last();
        assert forall|k: int| 0 <= k < before.len() implies under(
            shape,
            split,
            (#[trigger] before[k]).0,
        ) by {
            assert(before[k] == placed[k]);
        }
        lemma_side_entries_all(before, shape, split);
        assert(placed[placed.len() - 1] == placed.last());
    }
}

proof fn lemma_under_belongs(shape: Shape, split: NodeId, id: AreaId)
    requires
        under(shape, split, id),
    ensures
        shape.has_area(id),
    decreases shape,
{
    match shape {
        Shape::Area { .. } => {},
        Shape::Split { node, first, second, .. } => {
            if node != split {
                if under(*first, split, id) {
                    lemma_under_belongs(*first, split, id);
                } else {
                    lemma_under_belongs(*second, split, id);
                }
            }
        },
    }
}

/// A layout has as many entries on the sides of a splitter as there are areas there. The
/// ratios that the layout was made with do not matter.
proof fn lemma_side_entries(shape: Shape, laid: Shape, rect: Rect, bar: Scalar, split: NodeId, new: Scalar)
    requires
        shape.orderly(),
        laid == shape.with_ratio(split, new),
    ensures
        side_entries(laid.placed(rect, bar), shape, split) == side_areas(shape, split),
    decreases shape,
{
    crate::areas::shape::law_one_bar_less_than_areas(laid, rect, bar);
    crate::areas::shape::lemma_ratio_keeps(shape, split, new);
    let placed = laid.placed(rect, bar);
    match shape {
        Shape::Area { area, .. } => {
            assert(placed.drop_last() =~= Seq::<(AreaId, Rect)>::empty());
            assert(side_entries(placed.drop_last(), shape, split) == 0);
        },
        Shape::Split { node, axis, first, second, .. } => {
            if node == split {
                assert forall|k: int| 0 <= k < placed.len() implies under(
                    shape,
                    split,
                    (#[trigger] placed[k]).0,
                ) by {
                    assert(laid.has_area(laid.placed(rect, bar)[k].0));
                }
                lemma_side_entries_all(placed, shape, split);
            } else {
                let ratio = shape->ratio;
                let (one, _, two) = crate::areas::shape::divided(rect, axis, ratio, bar);
                let left = first.with_ratio(split, new);
                let right = second.with_ratio(split, new);
                crate::areas::shape::lemma_ratio_keeps(*first, split, new);
                crate::areas::shape::lemma_ratio_keeps(*second, split, new);
                lemma_side_entries(*first, left, one, bar, split, new);
                lemma_side_entries(*second, right, two, bar, split, new);
                crate::areas::shape::law_one_bar_less_than_areas(left, one, bar);
                crate::areas::shape::law_one_bar_less_than_areas(right, two, bar);
                let l = left.placed(one, bar);
                let r = right.placed(two, bar);
                assert forall|k: int| 0 <= k < l.len() implies under(
                    shape,
                    split,
                    (#[trigger] l[k]).0,
                ) == under(*first, split, l[k].0) by {
                    assert(left.has_area(left.placed(one, bar)[k].0));
                    assert(first.has_area(l[k].0));
                    if under(*second, split, l[k].0) {
                        lemma_under_belongs(*second, split, l[k].0);
                    }
                }
                assert forall|k: int| 0 <= k < r.len() implies under(
                    shape,
                    split,
                    (#[trigger] r[k]).0,
                ) == under(*second, split, r[k].0) by {
                    assert(right.has_area(right.placed(two, bar)[k].0));
                    assert(second.has_area(r[k].0));
                    if under(*first, split, r[k].0) {
                        lemma_under_belongs(*first, split, r[k].0);
                    }
                }
                lemma_side_entries_agree(l, shape, *first, split);
                lemma_side_entries_agree(r, shape, *second, split);
                lemma_side_entries_join(l, r, shape, split);
            }
        },
    }
}

/// A layout pass tells no more areas than those on the sides of a splitter, where all the
/// others have been told.
proof fn lemma_settled_sides(
    sizes: Seq<Option<Size>>,
    placed: Seq<(AreaId, Rect)>,
    shape: Shape,
    split: NodeId,
)
    requires
        forall|k: int| 0 <= k < placed.len() ==> (#[trigger] placed[k]).0 < sizes.len(),
        forall|i: int, j: int|
            0 <= i < j < placed.len() ==> (#[trigger] placed[i]).0 != (#[trigger] placed[j]).0,
        forall|k: int|
            0 <= k < placed.len() ==> under(shape, split, (#[trigger] placed[k]).0) || told_of(
                sizes,
                placed[k],
            ),
    ensures
        crate::areas::screen::settled(sizes, placed).1 <= side_entries(placed, shape, split),
        crate::areas::screen::settled(sizes, placed).0.len() == sizes.len(),
        forall|id: int|
            0 <= id < sizes.len() && (forall|k: int|
                0 <= k < placed.len() ==> (#[trigger] placed[k]).0 != id)
                ==> #[trigger] crate::areas::screen::settled(sizes, placed).0[id] == sizes[id],
    decreases placed.len(),
{
    if placed.len() > 0 {
        let before = placed.drop_last();
        assert forall|k: int| 0 <= k < before.len() implies (#[trigger] before[k]).0 < sizes.len()
            && (under(shape, split, before[k].0) || told_of(sizes, before[k])) by {
            assert(before[k] == placed[k]);
        }
        assert forall|i: int, j: int| 0 <= i < j < before.len() implies (#[trigger] before[i]).0
            != (#[trigger] before[j]).0 by {
            assert(before[i] == placed[i] && before[j] == placed[j]);
        }
        lemma_settled_sides(sizes, before, shape, split);
        let told = crate::areas::screen::settled(sizes, before).0;
        let after = crate::areas::screen::settled(sizes, placed).0;
        let n = placed.len() - 1;
        let id = placed[n].0 as int;
        assert forall|k: int| 0 <= k < before.len() implies (#[trigger] before[k]).0 != id by {
            assert(before[k] == placed[k]);
            assert(placed[k].0 != placed[n].0);
        }
        assert(told[id] == sizes[id]);
        assert(under(shape, split, placed[n].0) || told_of(sizes, placed[n]));
        assert forall|id: int|
            0 <= id < sizes.len() && (forall|k: int|
                0 <= k < placed.len() ==> (#[trigger] placed[k]).0 != id) implies #[trigger]
            after[id] == sizes[id] by {
            assert(placed[n].0 != id);
            assert forall|k: int| 0 <= k < before.len() implies (#[trigger] before[k]).0 != id by {
                assert(before[k] == placed[k]);
            }
            assert(told[id] == sizes[id]);
        }
    }
}

/// Dragging a splitter resizes no more areas than lie on its two sides, however many the
/// screen holds: two, where both sides are single areas.
pub proof fn law_drag_resizes_its_sides_only(
    state: ScreenState,
    size: Size,
    split: NodeId,
    pos: Point,
    dirty: nat,
)
    requires
        state.shape.orderly(),
        forall|id: AreaId| #[trigger] state.shape.has_area(id) ==> id < state.sizes.len(),
        all_told(
            state.sizes,
            state.shape.placed(ScreenState::bounds(size), bar_thickness()),
        ),
        state.counters.area_resizes + state.shape.leaves() <= u64::MAX,
    ensures
        ({
            let after = state.dragged(split, pos).laid_out(size, dirty);
            &&& after.counters.area_resizes - state.counters.area_resizes <= side_areas(
                state.shape,
                split,
            )
            &&& is_leaf_split(state.shape, split) ==> after.counters.area_resizes
                - state.counters.area_resizes <= 2
        }),
{
    let bounds = ScreenState::bounds(size);
    let bar = bar_thickness();
    let moved = state.dragged(split, pos);
    if is_leaf_split(state.shape, split) {
        law_leaf_split_has_two_sides(state.shape, split);
    }
    lemma_sides_bounded(state.shape, split);
    if moved.shape == state.shape {
        lemma_settled_quiet(state.sizes, state.shape.placed(bounds, bar));
    } else {
        let wanted = crate::areas::shape::implied_ratio(
            crate::areas::screen::bar_of(state.bars, split).unwrap(),
            pos,
            bar,
        );
        let new = wanted.clamp(Scalar::zero(), Scalar::from_whole(1));
        let shape = state.shape;
        let laid = shape.with_ratio(split, new);
        assert(moved.shape == laid);
        crate::areas::shape::lemma_ratio_keeps(shape, split, new);
        law_every_area_is_placed_once(laid, bounds, bar);
        law_every_area_is_placed_once(shape, bounds, bar);
        let placed = laid.placed(bounds, bar);
        let last = shape.placed(bounds, bar);
        assert forall|k: int| 0 <= k < placed.len() implies (#[trigger] placed[k]).0
            < state.sizes.len() && (under(shape, split, placed[k].0) || told_of(
            state.sizes,
            placed[k],
        )) by {
            let id = placed[k].0;
            assert(laid.has_area(laid.placed(bounds, bar)[k].0));
            assert(shape.has_area(id));
            if !under(shape, split, id) {
                law_move_disturbs_its_sides_only(shape, bounds, bar, split, new, id);
                law_placed_at_own_rect(laid, bounds, bar, k);
                let j = choose|j: int|
                    0 <= j < shape.leaves() && (#[trigger] shape.placed(bounds, bar)[j]).0 == id;
                law_placed_at_own_rect(shape, bounds, bar, j);
                assert(last[j] == placed[k]);
                assert(told_of(state.sizes, last[j]));
            }
        }
        lemma_settled_sides(state.sizes, placed, shape, split);
        lemma_side_entries(shape, laid, bounds, bar, split, new);
    }
}

proof fn lemma_sides_bounded(shape: Shape, split: NodeId)
    ensures
        side_areas(shape, split) <= shape.leaves(),
    decreases shape,
{
    match shape {
        Shape::Area { .. } => {},
        Shape::Split { first, second, .. } => {
            lemma_sides_bounded(*first, split);
            lemma_sides_bounded(*second, split);
        },
    }
}

/// A press that grabs a splitter captures the pointer; letting go or losing it ends the
/// drag, and gives the pointer back where there was one. A press that an area took is left
/// alone.
pub proof fn law_drags_hold_the_pointer(state: ScreenState, event: PointerEvent, handled: bool)
    ensures
        ({
            let (after, asks) = state.pointed(event, handled);
            &&& asks.capture ==> after.drag is Some
            &&& asks.release ==> state.drag is Some && after.drag is None
            &&& event is Up || event is Cancel ==> after.drag is None && (asks.release
                <==> state.drag is Some)
            &&& state.drag is None && after.drag is Some ==> asks.capture
            &&& event is Down && handled ==> after == state && asks
                == crate::areas::screen::ScreenResponse::spec_none()
        }),
{
}

} // verus!
