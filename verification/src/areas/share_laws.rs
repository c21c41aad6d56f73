//! Who gets how much of a screen, and where its splitters are.

use vstd::prelude::*;

use crate::areas::screen::{bar_thickness, grab_slop, ScreenState};
use crate::areas::shape::{AreaId, Bar, NodeId, Shape};
use crate::geometry::{Axis, Point, Rect, Size};
use crate::number::exact::GRID_REACH;
use crate::number::rounding::{HIDDEN, UNIT_EXPONENT};
use crate::number::scalar::Scalar;
use crate::widget::{resized, Button, LenReq, PointerEvent};

verus! {

/// Whether a ratio is `part` of `whole`, as near as a number comes to it.
pub open spec fn is_share(ratio: Scalar, part: nat, whole: nat) -> bool {
    let r = crate::number::error::real_of(ratio);
    &&& ratio.finite()
    &&& crate::number::error::size(r * (whole as real) - (part as real)) <= 2real
        * crate::number::error::grain() * (whole as real)
}

/// Whether every split gives its two sides room by how many areas they hold: half of the
/// areas below it, the odd one to the second side, and the share of the room that this is.
pub open spec fn evenly_divided(shape: Shape) -> bool
    decreases shape,
{
    match shape {
        Shape::Area { .. } => true,
        Shape::Split { ratio, first, second, .. } => {
            &&& ratio == Scalar::ratio(first.leaves() as u64, shape.leaves() as u64)
            &&& shape.leaves() <= GRID_REACH ==> is_share(ratio, first.leaves(), shape.leaves())
            &&& first.leaves() <= second.leaves() <= first.leaves() + 1
            &&& evenly_divided(*first)
            &&& evenly_divided(*second)
        },
    }
}

/// Whether the axis of every split is the other one than that of the split above, the top one
/// being `axis`.
pub open spec fn alternating(shape: Shape, axis: Axis) -> bool
    decreases shape,
{
    match shape {
        Shape::Area { .. } => true,
        Shape::Split { axis: own, first, second, .. } => {
            let other = if axis == Axis::Horizontal {
                Axis::Vertical
            } else {
                Axis::Horizontal
            };
            &&& own == axis
            &&& alternating(*first, other)
            &&& alternating(*second, other)
        },
    }
}

/// A balanced tree holds as many areas as asked for, and gives each the same share: every
/// split's ratio is the number of areas on its first side over the number of areas below it.
/// The two sides hold equally many, up to one, and the axes alternate by depth.
pub proof fn law_balanced_shares_are_equal(leaves: nat, depth: nat, area: nat, node: nat)
    requires
        1 <= leaves <= u64::MAX,
    ensures
        ({
            let shape = Shape::balanced(leaves, depth, area, node);
            &&& shape.leaves() == leaves
            &&& evenly_divided(shape)
            &&& alternating(
                shape,
                if depth % 2 == 0 {
                    Axis::Horizontal
                } else {
                    Axis::Vertical
                },
            )
        }),
    decreases leaves,
{
    if leaves > 1 {
        let half = leaves / 2;
        law_balanced_shares_are_equal(half, depth + 1, area, node);
        law_balanced_shares_are_equal(
            (leaves - half) as nat,
            depth + 1,
            area + half,
            (node + 2 * half - 1) as nat,
        );
        let shape = Shape::balanced(leaves, depth, area, node);
        assert(shape.leaves() == leaves);
        if leaves <= GRID_REACH {
            lemma_share(half as u64, leaves as u64);
        }
    }
}

proof fn lemma_share(part: u64, whole: u64)
    requires
        part <= whole <= GRID_REACH,
        0 < whole,
    ensures
        is_share(Scalar::ratio(part, whole), part as nat, whole as nat),
{
    crate::number::error::lemma_real_ratio(part, whole);
    crate::number::error::lemma_grain();
    let u = crate::number::error::grain();
    let t = crate::number::error::dust();
    let p = part as real;
    let w = whole as real;
    assert(u * p + t * w <= 2real * u * w) by (nonlinear_arith)
        requires
            0real <= p <= w,
            u * 4503599627370496real == 1real,
            t * 1208925819614629174706176real <= u,
            t > 0real,
    ;
}

/// The share of the room that an area gets, splitters and whole pixels aside: the product of
/// what every split above it leaves to its side.
pub open spec fn share_of(shape: Shape, id: AreaId) -> real
    decreases shape,
{
    match shape {
        Shape::Area { .. } => 1real,
        Shape::Split { ratio, first, second, .. } => if first.has_area(id) {
            crate::number::error::real_of(ratio) * share_of(*first, id)
        } else {
            (1real - crate::number::error::real_of(ratio)) * share_of(*second, id)
        },
    }
}

/// Every area of a balanced tree gets the same share of the room, up to the rounding of the
/// ratios above it.
pub proof fn law_balanced_areas_share_equally(
    leaves: nat,
    depth: nat,
    area: nat,
    node: nat,
    id: AreaId,
)
    requires
        1 <= leaves <= 1099511627776,
        area + leaves <= usize::MAX,
        node + 2 * leaves - 1 <= usize::MAX,
        area <= id < area + leaves,
    ensures
        ({
            let shape = Shape::balanced(leaves, depth, area, node);
            let share = share_of(shape, id);
            &&& crate::number::error::size(share * (leaves as real) - 1real) <= 8real
                * crate::number::error::grain() * ((leaves - 1) as real)
            &&& share > 0real
        }),
    decreases leaves,
{
    let u = crate::number::error::grain();
    crate::number::error::lemma_grain();
    if leaves == 1 {
        assert(share_of(Shape::balanced(leaves, depth, area, node), id) == 1real);
        assert(8real * u * 0real == 0real) by (nonlinear_arith);
    } else {
        let half = leaves / 2;
        let rest = (leaves - half) as nat;
        let after = (node + 2 * half - 1) as nat;
        crate::areas::shape::lemma_balanced(half, depth + 1, area, node);
        crate::areas::shape::lemma_balanced(rest, depth + 1, area + half, after);
        lemma_share(half as u64, leaves as u64);
        let ratio = Scalar::ratio(half as u64, leaves as u64);
        let r = crate::number::error::real_of(ratio);
        let one = Shape::balanced(half, depth + 1, area, node);
        let two = Shape::balanced(rest, depth + 1, area + half, after);
        let l = leaves as real;
        if id < area + half {
            assert(one.has_area(id));
            law_balanced_areas_share_equally(half, depth + 1, area, node, id);
            lemma_part_of_share(r, l, half as real, share_of(one, id), u);
        } else {
            assert(!one.has_area(id));
            law_balanced_areas_share_equally(rest, depth + 1, area + half, after, id);
            let other = 1real - r;
            assert(other * l - (rest as real) == -(r * l - (half as real))) by (nonlinear_arith)
                requires
                    other == 1real - r,
                    rest as real == l - (half as real),
            ;
            lemma_part_of_share(other, l, rest as real, share_of(two, id), u);
        }
    }
}

proof fn lemma_part_of_share(r: real, l: real, n: real, share: real, u: real)
    requires
        u * 4503599627370496real == 1real,
        1real <= n,
        n + 1real <= l <= 2real * n + 1real,
        l <= 1099511627776real,
        crate::number::error::size(r * l - n) <= 2real * u * l,
        crate::number::error::size(share * n - 1real) <= 8real * u * (n - 1real),
        share > 0real,
    ensures
        crate::number::error::size((r * share) * l - 1real) <= 8real * u * (l - 1real),
        r * share > 0real,
{
    let d = r * l - n;
    let sn = share * n;
    let ds = d * share;
    assert((r * share) * l == sn + ds) by (nonlinear_arith)
        requires
            d == r * l - n,
            sn == share * n,
            ds == d * share,
    ;
    let un = u * n;
    assert(8real * u * (n - 1real) == 8real * un - 8real * u && 8real * u * (l - 1real) == 8real * (
    u * l) - 8real * u && 2real * u * l == 2real * (u * l)) by (nonlinear_arith)
        requires
            un == u * n,
    ;
    let ul = u * l;
    assert(un + u <= ul && ul <= 2real * un + u && ul <= 1real / 4000real && u > 0real && u
        <= 1real / 4000real) by (nonlinear_arith)
        requires
            un == u * n,
            ul == u * l,
            n + 1real <= l <= 2real * n + 1real,
            l <= 1099511627776real,
            u * 4503599627370496real == 1real,
            n >= 1real,
    ;
    crate::number::error::lemma_size_times(d, share);
    let sd = crate::number::error::size(d);
    assert(sd <= 2real * ul);
    assert(sn <= 101real / 100real);
    // A part of the share that is no more than a few times the rounding.
    assert(ul * share <= 3real * u * sn) by (nonlinear_arith)
        requires
            ul == u * l,
            l <= 2real * n + 1real,
            n >= 1real,
            sn == share * n,
            share > 0real,
            u > 0real,
    {
        assert(l <= 3real * n);
        assert(l * share <= 3real * (n * share));
    }
    assert(crate::number::error::size(ds) <= 2real * (ul * share)) by (nonlinear_arith)
        requires
            crate::number::error::size(ds) == sd * share,
            sd <= 2real * ul,
            share > 0real,
    ;
    assert(3real * u * sn <= 4real * u) by (nonlinear_arith)
        requires
            sn <= 101real / 100real,
            u > 0real,
    ;
    assert(8real * un - 8real * u + 8real * u <= 8real * ul - 8real * u);
    assert(r > 0real) by (nonlinear_arith)
        requires
            r * l >= n - 2real * ul,
            n >= 1real,
            ul <= 1real / 4000real,
            l >= 2real,
    ;
    assert(r * share > 0real) by (nonlinear_arith)
        requires
            r > 0real,
            share > 0real,
    ;
}

/// A balanced tree numbers its areas in the order in which they are placed.
pub proof fn law_balanced_numbers_in_order(
    leaves: nat,
    depth: nat,
    area: nat,
    node: nat,
    rect: Rect,
    bar: Scalar,
    k: int,
)
    requires
        area + leaves <= usize::MAX,
        0 <= k < leaves <= u64::MAX,
    ensures
        ({
            let placed = Shape::balanced(leaves, depth, area, node).placed(rect, bar);
            placed.len() == leaves && placed[k].0 == area + k
        }),
    decreases leaves,
{
    let shape = Shape::balanced(leaves, depth, area, node);
    crate::areas::shape::law_one_bar_less_than_areas(shape, rect, bar);
    law_balanced_shares_are_equal(leaves, depth, area, node);
    if let Shape::Split { axis, ratio, first, second, .. } = shape {
        let half = leaves / 2;
        let (one, _, two) = crate::areas::shape::divided(rect, axis, ratio, bar);
        law_balanced_shares_are_equal(half, depth + 1, area, node);
        crate::areas::shape::law_one_bar_less_than_areas(*first, one, bar);
        if k < half {
            law_balanced_numbers_in_order(half, depth + 1, area, node, one, bar, k);
        } else {
            law_balanced_numbers_in_order(
                (leaves - half) as nat,
                depth + 1,
                area + half,
                (node + 2 * half - 1) as nat,
                two,
                bar,
                k - half,
            );
        }
    }
}

/// Whether two rectangles have the same edges across an axis.
pub open spec fn same_across(a: Rect, b: Rect, axis: Axis) -> bool {
    match axis {
        Axis::Horizontal => a.y0 == b.y0 && a.y1 == b.y1,
        Axis::Vertical => a.x0 == b.x0 && a.x1 == b.x1,
    }
}

/// Whether `mid` divides `rect` along `axis`: it is as thick as `bar`, or as all of `rect`
/// where that is less, and what lies before it is `ratio` of what it leaves, to the nearest
/// pixel and up to rounding.
pub open spec fn divides(mid: Rect, rect: Rect, axis: Axis, ratio: Scalar, bar: Scalar) -> bool {
    let one = crate::number::rounding::one_in_units() as int;
    let h = HIDDEN as int;
    let lo = crate::areas::shape::start(rect, axis).value();
    let hi = crate::areas::laws::finish(rect, axis).value();
    let from = crate::areas::shape::start(mid, axis).value();
    let to = crate::areas::laws::finish(mid, axis).value();
    let room = hi - lo - (to - from);
    &&& lo <= from <= to <= hi
    &&& to - from == (if bar.value() < hi - lo {
        bar.value()
    } else {
        hi - lo
    })
    &&& h * crate::number::error::far(2 * ((from - lo) * one) - 2 * (room * ratio.value())) <= h * (
    one * one) + 2 * (room * ratio.value()) + 2 * (h * one)
    &&& same_across(mid, rect, axis)
}

/// A split divides a rectangle along its axis into first side, splitter and second side, one
/// right after the other and to the very ends. The first side takes its ratio of what the
/// splitter leaves, to the nearest pixel; across the axis nothing changes.
pub proof fn law_division_shares_the_room(
    rect: Rect,
    axis: Axis,
    ratio: Scalar,
    bar: Scalar,
    gx: nat,
    gy: nat,
)
    requires
        crate::areas::laws::aligned_rect(rect, gx, gy),
        crate::areas::laws::aligned_bar(bar, gx),
        crate::areas::laws::aligned_bar(bar, gy),
        crate::areas::laws::proper_ratio(ratio),
    ensures
        ({
            let (first, mid, second) = crate::areas::shape::divided(rect, axis, ratio, bar);
            &&& divides(mid, rect, axis, ratio, bar)
            &&& crate::areas::shape::start(first, axis).value() == crate::areas::shape::start(
                rect,
                axis,
            ).value()
            &&& crate::areas::laws::finish(first, axis).value() == crate::areas::shape::start(
                mid,
                axis,
            ).value()
            &&& crate::areas::shape::start(second, axis).value() == crate::areas::laws::finish(
                mid,
                axis,
            ).value()
            &&& crate::areas::laws::finish(second, axis).value() == crate::areas::laws::finish(
                rect,
                axis,
            ).value()
            &&& same_across(first, rect, axis)
            &&& same_across(second, rect, axis)
        }),
{
    match axis {
        Axis::Horizontal => lemma_share_of_room(rect.x0, rect.x1, ratio, bar, gx),
        Axis::Vertical => lemma_share_of_room(rect.y0, rect.y1, ratio, bar, gy),
    }
}

proof fn lemma_share_of_room(lo: Scalar, hi: Scalar, ratio: Scalar, bar: Scalar, g: nat)
    requires
        crate::areas::laws::aligned(lo, hi, g),
        crate::areas::laws::aligned_bar(bar, g),
        crate::areas::laws::proper_ratio(ratio),
    ensures
        ({
            let one = crate::number::rounding::one_in_units() as int;
            let h = HIDDEN as int;
            let extent = hi.minus(lo);
            let thick = bar.min(extent);
            let room = extent.minus(thick);
            let first = room.times(ratio).round().clamp(Scalar::zero(), room);
            let bar_start = lo.plus(first);
            let second_start = bar_start.plus(thick);
            let end = lo.plus(extent);
            let rest = hi.value() - lo.value() - (second_start.value() - bar_start.value());
            &&& end.value() == hi.value()
            &&& lo.value() <= bar_start.value() <= second_start.value() <= hi.value()
            &&& second_start.value() - bar_start.value() == (if bar.value() < hi.value()
                - lo.value() {
                bar.value()
            } else {
                hi.value() - lo.value()
            })
            &&& h * crate::number::error::far(
                2 * ((bar_start.value() - lo.value()) * one) - 2 * (rest * ratio.value()),
            ) <= h * (one * one) + 2 * (rest * ratio.value()) + 2 * (h * one)
        }),
{
    let one = crate::number::rounding::one_in_units() as int;
    let h = HIDDEN as int;
    crate::number::rounding::lemma_two_to_positive(UNIT_EXPONENT as nat);
    crate::areas::laws::lemma_cut(lo, hi, ratio, bar, g);
    let step = crate::number::rounding::two_to(g) as int;
    let extent = hi.minus(lo);
    crate::number::exact::lemma_grid_minus(hi, lo, g);
    let thick = bar.min(extent);
    let room = extent.minus(thick);
    let product = room.times(ratio);
    crate::number::exact::lemma_times_shrinks(room, ratio);
    crate::number::exact::lemma_whole_on_grid(1, g);
    assert(GRID_REACH * step <= GRID_REACH * one) by (nonlinear_arith)
        requires
            step <= one,
    ;
    crate::number::exact::lemma_round_whole(product);
    crate::number::exact::lemma_unit_interval();
    let first = product.round().clamp(Scalar::zero(), room);
    crate::number::error::lemma_product_error(room, ratio);
    let p = product.value();
    let f = first.value();
    let exact = room.value() * ratio.value();
    assert(exact >= 0) by (nonlinear_arith)
        requires
            exact == room.value() * ratio.value(),
            room.value() >= 0,
            ratio.value() >= 0,
    ;
    assert(-one <= 2 * (f - p) <= one);
    let off = p * one - exact;
    let fo = crate::number::error::far(off);
    let d = 2 * (f * one) - 2 * exact;
    assert(-(one * one) <= d - 2 * off <= one * one) by (nonlinear_arith)
        requires
            -one <= 2 * (f - p) <= one,
            d == 2 * (f * one) - 2 * exact,
            off == p * one - exact,
            one >= 1,
    ;
    let fd = crate::number::error::far(d);
    assert(fd <= one * one + 2 * fo);
    assert(h * fd <= h * (one * one) + 2 * exact + 2 * (h * one)) by (nonlinear_arith)
        requires
            fd <= one * one + 2 * fo,
            h * fo <= exact + h * one,
            h >= 1,
    ;
}

/// The axis of `split`, if it is one.
pub open spec fn axis_of(shape: Shape, split: NodeId) -> Option<Axis>
    decreases shape,
{
    match shape {
        Shape::Area { .. } => None,
        Shape::Split { node, axis, first, second, .. } => if node == split {
            Some(axis)
        } else if first.has_node(split) {
            axis_of(*first, split)
        } else {
            axis_of(*second, split)
        },
    }
}

/// Every splitter is laid out where its split says: it divides the span of that split, along
/// its axis and by its ratio, and lies within the screen. The first one divides all of it.
pub proof fn law_splitters_divide_their_spans(
    shape: Shape,
    rect: Rect,
    bar: Scalar,
    gx: nat,
    gy: nat,
    k: int,
)
    requires
        shape.orderly(),
        crate::areas::laws::proper(shape),
        crate::areas::laws::aligned_rect(rect, gx, gy),
        crate::areas::laws::aligned_bar(bar, gx),
        crate::areas::laws::aligned_bar(bar, gy),
        0 <= k < shape.bars(rect, bar).len(),
    ensures
        ({
            let it = shape.bars(rect, bar)[k];
            &&& shape.has_node(it.split)
            &&& axis_of(shape, it.split) == Some(it.axis)
            &&& shape.ratio_of(it.split) matches Some(ratio)
            &&& divides(it.rect, it.span, it.axis, ratio, bar)
            &&& crate::geometry::spec_contains_rect(rect, it.span)
            &&& k == 0 ==> it.span == rect && it.split == shape.node()
        }),
    decreases shape,
{
    if let Shape::Split { node, axis, ratio, first, second } = shape {
        let (one, mid, two) = crate::areas::shape::divided(rect, axis, ratio, bar);
        law_division_shares_the_room(rect, axis, ratio, bar, gx, gy);
        crate::areas::laws::lemma_division(rect, axis, ratio, bar, gx, gy);
        crate::areas::shape::law_one_bar_less_than_areas(*first, one, bar);
        crate::areas::shape::law_one_bar_less_than_areas(*second, two, bar);
        let bars = shape.bars(rect, bar);
        let early = first.bars(one, bar);
        let late = second.bars(two, bar);
        if k == 0 {
            assert(bars[0] == (Bar { split: node, axis, rect: mid, span: rect }));
        } else if k <= early.len() {
            assert(bars[k] == early[k - 1]);
            law_splitters_divide_their_spans(*first, one, bar, gx, gy, k - 1);
            assert(crate::geometry::spec_contains_rect(rect, one));
            let it = bars[k];
            assert(first.has_node(it.split));
            assert(it.split != node);
        } else {
            assert(bars[k] == late[k - 1 - early.len()]);
            law_splitters_divide_their_spans(*second, two, bar, gx, gy, k - 1 - early.len());
            assert(crate::geometry::spec_contains_rect(rect, two));
            let it = bars[k];
            assert(second.has_node(it.split));
            assert(!first.has_node(it.split)) by {
                if first.has_node(it.split) {
                    assert(first.has_node(it.split) && second.has_node(it.split));
                }
            }
            assert(it.split != node);
        }
    }
}

/// Every split has one splitter, and no node has two.
pub proof fn law_every_split_has_one_splitter(shape: Shape, rect: Rect, bar: Scalar)
    requires
        shape.orderly(),
    ensures
        forall|i: int, j: int|
            0 <= i < j < shape.bars(rect, bar).len() ==> (#[trigger] shape.bars(rect, bar)[i]).split
                != (#[trigger] shape.bars(rect, bar)[j]).split,
        forall|k: int|
            0 <= k < shape.bars(rect, bar).len() ==> shape.has_node(
                (#[trigger] shape.bars(rect, bar)[k]).split,
            ) && shape.ratio_of(shape.bars(rect, bar)[k].split) is Some,
        forall|n: NodeId| #[trigger]
            shape.has_node(n) && shape.ratio_of(n) is Some ==> exists|k: int|
                0 <= k < shape.bars(rect, bar).len() && (#[trigger] shape.bars(rect, bar)[k]).split
                    == n,
    decreases shape,
{
    if let Shape::Split { node, axis, ratio, first, second } = shape {
        let (one, mid, two) = crate::areas::shape::divided(rect, axis, ratio, bar);
        law_every_split_has_one_splitter(*first, one, bar);
        law_every_split_has_one_splitter(*second, two, bar);
        let bars = shape.bars(rect, bar);
        let early = first.bars(one, bar);
        let late = second.bars(two, bar);
        let n = early.len() as int;
        assert(bars[0].split == node);
        assert forall|k: int| 0 < k < bars.len() implies #[trigger] bars[k] == (if k <= n {
            early[k - 1]
        } else {
            late[k - 1 - n]
        }) by {}
        assert forall|k: int| 0 <= k < bars.len() implies shape.has_node(
            (#[trigger] bars[k]).split,
        ) && shape.ratio_of(bars[k].split) is Some && (k > 0 ==> bars[k].split != node) && (0 < k
            <= n ==> first.has_node(bars[k].split)) && (k > n ==> second.has_node(
            bars[k].split,
        )) by {
            if 0 < k <= n {
                assert(first.has_node(early[k - 1].split));
            } else if k > n {
                assert(second.has_node(late[k - 1 - n].split));
                assert(!first.has_node(bars[k].split)) by {
                    if first.has_node(bars[k].split) {
                        assert(first.has_node(bars[k].split) && second.has_node(bars[k].split));
                    }
                }
            }
        }
        assert forall|i: int, j: int| 0 <= i < j < bars.len() implies (#[trigger] bars[i]).split
            != (#[trigger] bars[j]).split by {
            if i > 0 {
                if j <= n {
                    assert(early[i - 1].split != early[j - 1].split);
                } else if i > n {
                    assert(late[i - 1 - n].split != late[j - 1 - n].split);
                } else {
                    assert(first.has_node(bars[i].split) && second.has_node(bars[j].split));
                }
            }
        }
        assert forall|m: NodeId| #[trigger]
            shape.has_node(m) && shape.ratio_of(m) is Some implies exists|k: int|
            0 <= k < bars.len() && (#[trigger] bars[k]).split == m by {
            if m == node {
                assert(bars[0].split == m);
            } else if first.has_node(m) {
                assert(first.has_node(m) && first.ratio_of(m) is Some);
                let k = choose|k: int| 0 <= k < early.len() && (#[trigger] early[k]).split == m;
                assert(bars[k + 1].split == m);
            } else {
                assert(second.has_node(m) && second.ratio_of(m) is Some);
                let k = choose|k: int| 0 <= k < late.len() && (#[trigger] late[k]).split == m;
                assert(bars[k + 1 + n].split == m);
            }
        }
    }
}

/// The bar that is found for a split is the first that divides it, and there is none only
/// where no bar does.
pub proof fn law_found_bar_divides_the_split(bars: Seq<Bar>, split: NodeId)
    ensures
        match crate::areas::screen::bar_of(bars, split) {
            Some(bar) => exists|k: int|
                {
                    &&& 0 <= k < bars.len()
                    &&& #[trigger] bars[k] == bar
                    &&& bar.split == split
                    &&& forall|j: int| 0 <= j < k ==> (#[trigger] bars[j]).split != split
                },
            None => forall|j: int| 0 <= j < bars.len() ==> (#[trigger] bars[j]).split != split,
        },
    decreases bars.len(),
{
    if bars.len() > 0 && bars[0].split != split {
        let rest = bars.skip(1);
        law_found_bar_divides_the_split(rest, split);
        assert forall|j: int| 0 < j < bars.len() implies #[trigger] bars[j] == rest[j - 1] by {}
        if let Some(bar) = crate::areas::screen::bar_of(bars, split) {
            let k = choose|k: int|
                {
                    &&& 0 <= k < rest.len()
                    &&& #[trigger] rest[k] == bar
                    &&& bar.split == split
                    &&& forall|j: int| 0 <= j < k ==> (#[trigger] rest[j]).split != split
                };
            assert(bars[k + 1] == bar);
        }
    } else if bars.len() > 0 {
        assert(bars[0] == bars[0]);
    }
}

/// Whether a pointer is on a rectangle or within three pixels of it.
pub open spec fn in_reach(rect: Rect, pos: Point) -> bool {
    let three = 3 * crate::number::rounding::one_in_units();
    &&& rect.x0.value() - three <= pos.x.value() < rect.x1.value() + three
    &&& rect.y0.value() - three <= pos.y.value() < rect.y1.value() + three
}

/// Whether an edge and what is three pixels from it are on one grid.
pub open spec fn has_slack(edge: Scalar, g: nat) -> bool {
    let step = crate::number::rounding::two_to(g) as int;
    let three = 3 * crate::number::rounding::one_in_units();
    &&& g <= UNIT_EXPONENT
    &&& edge.finite()
    &&& edge.value() % step == 0
    &&& -(GRID_REACH * step) <= edge.value() - three
    &&& edge.value() + three <= GRID_REACH * step
}

/// Whether a splitter's edges are in order, and each is on a grid with what is three pixels
/// from it. So it is wherever the edges are whole pixels.
pub open spec fn is_grabbable(rect: Rect, gx: nat, gy: nat) -> bool {
    &&& has_slack(rect.x0, gx) && has_slack(rect.x1, gx)
    &&& has_slack(rect.y0, gy) && has_slack(rect.y1, gy)
    &&& rect.x0.value() <= rect.x1.value()
    &&& rect.y0.value() <= rect.y1.value()
}

proof fn lemma_slack(edge: Scalar, g: nat)
    requires
        has_slack(edge, g),
    ensures
        edge.minus(grab_slop()).finite(),
        edge.minus(grab_slop()).value() == edge.value() - 3
            * crate::number::rounding::one_in_units(),
        edge.plus(grab_slop()).finite(),
        edge.plus(grab_slop()).value() == edge.value() + 3
            * crate::number::rounding::one_in_units(),
{
    crate::number::exact::lemma_from_whole(3);
    crate::number::exact::lemma_whole_on_grid(3, g);
    crate::number::rounding::lemma_two_to_positive(UNIT_EXPONENT as nat);
    crate::number::exact::lemma_grid_minus(edge, grab_slop(), g);
    crate::number::exact::lemma_grid_plus(edge, grab_slop(), g);
}

proof fn lemma_reach(rect: Rect, pos: Point, gx: nat, gy: nat)
    requires
        is_grabbable(rect, gx, gy),
        crate::geometry_laws::has_place(pos),
    ensures
        rect.inset(grab_slop()).contains(pos) <==> in_reach(rect, pos),
{
    lemma_slack(rect.x0, gx);
    lemma_slack(rect.x1, gx);
    lemma_slack(rect.y0, gy);
    lemma_slack(rect.y1, gy);
    lemma_slack(rect.abs().x0, gx);
    lemma_slack(rect.abs().x1, gx);
    lemma_slack(rect.abs().y0, gy);
    lemma_slack(rect.abs().y1, gy);
}

/// A splitter can be grabbed from itself and from three pixels around it, and from nowhere
/// else: the one that is, is the first of those within reach, and none is only where none is
/// within reach.
pub proof fn law_splitters_are_grabbed_within_reach(
    bars: Seq<Bar>,
    pos: Point,
    gx: nat,
    gy: nat,
)
    requires
        crate::geometry_laws::has_place(pos),
        forall|k: int| 0 <= k < bars.len() ==> is_grabbable((#[trigger] bars[k]).rect, gx, gy),
    ensures
        match crate::areas::screen::grabbed(bars, pos) {
            Some(split) => exists|k: int|
                {
                    &&& 0 <= k < bars.len()
                    &&& (#[trigger] bars[k]).split == split
                    &&& in_reach(bars[k].rect, pos)
                    &&& forall|j: int| 0 <= j < k ==> !in_reach((#[trigger] bars[j]).rect, pos)
                },
            None => forall|j: int| 0 <= j < bars.len() ==> !in_reach((#[trigger] bars[j]).rect, pos),
        },
    decreases bars.len(),
{
    if bars.len() > 0 {
        assert(is_grabbable(bars[0].rect, gx, gy));
        lemma_reach(bars[0].rect, pos, gx, gy);
        if in_reach(bars[0].rect, pos) {
            assert(bars[0].split == bars[0].split);
        } else {
            let rest = bars.skip(1);
            assert forall|j: int| 0 <= j < rest.len() implies is_grabbable(
                (#[trigger] rest[j]).rect,
                gx,
                gy,
            ) by {
                assert(rest[j] == bars[j + 1]);
            }
            law_splitters_are_grabbed_within_reach(rest, pos, gx, gy);
            assert forall|j: int| 0 < j < bars.len() implies #[trigger] bars[j] == rest[j - 1] by {}
            if let Some(split) = crate::areas::screen::grabbed(bars, pos) {
                let k = choose|k: int|
                    {
                        &&& 0 <= k < rest.len()
                        &&& (#[trigger] rest[k]).split == split
                        &&& in_reach(rest[k].rect, pos)
                        &&& forall|j: int| 0 <= j < k ==> !in_reach((#[trigger] rest[j]).rect, pos)
                    };
                assert(bars[k + 1].split == split);
            }
        }
    }
}

/// A press with the primary button that no area took grabs the splitter within reach, and
/// takes the pointer; any other press, and one out of reach of all splitters, does nothing.
pub proof fn law_press_grabs_a_splitter(
    state: ScreenState,
    button: Option<Button>,
    pos: Point,
    handled: bool,
    gx: nat,
    gy: nat,
)
    requires
        crate::geometry_laws::has_place(pos),
        forall|k: int|
            0 <= k < state.bars.len() ==> is_grabbable((#[trigger] state.bars[k]).rect, gx, gy),
    ensures
        ({
            let (after, asks) = state.pointed(PointerEvent::Down { button, pos }, handled);
            let meant = !handled && button == Some(Button::Primary);
            let reached = exists|k: int|
                0 <= k < state.bars.len() && in_reach((#[trigger] state.bars[k]).rect, pos);
            &&& after == (ScreenState { drag: after.drag, ..state })
            &&& asks.capture <==> meant && reached
            &&& asks.handled <==> meant && reached
            &&& !asks.layout && !asks.release
            &&& !(meant && reached) ==> after.drag == state.drag
            &&& meant && reached ==> exists|k: int|
                {
                    &&& 0 <= k < state.bars.len()
                    &&& after.drag == Some((#[trigger] state.bars[k]).split)
                    &&& in_reach(state.bars[k].rect, pos)
                    &&& forall|j: int|
                        0 <= j < k ==> !in_reach((#[trigger] state.bars[j]).rect, pos)
                }
        }),
{
    law_splitters_are_grabbed_within_reach(state.bars, pos, gx, gy);
    if let Some(split) = crate::areas::screen::grabbed(state.bars, pos) {
        let k = choose|k: int|
            {
                &&& 0 <= k < state.bars.len()
                &&& (#[trigger] state.bars[k]).split == split
                &&& in_reach(state.bars[k].rect, pos)
                &&& forall|j: int| 0 <= j < k ==> !in_reach((#[trigger] state.bars[j]).rect, pos)
            };
        assert(in_reach(state.bars[k].rect, pos));
    }
}

/// Splitters are four pixels thick, and reach three pixels further for the pointer.
pub proof fn law_splitters_are_four_pixels()
    ensures
        bar_thickness().finite(),
        bar_thickness().value() == 4 * crate::number::rounding::one_in_units(),
        grab_slop().finite(),
        grab_slop().value() == 3 * crate::number::rounding::one_in_units(),
{
    crate::number::exact::lemma_from_whole(4);
    crate::number::exact::lemma_from_whole(3);
}

/// A drag gives its split the ratio that puts the splitter under the pointer, and no other
/// split another one. A splitter that is there already does not move.
pub proof fn law_drag_sets_the_ratio_under_the_pointer(
    state: ScreenState,
    split: NodeId,
    pos: Point,
    other: NodeId,
)
    requires
        state.shape.orderly(),
        state.shape.has_node(split),
        state.shape.ratio_of(split) is Some,
        crate::areas::screen::bar_of(state.bars, split) is Some,
        ({
            let bar = crate::areas::screen::bar_of(state.bars, split).unwrap();
            crate::areas::laws::proper_ratio(
                crate::areas::shape::implied_ratio(bar, pos, bar_thickness()),
            )
        }),
        crate::areas::laws::proper_ratio(state.shape.ratio_of(split).unwrap()),
        other != split,
    ensures
        ({
            let bar = crate::areas::screen::bar_of(state.bars, split).unwrap();
            let wanted = crate::areas::shape::implied_ratio(bar, pos, bar_thickness());
            let after = state.dragged(split, pos);
            &&& after.shape.ratio_of(split) matches Some(ratio) && ratio.value() == wanted.value()
            &&& after.shape.ratio_of(other) == state.shape.ratio_of(other)
            &&& axis_of(after.shape, split) == axis_of(state.shape, split)
            &&& state.moves(split, pos) <==> state.shape.ratio_of(split).unwrap().value()
                != wanted.value()
            &&& after == (ScreenState { shape: after.shape, ..state })
        }),
{
    let bar = crate::areas::screen::bar_of(state.bars, split).unwrap();
    let wanted = crate::areas::shape::implied_ratio(bar, pos, bar_thickness());
    crate::number::exact::lemma_unit_interval();
    crate::number::exact::lemma_from_whole(1);
    let one = crate::number::rounding::one_in_units() as int;
    assert(1 * one == one);
    let clamped = wanted.clamp(Scalar::zero(), Scalar::from_whole(1));
    assert(clamped == wanted);
    lemma_other_ratio(state.shape, split, clamped, other);
    if state.moves(split, pos) {
        crate::areas::laws::law_move_is_pinned_and_settles(state.shape, split, wanted);
    }
}

/// Asking for a ratio gives the split that ratio, pinned from zero to one, and says so
/// exactly where that is another than it had. What is no split does not move.
pub proof fn law_ratio_is_set_and_pinned(shape: Shape, split: NodeId, ratio: Scalar)
    requires
        shape.orderly(),
        !ratio.is_nan(),
        shape.ratio_of(split) matches Some(current) ==> !current.is_nan(),
    ensures
        ({
            let one = crate::number::rounding::one_in_units();
            let pinned = if ratio.value() < 0 {
                0
            } else if ratio.value() > one {
                one as int
            } else {
                ratio.value()
            };
            let after = shape.dragged(split, ratio);
            let is_split = shape.has_node(split) && shape.ratio_of(split) is Some;
            &&& shape.moves(split, ratio) <==> is_split && shape.ratio_of(split).unwrap().value()
                != pinned
            &&& is_split ==> (after.ratio_of(split) matches Some(now) && now.value() == pinned)
            &&& !shape.moves(split, ratio) ==> after == shape
            &&& after.leaves() == shape.leaves()
            &&& forall|n: NodeId| #[trigger] after.has_node(n) <==> shape.has_node(n)
            &&& forall|x: AreaId| #[trigger] after.has_area(x) <==> shape.has_area(x)
        }),
{
    crate::number::exact::lemma_unit_interval();
    crate::number::exact::lemma_from_whole(1);
    let one = crate::number::rounding::one_in_units() as int;
    assert(1 * one == one);
    let clamped = ratio.clamp(Scalar::zero(), Scalar::from_whole(1));
    crate::areas::laws::lemma_clamped_is_proper(ratio);
    crate::areas::shape::lemma_ratio_keeps(shape, split, clamped);
    if shape.moves(split, ratio) {
        crate::areas::laws::law_move_is_pinned_and_settles(shape, split, ratio);
    }
}

/// Splitting an area puts a split of that axis and ratio where the area was: the area keeps
/// the first side, the new one gets the second, and every other node is what it was.
pub proof fn law_split_replaces_the_area(
    shape: Shape,
    leaf: NodeId,
    area: AreaId,
    axis: Axis,
    ratio: Scalar,
    a: NodeId,
    b: NodeId,
    fresh: AreaId,
    other: NodeId,
)
    requires
        shape.orderly(),
        shape.has_leaf(leaf, area),
        !shape.has_node(a),
        !shape.has_node(b),
        a != b,
        !shape.has_area(fresh),
        shape.has_node(other),
        other != leaf,
    ensures
        ({
            let after = shape.with_split(area, axis, ratio, a, b, fresh);
            &&& after.has_node(leaf)
            &&& after.ratio_of(leaf) == Some(ratio)
            &&& axis_of(after, leaf) == Some(axis)
            &&& after.has_leaf(a, area)
            &&& after.has_leaf(b, fresh)
            &&& after.ratio_of(other) == shape.ratio_of(other)
            &&& axis_of(after, other) == axis_of(shape, other)
            &&& after.leaves() == shape.leaves() + 1
        }),
    decreases shape,
{
    crate::areas::shape::lemma_leaf_belongs(shape, leaf, area);
    crate::areas::shape::lemma_split(shape, area, axis, ratio, a, b, fresh);
    match shape {
        Shape::Area { .. } => {
            reveal_with_fuel(Shape::has_leaf, 2);
            reveal_with_fuel(Shape::has_node, 2);
        },
        Shape::Split { node, first, second, .. } => {
            let after = shape.with_split(area, axis, ratio, a, b, fresh);
            let one = first.with_split(area, axis, ratio, a, b, fresh);
            let two = second.with_split(area, axis, ratio, a, b, fresh);
            if first.has_leaf(leaf, area) {
                crate::areas::shape::lemma_leaf_belongs(*first, leaf, area);
                assert(first.has_area(area));
                assert(!second.has_area(area)) by {
                    if second.has_area(area) {
                        assert(first.has_area(area) && second.has_area(area));
                    }
                }
                crate::areas::shape::lemma_split_elsewhere(*second, area, axis, ratio, a, b, fresh);
                crate::areas::shape::lemma_split(*first, area, axis, ratio, a, b, fresh);
                lemma_split_one_side(*first, leaf, area, axis, ratio, a, b, fresh);
                assert(first.has_node(leaf));
                assert(one.has_node(leaf));
                if first.has_node(other) {
                    law_split_replaces_the_area(
                        *first,
                        leaf,
                        area,
                        axis,
                        ratio,
                        a,
                        b,
                        fresh,
                        other,
                    );
                    assert(one.has_node(other));
                } else {
                    assert(!one.has_node(other));
                }
            } else {
                assert(second.has_leaf(leaf, area));
                crate::areas::shape::lemma_leaf_belongs(*second, leaf, area);
                assert(!first.has_area(area)) by {
                    if first.has_area(area) {
                        assert(first.has_area(area) && second.has_area(area));
                    }
                }
                crate::areas::shape::lemma_split_elsewhere(*first, area, axis, ratio, a, b, fresh);
                crate::areas::shape::lemma_split(*second, area, axis, ratio, a, b, fresh);
                lemma_split_one_side(*second, leaf, area, axis, ratio, a, b, fresh);
                assert(!first.has_node(leaf)) by {
                    if first.has_node(leaf) {
                        assert(first.has_node(leaf) && second.has_node(leaf));
                    }
                }
                assert(second.has_node(leaf));
                if second.has_node(other) {
                    law_split_replaces_the_area(
                        *second,
                        leaf,
                        area,
                        axis,
                        ratio,
                        a,
                        b,
                        fresh,
                        other,
                    );
                }
            }
        },
    }
}

proof fn lemma_split_one_side(
    shape: Shape,
    leaf: NodeId,
    area: AreaId,
    axis: Axis,
    ratio: Scalar,
    a: NodeId,
    b: NodeId,
    fresh: AreaId,
)
    requires
        shape.orderly(),
        shape.has_leaf(leaf, area),
        !shape.has_node(a),
        !shape.has_node(b),
        a != b,
        !shape.has_area(fresh),
    ensures
        ({
            let after = shape.with_split(area, axis, ratio, a, b, fresh);
            &&& after.has_node(leaf)
            &&& after.ratio_of(leaf) == Some(ratio)
            &&& axis_of(after, leaf) == Some(axis)
            &&& after.has_leaf(a, area)
            &&& after.has_leaf(b, fresh)
        }),
    decreases shape,
{
    crate::areas::shape::lemma_leaf_belongs(shape, leaf, area);
    crate::areas::shape::lemma_split(shape, area, axis, ratio, a, b, fresh);
    match shape {
        Shape::Area { .. } => {
            reveal_with_fuel(Shape::has_leaf, 2);
            reveal_with_fuel(Shape::has_node, 2);
        },
        Shape::Split { node, first, second, .. } => {
            if first.has_leaf(leaf, area) {
                crate::areas::shape::lemma_leaf_belongs(*first, leaf, area);
                assert(first.has_area(area));
                crate::areas::shape::lemma_split_elsewhere(*second, area, axis, ratio, a, b, fresh);
                lemma_split_one_side(*first, leaf, area, axis, ratio, a, b, fresh);
            } else {
                crate::areas::shape::lemma_leaf_belongs(*second, leaf, area);
                assert(!first.has_area(area)) by {
                    if first.has_area(area) {
                        assert(first.has_area(area) && second.has_area(area));
                    }
                }
                crate::areas::shape::lemma_split_elsewhere(*first, area, axis, ratio, a, b, fresh);
                lemma_split_one_side(*second, leaf, area, axis, ratio, a, b, fresh);
                assert(!first.has_node(leaf)) by {
                    if first.has_node(leaf) {
                        assert(first.has_node(leaf) && second.has_node(leaf));
                    }
                }
            }
        },
    }
}

proof fn lemma_other_ratio(shape: Shape, split: NodeId, new: Scalar, other: NodeId)
    requires
        other != split,
    ensures
        shape.with_ratio(split, new).ratio_of(other) == shape.ratio_of(other),
        axis_of(shape.with_ratio(split, new), split) == axis_of(shape, split),
    decreases shape,
{
    if let Shape::Split { first, second, .. } = shape {
        lemma_other_ratio(*first, split, new, other);
        lemma_other_ratio(*second, split, new, other);
        crate::areas::shape::lemma_ratio_keeps(*first, split, new);
        crate::areas::shape::lemma_ratio_keeps(*second, split, new);
    }
}

/// A child is told of a size unless it was told of the very same before.
pub proof fn law_resized_is_another_size(last: Option<Size>, now: Size)
    requires
        !now.width.is_nan(),
        !now.height.is_nan(),
    ensures
        match last {
            None => resized(last, now),
            Some(size) => !size.width.is_nan() && !size.height.is_nan() ==> (resized(last, now)
                <==> size.width.value() != now.width.value() || size.height.value()
                != now.height.value()),
        },
{
}

/// A layout pass counts exactly the areas that get another size than they were last told of,
/// and lays every area out at its rectangle's corner and in its size.
pub proof fn law_layout_counts_resized_areas(
    sizes: Seq<Option<Size>>,
    placed: Seq<(AreaId, Rect)>,
    k: int,
)
    requires
        crate::areas::laws::sound_layout(placed, sizes.len()),
        0 <= k < placed.len(),
    ensures
        crate::areas::screen::settled(sizes, placed).1 == placed.filter(
            |at: (AreaId, Rect)| resized(sizes[at.0 as int], at.1.size()),
        ).len(),
        ({
            let put = crate::areas::screen::placements(placed)[k];
            let (area, rect) = placed[k];
            &&& crate::areas::screen::placements(placed).len() == placed.len()
            &&& put.area == area
            &&& put.origin.x == rect.x0
            &&& put.origin.y == rect.y0
            &&& put.size.width == rect.x1.minus(rect.x0)
            &&& put.size.height == rect.y1.minus(rect.y0)
        }),
{
    lemma_resize_count(sizes, placed);
}

proof fn lemma_resize_count(sizes: Seq<Option<Size>>, placed: Seq<(AreaId, Rect)>)
    requires
        crate::areas::laws::sound_layout(placed, sizes.len()),
    ensures
        crate::areas::screen::settled(sizes, placed).1 == placed.filter(
            |at: (AreaId, Rect)| resized(sizes[at.0 as int], at.1.size()),
        ).len(),
    decreases placed.len(),
{
    let changes = |at: (AreaId, Rect)| resized(sizes[at.0 as int], at.1.size());
    reveal(Seq::filter);
    if placed.len() > 0 {
        let before = placed.drop_last();
        let n = placed.len() - 1;
        assert forall|k: int| 0 <= k < before.len() implies (#[trigger] before[k]).0 < sizes.len()
            && !before[k].1.width().is_nan() && !before[k].1.height().is_nan() && before[k].0
            != placed[n].0 by {
            assert(before[k] == placed[k]);
        }
        assert forall|i: int, j: int| 0 <= i < j < before.len() implies (#[trigger] before[i]).0
            != (#[trigger] before[j]).0 by {
            assert(before[i] == placed[i] && before[j] == placed[j]);
        }
        lemma_resize_count(sizes, before);
        crate::areas::laws::lemma_settled_tells(sizes, before);
        let told = crate::areas::screen::settled(sizes, before).0;
        let id = placed[n].0 as int;
        assert(told[id] == sizes[id]);
    }
}

/// What a layout pass leaves behind: the areas and splitters of the tree at that size, one
/// pass more, and the areas that the host found dirty; the tree, the widgets and a drag stay.
pub proof fn law_layout_records_the_tree(state: ScreenState, size: Size, dirty: nat)
    requires
        state.counters.layouts < u64::MAX,
        state.counters.area_layouts + dirty <= u64::MAX,
    ensures
        ({
            let after = state.laid_out(size, dirty);
            let bounds = ScreenState::bounds(size);
            &&& after.rects == state.shape.placed(bounds, bar_thickness())
            &&& after.bars == state.shape.bars(bounds, bar_thickness())
            &&& after.counters.layouts == state.counters.layouts + 1
            &&& after.counters.area_layouts == state.counters.area_layouts + dirty
            &&& after.shape == state.shape
            &&& after.ids == state.ids
            &&& after.drag == state.drag
        }),
{
}

/// A widget that fills its space is as long as the space it is given, takes none where it is
/// asked for as little as it can, and its own length along that axis where there is no limit.
pub proof fn law_filling_takes_the_space(len: LenReq, axis: Axis, width: Scalar, height: Scalar)
    ensures
        len matches LenReq::FitContent(space) ==> len.filling(axis, width, height) == space,
        len is MinContent ==> len.filling(axis, width, height).value() == 0,
        len is MaxContent && axis == Axis::Horizontal ==> len.filling(axis, width, height) == width,
        len is MaxContent && axis == Axis::Vertical ==> len.filling(axis, width, height) == height,
{
    crate::number::exact::lemma_unit_interval();
}

} // verus!
