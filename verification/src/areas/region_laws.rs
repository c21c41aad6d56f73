//! What holds of a region stack as a whole.

use vstd::prelude::*;

use crate::areas::region::{usable_scale, Region, RegionKind, RegionState};
use crate::geometry::Size;
use crate::number::exact::GRID_REACH;
use crate::number::rounding::{HIDDEN, INFINITE, UNIT_EXPONENT};
use crate::number::scalar::Scalar;

verus! {

/// Whether a region asks for no negative height.
pub open spec fn upright(region: Region) -> bool {
    !region.base_height.times(region.ui_scale).less(Scalar::zero())
}

/// A header's height on the grid of the area.
proof fn lemma_header(x: Scalar, room: Scalar, g: nat)
    requires
        !x.less(Scalar::zero()),
        crate::number::exact::on_grid(room, g),
        g <= UNIT_EXPONENT,
        0 <= room.value(),
    ensures
        x.round().min(room).finite(),
        0 <= x.round().min(room).value() <= room.value(),
        x.round().min(room).value() % (crate::number::rounding::two_to(g) as int) == 0,
{
    let step = crate::number::rounding::two_to(g) as int;
    let one = crate::number::rounding::one_in_units() as int;
    crate::number::exact::lemma_whole_on_grid(1, g);
    assert(GRID_REACH * step <= GRID_REACH * one) by (nonlinear_arith)
        requires
            step <= one,
    ;
    crate::number::exact::lemma_unit_interval();
    if x.finite() {
        if x.value() >= GRID_REACH * one {
            crate::number::exact::lemma_round_large(x);
        } else {
            crate::number::exact::lemma_round_whole(x);
            crate::number::exact::lemma_whole_on_grid(x.nearest_whole() as int, g);
        }
    } else if x.infinite() {
        crate::number::rounding::lemma_units_ascend(room.magnitude(), INFINITE as nat);
        crate::number::arithmetic::lemma_zero_units(room.magnitude());
        if x.negative() {
            crate::number::arithmetic::lemma_zero_units(x.magnitude());
        }
    }
}

/// Where a region starts and how high it is, on the grid of the area.
proof fn lemma_stack(regions: Seq<Region>, height: Scalar, g: nat, i: nat)
    requires
        crate::areas::laws::aligned(Scalar::zero(), height, g),
        forall|k: int| 0 <= k < regions.len() ==> upright(#[trigger] regions[k]),
        i <= regions.len(),
    ensures
        ({
            let top = crate::areas::region::region_top(regions, height, i);
            &&& crate::number::exact::on_grid(top, g)
            &&& 0 <= top.value() <= height.value()
            &&& i > 0 && i == regions.len() ==> top.value() == height.value()
            &&& i > 0 ==> ({
                let above = (i - 1) as nat;
                let y = crate::areas::region::region_top(regions, height, above);
                let tall = crate::areas::region::region_height(
                    regions[above as int],
                    i == regions.len(),
                    height,
                    y,
                );
                &&& tall.finite()
                &&& tall.value() == top.value() - y.value()
                &&& tall.value() >= 0
            })
        }),
    decreases i,
{
    let step = crate::number::rounding::two_to(g) as int;
    crate::number::rounding::lemma_two_to_positive(g);
    crate::number::exact::lemma_unit_interval();
    if i > 0 {
        let above = (i - 1) as nat;
        lemma_stack(regions, height, g, above);
        let y = crate::areas::region::region_top(regions, height, above);
        crate::number::exact::lemma_grid_minus(height, y, g);
        let room = crate::areas::region::room_below(height, y);
        assert(room.value() == height.value() - y.value());
        assert(crate::number::exact::on_grid(room, g));
        let region = regions[above as int];
        assert(upright(region));
        let x = region.base_height.times(region.ui_scale);
        lemma_header(x, room, g);
        let tall = crate::areas::region::region_height(region, i == regions.len(), height, y);
        crate::number::exact::lemma_grid_plus(y, tall, g);
    }
}

/// Regions stack and fill the area: each starts where the one above ends, none has a
/// negative height, and the last ends where the area does.
pub proof fn law_regions_stack_and_fill(regions: Seq<Region>, height: Scalar)
    requires
        regions.len() > 0,
        crate::areas::laws::screen_length(height),
        forall|k: int| 0 <= k < regions.len() ==> upright(#[trigger] regions[k]),
    ensures
        crate::areas::region::region_top(regions, height, 0).value() == 0,
        crate::areas::region::region_top(regions, height, regions.len()).value() == height.value(),
        forall|i: nat|
            i < regions.len() ==> {
                let top = #[trigger] crate::areas::region::region_top(regions, height, i);
                let tall = crate::areas::region::region_height(
                    regions[i as int],
                    i + 1 == regions.len(),
                    height,
                    top,
                );
                &&& top.finite()
                &&& tall.finite()
                &&& tall.value() >= 0
                &&& top.value() + tall.value() == crate::areas::region::region_top(
                    regions,
                    height,
                    i + 1,
                ).value()
            },
{
    let g = crate::areas::laws::lemma_length_grid(height);
    lemma_stack(regions, height, g, 0);
    lemma_stack(regions, height, g, regions.len());
    assert forall|i: nat| i < regions.len() implies {
        let top = #[trigger] crate::areas::region::region_top(regions, height, i);
        let tall = crate::areas::region::region_height(
            regions[i as int],
            i + 1 == regions.len(),
            height,
            top,
        );
        &&& top.finite()
        &&& tall.finite()
        &&& tall.value() >= 0
        &&& top.value() + tall.value() == crate::areas::region::region_top(
            regions,
            height,
            i + 1,
        ).value()
    } by {
        lemma_stack(regions, height, g, i);
        lemma_stack(regions, height, g, i + 1);
    }
}

/// Whether two regions take the same room: kind, base height and scale agree.
spec fn alike(a: Region, b: Region) -> bool {
    a.kind == b.kind && a.base_height == b.base_height && a.ui_scale == b.ui_scale
}

/// Only the regions above decide where a region starts.
proof fn lemma_top_agrees(a: Seq<Region>, b: Seq<Region>, height: Scalar, i: nat)
    requires
        a.len() == b.len(),
        i <= a.len(),
        forall|k: int|
            0 <= k < i ==> alike(#[trigger] a[k], b[k]) || (b[k].kind == a[k].kind && (a[k].kind
                == RegionKind::Main || k + 1 == a.len())),
    ensures
        crate::areas::region::region_top(a, height, i) == crate::areas::region::region_top(
            b,
            height,
            i,
        ),
    decreases i,
{
    if i > 0 {
        lemma_top_agrees(a, b, height, (i - 1) as nat);
        assert(a[i - 1] == a[i - 1]);
    }
}

/// Scaling one region leaves the scale of every other alone, and moves nothing above it.
pub proof fn law_scaling_is_local(state: RegionState, index: usize, scale: Scalar, size: Size, i: nat)
    requires
        index < state.regions.len(),
        i < state.regions.len(),
    ensures
        i != index ==> state.scaled(index, scale).regions[i as int] == state.regions[i as int],
        i <= index ==> crate::areas::region::region_top(
            state.scaled(index, scale).regions,
            size.height,
            i,
        ) == crate::areas::region::region_top(state.regions, size.height, i),
        i < index ==> crate::areas::region::region_size(
            state.scaled(index, scale).regions,
            size,
            i,
        ) == crate::areas::region::region_size(state.regions, size, i),
{
    let after = state.scaled(index, scale).regions;
    if i <= index {
        assert forall|k: int| 0 <= k < i implies alike(#[trigger] after[k], state.regions[k]) by {}
        lemma_top_agrees(after, state.regions, size.height, i);
    }
}

/// The box of a main region, and of the last one, does not depend on its own scale: scaling
/// it moves and resizes nobody.
pub proof fn law_main_box_ignores_its_scale(
    state: RegionState,
    index: usize,
    scale: Scalar,
    size: Size,
    i: nat,
)
    requires
        index < state.regions.len(),
        state.regions[index as int].kind == RegionKind::Main || index + 1 == state.regions.len(),
        i < state.regions.len(),
    ensures
        crate::areas::region::region_top(state.scaled(index, scale).regions, size.height, i)
            == crate::areas::region::region_top(state.regions, size.height, i),
        crate::areas::region::region_size(state.scaled(index, scale).regions, size, i)
            == crate::areas::region::region_size(state.regions, size, i),
{
    let after = state.scaled(index, scale).regions;
    assert forall|k: int| 0 <= k < i implies alike(#[trigger] after[k], state.regions[k]) || (
    state.regions[k].kind == after[k].kind && (after[k].kind == RegionKind::Main || k + 1
        == after.len())) by {}
    lemma_top_agrees(after, state.regions, size.height, i);
}

/// A scale that is a number is kept from a tenth to eight, and asking for the same again
/// changes nothing.
pub proof fn law_scale_is_usable_and_settles(state: RegionState, index: usize, scale: Scalar)
    requires
        index < state.regions.len(),
        !scale.is_nan(),
    ensures
        Scalar::ratio(1, 10).at_most(usable_scale(scale)),
        usable_scale(scale).at_most(Scalar::from_whole(8)),
        state.scaled(index, scale).regions[index as int].ui_scale == usable_scale(scale),
        !state.scaled(index, scale).rescales(index, scale),
{
    crate::number::exact::lemma_ratio_at_most(1, 10, 8);
    crate::number::exact::lemma_from_whole(8);
}

/// Whether every region's root has been told of its scale, or is in line to be.
pub open spec fn informed(state: RegionState) -> bool {
    forall|i: int|
        0 <= i < state.regions.len() ==> state.pending.contains(i as usize) || (
        #[trigger] state.regions[i]).pushed_scale == Some(state.regions[i].ui_scale) || (
        state.regions[i].pushed_scale is None && state.regions[i].ui_scale == Scalar::from_whole(1))
}

/// No root is forgotten: whatever is done to a stack, every root knows its region's scale,
/// is in line to be told, or has the scale that it takes for granted. Once the queue has
/// been pushed nobody is in line.
pub proof fn law_every_root_learns_its_scale(
    regions: Seq<(RegionKind, Scalar, u64)>,
    state: RegionState,
    index: usize,
    scale: Scalar,
    size: Size,
)
    requires
        informed(state),
        index < state.regions.len() <= usize::MAX,
    ensures
        informed(RegionState::fresh(regions)),
        informed(state.scaled(index, scale)),
        informed(state.pushed()),
        informed(state.laid_out(size)),
        state.pushed().pending.len() == 0,
{
    let scaled = state.scaled(index, scale);
    assert forall|i: int| 0 <= i < scaled.regions.len() implies scaled.pending.contains(i as usize)
        || (#[trigger] scaled.regions[i]).pushed_scale == Some(scaled.regions[i].ui_scale) || (
    scaled.regions[i].pushed_scale is None && scaled.regions[i].ui_scale == Scalar::from_whole(
        1,
    )) by {
        if !state.pending.contains(index) {
            assert(scaled.pending[state.pending.len() as int] == index);
            if state.pending.contains(i as usize) {
                let k = state.pending.index_of(i as usize);
                assert(scaled.pending[k] == i as usize);
            }
        }
        assert(state.regions[i] == state.regions[i]);
    }
    let pushed = state.pushed();
    assert forall|i: int| 0 <= i < pushed.regions.len() implies pushed.pending.contains(i as usize)
        || (#[trigger] pushed.regions[i]).pushed_scale == Some(pushed.regions[i].ui_scale) || (
    pushed.regions[i].pushed_scale is None && pushed.regions[i].ui_scale == Scalar::from_whole(
        1,
    )) by {
        assert(state.regions[i] == state.regions[i]);
    }
    let laid = state.laid_out(size);
    assert forall|i: int| 0 <= i < laid.regions.len() implies laid.pending.contains(i as usize) || (
    #[trigger] laid.regions[i]).pushed_scale == Some(laid.regions[i].ui_scale) || (
    laid.regions[i].pushed_scale is None && laid.regions[i].ui_scale == Scalar::from_whole(1)) by {
        assert(state.regions[i] == state.regions[i]);
    }
}

/// Whether every one of the first `n` regions has been told of its size.
pub open spec fn regions_told(regions: Seq<Region>, size: Size, n: nat) -> bool {
    forall|i: nat|
        i < n ==> !crate::widget::resized(
            regions[i as int].size,
            #[trigger] crate::areas::region::region_size(regions, size, i),
        )
}

/// No more regions are resized than have not been told.
proof fn lemma_resize_count(regions: Seq<Region>, size: Size, told: nat, n: nat)
    requires
        regions_told(regions, size, told),
        told <= n,
    ensures
        resize_bound(regions, size, told, n),
    decreases n,
{
    if n > 0 {
        let i = (n - 1) as nat;
        if told <= i {
            lemma_resize_count(regions, size, told, i);
        } else {
            assert(regions_told(regions, size, i)) by {
                assert forall|k: nat| k < i implies !crate::widget::resized(
                    regions[k as int].size,
                    #[trigger] crate::areas::region::region_size(regions, size, k),
                ) by {}
            }
            lemma_resize_count(regions, size, i, i);
            let now = crate::areas::region::region_size(regions, size, i);
            assert(!crate::widget::resized(regions[i as int].size, now));
        }
    }
}

spec fn resize_bound(regions: Seq<Region>, size: Size, told: nat, n: nat) -> bool {
    crate::areas::region::resize_count(regions, size, n) <= n - told
}

/// Sizes after a layout pass: everybody has been told, where the sizes are numbers.
proof fn lemma_laid_out_tells(state: RegionState, size: Size)
    requires
        forall|i: nat|
            i < state.regions.len() ==> {
                let s = #[trigger] crate::areas::region::region_size(state.regions, size, i);
                !s.width.is_nan() && !s.height.is_nan()
            },
    ensures
        regions_told(state.laid_out(size).regions, size, state.regions.len()),
{
    let after = state.laid_out(size).regions;
    assert forall|i: nat| i < state.regions.len() implies !crate::widget::resized(
        after[i as int].size,
        #[trigger] crate::areas::region::region_size(after, size, i),
    ) by {
        assert forall|k: int| 0 <= k < i implies alike(#[trigger] after[k], state.regions[k]) by {}
        lemma_top_agrees(after, state.regions, size.height, i);
        assert(alike(after[i as int], state.regions[i as int]));
        let s = crate::areas::region::region_size(state.regions, size, i);
        assert(crate::areas::region::region_size(after, size, i) == s);
        assert(!s.width.is_nan() && !s.height.is_nan());
    }
}

/// An idle area is idle: a second layout pass at the same size gives no region another
/// size.
pub proof fn law_idle_area_resizes_nothing(state: RegionState, size: Size)
    requires
        forall|i: nat|
            i < state.regions.len() ==> {
                let s = #[trigger] crate::areas::region::region_size(state.regions, size, i);
                !s.width.is_nan() && !s.height.is_nan()
            },
    ensures
        state.laid_out(size).laid_out(size).counters.resizes == state.laid_out(
            size,
        ).counters.resizes,
        state.laid_out(size).laid_out(size).regions == state.laid_out(size).regions,
{
    let once = state.laid_out(size);
    lemma_laid_out_tells(state, size);
    lemma_resize_count(once.regions, size, state.regions.len(), state.regions.len());
    let twice = once.laid_out(size);
    assert(twice.regions =~= once.regions) by {
        assert forall|i: int| 0 <= i < once.regions.len() implies twice.regions[i]
            == once.regions[i] by {
            let now = crate::areas::region::region_size(once.regions, size, i as nat);
            assert(!crate::widget::resized(once.regions[i].size, now));
        }
    }
}

/// A change of scale is local: it resizes the region itself and those below it, and nobody
/// else. In a stack of a header and a main region, those two.
pub proof fn law_scale_change_resizes_from_there_on(
    state: RegionState,
    size: Size,
    index: usize,
    scale: Scalar,
)
    requires
        index < state.regions.len(),
        regions_told(state.regions, size, state.regions.len()),
        state.counters.resizes + state.regions.len() <= u64::MAX,
    ensures
        state.scaled(index, scale).laid_out(size).counters.resizes - state.counters.resizes
            <= state.regions.len() - index,
{
    let after = state.scaled(index, scale);
    assert(regions_told(after.regions, size, index as nat)) by {
        assert forall|i: nat| i < index implies !crate::widget::resized(
            after.regions[i as int].size,
            #[trigger] crate::areas::region::region_size(after.regions, size, i),
        ) by {
            law_scaling_is_local(state, index, scale, size, i);
            let now = crate::areas::region::region_size(state.regions, size, i);
            assert(!crate::widget::resized(state.regions[i as int].size, now));
        }
    }
    lemma_resize_count(after.regions, size, index as nat, after.regions.len());
}

/// Where the second of two regions starts and how high it is, under a header.
proof fn lemma_under_header(regions: Seq<Region>, height: Scalar)
    requires
        regions.len() == 2,
        regions[0].kind == RegionKind::Header,
        upright(regions[0]),
        crate::areas::laws::screen_length(height),
    ensures
        ({
            let first = crate::areas::region::region_height(
                regions[0],
                false,
                height,
                crate::areas::region::region_top(regions, height, 0),
            );
            let second = crate::areas::region::region_height(
                regions[1],
                true,
                height,
                crate::areas::region::region_top(regions, height, 1),
            );
            second.value() == height.value() - first.value()
        }),
{
    let g = crate::areas::laws::lemma_length_grid(height);
    crate::number::exact::lemma_unit_interval();
    let zero = Scalar::zero();
    assert(crate::areas::region::region_top(regions, height, 0) == zero);
    crate::number::exact::lemma_grid_minus(height, zero, g);
    let room = crate::areas::region::room_below(height, zero);
    assert(room.value() == height.value() && crate::number::exact::on_grid(room, g));
    lemma_header(regions[0].base_height.times(regions[0].ui_scale), room, g);
    let first = crate::areas::region::region_height(regions[0], false, height, zero);
    crate::number::exact::lemma_grid_plus(zero, first, g);
    let top = crate::areas::region::region_top(regions, height, 1);
    reveal_with_fuel(crate::areas::region::region_top, 2);
    assert(top == zero.plus(first));
    crate::number::exact::lemma_grid_minus(height, top, g);
}

/// In a stack of a header and a main region, a change of scale that gives the header another
/// height resizes exactly those two: what the one gains the other loses.
pub proof fn law_header_change_resizes_both(state: RegionState, size: Size, scale: Scalar)
    requires
        state.regions.len() == 2,
        state.regions[0].kind == RegionKind::Header,
        upright(state.regions[0]),
        upright(state.scaled(0, scale).regions[0]),
        crate::areas::laws::screen_length(size.height),
        regions_told(state.regions, size, state.regions.len()),
        state.counters.resizes + state.regions.len() <= u64::MAX,
        crate::areas::region::region_size(state.regions, size, 0).height.value()
            != crate::areas::region::region_size(
            state.scaled(0, scale).regions,
            size,
            0,
        ).height.value(),
    ensures
        state.scaled(0, scale).laid_out(size).counters.resizes == state.counters.resizes + 2,
{
    let after = state.scaled(0, scale);
    lemma_under_header(state.regions, size.height);
    lemma_under_header(after.regions, size.height);
    let before_0 = crate::areas::region::region_size(state.regions, size, 0);
    let before_1 = crate::areas::region::region_size(state.regions, size, 1);
    let after_0 = crate::areas::region::region_size(after.regions, size, 0);
    let after_1 = crate::areas::region::region_size(after.regions, size, 1);
    assert(!crate::widget::resized(state.regions[0].size, before_0));
    assert(!crate::widget::resized(state.regions[1].size, before_1));
    assert(crate::widget::resized(after.regions[0].size, after_0));
    assert(crate::widget::resized(after.regions[1].size, after_1));
    reveal_with_fuel(crate::areas::region::resize_count, 3);
}

/// Such a header has the height that its scale asks for, rounded to whole pixels, where the
/// area has room for it.
pub proof fn law_header_takes_its_rounded_height(region: Region, size: Size)
    requires
        region.kind == RegionKind::Header,
        upright(region),
        crate::areas::laws::screen_length(size.height),
        region.base_height.times(region.ui_scale).round().at_most(size.height),
    ensures
        crate::areas::region::region_height(
            region,
            false,
            size.height,
            Scalar::zero(),
        ).value() == region.base_height.times(region.ui_scale).round().value(),
{
    let g = crate::areas::laws::lemma_length_grid(size.height);
    crate::number::exact::lemma_unit_interval();
    crate::number::exact::lemma_grid_minus(size.height, Scalar::zero(), g);
}

/// A usable scale is the one that was asked for, from a tenth to eight, and the nearer of
/// these limits where that lies outside.
pub proof fn law_usable_scale_is_the_nearest(scale: Scalar)
    requires
        !scale.is_nan(),
    ensures
        ({
            let one = crate::number::rounding::one_in_units();
            let low = Scalar::ratio(1, 10);
            let got = usable_scale(scale);
            &&& low.finite()
            &&& crate::number::error::size(10real * crate::number::error::real_of(low) - 1real)
                <= 2real * crate::number::error::grain()
            &&& low.value() <= scale.value() <= 8 * one ==> got.value() == scale.value()
            &&& scale.value() <= low.value() ==> got.value() == low.value()
            &&& 8 * one <= scale.value() ==> got.value() == 8 * one
            &&& got.finite()
        }),
{
    let low = Scalar::ratio(1, 10);
    let top = Scalar::from_whole(8);
    crate::number::exact::lemma_ratio_at_most(1, 10, 8);
    crate::number::exact::lemma_from_whole(8);
    crate::number::error::lemma_real_ratio(1, 10);
    crate::number::error::lemma_grain();
    let q = crate::number::error::real_of(low);
    let u = crate::number::error::grain();
    let t = crate::number::error::dust();
    assert(q * 10real == 10real * q) by (nonlinear_arith);
    assert(t * 10real <= u) by (nonlinear_arith)
        requires
            t * 1208925819614629174706176real <= u,
            t > 0real,
    ;
    crate::number::arithmetic::lemma_zero_units(low.magnitude());
    if scale.infinite() {
        if scale.negative() {
            crate::number::arithmetic::lemma_zero_units(scale.magnitude());
        } else {
            crate::number::rounding::lemma_units_ascend(top.magnitude(), scale.magnitude());
        }
    }
}

/// Setting a scale changes something exactly where the region has another; then it has the
/// usable one from there on, is queued to be told, and is otherwise what it was.
pub proof fn law_scale_is_set_where_it_differs(state: RegionState, index: usize, scale: Scalar)
    requires
        index < state.regions.len(),
        !scale.is_nan(),
        !state.regions[index as int].ui_scale.is_nan(),
    ensures
        ({
            let was = state.regions[index as int];
            let after = state.scaled(index, scale);
            let now = after.regions[index as int];
            &&& state.rescales(index, scale) <==> was.ui_scale.value() != usable_scale(
                scale,
            ).value()
            &&& now.ui_scale.value() == usable_scale(scale).value()
            &&& now.kind == was.kind
            &&& now.id == was.id
            &&& now.base_height == was.base_height
            &&& now.pushed_scale == was.pushed_scale
            &&& now.size == was.size
            &&& after.pending.contains(index)
            &&& after.regions.len() == state.regions.len()
            &&& after.counters == state.counters
            &&& forall|i: usize| i != index ==> (#[trigger] after.pending.contains(i)
                <==> state.pending.contains(i))
        }),
{
    law_usable_scale_is_the_nearest(scale);
    let after = state.scaled(index, scale);
    if !state.pending.contains(index) {
        assert forall|i: usize| #[trigger]
            after.pending.contains(i) <==> state.pending.contains(i) || i == index by {
            vstd::seq_lib::lemma_seq_contains_after_push(state.pending, index, i);
        }
    }
}

/// No region beyond the last can be rescaled.
pub proof fn law_no_scale_without_a_region(state: RegionState, index: usize, scale: Scalar)
    requires
        index >= state.regions.len(),
    ensures
        !state.rescales(index, scale),
{
}

/// Pushing scales tells the queued regions their own scale, leaves the others alone, and
/// empties the queue. It counts every push, and changes no region otherwise.
pub proof fn law_push_tells_the_queued(state: RegionState, i: usize)
    requires
        i < state.regions.len() <= usize::MAX,
        state.counters.scale_pushes + state.pending.len() <= u64::MAX,
    ensures
        ({
            let was = state.regions[i as int];
            let after = state.pushed();
            let now = after.regions[i as int];
            &&& state.pending.contains(i) ==> now.pushed_scale == Some(was.ui_scale)
            &&& !state.pending.contains(i) ==> now.pushed_scale == was.pushed_scale
            &&& now.ui_scale == was.ui_scale
            &&& now.kind == was.kind
            &&& now.id == was.id
            &&& now.base_height == was.base_height
            &&& now.size == was.size
            &&& after.pending.len() == 0
            &&& after.regions.len() == state.regions.len()
            &&& after.counters.scale_pushes == state.counters.scale_pushes + state.pending.len()
            &&& after.counters.layouts == state.counters.layouts
            &&& after.counters.resizes == state.counters.resizes
        }),
{
}

/// A new stack has the given regions in order, at their own size, told of nothing yet.
pub proof fn law_new_stack_is_at_scale_one(regions: Seq<(RegionKind, Scalar, u64)>, i: int)
    requires
        0 <= i < regions.len(),
    ensures
        ({
            let state = RegionState::fresh(regions);
            let region = state.regions[i];
            &&& state.regions.len() == regions.len()
            &&& region.kind == regions[i].0
            &&& region.base_height == regions[i].1
            &&& region.id == regions[i].2
            &&& region.ui_scale.value() == crate::number::rounding::one_in_units()
            &&& region.pushed_scale is None
            &&& region.size is None
            &&& state.pending.len() == 0
            &&& state.counters.layouts == 0
            &&& state.counters.resizes == 0
            &&& state.counters.scale_pushes == 0
        }),
{
    crate::number::exact::lemma_from_whole(1);
    let one = crate::number::rounding::one_in_units() as int;
    assert(1 * one == one);
}

/// How the regions of an area are placed: each as wide as the area, at its left edge, and
/// right below the one above. A main region and the last take all that is left. A header
/// takes the height that its scale makes of its base height, to the nearest pixel, or what is
/// left where that is less.
pub proof fn law_regions_take_their_heights(state: RegionState, size: Size, i: nat)
    requires
        i < state.regions.len() <= usize::MAX,
        crate::areas::laws::screen_length(size.height),
        forall|k: int| 0 <= k < state.regions.len() ==> upright(#[trigger] state.regions[k]),
    ensures
        ({
            let put = state.placements(size)[i as int];
            let region = state.regions[i as int];
            let one = crate::number::rounding::one_in_units() as int;
            let left = size.height.value() - put.origin.y.value();
            let asked = region.base_height.times(region.ui_scale);
            &&& state.placements(size).len() == state.regions.len()
            &&& put.index == i
            &&& put.size.width == size.width
            &&& put.origin.x.value() == 0
            &&& i == 0 ==> put.origin.y.value() == 0
            &&& i > 0 ==> ({
                let above = state.placements(size)[i - 1];
                put.origin.y.value() == above.origin.y.value() + above.size.height.value()
            })
            &&& 0 <= put.size.height.value() <= left
            &&& region.kind == RegionKind::Main || i + 1 == state.regions.len()
                ==> put.size.height.value() == left
            &&& region.kind == RegionKind::Header && i + 1 < state.regions.len()
                && asked.finite() && asked.value() <= GRID_REACH * one ==> {
                let rounded = asked.round().value();
                &&& put.size.height.value() == (if rounded < left {
                    rounded
                } else {
                    left
                })
                &&& -one <= 2 * (rounded - asked.value()) <= one
                &&& rounded % one == 0
            }
        }),
{
    let regions = state.regions;
    let height = size.height;
    let one = crate::number::rounding::one_in_units() as int;
    crate::number::rounding::lemma_two_to_positive(UNIT_EXPONENT as nat);
    crate::number::exact::lemma_unit_interval();
    let g = crate::areas::laws::lemma_length_grid(height);
    law_regions_stack_and_fill(regions, height);
    lemma_stack(regions, height, g, i);
    lemma_stack(regions, height, g, i + 1);
    let top = crate::areas::region::region_top(regions, height, i);
    assert(top == state.placements(size)[i as int].origin.y);
    crate::number::exact::lemma_grid_minus(height, top, g);
    let room = crate::areas::region::room_below(height, top);
    assert(room.value() == height.value() - top.value());
    if i > 0 {
        let above = (i - 1) as nat;
        let y = crate::areas::region::region_top(regions, height, above);
        assert(y == state.placements(size)[above as int].origin.y);
    }
    let region = regions[i as int];
    assert(upright(region));
    let asked = region.base_height.times(region.ui_scale);
    if asked.finite() && asked.value() <= GRID_REACH * one {
        crate::number::exact::lemma_round_whole(asked);
        vstd::arithmetic::div_mod::lemma_mod_multiples_basic(asked.nearest_whole() as int, one);
    }
}

/// The height that a header asks for is its base height times its scale, up to rounding.
pub proof fn law_header_asks_for_its_scaled_height(region: Region)
    requires
        region.base_height.finite(),
        region.ui_scale.finite(),
        region.base_height.times(region.ui_scale).finite(),
    ensures
        ({
            let one = crate::number::rounding::one_in_units() as int;
            let asked = region.base_height.times(region.ui_scale).value();
            let exact = region.base_height.value() * region.ui_scale.value();
            HIDDEN * crate::number::error::far(asked * one - exact) <= crate::number::error::far(
                exact,
            ) + HIDDEN * one
        }),
{
    crate::number::error::lemma_product_error(region.base_height, region.ui_scale);
}

/// A layout pass records the size of every region, counts itself and the regions whose size
/// is another than before, and changes nothing else about a region.
pub proof fn law_layout_records_region_sizes(state: RegionState, size: Size, i: nat)
    requires
        i < state.regions.len(),
        state.counters.layouts < u64::MAX,
        state.counters.resizes + state.regions.len() <= u64::MAX,
        !crate::areas::region::region_size(state.regions, size, i).width.is_nan(),
        !crate::areas::region::region_size(state.regions, size, i).height.is_nan(),
    ensures
        ({
            let was = state.regions[i as int];
            let after = state.laid_out(size);
            let now = after.regions[i as int];
            let given = crate::areas::region::region_size(state.regions, size, i);
            &&& now.size matches Some(told) && told.width.value() == given.width.value()
                && told.height.value() == given.height.value()
            &&& now.kind == was.kind
            &&& now.id == was.id
            &&& now.base_height == was.base_height
            &&& now.ui_scale == was.ui_scale
            &&& now.pushed_scale == was.pushed_scale
            &&& after.pending == state.pending
            &&& after.counters.layouts == state.counters.layouts + 1
            &&& after.counters.scale_pushes == state.counters.scale_pushes
            &&& after.counters.resizes - state.counters.resizes == regions_resized(
                state,
                size,
            ).len()
        }),
{
    lemma_resized_ones(state, size, state.regions.len());
    lemma_few_resized(state, size, state.regions.len());
}

/// The regions that a layout pass at `size` gives another size.
pub open spec fn regions_resized(state: RegionState, size: Size) -> Seq<int> {
    Seq::new(state.regions.len(), |k: int| k).filter(
        |k: int|
            crate::widget::resized(
                state.regions[k].size,
                crate::areas::region::region_size(state.regions, size, k as nat),
            ),
    )
}

proof fn lemma_resized_ones(state: RegionState, size: Size, n: nat)
    requires
        n <= state.regions.len(),
    ensures
        crate::areas::region::resize_count(state.regions, size, n) == Seq::new(
            n,
            |k: int| k,
        ).filter(
            |k: int|
                crate::widget::resized(
                    state.regions[k].size,
                    crate::areas::region::region_size(state.regions, size, k as nat),
                ),
        ).len(),
    decreases n,
{
    reveal(Seq::filter);
    let all = Seq::new(n, |k: int| k);
    if n > 0 {
        lemma_resized_ones(state, size, (n - 1) as nat);
        assert(all.drop_last() =~= Seq::new((n - 1) as nat, |k: int| k));
    }
}

proof fn lemma_few_resized(state: RegionState, size: Size, n: nat)
    ensures
        crate::areas::region::resize_count(state.regions, size, n) <= n,
    decreases n,
{
    if n > 0 {
        lemma_few_resized(state, size, (n - 1) as nat);
    }
}

} // verus!
