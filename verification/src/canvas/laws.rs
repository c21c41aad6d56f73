//! What holds of a canvas as a whole.

use vstd::prelude::*;

use crate::canvas::content::{ContentState, FarState, Slot};
use crate::canvas::detail::Detail;
use crate::canvas::layer::LayerState;
use crate::geometry::{Point, Rect, Size};
use crate::number::scalar::Scalar;
use crate::widget::PointerEvent;

verus! {

/// What the mutate pass makes of the state, `ids` being the widgets of arriving nodes.
pub open spec fn mutated(state: ContentState, ids: Seq<u64>) -> ContentState {
    match state.pending {
        Some(desired) => state.applied(desired, ids),
        None => state,
    }
}

/// Once a cull has been applied, exactly the nodes in view have a widget, and in the far
/// field none has. What the passes walk is bounded by the viewport, not by the graph.
pub proof fn law_widgets_are_the_nodes_in_view(state: ContentState, ids: Seq<u64>, i: usize)
    requires
        state.consistent(),
        i < state.slots.len(),
    ensures
        ({
            let after = mutated(state.culled(), ids);
            &&& after.consistent()
            &&& after.live == state.desired()
            &&& after.pending is None
            &&& after.slots[i as int].pod is Some <==> !state.far_field()
                && state.slots[i as int].rect().overlaps(state.visible_rect)
            &&& after.slots[i as int].pos == state.slots[i as int].pos
            &&& after.slots[i as int].size == state.slots[i as int].size
            &&& state.far_field() ==> after.live.len() == 0
        }),
{
    let culled = state.culled();
    crate::canvas::content::lemma_overlapping(state.slots, state.visible_rect);
    lemma_culled_consistent(state);
    if culled.pending is Some {
        crate::canvas::content::lemma_applied_consistent(culled, state.desired(), ids);
    }
    let after = mutated(culled, ids);
    assert(after.slots[i as int].pod is Some <==> after.live.contains(i));
}

/// Culling keeps the state consistent.
pub proof fn lemma_culled_consistent(state: ContentState)
    requires
        state.consistent(),
    ensures
        state.culled().consistent(),
{
    crate::canvas::content::lemma_overlapping(state.slots, state.visible_rect);
    let region = state.visible_rect.inflate(
        state.visible_rect.width().times(crate::canvas::content::spec_far_overscan()),
        state.visible_rect.height().times(crate::canvas::content::spec_far_overscan()),
    );
    crate::canvas::content::lemma_overlapping(state.slots, region);
    let after = state.culled();
    assert forall|i: usize| i < after.slots.len() implies ((
    #[trigger] after.slots[i as int]).pod is Some <==> after.live.contains(i)) && (
    after.slots[i as int].built is Some <==> after.live.contains(i)) by {
        assert(state.slots[i as int].pod is Some <==> state.live.contains(i));
    }
}

/// A rectangle with its edges in order, all of them and both extents being numbers.
pub open spec fn ordinary(rect: Rect) -> bool {
    &&& rect.x0.finite()
    &&& rect.y0.finite()
    &&& rect.x1.finite()
    &&& rect.y1.finite()
    &&& rect.x0.at_most(rect.x1)
    &&& rect.y0.at_most(rect.y1)
    &&& rect.width().finite()
    &&& rect.height().finite()
}

/// The far-field recording covers what it was made for, margin and all.
pub proof fn law_recording_covers_the_view(far: FarState, slots: Seq<Slot>, rect: Rect)
    requires
        ordinary(rect),
    ensures
        far.refreshed(slots, rect).region matches Some(region)
            && crate::geometry::spec_contains_rect(region, rect),
{
    let half = crate::canvas::content::spec_far_overscan();
    crate::number::exact::lemma_ratio_at_most(1, 2, 1);
    crate::number::exact::lemma_from_whole(1);
    crate::number::arithmetic::lemma_zero_units(half.magnitude());
    let one = crate::number::rounding::one_in_units() as int;
    assert(1 * one == one);
    lemma_extent(rect.x0, rect.x1);
    lemma_extent(rect.y0, rect.y1);
    crate::number::exact::lemma_times_shrinks(rect.width(), half);
    crate::number::exact::lemma_times_shrinks(rect.height(), half);
    crate::number::exact::lemma_plus_grows(rect.x0, rect.width().times(half));
    crate::number::exact::lemma_plus_grows(rect.x1, rect.width().times(half));
    crate::number::exact::lemma_plus_grows(rect.y0, rect.height().times(half));
    crate::number::exact::lemma_plus_grows(rect.y1, rect.height().times(half));
}

proof fn lemma_extent(lo: Scalar, hi: Scalar)
    requires
        lo.finite(),
        hi.finite(),
        lo.at_most(hi),
    ensures
        hi.minus(lo).value() >= 0,
{
    crate::number::exact::lemma_negated(lo);
    crate::number::exact::lemma_plus_nearest(hi, lo.negated());
    crate::number::exact::lemma_nearest_to_order(
        hi.value() - lo.value(),
        hi.value() - lo.value(),
    );
}

/// An idle canvas stays idle: once a view has been culled and applied, looking at it again
/// finds no work for anybody and repaints nothing.
pub proof fn law_idle_canvas_stays_idle(
    state: ContentState,
    hover: bool,
    rect: Rect,
    detail: Detail,
    ids: Seq<u64>,
)
    requires
        state.consistent(),
        ordinary(rect),
    ensures
        ({
            let settled = mutated(state.seen(hover, rect, detail).culled().repainting(), ids);
            let again = settled.seen(hover, rect, detail).culled();
            &&& again.pending is None
            &&& !again.far.dirty
            &&& again.slots == settled.slots
            &&& again.live == settled.live
            &&& again.far.region == settled.far.region
            &&& again.far.nodes == settled.far.nodes
            &&& again.counters == settled.counters
        }),
{
    let first = state.seen(hover, rect, detail);
    let culled = first.culled();
    let settled = mutated(culled.repainting(), ids);
    let second = settled.seen(hover, rect, detail);
    assert(!second.detail_dirty);
    assert(settled.slots.len() == state.slots.len());
    lemma_same_view(state.slots, settled.slots, rect);
    assert(settled.live == first.desired());
    assert(second.desired() =~= settled.live);
    assert(second.far.active == second.far_field());
    law_recording_covers_the_view(first.far, first.slots, rect);
    assert(!second.recording().dirty);
    assert(!second.needs_work());
}

/// The same, through the viewport: a layout pass after one that has been done with asks
/// the host for nothing.
pub proof fn law_idle_layer_asks_nothing(
    layer: LayerState,
    content: ContentState,
    size: Size,
    ids: Seq<u64>,
)
    requires
        content.consistent(),
        ordinary((LayerState { viewport: size, ..layer }).visible_canvas_rect()),
    ensures
        ({
            let done = mutated(layer.looked_at(content, size).culled().repainting(), ids);
            let again = layer.sized(size).recorded(done);
            let culled = again.looked_at(done, size).culled();
            &&& !again.view_dirty
            &&& !culled.far.dirty
            &&& culled.pending is None
        }),
{
    let rect = (LayerState { viewport: size, ..layer }).visible_canvas_rect();
    let detail = layer.thresholds.for_scale(layer.zoom());
    law_idle_canvas_stays_idle(content, layer.controls_on_hover, rect, detail, ids);
}

/// What is in view depends on where the nodes are, not on their widgets.
proof fn lemma_same_view(a: Seq<Slot>, b: Seq<Slot>, rect: Rect)
    requires
        a.len() == b.len(),
        forall|i: int|
            0 <= i < a.len() ==> (#[trigger] a[i]).pos == b[i].pos && a[i].size == b[i].size,
    ensures
        crate::canvas::content::overlapping(a, rect) == crate::canvas::content::overlapping(
            b,
            rect,
        ),
    decreases a.len(),
{
    if a.len() > 0 {
        assert forall|i: int| 0 <= i < a.drop_last().len() implies (
        #[trigger] a.drop_last()[i]).pos == b.drop_last()[i].pos && a.drop_last()[i].size
            == b.drop_last()[i].size by {
            assert(a[i].pos == b[i].pos);
        }
        lemma_same_view(a.drop_last(), b.drop_last(), rect);
        assert(a[a.len() - 1].pos == b[a.len() - 1].pos);
    }
}

/// A pan that brings no node in and none out is free: nothing is queued, nothing is
/// repainted.
pub proof fn law_pan_without_arrivals_is_free(state: ContentState, rect: Rect)
    requires
        state.detail matches Some(detail) && detail != Detail::Box,
        !state.detail_dirty,
        !state.far.active,
        !state.far.dirty,
        crate::canvas::content::overlapping(state.slots, rect) == state.live,
    ensures
        ({
            let after = state.seen(
                state.controls_on_hover,
                rect,
                state.global_detail(),
            ).culled();
            &&& after.pending is None
            &&& !after.far.dirty
            &&& after.slots == state.slots
            &&& after.live == state.live
            &&& after.counters == state.counters
        }),
{
}

/// Panning and zooming inside the recorded region of the far field re-records nothing.
pub proof fn law_recording_survives_views_inside(state: ContentState, rect: Rect)
    requires
        state.detail == Some(Detail::Box),
        !state.detail_dirty,
        state.far.active,
        !state.far.dirty,
        state.live.len() == 0,
        state.far.region matches Some(region) && crate::geometry::spec_contains_rect(region, rect),
    ensures
        ({
            let after = state.seen(state.controls_on_hover, rect, Detail::Box).culled();
            &&& after.far == state.far
            &&& after.pending is None
        }),
{
    let seen = state.seen(state.controls_on_hover, rect, Detail::Box);
    assert(seen.desired() =~= state.live);
}

/// Moving a node touches that node's position and, in the far field, the recording: every
/// other node, and every widget, is as it was.
pub proof fn law_move_touches_one_node(state: ContentState, index: usize, pos: Point, i: int)
    requires
        0 <= i < state.slots.len(),
    ensures
        ({
            let after = state.moved(index, pos).0;
            &&& after.slots.len() == state.slots.len()
            &&& i != index ==> after.slots[i] == state.slots[i]
            &&& after.slots[i].size == state.slots[i].size
            &&& after.slots[i].pod == state.slots[i].pod
            &&& after.slots[i].built == state.slots[i].built
            &&& after.live == state.live
            &&& after.visible == state.visible
            &&& after.pending == state.pending
            &&& after.counters == state.counters
        }),
{
}

/// With controls on hover, the node under the pointer has controls and no other has;
/// without, all nodes are built alike.
pub proof fn law_hover_singles_out_one_node(state: ContentState, i: usize, j: usize)
    ensures
        state.controls_on_hover && !state.far_field() ==> (state.effective_detail(i) == Detail::Full
            <==> state.active == Some(i)),
        !state.controls_on_hover ==> state.effective_detail(i) == state.effective_detail(j),
        state.far_field() ==> state.effective_detail(i) == Detail::Box,
{
}

/// Whether every widget was built as it should be now.
pub open spec fn current(state: ContentState) -> bool {
    forall|k: int| 0 <= k < state.live.len() ==> !state.outdated(#[trigger] state.live[k])
}

/// Whether a widget that is out of date is known to be.
pub open spec fn tracked_detail(state: ContentState) -> bool {
    state.detail_dirty || current(state)
}

/// No widget is left at the wrong detail level: once a cull has been applied, every widget
/// is built as it should be.
pub proof fn law_no_widget_is_left_behind(state: ContentState, ids: Seq<u64>)
    requires
        state.consistent(),
        tracked_detail(state),
    ensures
        current(mutated(state.culled(), ids)),
{
    let culled = state.culled();
    let after = mutated(culled, ids);
    lemma_culled_consistent(state);
    crate::canvas::content::lemma_overlapping(state.slots, state.visible_rect);
    if let Some(desired) = culled.pending {
        crate::canvas::content::lemma_comings_and_goings(culled, desired);
        assert forall|k: int| 0 <= k < after.live.len() implies !after.outdated(
            #[trigger] after.live[k],
        ) by {
            let i = after.live[k];
            assert(desired[k] == i);
            assert(desired.contains(i));
            assert(i < state.slots.len());
            assert(after.build_spec(i) == state.build_spec(i));
            assert(culled.arriving(desired).contains(i) || !culled.arriving(desired).contains(i));
            if !culled.arriving(desired).contains(i) {
                assert(state.live.contains(i));
                let j = state.live.index_of(i);
                assert(state.live[j] == i);
                assert(!culled.leaving(desired).contains(i));
                assert(after.slots[i as int] == state.slots[i as int]);
                if state.outdated(i) {
                    assert(state.detail_dirty);
                    assert(state.outdated(state.live[j]));
                    assert(state.is_stale());
                    assert(culled.pending_stale && culled.outdated(i));
                }
            }
        }
    } else {
        assert forall|k: int| 0 <= k < after.live.len() implies !after.outdated(
            #[trigger] after.live[k],
        ) by {
            let i = after.live[k];
            assert(state.live[k] == i);
            assert(after.build_spec(i) == state.build_spec(i));
            if state.outdated(i) {
                assert(state.is_stale());
            }
        }
    }
}

/// Whatever happens between two culls, a widget that goes out of date is known to.
pub proof fn law_outdated_widgets_are_noticed(
    state: ContentState,
    rect: Rect,
    detail: Detail,
    active: Option<usize>,
    index: usize,
    pos: Point,
)
    requires
        tracked_detail(state),
        state.consistent(),
    ensures
        tracked_detail(state.seen(state.controls_on_hover, rect, detail)),
        tracked_detail(state.hovered(active)),
        tracked_detail(state.moved(index, pos).0),
        tracked_detail(state.repainting()),
{
    let seen = state.seen(state.controls_on_hover, rect, detail);
    if !seen.detail_dirty {
        assert forall|k: int| 0 <= k < seen.live.len() implies !seen.outdated(
            #[trigger] seen.live[k],
        ) by {
            assert(!state.outdated(state.live[k]));
            assert(seen.build_spec(seen.live[k]) == state.build_spec(state.live[k]));
        }
    }
    let hovered = state.hovered(active);
    if !hovered.detail_dirty {
        assert(hovered == state);
    }
    let moved = state.moved(index, pos).0;
    if !moved.detail_dirty {
        assert forall|k: int| 0 <= k < moved.live.len() implies !moved.outdated(
            #[trigger] moved.live[k],
        ) by {
            let i = state.live[k];
            assert(!state.outdated(i));
            assert(moved.build_spec(i) == state.build_spec(i));
            assert(moved.slots[i as int].built == state.slots[i as int].built);
        }
    }
    let repainting = state.repainting();
    if !repainting.detail_dirty {
        assert forall|k: int| 0 <= k < repainting.live.len() implies !repainting.outdated(
            #[trigger] repainting.live[k],
        ) by {
            assert(!state.outdated(state.live[k]));
            assert(repainting.build_spec(state.live[k]) == state.build_spec(state.live[k]));
        }
    }
}

/// A press takes the topmost of the visible nodes under it: no visible node of a higher
/// index is there too. It takes none only where there is none.
pub proof fn law_hit_is_topmost(state: ContentState, pos: Point, j: usize)
    requires
        state.consistent(),
        state.visible.contains(j),
        state.slots[j as int].rect().contains(pos),
    ensures
        state.hit(pos) matches Some((i, at)) && j <= i && state.visible.contains(i)
            && state.slots[i as int].rect().contains(pos) && at == state.slots[i as int].pos,
{
    assert(state.visible.take(state.visible.len() as int) =~= state.visible);
    lemma_topmost(state, pos, state.visible.len(), j);
}

proof fn lemma_topmost(state: ContentState, pos: Point, n: nat, j: usize)
    requires
        state.consistent(),
        n <= state.visible.len(),
        state.visible.take(n as int).contains(j),
        state.slots[j as int].rect().contains(pos),
    ensures
        state.topmost(pos, n) matches Some(i) && j <= i && state.visible.contains(i)
            && state.slots[i as int].rect().contains(pos),
    decreases n,
{
    let k = state.visible.take(n as int).index_of(j);
    assert(state.visible[k] == j);
    let i = state.visible[n - 1];
    if state.slots[i as int].rect().contains(pos) {
        assert(k <= n - 1);
        assert(state.visible.contains(i));
    } else {
        assert(k < n - 1);
        assert(state.visible.take(n - 1)[k] == j);
        lemma_topmost(state, pos, (n - 1) as nat, j);
    }
}

/// Changing the view costs a transform: neither panning nor zooming touches a node or asks
/// anything of the content.
pub proof fn law_view_changes_leave_content_alone(
    layer: LayerState,
    content: ContentState,
    pos: Point,
    travel: Scalar,
    factor: Scalar,
    handled: bool,
    captured: bool,
)
    ensures
        layer.drag is Pan ==> ({
            let (_, after, asks) = layer.pointed(
                content,
                PointerEvent::Move { pos },
                handled,
                captured,
            );
            after == content && !asks.content.layout && !asks.content.paint
        }),
        ({
            let (_, after, asks) = layer.pointed(
                content,
                PointerEvent::Scroll { travel, factor, pos },
                handled,
                captured,
            );
            after == content && !asks.content.layout && !asks.content.paint
        }),
{
}

/// A press that starts a gesture captures the pointer; letting go or losing it ends any
/// gesture, and gives the pointer back where there was one.
pub proof fn law_gestures_hold_the_pointer(
    layer: LayerState,
    content: ContentState,
    event: PointerEvent,
    handled: bool,
    captured: bool,
)
    ensures
        ({
            let (after, _, asks) = layer.pointed(content, event, handled, captured);
            &&& asks.capture ==> !(after.drag is Idle)
            &&& asks.release ==> !(layer.drag is Idle) && after.drag is Idle
            &&& event is Up || event is Cancel ==> after.drag is Idle && (asks.release <==> !(
            layer.drag is Idle))
            &&& layer.drag is Idle && !(after.drag is Idle) ==> asks.capture
        }),
{
}

/// A control that took an event, or that holds the pointer, is not robbed of it: no gesture
/// starts and no zoom takes place.
pub proof fn law_controls_come_first(
    layer: LayerState,
    content: ContentState,
    event: PointerEvent,
    handled: bool,
    captured: bool,
)
    ensures
        event is Down && (handled || captured) ==> layer.pointed(content, event, handled, captured)
            == (layer, content, crate::canvas::layer::CanvasResponse::spec_none()),
        event is Scroll && handled ==> layer.pointed(content, event, handled, captured) == (
            layer,
            content,
            crate::canvas::layer::CanvasResponse::spec_none(),
        ),
{
}

} // verus!
