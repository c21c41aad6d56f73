//! What a canvas does with its nodes, by where they are.

use vstd::prelude::*;

use crate::canvas::content::{ContentState, FarState, Slot};
use crate::canvas::detail::Detail;
use crate::canvas::invalidate::Invalidate;
use crate::geometry::{Point, Rect, Size};
use crate::number::scalar::Scalar;

verus! {

/// Whether a node covers a point: it lies right of and below the node's position, edges
/// included, and left of and above the opposite corner.
pub open spec fn covers(slot: Slot, p: Point) -> bool {
    let right = slot.pos.x.plus(slot.size.width);
    let bottom = slot.pos.y.plus(slot.size.height);
    &&& slot.pos.x.value() <= p.x.value() < right.value()
    &&& slot.pos.y.value() <= p.y.value() < bottom.value()
}

/// Whether a node is somewhere, and its size is not negative.
pub open spec fn is_placed(slot: Slot) -> bool {
    &&& slot.pos.x.finite()
    &&& slot.pos.y.finite()
    &&& slot.size.width.finite()
    &&& slot.size.height.finite()
    &&& slot.size.width.value() >= 0
    &&& slot.size.height.value() >= 0
    &&& slot.pos.x.plus(slot.size.width).finite()
    &&& slot.pos.y.plus(slot.size.height).finite()
}

/// A node covers what lies between its position and that position plus its size.
pub proof fn law_node_covers_its_size(slot: Slot, p: Point)
    requires
        is_placed(slot),
        crate::geometry_laws::has_place(p),
    ensures
        slot.rect().contains(p) <==> covers(slot, p),
        slot.rect().x0.value() == slot.pos.x.value(),
        slot.rect().y0.value() == slot.pos.y.value(),
        slot.rect().x1.value() == slot.pos.x.plus(slot.size.width).value(),
        slot.rect().y1.value() == slot.pos.y.plus(slot.size.height).value(),
        crate::geometry_laws::rounded_once(
            slot.rect().x1,
            slot.pos.x.value() + slot.size.width.value(),
        ),
        crate::geometry_laws::rounded_once(
            slot.rect().y1,
            slot.pos.y.value() + slot.size.height.value(),
        ),
        crate::geometry_laws::ascending_edges(slot.rect()),
{
    crate::geometry_laws::law_rect_begins_at_its_origin(slot.pos, slot.size);
    crate::geometry_laws::law_inside_is_by_coordinates(slot.rect(), p);
    crate::number::exact::lemma_plus_grows(slot.pos.x, slot.size.width);
    crate::number::exact::lemma_plus_grows(slot.pos.y, slot.size.height);
}

proof fn lemma_hit_among(state: ContentState, pos: Point, n: nat)
    requires
        n <= state.visible.len(),
    ensures
        match state.topmost(pos, n) {
            Some(i) => state.visible.contains(i) && state.slots[i as int].rect().contains(pos),
            None => forall|k: int|
                0 <= k < n ==> !state.slots[(#[trigger] state.visible[k]) as int].rect().contains(
                    pos,
                ),
        },
    decreases n,
{
    if n > 0 {
        let i = state.visible[n - 1];
        assert(state.visible.contains(i));
        if !state.slots[i as int].rect().contains(pos) {
            lemma_hit_among(state, pos, (n - 1) as nat);
        }
    }
}

/// A hit is a hit: what it finds is a visible node whose rectangle holds the point, at that
/// node's position. Where no visible node's rectangle holds the point, nothing is hit.
pub proof fn law_hit_is_a_node_under_the_point(state: ContentState, pos: Point)
    requires
        state.consistent(),
    ensures
        state.hit(pos) matches Some((i, at)) ==> {
            &&& i < state.slots.len()
            &&& state.visible.contains(i)
            &&& state.slots[i as int].rect().contains(pos)
            &&& is_placed(state.slots[i as int]) ==> covers(state.slots[i as int], pos)
            &&& at == state.slots[i as int].pos
            &&& forall|j: usize| #[trigger]
                state.visible.contains(j) && state.slots[j as int].rect().contains(pos) ==> j <= i
        },
        state.hit(pos) is None <==> forall|j: usize| #[trigger]
            state.visible.contains(j) ==> !state.slots[j as int].rect().contains(pos),
{
    lemma_hit_among(state, pos, state.visible.len());
    if let Some((i, at)) = state.hit(pos) {
        let k = state.visible.index_of(i);
        assert(state.visible[k] == i);
        assert forall|j: usize| #[trigger]
            state.visible.contains(j) && state.slots[j as int].rect().contains(pos) implies j
            <= i by {
            crate::canvas::laws::law_hit_is_topmost(state, pos, j);
        }
        if is_placed(state.slots[i as int]) {
            crate::geometry_laws::law_inside_is_by_coordinates(state.slots[i as int].rect(), pos);
            law_node_covers_its_size(state.slots[i as int], pos);
        }
    } else {
        assert forall|j: usize| #[trigger] state.visible.contains(j) implies !state.slots[
        j as int].rect().contains(pos) by {
            let k = state.visible.index_of(j);
            assert(state.visible[k] == j);
        }
    }
}

/// What is visible after a cull are the nodes that overlap the visible rectangle, in
/// ascending order and each of them once; where no node has moved since, those are the nodes
/// that a press can hit.
pub proof fn law_visible_nodes_overlap_the_view(state: ContentState, i: usize)
    requires
        state.consistent(),
    ensures
        ({
            let after = state.culled();
            &&& after.visible.contains(i) <==> i < state.slots.len()
                && state.slots[i as int].rect().overlaps(state.visible_rect)
            &&& crate::canvas::diff::ascending(after.visible)
            &&& after.slots == state.slots
            &&& after.visible_rect == state.visible_rect
            &&& after.active == state.active
            &&& after.controls_on_hover == state.controls_on_hover
            &&& after.detail == state.detail
            &&& after.live == state.live
            &&& after.counters == state.counters
        }),
{
    crate::canvas::content::lemma_overlapping(state.slots, state.visible_rect);
}

/// Whether the recording of the far field, where there is one, is of the nodes where they
/// are now, and the canvas is painting.
pub open spec fn faithful(state: ContentState) -> bool {
    state.far.region matches Some(region) ==> {
        &&& state.far.active
        &&& forall|i: usize| #[trigger]
            state.far.nodes.contains(i) <==> i < state.slots.len()
                && state.slots[i as int].rect().overlaps(region)
    }
}

/// The recording is never out of date: nothing that happens to a canvas leaves a recording
/// in force that shows a node where it is not, or leaves one out.
pub proof fn law_recording_stays_faithful(
    geometry: Seq<(Point, Size)>,
    state: ContentState,
    hover: bool,
    rect: Rect,
    detail: Detail,
    active: Option<usize>,
    index: usize,
    pos: Point,
    ids: Seq<u64>,
    dirty: nat,
)
    requires
        state.consistent(),
        faithful(state),
    ensures
        faithful(ContentState::fresh(geometry)),
        faithful(state.seen(hover, rect, detail)),
        faithful(state.hovered(active)),
        faithful(state.moved(index, pos).0),
        faithful(state.repainting()),
        faithful(state.laid_out(dirty)),
        faithful(state.painted()),
        faithful(state.culled()),
        faithful(crate::canvas::laws::mutated(state, ids)),
{
    let region = state.visible_rect.inflate(
        state.visible_rect.width().times(crate::canvas::content::spec_far_overscan()),
        state.visible_rect.height().times(crate::canvas::content::spec_far_overscan()),
    );
    crate::canvas::content::lemma_overlapping(state.slots, region);
    assert(faithful(state.culled()));
    let mutated = crate::canvas::laws::mutated(state, ids);
    assert forall|i: usize| i < state.slots.len() implies (
    #[trigger] mutated.slots[i as int]).rect() == state.slots[i as int].rect() by {}
    if let Some(region) = mutated.far.region {
        assert forall|i: usize| #[trigger] mutated.far.nodes.contains(i) <==> i
            < mutated.slots.len() && mutated.slots[i as int].rect().overlaps(region) by {
            assert(state.far.nodes.contains(i) <==> i < state.slots.len()
                && state.slots[i as int].rect().overlaps(region));
        }
    }
}

/// What the canvas paints itself: every node of the list is one, drawn where it is and as
/// large as it is, and none twice. Outside of the far field nothing is painted.
pub proof fn law_painted_nodes_are_where_they_are(state: ContentState, k: int)
    requires
        state.consistent(),
        0 <= k < state.far_nodes().len(),
    ensures
        state.far.active,
        ({
            let drawn = state.far_nodes()[k];
            let slot = state.slots[drawn.index as int];
            &&& drawn.index < state.slots.len()
            &&& state.far.nodes.contains(drawn.index)
            &&& is_placed(slot) ==> {
                &&& drawn.rect.x0.value() == slot.pos.x.value()
                &&& drawn.rect.y0.value() == slot.pos.y.value()
                &&& crate::geometry_laws::rounded_once(
                    drawn.rect.x1,
                    slot.pos.x.value() + slot.size.width.value(),
                )
                &&& crate::geometry_laws::rounded_once(
                    drawn.rect.y1,
                    slot.pos.y.value() + slot.size.height.value(),
                )
            }
            &&& forall|j: int|
                0 <= j < state.far_nodes().len() && j != k ==> (
                #[trigger] state.far_nodes()[j]).index != drawn.index
        }),
{
    let drawn = state.far_nodes()[k];
    assert(state.far.nodes[k] == drawn.index);
    let slot = state.slots[drawn.index as int];
    if is_placed(slot) {
        crate::geometry_laws::law_rect_begins_at_its_origin(slot.pos, slot.size);
    }
    assert forall|j: int| 0 <= j < state.far_nodes().len() && j != k implies (
    #[trigger] state.far_nodes()[j]).index != drawn.index by {
        assert(state.far.nodes[j] == state.far_nodes()[j].index);
    }
}

/// In the far field every node that overlaps the visible rectangle is painted, once a cull
/// has been made. What is painted besides overlaps the recorded region. Out of the far field
/// nothing is painted.
pub proof fn law_every_node_in_view_is_painted(state: ContentState, i: usize)
    requires
        state.consistent(),
        faithful(state),
        crate::canvas::laws::ordinary(state.visible_rect),
        i < state.slots.len(),
    ensures
        ({
            let after = state.culled();
            &&& after.far.active == state.far_field()
            &&& state.far_field() && state.slots[i as int].rect().overlaps(state.visible_rect)
                ==> exists|k: int|
                0 <= k < after.far_nodes().len() && (#[trigger] after.far_nodes()[k]).index == i
            &&& state.far_field() ==> {
                &&& after.far.region matches Some(region)
                &&& crate::geometry::spec_contains_rect(region, state.visible_rect)
                &&& after.far.nodes.contains(i) <==> state.slots[i as int].rect().overlaps(region)
            }
            &&& !state.far_field() ==> after.far_nodes().len() == 0 && after.far.region is None
        }),
{
    let after = state.culled();
    if state.far_field() {
        crate::canvas::laws::law_recording_covers_the_view(
            state.far,
            state.slots,
            state.visible_rect,
        );
        let region = state.visible_rect.inflate(
            state.visible_rect.width().times(crate::canvas::content::spec_far_overscan()),
            state.visible_rect.height().times(crate::canvas::content::spec_far_overscan()),
        );
        crate::canvas::content::lemma_overlapping(state.slots, region);
        let kept = after.far.region.unwrap();
        assert(after.far.nodes.contains(i) <==> state.slots[i as int].rect().overlaps(kept));
        if state.slots[i as int].rect().overlaps(state.visible_rect) {
            assert(state.slots[i as int].rect().overlaps(kept));
            let k = after.far.nodes.index_of(i);
            assert(after.far.nodes[k] == i);
            assert(after.far_nodes()[k].index == i);
        }
    }
}

/// A recording that has to be redone asks for a repaint, and for the next mutate pass; one
/// that is kept does not.
pub proof fn law_new_recordings_are_announced(far: FarState, slots: Seq<Slot>, rect: Rect)
    requires
        slots.len() <= usize::MAX,
    ensures
        ({
            let after = far.refreshed(slots, rect);
            let kept = far.region matches Some(region) && crate::geometry::spec_contains_rect(
                region,
                rect,
            );
            &&& kept ==> after == far
            &&& !kept ==> after.dirty && after.active == far.active && after.region is Some
                && forall|i: usize| #[trigger]
                after.nodes.contains(i) <==> i < slots.len() && slots[i as int].rect().overlaps(
                    after.region.unwrap(),
                )
        }),
{
    let region = rect.inflate(
        rect.width().times(crate::canvas::content::spec_far_overscan()),
        rect.height().times(crate::canvas::content::spec_far_overscan()),
    );
    crate::canvas::content::lemma_overlapping(slots, region);
}

/// A cull queues the nodes that should have a widget exactly where there is something to do:
/// other nodes are in view than have a widget, the far field begins or ends, a widget is out
/// of date, or the recording is.
pub proof fn law_cull_queues_what_there_is_to_do(state: ContentState)
    requires
        state.consistent(),
    ensures
        ({
            let after = state.culled();
            let outdated = state.detail_dirty && !crate::canvas::laws::current(state);
            &&& after.pending is Some <==> {
                ||| state.desired() != state.live
                ||| state.far_field() != state.far.active
                ||| outdated
                ||| after.far.dirty
            }
            &&& after.pending matches Some(list) ==> {
                &&& after.pending_stale == outdated
                &&& forall|i: usize| #[trigger]
                    list.contains(i) <==> !state.far_field() && i < state.slots.len()
                        && state.slots[i as int].rect().overlaps(state.visible_rect)
            }
            &&& !after.detail_dirty
        }),
{
    crate::canvas::content::lemma_overlapping(state.slots, state.visible_rect);
    let outdated = state.detail_dirty && !crate::canvas::laws::current(state);
    assert(state.is_stale() == outdated);
}

/// Applying a cull gives the node that arrives as number `k` widget number `k`, built as it
/// should be; takes the widget from those that leave; and leaves the others theirs.
pub proof fn law_arrivals_get_their_widgets(
    state: ContentState,
    desired: Seq<usize>,
    ids: Seq<u64>,
    k: int,
    i: usize,
)
    requires
        state.consistent(),
        crate::canvas::content::is_node_list(desired, state.slots.len()),
        0 <= k < state.arriving(desired).len(),
        ids.len() == state.arriving(desired).len(),
        i < state.slots.len(),
        state.counters.builds + state.arriving(desired).len() <= u64::MAX,
    ensures
        ({
            let after = state.applied(desired, ids);
            let new = state.arriving(desired)[k];
            let renewed = state.pending_stale && state.outdated(i);
            &&& new < state.slots.len()
            &&& after.slots[new as int].pod == Some(ids[k])
            &&& after.slots[new as int].built == Some(state.build_spec(new))
            &&& state.arriving(desired).contains(i) <==> desired.contains(i) && (
            !state.live.contains(i) || renewed)
            &&& state.leaving(desired).contains(i) <==> state.live.contains(i) && (
            !desired.contains(i) || renewed)
            &&& state.live.contains(i) && desired.contains(i) && !renewed ==> after.slots[i as int]
                == state.slots[i as int]
            &&& !desired.contains(i) ==> after.slots[i as int].pod is None
                && after.slots[i as int].built is None
            &&& after.live == desired
            &&& after.counters.builds == state.counters.builds + state.arriving(desired).len()
            &&& after.visible == state.visible
            &&& after.far == state.far
        }),
{
    crate::canvas::content::lemma_comings_and_goings(state, desired);
    let arriving = state.arriving(desired);
    let new = arriving[k];
    assert(arriving.contains(new));
    let at = arriving.index_of(new);
    assert(arriving[at] == new);
    assert(at == k);
    assert(state.slots[i as int].pod is Some <==> state.live.contains(i));
    assert(state.slots[i as int].built is Some <==> state.live.contains(i));
    assert(state.arriving(desired).contains(i) || !state.arriving(desired).contains(i));
    assert(state.leaving(desired).contains(i) || !state.leaving(desired).contains(i));
}

/// A moved node is where it was moved to, and the host is asked for no more than that takes:
/// nothing where the node was there already or is none, a layout pass otherwise, and in the
/// far field a new recording besides.
pub proof fn law_move_puts_the_node_there(state: ContentState, index: usize, pos: Point)
    requires
        index < state.slots.len(),
        crate::geometry_laws::has_place(pos),
        crate::geometry_laws::has_place(state.slots[index as int].pos),
    ensures
        ({
            let was = state.slots[index as int].pos;
            let (after, asks) = state.moved(index, pos);
            let stayed = was.x.value() == pos.x.value() && was.y.value() == pos.y.value();
            &&& after.slots[index as int].pos.x.value() == pos.x.value()
            &&& after.slots[index as int].pos.y.value() == pos.y.value()
            &&& asks == Invalidate::Nothing <==> stayed
            &&& stayed ==> after == state
            &&& asks.wants_layout() <==> !stayed
            &&& asks.wants_paint() <==> !stayed && state.far.active
            &&& !stayed && state.far.active ==> after.far.region is None
            &&& !state.far.active ==> after.far == state.far
            &&& after.far.active == state.far.active
        }),
{
}

/// A move of a node that there is none of does nothing.
pub proof fn law_move_of_no_node_is_none(state: ContentState, index: usize, pos: Point)
    requires
        index >= state.slots.len(),
    ensures
        state.moved(index, pos) == (state, Invalidate::Nothing),
{
}

/// What a change asks for, in the order in which the host is asked: a layout pass unless it
/// is nothing, then a repaint if it is that too.
pub proof fn law_changes_ask_for_what_they_name(asks: Invalidate)
    ensures
        asks.wants().len() == (if asks == Invalidate::Nothing {
            0int
        } else if asks == Invalidate::Layout {
            1int
        } else {
            2int
        }),
        asks.wants().len() > 0 ==> asks.wants()[0]
            == crate::canvas::invalidate::Request::Layout,
        asks.wants().len() > 1 ==> asks.wants()[1] == crate::canvas::invalidate::Request::Paint,
        asks.wants_layout() <==> asks.wants().len() > 0,
        asks.wants_paint() <==> asks.wants().len() > 1,
{
}

/// The level that a node is built at: the canvas's own, unless controls follow the pointer.
/// Then the node under it has full contents and the others are simplified, above the far
/// field. A canvas that has not been looked at yet shows everything.
pub proof fn law_level_of_a_node(state: ContentState, i: usize)
    ensures
        ({
            let global = match state.detail {
                Some(detail) => detail,
                None => Detail::Full,
            };
            &&& state.global_detail() == global
            &&& state.far_field() <==> state.detail == Some(Detail::Box)
            &&& state.build_spec(i).0 == state.effective_detail(i)
            &&& state.build_spec(i).1 == global
            &&& !state.controls_on_hover ==> state.effective_detail(i) == global
            &&& global == Detail::Box ==> state.effective_detail(i) == Detail::Box
            &&& state.controls_on_hover && global != Detail::Box && state.active == Some(i)
                ==> state.effective_detail(i) == Detail::Full
            &&& state.controls_on_hover && global != Detail::Box && state.active != Some(i)
                ==> state.effective_detail(i) == Detail::Simplified
        }),
{
}

/// Marking the node under the pointer marks that one, except in the far field, and changes
/// nothing else; a mark that moves makes widgets be looked over.
pub proof fn law_hover_marks_the_node(state: ContentState, active: Option<usize>)
    ensures
        ({
            let after = state.hovered(active);
            &&& !state.far.active ==> after.active == active
            &&& state.far.active ==> after == state
            &&& after.active != state.active ==> after.detail_dirty
            &&& state.detail_dirty ==> after.detail_dirty
            &&& after.active == state.active ==> after == state
            &&& after.slots == state.slots
            &&& after.live == state.live
            &&& after.visible == state.visible
            &&& after.far == state.far
        }),
{
}

/// Looking through another view takes over what that view decides and nothing else. A change
/// of the detail level makes widgets be looked over.
pub proof fn law_looking_takes_the_view_over(
    state: ContentState,
    hover: bool,
    rect: Rect,
    detail: Detail,
)
    ensures
        ({
            let after = state.seen(hover, rect, detail);
            &&& after.controls_on_hover == hover
            &&& after.visible_rect == rect
            &&& after.detail == Some(detail)
            &&& after.detail_dirty <==> state.detail_dirty || state.detail != Some(detail)
            &&& after.slots == state.slots
            &&& after.live == state.live
            &&& after.visible == state.visible
            &&& after.far == state.far
            &&& after.active == state.active
            &&& after.pending == state.pending
            &&& after.counters == state.counters
        }),
{
}

/// A layout pass puts the widget of every node that has one at the node's position, in its
/// natural size, and asks for no other; the list of widgets has the same nodes.
pub proof fn law_layout_places_live_nodes(state: ContentState, k: int)
    requires
        state.consistent(),
        0 <= k < state.live.len(),
    ensures
        state.placements().len() == state.live.len(),
        state.live_children().len() == state.live.len(),
        ({
            let i = state.live[k];
            let put = state.placements()[k];
            &&& i < state.slots.len()
            &&& put.index == i
            &&& put.pos.x.bits == state.slots[i as int].pos.x.bits
            &&& put.pos.y.bits == state.slots[i as int].pos.y.bits
            &&& put.size.width.bits == state.slots[i as int].size.width.bits
            &&& put.size.height.bits == state.slots[i as int].size.height.bits
            &&& state.live_children()[k].0 == i
            &&& state.slots[i as int].pod == Some(state.live_children()[k].1)
        }),
{
    let i = state.live[k];
    assert(state.live.contains(i));
    assert(state.slots[i as int].pod is Some);
}

/// What passes count: a layout pass itself and the nodes that were dirty, a paint pass in the
/// far field only. Counting changes nothing else.
pub proof fn law_passes_are_counted(state: ContentState, dirty: nat)
    requires
        state.counters.content_layouts < u64::MAX,
        state.counters.child_layouts + dirty <= u64::MAX,
        state.counters.far_repaints < u64::MAX,
    ensures
        ({
            let laid = state.laid_out(dirty);
            let painted = state.painted();
            &&& laid.counters.content_layouts == state.counters.content_layouts + 1
            &&& laid.counters.child_layouts == state.counters.child_layouts + dirty
            &&& laid.counters.composes == state.counters.composes
            &&& laid.counters.builds == state.counters.builds
            &&& laid.counters.far_repaints == state.counters.far_repaints
            &&& painted.counters.far_repaints - state.counters.far_repaints == (
            if state.far.active {
                1int
            } else {
                0int
            })
            &&& painted.counters.content_layouts == state.counters.content_layouts
            &&& painted.counters.child_layouts == state.counters.child_layouts
            &&& painted.counters.composes == state.counters.composes
            &&& painted.counters.builds == state.counters.builds
            &&& laid == (ContentState { counters: laid.counters, ..state })
            &&& painted == (ContentState { counters: painted.counters, ..state })
        }),
{
}

/// A new canvas has a node at every given place, none of them with a widget, and has looked
/// at nothing, painted nothing and counted nothing.
pub proof fn law_new_canvas_has_nodes_only(geometry: Seq<(Point, Size)>, i: int)
    requires
        0 <= i < geometry.len() <= usize::MAX,
    ensures
        ({
            let state = ContentState::fresh(geometry);
            &&& state.consistent()
            &&& state.slots.len() == geometry.len()
            &&& state.slots[i].pos == geometry[i].0
            &&& state.slots[i].size == geometry[i].1
            &&& state.slots[i].pod is None
            &&& state.slots[i].built is None
            &&& state.live.len() == 0
            &&& state.visible.len() == 0
            &&& state.far.nodes.len() == 0
            &&& !state.far.active && !state.far.dirty && state.far.region is None
            &&& state.active is None && state.detail is None && state.pending is None
            &&& !state.controls_on_hover && !state.detail_dirty && !state.pending_stale
            &&& state.counters.content_layouts == 0 && state.counters.child_layouts == 0
            &&& state.counters.composes == 0 && state.counters.builds == 0
            &&& state.counters.far_repaints == 0
        }),
{
}

/// The far field is recorded half a view further than is visible, on all four sides.
pub proof fn law_recording_reaches_half_a_view_further(
    far: FarState,
    slots: Seq<Slot>,
    rect: Rect,
)
    requires
        far.region is None,
        crate::canvas::laws::ordinary(rect),
        close(rect.x0),
        close(rect.y0),
        close(rect.x1),
        close(rect.y1),
    ensures
        ({
            let region = far.refreshed(slots, rect).region.unwrap();
            &&& far.refreshed(slots, rect).region is Some
            &&& has_margin(rect.x0, rect.x1, region.x0, region.x1, 1real / 2real)
            &&& has_margin(rect.y0, rect.y1, region.y0, region.y1, 1real / 2real)
        }),
{
    let half = crate::canvas::content::spec_far_overscan();
    crate::number::error::lemma_grain();
    crate::number::error::lemma_real_ratio(1, 2);
    lemma_margin(rect.x0, rect.x1, half, 1real / 2real);
    lemma_margin(rect.y0, rect.y1, half, 1real / 2real);
}

/// Whether a coordinate is within two to the power 40 pixels.
pub open spec fn close(x: Scalar) -> bool {
    x.finite() && crate::number::error::size(crate::number::error::real_of(x)) <= 1099511627776real
}

/// Whether `from` to `to` is `lo` to `hi` and that share of the length more at both ends, to
/// a hundredth of a pixel.
pub open spec fn has_margin(lo: Scalar, hi: Scalar, from: Scalar, to: Scalar, share: real) -> bool {
    let a = crate::number::error::real_of(lo);
    let b = crate::number::error::real_of(hi);
    let more = share * (b - a);
    &&& 100real * crate::number::error::size(crate::number::error::real_of(from) - (a - more))
        <= 1real
    &&& 100real * crate::number::error::size(crate::number::error::real_of(to) - (b + more))
        <= 1real
}

/// The margin that a part of the length makes.
pub proof fn lemma_margin(lo: Scalar, hi: Scalar, part: Scalar, share: real)
    requires
        close(lo),
        close(hi),
        lo.at_most(hi),
        part.finite(),
        0real <= share <= 1real,
        crate::number::error::size(crate::number::error::real_of(part) - share) <= 2real
            * crate::number::error::grain(),
    ensures
        ({
            let by = hi.minus(lo).times(part);
            has_margin(lo, hi, lo.minus(by), hi.plus(by), share)
        }),
{
    let u = crate::number::error::grain();
    let t = crate::number::error::dust();
    crate::number::error::lemma_grain();
    crate::number::exact::lemma_negated(lo);
    crate::number::error::lemma_real_negated(lo);
    crate::number::error::lemma_real_sum(hi, lo.negated());
    let a = crate::number::error::real_of(lo);
    let b = crate::number::error::real_of(hi);
    let length = hi.minus(lo);
    let l = crate::number::error::real_of(length);
    let h = crate::number::error::real_of(part);
    let big = 1099511627776real;
    let e = u * big;
    assert(e * 4096real == 1real && t <= e / 1000000real && u <= 1real / 1000000real)
        by (nonlinear_arith)
        requires
            e == u * big,
            big == 1099511627776real,
            u * 4503599627370496real == 1real,
            t * 1208925819614629174706176real <= u,
            t > 0real,
    ;
    let w = b - a;
    assert(u * crate::number::error::size(w) <= 2real * e) by (nonlinear_arith)
        requires
            crate::number::error::size(w) <= 2real * big,
            e == u * big,
            u * 4503599627370496real == 1real,
    ;
    assert(crate::number::error::size(l - w) <= 3real * e);
    assert(crate::number::error::size(l) <= 3real * big);
    // The share of the length.
    let more = share * w;
    let lh = l * h;
    let lw = l - w;
    let hs = h - share;
    let one = share * lw;
    let two = l * hs;
    assert(lh - more == one + two) by (nonlinear_arith)
        requires
            lh == l * h,
            more == share * w,
            lw == l - w,
            hs == h - share,
            one == share * lw,
            two == l * hs,
    ;
    crate::number::error::lemma_size_times(share, lw);
    crate::number::error::lemma_size_times(l, hs);
    assert(crate::number::error::size(one) <= 3real * e) by (nonlinear_arith)
        requires
            crate::number::error::size(one) == share * crate::number::error::size(lw),
            crate::number::error::size(lw) <= 3real * e,
            crate::number::error::size(lw) >= 0real,
            0real <= share <= 1real,
    ;
    assert(crate::number::error::size(two) <= 6real * e) by (nonlinear_arith)
        requires
            crate::number::error::size(two) == crate::number::error::size(l)
                * crate::number::error::size(hs),
            crate::number::error::size(l) <= 3real * big,
            crate::number::error::size(l) >= 0real,
            crate::number::error::size(hs) <= 2real * u,
            crate::number::error::size(hs) >= 0real,
            e == u * big,
    ;
    crate::number::error::lemma_size_times(share, w);
    assert(crate::number::error::size(more) <= 2real * big) by (nonlinear_arith)
        requires
            crate::number::error::size(more) == share * crate::number::error::size(w),
            crate::number::error::size(w) <= 2real * big,
            crate::number::error::size(w) >= 0real,
            0real <= share <= 1real,
    ;
    let slh = crate::number::error::size(lh);
    assert(slh <= 3real * big);
    crate::number::error::lemma_real_product(length, part);
    let by = length.times(part);
    let m = crate::number::error::real_of(by);
    assert(u * slh <= 3real * e) by (nonlinear_arith)
        requires
            slh <= 3real * big,
            e == u * big,
            u * 4503599627370496real == 1real,
    ;
    assert(crate::number::error::size(m - more) <= 13real * e);
    // The ends.
    crate::number::exact::lemma_negated(by);
    crate::number::error::lemma_real_negated(by);
    crate::number::error::lemma_real_sum(lo, by.negated());
    crate::number::error::lemma_real_sum(hi, by);
    let x = crate::number::error::size(a - m);
    let y = crate::number::error::size(b + m);
    assert(u * x <= 4real * e && u * y <= 4real * e) by (nonlinear_arith)
        requires
            x <= 4real * big,
            y <= 4real * big,
            e == u * big,
            u * 4503599627370496real == 1real,
    ;
}

} // verus!
