//! The nodes of a canvas: which are in view, and which of those have a widget.

use vstd::prelude::*;

use crate::canvas::detail::Detail;
use crate::canvas::diff::diff_sorted;
use crate::canvas::invalidate::Invalidate;
use crate::geometry::{contains_rect, Axis, Point, Rect, Size};
use crate::number::scalar::Scalar;
use crate::widget::LenReq;

verus! {

/// Cumulative counters, for spotting work that should not be happening.
#[derive(Clone, Copy, Debug, Default, PartialEq, Eq)]
pub struct CanvasCounters {
    /// Layout passes run on the content widget.
    pub content_layouts: u64,
    /// Nodes that actually needed layout, summed over all passes.
    pub child_layouts: u64,
    /// Compose passes run on the content widget.
    pub composes: u64,
    /// Widgets built, one per node entering the materialised region.
    pub builds: u64,
    /// Times the far-field scene has been re-recorded.
    pub far_repaints: u64,
}

/// One node: geometry always, a widget only while it is in view.
#[derive(Clone, Copy, Debug, PartialEq)]
pub struct Slot {
    /// Position of the node's top-left corner, in canvas coordinates.
    pub pos: Point,
    /// Size in canvas coordinates.
    pub size: Size,
    /// The materialised widget, if this node currently has one.
    pub pod: Option<u64>,
    /// How the widget was built: its own detail level, and the canvas-wide one.
    pub built: Option<(Detail, Detail)>,
}

impl Slot {
    pub open spec fn spec_rect(self) -> Rect {
        Rect::from_origin_size(self.pos, self.size)
    }

    /// What the node covers, in canvas coordinates.
    #[verifier::when_used_as_spec(spec_rect)]
    pub fn rect(self) -> (r: Rect)
        ensures
            r == self.rect(),
    {
        Rect::from_origin_size(self.pos, self.size)
    }

    pub open spec fn spec_is_built_as(self, how: (Detail, Detail)) -> bool {
        self.built == Some(how)
    }

    /// Whether the widget was built with these two detail levels.
    #[verifier::when_used_as_spec(spec_is_built_as)]
    pub fn is_built_as(self, how: (Detail, Detail)) -> (r: bool)
        ensures
            r == self.is_built_as(how),
    {
        match self.built {
            Some((detail, global)) => detail == how.0 && global == how.1,
            None => false,
        }
    }
}

/// Where a layout pass puts one node.
#[derive(Clone, Copy, Debug, PartialEq)]
pub struct NodePlacement {
    pub index: usize,
    pub size: Size,
    pub pos: Point,
}

/// A node that the canvas paints itself.
#[derive(Clone, Copy, Debug, PartialEq)]
pub struct FarNode {
    pub index: usize,
    pub rect: Rect,
}

/// What became of the widgets when the last cull was applied.
pub struct Applied {
    /// The nodes whose widget left the tree, with that widget.
    pub removed: Vec<(usize, u64)>,
    /// The nodes that got a widget, with it. A node rebuilt in place is in both lists.
    pub added: Vec<(usize, u64)>,
    /// Whether the tree is not what it was: the host has to be told of it and lay it out.
    pub changed: bool,
}

/// The nodes that overlap `rect`, ascending.
pub open spec fn overlapping(slots: Seq<Slot>, rect: Rect) -> Seq<usize>
    decreases slots.len(),
{
    if slots.len() == 0 {
        seq![]
    } else {
        let before = overlapping(slots.drop_last(), rect);
        if slots.last().rect().overlaps(rect) {
            before.push((slots.len() - 1) as usize)
        } else {
            before
        }
    }
}

/// A list of nodes of a canvas with `count` of them: ascending and in range.
pub open spec fn is_node_list(list: Seq<usize>, count: nat) -> bool {
    &&& crate::canvas::diff::ascending(list)
    &&& forall|k: int| 0 <= k < list.len() ==> #[trigger] list[k] < count
}

pub open spec fn spec_far_overscan() -> Scalar {
    Scalar::ratio(1, 2)
}

/// How far past the visible region the far-field scene is recorded.
#[verifier::when_used_as_spec(spec_far_overscan)]
pub fn far_overscan() -> (r: Scalar)
    ensures
        r == far_overscan(),
{
    Scalar::ratio(1, 2)
}

/// The canvas's own recording of nodes too small to deserve widgets.
pub struct FarState {
    /// Whether the canvas is painting nodes itself instead of materialising them.
    pub active: bool,
    /// The canvas-space region that was recorded. `None` means "needs redoing".
    pub region: Option<Rect>,
    /// The nodes inside `region`.
    pub nodes: Seq<usize>,
    /// Set when the recording must be redone.
    pub dirty: bool,
}

/// The state of a canvas's content.
pub struct ContentState {
    pub slots: Seq<Slot>,
    /// Nodes with a live widget.
    pub live: Seq<usize>,
    /// Nodes inside the visible rect.
    pub visible: Seq<usize>,
    pub far: FarState,
    /// The node the pointer is on.
    pub active: Option<usize>,
    /// Whether only the node under the pointer gets interactive controls.
    pub controls_on_hover: bool,
    /// Whether the detail level or the node under the pointer changed.
    pub detail_dirty: bool,
    /// Whether the queued nodes need a staleness sweep as well as a set difference.
    pub pending_stale: bool,
    /// Nodes that should have a widget, by the last cull.
    pub pending: Option<Seq<usize>>,
    /// Visible region in canvas coordinates.
    pub visible_rect: Rect,
    pub detail: Option<Detail>,
    pub counters: CanvasCounters,
}

impl FarState {
    /// The recording after the viewport is at `rect`: kept where it covers that.
    pub open spec fn refreshed(self, slots: Seq<Slot>, rect: Rect) -> FarState {
        if self.region matches Some(region) && crate::geometry::spec_contains_rect(region, rect) {
            self
        } else {
            let region = rect.inflate(
                rect.width().times(far_overscan()),
                rect.height().times(far_overscan()),
            );
            FarState {
                region: Some(region),
                nodes: overlapping(slots, region),
                dirty: true,
                ..self
            }
        }
    }

    /// The recording where none is needed.
    pub open spec fn dropped(self) -> FarState {
        FarState {
            region: None,
            nodes: if self.region is Some {
                seq![]
            } else {
                self.nodes
            },
            ..self
        }
    }
}

impl ContentState {
    /// The state of a canvas over nodes of the given geometry.
    pub open spec fn fresh(geometry: Seq<(Point, Size)>) -> ContentState {
        ContentState {
            slots: geometry.map_values(
                |at: (Point, Size)| Slot { pos: at.0, size: at.1, pod: None, built: None },
            ),
            live: seq![],
            visible: seq![],
            far: FarState { active: false, region: None, nodes: seq![], dirty: false },
            active: None,
            controls_on_hover: false,
            detail_dirty: false,
            pending_stale: false,
            pending: None,
            visible_rect: Rect::zero(),
            detail: None,
            counters: CanvasCounters {
                content_layouts: 0,
                child_layouts: 0,
                composes: 0,
                builds: 0,
                far_repaints: 0,
            },
        }
    }

    /// Whether the lists are lists of nodes, and exactly the live nodes have a widget.
    pub open spec fn consistent(self) -> bool {
        &&& self.slots.len() <= usize::MAX
        &&& is_node_list(self.live, self.slots.len())
        &&& is_node_list(self.visible, self.slots.len())
        &&& is_node_list(self.far.nodes, self.slots.len())
        &&& self.pending matches Some(list) ==> is_node_list(list, self.slots.len())
        &&& forall|i: usize|
            i < self.slots.len() ==> ((#[trigger] self.slots[i as int]).pod is Some
                <==> self.live.contains(i))
        &&& forall|i: usize|
            i < self.slots.len() ==> ((#[trigger] self.slots[i as int]).built is Some
                <==> self.live.contains(i))
    }

    /// The canvas-wide detail level.
    pub open spec fn global_detail(self) -> Detail {
        match self.detail {
            Some(detail) => detail,
            None => Detail::Full,
        }
    }

    /// The detail level node `index` should be built at.
    pub open spec fn effective_detail(self, index: usize) -> Detail {
        if !self.controls_on_hover || self.global_detail() == Detail::Box {
            self.global_detail()
        } else if self.active == Some(index) {
            Detail::Full
        } else {
            Detail::Simplified
        }
    }

    /// How node `index` should be built right now.
    pub open spec fn build_spec(self, index: usize) -> (Detail, Detail) {
        (self.effective_detail(index), self.global_detail())
    }

    /// Whether the widget of node `index` was built otherwise than it should be now.
    pub open spec fn outdated(self, index: usize) -> bool {
        !self.slots[index as int].is_built_as(self.build_spec(index))
    }

    /// Whether nodes are too small to deserve widgets.
    pub open spec fn far_field(self) -> bool {
        self.global_detail() == Detail::Box
    }

    /// The nodes that should have a widget.
    pub open spec fn desired(self) -> Seq<usize> {
        if self.far_field() {
            seq![]
        } else {
            overlapping(self.slots, self.visible_rect)
        }
    }

    /// Whether some widget has to be replaced because of its detail level.
    pub open spec fn is_stale(self) -> bool {
        self.detail_dirty && exists|k: int|
            0 <= k < self.live.len() && self.outdated(#[trigger] self.live[k])
    }

    /// The recording after a cull.
    pub open spec fn recording(self) -> FarState {
        if self.far_field() {
            self.far.refreshed(self.slots, self.visible_rect)
        } else {
            self.far.dropped()
        }
    }

    /// Whether a cull finds anything for the next mutate pass to do.
    pub open spec fn needs_work(self) -> bool {
        ||| self.desired() != self.live
        ||| self.far_field() != self.far.active
        ||| self.is_stale()
        ||| self.recording().dirty
    }

    /// The state after a cull.
    pub open spec fn culled(self) -> ContentState {
        let work = self.needs_work();
        ContentState {
            visible: overlapping(self.slots, self.visible_rect),
            far: FarState {
                active: if work {
                    self.far_field()
                } else {
                    self.far.active
                },
                ..self.recording()
            },
            detail_dirty: false,
            pending_stale: if work {
                self.is_stale()
            } else {
                self.pending_stale
            },
            pending: if work {
                Some(self.desired())
            } else {
                None
            },
            ..self
        }
    }

    /// For each node that is live and stays so, whether it has to be rebuilt.
    pub open spec fn rebuilds(self, desired: Seq<usize>) -> Seq<bool> {
        crate::canvas::diff::shared(self.live, desired).map_values(
            |i: usize| self.pending_stale && self.outdated(i),
        )
    }

    /// The nodes whose widget goes when `desired` is applied.
    pub open spec fn leaving(self, desired: Seq<usize>) -> Seq<usize> {
        crate::canvas::diff::departed(self.live, desired, self.rebuilds(desired))
    }

    /// The nodes that get a widget when `desired` is applied.
    pub open spec fn arriving(self, desired: Seq<usize>) -> Seq<usize> {
        crate::canvas::diff::arrived(self.live, desired, self.rebuilds(desired))
    }

    /// The node at `index` after `desired` is applied, if it is to get widget `id`.
    pub open spec fn materialised(self, desired: Seq<usize>, index: usize, id: u64) -> Slot {
        let slot = self.slots[index as int];
        if self.arriving(desired).contains(index) {
            Slot { pod: Some(id), built: Some(self.build_spec(index)), ..slot }
        } else if self.leaving(desired).contains(index) {
            Slot { pod: None, built: None, ..slot }
        } else {
            slot
        }
    }

    /// The state after `desired` is applied, `ids` being the widgets of the arriving nodes.
    pub open spec fn applied(self, desired: Seq<usize>, ids: Seq<u64>) -> ContentState {
        let arriving = self.arriving(desired);
        ContentState {
            slots: Seq::new(
                self.slots.len(),
                |i: int|
                    self.materialised(
                        desired,
                        i as usize,
                        ids[arriving.index_of(i as usize)],
                    ),
            ),
            live: desired,
            pending: None,
            pending_stale: false,
            counters: CanvasCounters {
                builds: (self.counters.builds + arriving.len()) as u64,
                ..self.counters
            },
            ..self
        }
    }

    /// The state after node `index` is to be at `pos`, and what that asks for.
    pub open spec fn moved(self, index: usize, pos: Point) -> (ContentState, Invalidate) {
        if index >= self.slots.len() || self.slots[index as int].pos.same(pos) {
            (self, Invalidate::Nothing)
        } else {
            let slots = self.slots.update(index as int, Slot { pos, ..self.slots[index as int] });
            if self.far.active {
                (
                    ContentState { slots, far: FarState { region: None, ..self.far }, ..self },
                    Invalidate::LayoutAndPaint,
                )
            } else {
                (ContentState { slots, ..self }, Invalidate::Layout)
            }
        }
    }

    /// The state after the node under the pointer is `active`.
    pub open spec fn hovered(self, active: Option<usize>) -> ContentState {
        if self.active == active || self.far.active {
            self
        } else {
            ContentState { active, detail_dirty: true, ..self }
        }
    }

    /// The state as seen through another view, before the cull.
    pub open spec fn seen(
        self,
        controls_on_hover: bool,
        visible_rect: Rect,
        detail: Detail,
    ) -> ContentState {
        ContentState {
            controls_on_hover,
            visible_rect,
            detail: Some(detail),
            detail_dirty: self.detail_dirty || self.detail != Some(detail),
            ..self
        }
    }

    /// The state after the host has been asked for a repaint.
    pub open spec fn repainting(self) -> ContentState {
        ContentState { far: FarState { dirty: false, ..self.far }, ..self }
    }

    /// The state after a layout pass that found `dirty` nodes dirty.
    pub open spec fn laid_out(self, dirty: nat) -> ContentState {
        ContentState {
            counters: CanvasCounters {
                content_layouts: (self.counters.content_layouts + 1) as u64,
                child_layouts: (self.counters.child_layouts + dirty) as u64,
                ..self.counters
            },
            ..self
        }
    }

    /// The state after a paint pass.
    pub open spec fn painted(self) -> ContentState {
        ContentState {
            counters: CanvasCounters {
                far_repaints: if self.far.active {
                    (self.counters.far_repaints + 1) as u64
                } else {
                    self.counters.far_repaints
                },
                ..self.counters
            },
            ..self
        }
    }

    /// Where a layout pass puts the live nodes.
    pub open spec fn placements(self) -> Seq<NodePlacement> {
        self.live.map_values(
            |i: usize|
                NodePlacement {
                    index: i,
                    size: self.slots[i as int].size,
                    pos: self.slots[i as int].pos,
                },
        )
    }

    /// The nodes that a paint pass draws itself.
    pub open spec fn far_nodes(self) -> Seq<FarNode> {
        if self.far.active {
            self.far.nodes.map_values(
                |i: usize| FarNode { index: i, rect: self.slots[i as int].rect() },
            )
        } else {
            seq![]
        }
    }

    /// The live nodes with their widgets.
    pub open spec fn live_children(self) -> Seq<(usize, u64)> {
        self.live.map_values(|i: usize| (i, self.slots[i as int].pod.unwrap()))
    }

    /// The topmost visible node at `pos`, among the first `n` of the visible ones.
    pub open spec fn topmost(self, pos: Point, n: nat) -> Option<usize>
        decreases n,
    {
        if n == 0 {
            None
        } else {
            let i = self.visible[n - 1];
            if self.slots[i as int].rect().contains(pos) {
                Some(i)
            } else {
                self.topmost(pos, (n - 1) as nat)
            }
        }
    }

    /// The topmost visible node at `pos`, and its position.
    pub open spec fn hit(self, pos: Point) -> Option<(usize, Point)> {
        match self.topmost(pos, self.visible.len()) {
            Some(i) => Some((i, self.slots[i as int].pos)),
            None => None,
        }
    }
}

pub proof fn lemma_overlapping(slots: Seq<Slot>, rect: Rect)
    requires
        slots.len() <= usize::MAX,
    ensures
        is_node_list(overlapping(slots, rect), slots.len()),
        forall|i: usize| #[trigger]
            overlapping(slots, rect).contains(i) <==> i < slots.len()
                && slots[i as int].rect().overlaps(rect),
    decreases slots.len(),
{
    if slots.len() > 0 {
        let shorter = slots.drop_last();
        let before = overlapping(shorter, rect);
        let all = overlapping(slots, rect);
        let last = (slots.len() - 1) as usize;
        lemma_overlapping(shorter, rect);
        assert forall|i: usize| #[trigger] all.contains(i) <==> i < slots.len()
            && slots[i as int].rect().overlaps(rect) by {
            assert(before.contains(i) <==> i < shorter.len() && shorter[i as int].rect().overlaps(
                rect,
            ));
            if all.contains(i) {
                let k = all.index_of(i);
                if k < before.len() {
                    assert(before[k] == i);
                }
            }
            if before.contains(i) {
                let k = before.index_of(i);
                assert(all[k] == i);
            }
            if i == last && slots.last().rect().overlaps(rect) {
                assert(all[before.len() as int] == i);
            }
        }
    }
}

/// An entry of an ascending list is not among the ones before it.
proof fn lemma_not_yet(list: Seq<usize>, k: int)
    requires
        crate::canvas::diff::ascending(list),
        0 <= k < list.len(),
    ensures
        !list.take(k).contains(list[k]),
{
    if list.take(k).contains(list[k]) {
        let j = list.take(k).index_of(list[k]);
        assert(list[j] == list[k]);
    }
}

proof fn lemma_one_more(list: Seq<usize>, k: int)
    requires
        0 <= k < list.len(),
    ensures
        forall|i: usize| #[trigger]
            list.take(k + 1).contains(i) <==> list.take(k).contains(i) || i == list[k],
{
    let more = list.take(k + 1);
    let done = list.take(k);
    assert forall|i: usize| #[trigger] more.contains(i) <==> done.contains(i) || i == list[k] by {
        if more.contains(i) && i != list[k] {
            let j = more.index_of(i);
            assert(done[j] == i);
        }
        if done.contains(i) {
            let j = done.index_of(i);
            assert(more[j] == i);
        }
        if i == list[k] {
            assert(more[k] == i);
        }
    }
}

/// An entry of an ascending list has one place.
proof fn lemma_places(list: Seq<usize>)
    requires
        crate::canvas::diff::ascending(list),
    ensures
        forall|k: int| 0 <= k < list.len() ==> list.index_of(#[trigger] list[k]) == k,
{
    assert forall|k: int| 0 <= k < list.len() implies list.index_of(#[trigger] list[k]) == k by {
        let j = list.index_of(list[k]);
        assert(list.contains(list[k]));
        assert(list[j] == list[k]);
    }
}

/// What leaves was live; both lists are lists of nodes.
pub proof fn lemma_comings_and_goings(state: ContentState, desired: Seq<usize>)
    requires
        state.consistent(),
        is_node_list(desired, state.slots.len()),
    ensures
        is_node_list(state.leaving(desired), state.slots.len()),
        is_node_list(state.arriving(desired), state.slots.len()),
        forall|k: int|
            0 <= k < state.leaving(desired).len() ==> state.slots[(
            #[trigger] state.leaving(desired)[k]) as int].pod is Some,
        forall|i: usize| #[trigger]
            state.leaving(desired).contains(i) <==> state.live.contains(i) && (!desired.contains(i)
                || (state.pending_stale && state.outdated(i))),
        forall|i: usize| #[trigger]
            state.arriving(desired).contains(i) <==> desired.contains(i) && (!state.live.contains(i)
                || (state.pending_stale && state.outdated(i))),
{
    let marks = state.rebuilds(desired);
    let shared = crate::canvas::diff::shared(state.live, desired);
    crate::canvas::diff::law_diff_is_set_difference(state.live, desired, marks);
    crate::canvas::diff::law_shared_is_intersection(state.live, desired);
    assert forall|i: usize| state.live.contains(i) && desired.contains(i) implies (
    #[trigger] crate::canvas::diff::marked(shared, marks, i) <==> state.pending_stale
        && state.outdated(i)) by {
        assert(shared.contains(i));
        let k = shared.index_of(i);
        assert(shared[k] == i && marks[k] == (state.pending_stale && state.outdated(i)));
    }
    let leaving = state.leaving(desired);
    let arriving = state.arriving(desired);
    assert forall|i: usize| #[trigger] leaving.contains(i) <==> state.live.contains(i) && (
    !desired.contains(i) || (state.pending_stale && state.outdated(i))) by {
        assert(crate::canvas::diff::marked(shared, marks, i) || !crate::canvas::diff::marked(
            shared,
            marks,
            i,
        ));
    }
    assert forall|i: usize| #[trigger] arriving.contains(i) <==> desired.contains(i) && (
    !state.live.contains(i) || (state.pending_stale && state.outdated(i))) by {
        assert(crate::canvas::diff::marked(shared, marks, i) || !crate::canvas::diff::marked(
            shared,
            marks,
            i,
        ));
    }
    assert forall|k: int| 0 <= k < leaving.len() implies #[trigger] leaving[k] < state.slots.len()
        && state.slots[leaving[k] as int].pod is Some by {
        assert(leaving.contains(leaving[k]));
        let j = state.live.index_of(leaving[k]);
        assert(state.live[j] == leaving[k]);
    }
    assert forall|k: int| 0 <= k < arriving.len() implies #[trigger] arriving[k]
        < state.slots.len() by {
        assert(arriving.contains(arriving[k]));
        let j = desired.index_of(arriving[k]);
        assert(desired[j] == arriving[k]);
    }
}

/// Exactly the desired nodes have a widget once they have been applied.
pub proof fn lemma_applied_consistent(state: ContentState, desired: Seq<usize>, ids: Seq<u64>)
    requires
        state.consistent(),
        is_node_list(desired, state.slots.len()),
    ensures
        state.applied(desired, ids).consistent(),
{
    lemma_comings_and_goings(state, desired);
    let after = state.applied(desired, ids);
    assert forall|i: usize| i < after.slots.len() implies ((
    #[trigger] after.slots[i as int]).pod is Some <==> after.live.contains(i)) && (
    after.slots[i as int].built is Some <==> after.live.contains(i)) by {
        assert(state.slots[i as int].pod is Some <==> state.live.contains(i));
        assert(state.arriving(desired).contains(i) || !state.arriving(desired).contains(i));
        assert(state.leaving(desired).contains(i) || !state.leaving(desired).contains(i));
    }
}

struct FarField {
    active: bool,
    region: Option<Rect>,
    nodes: Vec<usize>,
    dirty: bool,
}

/// The transformed inner half of a canvas.
///
/// Holds the freely positioned nodes and carries the pan/zoom transform.
pub struct CanvasContent {
    slots: Vec<Slot>,
    live: Vec<usize>,
    visible: Vec<usize>,
    far: FarField,
    active: Option<usize>,
    controls_on_hover: bool,
    detail_dirty: bool,
    pending_stale: bool,
    /// Reused buffers for the set difference.
    scratch_removed: Vec<usize>,
    scratch_added: Vec<usize>,
    pending: Option<Vec<usize>>,
    visible_rect: Rect,
    detail: Option<Detail>,
    layouts: u64,
    child_layouts: u64,
    composes: u64,
    builds: u64,
    far_repaints: u64,
}

impl View for CanvasContent {
    type V = ContentState;

    closed spec fn view(&self) -> ContentState {
        ContentState {
            slots: self.slots@,
            live: self.live@,
            visible: self.visible@,
            far: FarState {
                active: self.far.active,
                region: self.far.region,
                nodes: self.far.nodes@,
                dirty: self.far.dirty,
            },
            active: self.active,
            controls_on_hover: self.controls_on_hover,
            detail_dirty: self.detail_dirty,
            pending_stale: self.pending_stale,
            pending: match self.pending {
                Some(list) => Some(list@),
                None => None,
            },
            visible_rect: self.visible_rect,
            detail: self.detail,
            counters: CanvasCounters {
                content_layouts: self.layouts,
                child_layouts: self.child_layouts,
                composes: self.composes,
                builds: self.builds,
                far_repaints: self.far_repaints,
            },
        }
    }
}

/// The nodes that overlap `rect`, ascending.
fn in_rect(slots: &Vec<Slot>, rect: Rect) -> (r: Vec<usize>)
    ensures
        r@ == overlapping(slots@, rect),
{
    let mut found: Vec<usize> = Vec::new();
    let mut i: usize = 0;
    proof {
        assert(slots@.take(0) =~= Seq::<Slot>::empty());
    }
    while i < slots.len()
        invariant
            i <= slots@.len(),
            found@ == overlapping(slots@.take(i as int), rect),
        decreases slots@.len() - i,
    {
        proof {
            assert(slots@.take(i + 1).drop_last() =~= slots@.take(i as int));
        }
        if slots[i].rect().overlaps(rect) {
            found.push(i);
        }
        i += 1;
    }
    proof {
        assert(slots@.take(i as int) =~= slots@);
    }
    found
}

fn same_list(a: &Vec<usize>, b: &Vec<usize>) -> (r: bool)
    ensures
        r == (a@ == b@),
{
    if a.len() != b.len() {
        return false;
    }
    let mut i: usize = 0;
    while i < a.len()
        invariant
            i <= a@.len() == b@.len(),
            forall|k: int| 0 <= k < i ==> a@[k] == b@[k],
        decreases a@.len() - i,
    {
        if a[i] != b[i] {
            return false;
        }
        i += 1;
    }
    proof {
        assert(a@ =~= b@);
    }
    true
}

fn copy_list(list: &Vec<usize>) -> (r: Vec<usize>)
    ensures
        r@ == list@,
{
    let mut copy: Vec<usize> = Vec::with_capacity(list.len());
    let mut i: usize = 0;
    while i < list.len()
        invariant
            i <= list@.len(),
            copy@ == list@.take(i as int),
        decreases list@.len() - i,
    {
        copy.push(list[i]);
        i += 1;
    }
    copy
}

impl CanvasContent {
    /// Whether the state is consistent.
    pub open spec fn well_formed(self) -> bool {
        self@.consistent()
    }

    /// A canvas over nodes of the given position and size.
    pub fn new(geometry: Vec<(Point, Size)>) -> (r: CanvasContent)
        ensures
            r.well_formed(),
            r@ == ContentState::fresh(geometry@),
    {
        let mut slots: Vec<Slot> = Vec::with_capacity(geometry.len());
        let mut i: usize = 0;
        while i < geometry.len()
            invariant
                i <= geometry@.len(),
                slots@.len() == i,
                forall|k: int|
                    0 <= k < i ==> #[trigger] slots@[k] == (Slot {
                        pos: geometry@[k].0,
                        size: geometry@[k].1,
                        pod: None,
                        built: None,
                    }),
            decreases geometry@.len() - i,
        {
            let (pos, size) = geometry[i];
            slots.push(Slot { pos, size, pod: None, built: None });
            i += 1;
        }
        proof {
            assert(slots@ =~= ContentState::fresh(geometry@).slots);
        }
        CanvasContent {
            slots,
            live: Vec::new(),
            visible: Vec::new(),
            far: FarField { active: false, region: None, nodes: Vec::new(), dirty: false },
            active: None,
            controls_on_hover: false,
            detail_dirty: false,
            pending_stale: false,
            scratch_removed: Vec::new(),
            scratch_added: Vec::new(),
            pending: None,
            visible_rect: Rect::zero(),
            detail: None,
            layouts: 0,
            child_layouts: 0,
            composes: 0,
            builds: 0,
            far_repaints: 0,
        }
    }

    fn global_detail(&self) -> (r: Detail)
        ensures
            r == self@.global_detail(),
    {
        match self.detail {
            Some(detail) => detail,
            None => Detail::Full,
        }
    }

    /// The detail level node `index` should be built at.
    ///
    /// By default this is the canvas-wide level. With controls on hover only the node under
    /// the pointer gets real controls.
    pub fn effective_detail(&self, index: usize) -> (r: Detail)
        ensures
            r == self@.effective_detail(index),
    {
        let global = self.global_detail();
        if !self.controls_on_hover || global == Detail::Box {
            return global;
        }
        let hovered = match self.active {
            Some(active) => active == index,
            None => false,
        };
        if hovered {
            Detail::Full
        } else {
            Detail::Simplified
        }
    }

    /// How node `index` should be built right now.
    pub fn build_spec(&self, index: usize) -> (r: (Detail, Detail))
        ensures
            r == self@.build_spec(index),
    {
        (self.effective_detail(index), self.global_detail())
    }

    /// Records a new canvas-space position for a node.
    ///
    /// In far-field mode the node is part of the canvas's own scene, so moving it means
    /// re-recording that scene rather than re-placing a child widget.
    pub fn store_child_pos(&mut self, index: usize, pos: Point) -> (r: Invalidate)
        requires
            old(self).well_formed(),
        ensures
            final(self).well_formed(),
            (final(self)@, r) == old(self)@.moved(index, pos),
    {
        if index >= self.slots.len() {
            return Invalidate::Nothing;
        }
        let slot = self.slots[index];
        if slot.pos.same(pos) {
            return Invalidate::Nothing;
        }
        self.slots.set(index, Slot { pos, ..slot });
        proof {
            assert forall|i: usize| i < self@.slots.len() implies ((
            #[trigger] self@.slots[i as int]).pod is Some <==> self@.live.contains(i)) && (
            self@.slots[i as int].built is Some <==> self@.live.contains(i)) by {
                assert(old(self)@.slots[i as int].pod is Some <==> old(self)@.live.contains(i));
            }
        }
        if self.far.active {
            self.far.region = None;
            Invalidate::LayoutAndPaint
        } else {
            Invalidate::Layout
        }
    }

    /// Whether some widget has to be replaced because of its detail level.
    fn stale(&self) -> (r: bool)
        requires
            self.well_formed(),
        ensures
            r == self@.is_stale(),
    {
        if !self.detail_dirty {
            return false;
        }
        let mut k: usize = 0;
        while k < self.live.len()
            invariant
                self.well_formed(),
                self.detail_dirty,
                k <= self.live@.len(),
                forall|j: int| 0 <= j < k ==> !self@.outdated(#[trigger] self.live@[j]),
            decreases self.live@.len() - k,
        {
            let i = self.live[k];
            if !self.slots[i].is_built_as(self.build_spec(i)) {
                proof {
                    assert(self@.outdated(self@.live[k as int]));
                }
                return true;
            }
            k += 1;
        }
        false
    }

    /// Computes the set of nodes inside the visible rect, and what has to be done about it.
    ///
    /// A linear scan over the geometry. Below the box threshold the canvas paints nodes
    /// itself, so nothing is materialised: the visible set stops bounding the cost, so the
    /// cost must stop depending on widgets.
    pub fn cull(&mut self)
        requires
            old(self).well_formed(),
        ensures
            final(self).well_formed(),
            final(self)@ == old(self)@.culled(),
    {
        let visible = in_rect(&self.slots, self.visible_rect);
        let far_field = self.global_detail() == Detail::Box;
        let desired: Vec<usize> = if far_field {
            Vec::new()
        } else {
            copy_list(&visible)
        };
        let stale = self.stale();
        proof {
            lemma_overlapping(self.slots@, self.visible_rect);
            assert(desired@ =~= self@.desired());
        }
        self.visible = visible;
        self.detail_dirty = false;
        if far_field {
            self.refresh_far_region();
        } else if self.far.region.is_some() {
            self.far.region = None;
            self.far.nodes.clear();
        }
        proof {
            assert(self.far.nodes@ =~= old(self)@.recording().nodes);
        }
        let changed = !same_list(&desired, &self.live);
        if changed || far_field != self.far.active || stale || self.far.dirty {
            self.far.active = far_field;
            self.pending_stale = stale;
            self.pending = Some(desired);
        } else {
            self.pending = None;
        }
    }

    /// Re-records the far-field node set when the viewport leaves the painted region.
    ///
    /// The recorded scene lives in canvas coordinates, so panning and zooming inside the
    /// region cost one transform and nothing else.
    pub fn refresh_far_region(&mut self)
        requires
            old(self).well_formed(),
        ensures
            final(self).well_formed(),
            final(self)@ == (ContentState {
                far: old(self)@.far.refreshed(old(self)@.slots, old(self)@.visible_rect),
                ..old(self)@
            }),
    {
        let kept = match self.far.region {
            Some(region) => contains_rect(region, self.visible_rect),
            None => false,
        };
        if kept {
            return;
        }
        let region = self.visible_rect.inflate(
            self.visible_rect.width().times(far_overscan()),
            self.visible_rect.height().times(far_overscan()),
        );
        proof {
            lemma_overlapping(self.slots@, region);
        }
        self.far.nodes = in_rect(&self.slots, region);
        self.far.region = Some(region);
        self.far.dirty = true;
    }

    /// Takes the widgets of `removed` out of their slots, and returns them.
    fn dematerialise(&mut self, removed: &Vec<usize>) -> (r: Vec<(usize, u64)>)
        requires
            crate::canvas::diff::ascending(removed@),
            forall|k: int|
                0 <= k < removed@.len() ==> #[trigger] removed@[k] < old(self).slots@.len()
                    && old(self).slots@[removed@[k] as int].pod is Some,
            old(self).slots@.len() <= usize::MAX,
        ensures
            *final(self) == (CanvasContent { slots: final(self).slots, ..*old(self) }),
            final(self).slots@ == Seq::new(
                old(self).slots@.len(),
                |i: int|
                    if removed@.contains(i as usize) {
                        Slot { pod: None, built: None, ..old(self).slots@[i] }
                    } else {
                        old(self).slots@[i]
                    },
            ),
            r@ == removed@.map_values(
                |i: usize| (i, old(self).slots@[i as int].pod.unwrap()),
            ),
    {
        let ghost start = *self;
        let mut out: Vec<(usize, u64)> = Vec::with_capacity(removed.len());
        let mut k: usize = 0;
        while k < removed.len()
            invariant
                start == *old(self),
                k <= removed@.len(),
                crate::canvas::diff::ascending(removed@),
                forall|j: int|
                    0 <= j < removed@.len() ==> #[trigger] removed@[j] < start.slots@.len()
                        && start.slots@[removed@[j] as int].pod is Some,
                start.slots@.len() <= usize::MAX,
                *self == (CanvasContent { slots: self.slots, ..start }),
                self.slots@.len() == start.slots@.len(),
                forall|i: int|
                    0 <= i < self.slots@.len() ==> #[trigger] self.slots@[i] == (
                    if removed@.take(k as int).contains(i as usize) {
                        Slot { pod: None, built: None, ..start.slots@[i] }
                    } else {
                        start.slots@[i]
                    }),
                out@.len() == k,
                forall|j: int|
                    0 <= j < k ==> #[trigger] out@[j] == (
                        removed@[j],
                        start.slots@[removed@[j] as int].pod.unwrap(),
                    ),
            decreases removed@.len() - k,
        {
            let index = removed[k];
            proof {
                lemma_not_yet(removed@, k as int);
            }
            let slot = self.slots[index];
            if let Some(id) = slot.pod {
                out.push((index, id));
                self.slots.set(index, Slot { pod: None, built: None, ..slot });
            }
            proof {
                lemma_one_more(removed@, k as int);
            }
            k += 1;
        }
        proof {
            assert(removed@.take(k as int) =~= removed@);
            assert(out@ =~= removed@.map_values(
                |i: usize| (i, old(self).slots@[i as int].pod.unwrap()),
            ));
        }
        out
    }

    /// Materialises and dematerialises nodes to match the last cull.
    ///
    /// `build` gives the widget of a node at its own detail level, to be told of the
    /// canvas-wide one. Removing takes a widget out of the tree entirely: a stashed widget is
    /// still walked by every pass, a removed one is not.
    pub fn apply_pending(&mut self, build: impl FnMut(usize, Detail, Detail) -> u64) -> (r: Applied)
        requires
            old(self).well_formed(),
            old(self)@.pending matches Some(desired) ==> {
                &&& old(self)@.counters.builds + old(self)@.arriving(desired).len() <= u64::MAX
                &&& forall|i: usize| #[trigger]
                    old(self)@.arriving(desired).contains(i) ==> call_requires(
                        build,
                        (i, old(self)@.build_spec(i).0, old(self)@.build_spec(i).1),
                    )
            },
        ensures
            final(self).well_formed(),
            match old(self)@.pending {
                Some(desired) => {
                    let arriving = old(self)@.arriving(desired);
                    &&& r.removed@ == old(self)@.leaving(desired).map_values(
                        |i: usize| (i, old(self)@.slots[i as int].pod.unwrap()),
                    )
                    &&& r.changed == (old(self)@.leaving(desired).len() > 0 || arriving.len() > 0)
                    &&& r.added@.len() == arriving.len()
                    &&& forall|k: int|
                        0 <= k < arriving.len() ==> (#[trigger] r.added@[k]).0 == arriving[k]
                            && call_ensures(
                            build,
                            (
                                arriving[k],
                                old(self)@.build_spec(arriving[k]).0,
                                old(self)@.build_spec(arriving[k]).1,
                            ),
                            r.added@[k].1,
                        )
                    &&& final(self)@ == old(self)@.applied(
                        desired,
                        r.added@.map_values(|node: (usize, u64)| node.1),
                    )
                },
                None => {
                    &&& r.removed@.len() == 0
                    &&& r.added@.len() == 0
                    &&& !r.changed
                    &&& final(self)@ == old(self)@
                },
            },
    {
        let ghost before = self@;
        let desired = match self.pending.take() {
            Some(desired) => desired,
            None => {
                return Applied { removed: Vec::new(), added: Vec::new(), changed: false };
            },
        };
        let stale = self.pending_stale;
        self.pending_stale = false;
        let mut removed: Vec<usize> = Vec::new();
        let mut added: Vec<usize> = Vec::new();
        core::mem::swap(&mut removed, &mut self.scratch_removed);
        core::mem::swap(&mut added, &mut self.scratch_added);
        {
            let content: &CanvasContent = &*self;
            let old_enough = |i: usize| -> (r: bool)
                requires
                    i < content.slots@.len(),
                ensures
                    r == (stale && content@.outdated(i)),
                { stale && !content.slots[i].is_built_as(content.build_spec(i)) };
            proof {
                crate::canvas::diff::law_shared_is_intersection(content.live@, desired@);
                assert forall|i: usize| #[trigger]
                    crate::canvas::diff::shared(content.live@, desired@).contains(
                        i,
                    ) implies call_requires(old_enough, (i,)) by {
                    assert(content.live@.contains(i));
                    let k = content.live@.index_of(i);
                    assert(before.live[k] == i);
                }
            }
            diff_sorted(
                content.live.as_slice(),
                desired.as_slice(),
                old_enough,
                &mut removed,
                &mut added,
            );
            proof {
                let shared = crate::canvas::diff::shared(content.live@, desired@);
                let marks = choose|marks: Seq<bool>|
                    {
                        &&& marks.len() == shared.len()
                        &&& forall|k: int|
                            0 <= k < marks.len() ==> call_ensures(
                                old_enough,
                                (shared[k],),
                                #[trigger] marks[k],
                            )
                        &&& removed@ == #[trigger] crate::canvas::diff::departed(
                            content.live@,
                            desired@,
                            marks,
                        )
                        &&& added@ == crate::canvas::diff::arrived(content.live@, desired@, marks)
                    };
                assert(marks =~= before.rebuilds(desired@)) by {
                    assert forall|k: int| 0 <= k < marks.len() implies marks[k]
                        == before.rebuilds(desired@)[k] by {
                        assert(content@.outdated(shared[k]) == before.outdated(shared[k]));
                    }
                }
            }
        }
        proof {
            lemma_comings_and_goings(before, desired@);
        }
        let gone = self.dematerialise(&removed);
        let ghost start = *self;
        let ghost builder = build;
        let mut build = build;
        let mut come: Vec<(usize, u64)> = Vec::with_capacity(added.len());
        let mut k: usize = 0;
        while k < added.len()
            invariant
                build == builder,
                k <= added@.len(),
                added@ == before.arriving(desired@),
                crate::canvas::diff::ascending(added@),
                forall|j: int| 0 <= j < added@.len() ==> #[trigger] added@[j] < start.slots@.len(),
                start.slots@.len() <= usize::MAX,
                start@.controls_on_hover == before.controls_on_hover,
                start@.detail == before.detail,
                start@.active == before.active,
                *self == (CanvasContent { slots: self.slots, builds: self.builds, ..start }),
                start.builds + added@.len() <= u64::MAX,
                self.builds == start.builds + k,
                self.slots@.len() == start.slots@.len(),
                forall|i: usize| #[trigger]
                    added@.contains(i) ==> call_requires(
                        build,
                        (i, before.build_spec(i).0, before.build_spec(i).1),
                    ),
                come@.len() == k,
                forall|j: int|
                    0 <= j < k ==> (#[trigger] come@[j]).0 == added@[j] && call_ensures(
                        build,
                        (added@[j], before.build_spec(added@[j]).0, before.build_spec(added@[j]).1),
                        come@[j].1,
                    ),
                forall|i: int|
                    0 <= i < self.slots@.len() ==> #[trigger] self.slots@[i] == (
                    if added@.take(k as int).contains(i as usize) {
                        Slot {
                            pod: Some(come@[added@.index_of(i as usize)].1),
                            built: Some(before.build_spec(i as usize)),
                            ..start.slots@[i]
                        }
                    } else {
                        start.slots@[i]
                    }),
            decreases added@.len() - k,
        {
            let index = added[k];
            let ghost already = self.slots@;
            let ghost sooner = come@;
            proof {
                lemma_not_yet(added@, k as int);
                assert(added@.contains(index));
            }
            let (detail, global) = self.build_spec(index);
            let id = build(index, detail, global);
            let slot = self.slots[index];
            self.slots.set(
                index,
                Slot { pod: Some(id), built: Some((detail, global)), ..slot },
            );
            self.builds += 1;
            come.push((index, id));
            proof {
                lemma_one_more(added@, k as int);
                lemma_places(added@);
                assert forall|i: int| 0 <= i < self.slots@.len() implies #[trigger]
                    self.slots@[i] == (if added@.take(k + 1).contains(i as usize) {
                    Slot {
                        pod: Some(come@[added@.index_of(i as usize)].1),
                        built: Some(before.build_spec(i as usize)),
                        ..start.slots@[i]
                    }
                } else {
                    start.slots@[i]
                }) by {
                    assert(already[i] == already[i]);
                    if added@.take(k as int).contains(i as usize) {
                        let j = added@.take(k as int).index_of(i as usize);
                        assert(added@[j] == i as usize);
                        assert(come@[j] == sooner[j]);
                    }
                }
            }
            k += 1;
        }
        self.scratch_removed = removed;
        self.scratch_added = added;
        self.live = desired;
        proof {
            assert(before.arriving(desired@).take(k as int) =~= before.arriving(desired@));
            let ids = come@.map_values(|node: (usize, u64)| node.1);
            lemma_places(before.arriving(desired@));
            assert(self@.slots =~= before.applied(desired@, ids).slots) by {
                assert forall|i: int| 0 <= i < self@.slots.len() implies self@.slots[i]
                    == before.applied(desired@, ids).slots[i] by {
                    assert(self.slots@[i] == self.slots@[i]);
                    assert(start.slots@[i] == start.slots@[i]);
                    if before.arriving(desired@).contains(i as usize) {
                        let j = before.arriving(desired@).index_of(i as usize);
                        assert(ids[j] == come@[j].1);
                    }
                }
            }
            lemma_applied_consistent(before, desired@, ids);
            assert(self@ == before.applied(desired@, ids));
        }
        let changed = gone.len() != 0 || come.len() != 0;
        Applied { removed: gone, added: come, changed }
    }

    /// How long the content would like to be. It never asks its nodes.
    pub fn measure(&self, axis: Axis, len_req: LenReq) -> (r: Scalar)
        ensures
            r == len_req.filling(axis, Scalar::zero(), Scalar::zero()),
    {
        len_req.filling(axis, Scalar::zero(), Scalar::zero())
    }

    /// Counts a compose pass.
    pub fn compose(&mut self)
        requires
            old(self).well_formed(),
            old(self)@.counters.composes < u64::MAX,
        ensures
            final(self).well_formed(),
            final(self)@ == (ContentState {
                counters: CanvasCounters {
                    composes: (old(self)@.counters.composes + 1) as u64,
                    ..old(self)@.counters
                },
                ..old(self)@
            }),
    {
        self.composes += 1;
    }

    /// How many nodes there are.
    pub fn total(&self) -> (r: usize)
        ensures
            r == self@.slots.len(),
    {
        self.slots.len()
    }

    /// How many nodes have a widget.
    pub fn materialised(&self) -> (r: usize)
        ensures
            r == self@.live.len(),
    {
        self.live.len()
    }

    /// The detail level applied last.
    pub fn detail(&self) -> (r: Option<Detail>)
        ensures
            r == self@.detail,
    {
        self.detail
    }

    /// Cumulative counters.
    pub fn counters(&self) -> (r: CanvasCounters)
        ensures
            r == self@.counters,
    {
        CanvasCounters {
            content_layouts: self.layouts,
            child_layouts: self.child_layouts,
            composes: self.composes,
            builds: self.builds,
            far_repaints: self.far_repaints,
        }
    }

    /// Whether the last cull left something for the next mutate pass to do.
    pub fn has_pending(&self) -> (r: bool)
        ensures
            r == self@.pending is Some,
    {
        self.pending.is_some()
    }

    /// The canvas-space position of a node.
    pub fn child_pos(&self, index: usize) -> (r: Option<Point>)
        ensures
            r == (if index < self@.slots.len() {
                Some(self@.slots[index as int].pos)
            } else {
                None
            }),
    {
        if index < self.slots.len() {
            Some(self.slots[index].pos)
        } else {
            None
        }
    }

    /// Marks the node under the pointer. Returns whether it changed.
    ///
    /// In far-field mode no node has controls, and nothing is marked.
    pub fn set_active(&mut self, active: Option<usize>) -> (r: bool)
        requires
            old(self).well_formed(),
        ensures
            final(self).well_formed(),
            final(self)@ == old(self)@.hovered(active),
            r == (old(self)@.active != active && !old(self)@.far.active),
    {
        let same = match (self.active, active) {
            (Some(a), Some(b)) => a == b,
            (None, None) => true,
            _ => false,
        };
        if same || self.far.active {
            return false;
        }
        self.active = active;
        self.detail_dirty = true;
        true
    }

    /// Takes over what the view decides: which nodes get controls, what is visible, and
    /// the canvas-wide detail level.
    pub fn see(&mut self, controls_on_hover: bool, visible_rect: Rect, detail: Detail)
        requires
            old(self).well_formed(),
        ensures
            final(self).well_formed(),
            final(self)@ == old(self)@.seen(controls_on_hover, visible_rect, detail),
    {
        self.controls_on_hover = controls_on_hover;
        self.visible_rect = visible_rect;
        let same = match self.detail {
            Some(current) => current == detail,
            None => false,
        };
        if !same {
            self.detail = Some(detail);
            self.detail_dirty = true;
        }
    }

    /// Whether the recording has to be redone. Asking clears that.
    pub fn take_repaint(&mut self) -> (r: bool)
        requires
            old(self).well_formed(),
        ensures
            final(self).well_formed(),
            r == old(self)@.far.dirty,
            final(self)@ == old(self)@.repainting(),
    {
        let dirty = self.far.dirty;
        self.far.dirty = false;
        dirty
    }

    /// The topmost visible node at a canvas-space point, and its position.
    ///
    /// Uses the visible set, not the materialised one, so nodes stay grabbable in far-field
    /// mode where they have no widget at all.
    pub fn hit_child(&self, canvas_pos: Point) -> (r: Option<(usize, Point)>)
        requires
            self.well_formed(),
        ensures
            r == self@.hit(canvas_pos),
    {
        let mut n: usize = self.visible.len();
        while n > 0
            invariant
                self.well_formed(),
                n <= self.visible@.len(),
                self@.topmost(canvas_pos, self.visible@.len()) == self@.topmost(
                    canvas_pos,
                    n as nat,
                ),
            decreases n,
        {
            let i = self.visible[n - 1];
            if self.slots[i].rect().contains(canvas_pos) {
                return Some((i, self.slots[i].pos));
            }
            n -= 1;
        }
        None
    }

    /// The nodes that currently have a widget, with it.
    pub fn live_children(&self) -> (r: Vec<(usize, u64)>)
        requires
            self.well_formed(),
        ensures
            r@ == self@.live_children(),
    {
        let mut out: Vec<(usize, u64)> = Vec::with_capacity(self.live.len());
        let mut k: usize = 0;
        while k < self.live.len()
            invariant
                self.well_formed(),
                k <= self.live@.len(),
                out@ == self@.live_children().take(k as int),
            decreases self.live@.len() - k,
        {
            let i = self.live[k];
            proof {
                assert(self@.live.contains(i));
                assert(self@.slots[i as int].pod is Some);
            }
            if let Some(id) = self.slots[i].pod {
                out.push((i, id));
            }
            k += 1;
        }
        out
    }

    /// Runs a layout pass over the live nodes, and returns where each goes.
    ///
    /// Nodes are laid out in canvas coordinates at their natural size; the zoom lives
    /// entirely in the transform. `needs_layout` tells whether the host considers a node
    /// dirty.
    pub fn layout(&mut self, needs_layout: impl FnMut(usize) -> bool) -> (r: Vec<NodePlacement>)
        requires
            old(self).well_formed(),
            old(self)@.counters.content_layouts < u64::MAX,
            old(self)@.counters.child_layouts + old(self)@.live.len() <= u64::MAX,
            forall|i: usize|
                old(self)@.live.contains(i) ==> #[trigger] call_requires(needs_layout, (i,)),
        ensures
            final(self).well_formed(),
            exists|dirty: Seq<bool>|
                {
                    &&& dirty.len() == old(self)@.live.len()
                    &&& forall|k: int|
                        0 <= k < dirty.len() ==> call_ensures(
                            needs_layout,
                            (old(self)@.live[k],),
                            #[trigger] dirty[k],
                        )
                    &&& final(self)@ == old(self)@.laid_out(
                        #[trigger] crate::widget::yes_count(dirty),
                    )
                },
            r@ == old(self)@.placements(),
    {
        self.layouts += 1;
        let ghost start = *self;
        let ghost question = needs_layout;
        let ghost mut dirty: Seq<bool> = seq![];
        let mut needs_layout = needs_layout;
        let mut out: Vec<NodePlacement> = Vec::with_capacity(self.live.len());
        let mut k: usize = 0;
        while k < self.live.len()
            invariant
                needs_layout == question,
                k <= self.live@.len(),
                *self == (CanvasContent { child_layouts: self.child_layouts, ..start }),
                start.well_formed(),
                start.child_layouts + start.live@.len() <= u64::MAX,
                self.child_layouts == start.child_layouts + crate::widget::yes_count(dirty),
                crate::widget::yes_count(dirty) <= k,
                dirty.len() == k,
                forall|j: int|
                    0 <= j < dirty.len() ==> call_ensures(
                        needs_layout,
                        (start.live@[j],),
                        #[trigger] dirty[j],
                    ),
                forall|i: usize|
                    start.live@.contains(i) ==> #[trigger] call_requires(needs_layout, (i,)),
                out@ == start@.placements().take(k as int),
            decreases self.live@.len() - k,
        {
            let index = self.live[k];
            proof {
                assert(start.live@.contains(index));
            }
            let slot = self.slots[index];
            let needs = needs_layout(index);
            if needs {
                self.child_layouts += 1;
            }
            proof {
                let longer = dirty.push(needs);
                assert(longer.drop_last() =~= dirty);
                dirty = longer;
            }
            out.push(NodePlacement { index, size: slot.size, pos: slot.pos });
            k += 1;
        }
        proof {
            assert(self@ == old(self)@.laid_out(crate::widget::yes_count(dirty)));
        }
        out
    }

    /// Runs a paint pass, and returns the nodes that are to be drawn.
    ///
    /// None above the far field, where every node is a widget.
    pub fn paint(&mut self) -> (r: Vec<FarNode>)
        requires
            old(self).well_formed(),
            old(self)@.counters.far_repaints < u64::MAX,
        ensures
            final(self).well_formed(),
            final(self)@ == old(self)@.painted(),
            r@ == old(self)@.far_nodes(),
    {
        let mut out: Vec<FarNode> = Vec::new();
        if !self.far.active {
            return out;
        }
        self.far_repaints += 1;
        let mut k: usize = 0;
        while k < self.far.nodes.len()
            invariant
                self.well_formed(),
                self.far.active,
                k <= self.far.nodes@.len(),
                out@ == self@.far_nodes().take(k as int),
            decreases self.far.nodes@.len() - k,
        {
            let index = self.far.nodes[k];
            out.push(FarNode { index, rect: self.slots[index].rect() });
            k += 1;
        }
        proof {
            assert(out@ =~= old(self)@.far_nodes());
        }
        out
    }
}

} // verus!
