//! A window tiled into areas, each holding one widget.

use vstd::prelude::*;

use crate::areas::shape::{AreaId, Bar, NodeId, Shape};
use crate::areas::tree::{ratio_at, SplitTree};
use crate::geometry::{Axis, Point, Rect, Size};
use crate::number::scalar::Scalar;
use crate::widget::{resized, Button, LenReq, PointerEvent};

verus! {

/// What the screen is doing right now, plus counters.
#[derive(Clone, Copy, Debug, Default, PartialEq, Eq)]
pub struct ScreenStats {
    /// Areas the screen currently holds.
    pub areas: usize,
    pub counters: ScreenCounters,
}

/// Cumulative counters, for spotting work that should not be happening.
#[derive(Clone, Copy, Debug, Default, PartialEq, Eq)]
pub struct ScreenCounters {
    /// Layout passes run on the screen itself.
    pub layouts: u64,
    /// Areas handed a border-box size different from their last one, summed over all
    /// passes.
    pub area_resizes: u64,
    /// Areas the host considered dirty on entry to the screen's layout.
    pub area_layouts: u64,
}

/// Where a layout pass puts one area.
#[derive(Clone, Copy, Debug, PartialEq)]
pub struct AreaPlacement {
    pub area: AreaId,
    pub size: Size,
    pub origin: Point,
}

/// What the screen asks its host to do about a pointer event.
#[derive(Clone, Copy, Debug, PartialEq, Eq, Structural)]
pub struct ScreenResponse {
    /// Run a layout pass.
    pub layout: bool,
    /// Send all pointer events here from now on.
    pub capture: bool,
    /// Stop doing so.
    pub release: bool,
    /// Offer the event to nobody else.
    pub handled: bool,
}

impl ScreenResponse {
    pub open spec fn spec_none() -> ScreenResponse {
        ScreenResponse { layout: false, capture: false, release: false, handled: false }
    }

    /// Nothing to do.
    #[verifier::when_used_as_spec(spec_none)]
    pub fn none() -> (r: ScreenResponse)
        ensures
            r == ScreenResponse::none(),
    {
        ScreenResponse { layout: false, capture: false, release: false, handled: false }
    }
}

pub open spec fn spec_bar_thickness() -> Scalar {
    Scalar::from_whole(4)
}

/// Thickness of a splitter, in logical pixels.
#[verifier::when_used_as_spec(spec_bar_thickness)]
pub fn bar_thickness() -> (r: Scalar)
    ensures
        r == bar_thickness(),
{
    Scalar::from_whole(4)
}

pub open spec fn spec_grab_slop() -> Scalar {
    Scalar::from_whole(3)
}

/// How far either side of a splitter still counts as grabbing it.
///
/// A four pixel bar is a four pixel target, which is below what a pointer can reliably
/// hit.
#[verifier::when_used_as_spec(spec_grab_slop)]
pub fn grab_slop() -> (r: Scalar)
    ensures
        r == grab_slop(),
{
    Scalar::from_whole(3)
}

/// The first bar that divides `split`.
pub open spec fn bar_of(bars: Seq<Bar>, split: NodeId) -> Option<Bar>
    decreases bars.len(),
{
    if bars.len() == 0 {
        None
    } else if bars[0].split == split {
        Some(bars[0])
    } else {
        bar_of(bars.skip(1), split)
    }
}

/// The split of the first bar that a pointer at `pos` can grab.
pub open spec fn grabbed(bars: Seq<Bar>, pos: Point) -> Option<NodeId>
    decreases bars.len(),
{
    if bars.len() == 0 {
        None
    } else if bars[0].rect.inset(grab_slop()).contains(pos) {
        Some(bars[0].split)
    } else {
        grabbed(bars.skip(1), pos)
    }
}

/// The sizes that areas have been told of after a layout pass, and how many were told.
pub open spec fn settled(
    sizes: Seq<Option<Size>>,
    placed: Seq<(AreaId, Rect)>,
) -> (Seq<Option<Size>>, nat)
    decreases placed.len(),
{
    if placed.len() == 0 {
        (sizes, 0)
    } else {
        let (told, count) = settled(sizes, placed.drop_last());
        let (area, rect) = placed.last();
        if resized(told[area as int], rect.size()) {
            (told.update(area as int, Some(rect.size())), count + 1)
        } else {
            (told, count)
        }
    }
}

/// Where a layout pass puts the areas, given their rectangles.
pub open spec fn placements(placed: Seq<(AreaId, Rect)>) -> Seq<AreaPlacement> {
    placed.map_values(
        |at: (AreaId, Rect)|
            AreaPlacement { area: at.0, size: at.1.size(), origin: at.1.origin() },
    )
}

/// The state of a screen.
pub struct ScreenState {
    pub shape: Shape,
    /// The widget of each area.
    pub ids: Seq<u64>,
    /// The border-box size each area was last given.
    pub sizes: Seq<Option<Size>>,
    /// Where each area went in the last layout pass.
    pub rects: Seq<(AreaId, Rect)>,
    /// Where each splitter went in the last layout pass.
    pub bars: Seq<Bar>,
    /// The splitter being dragged.
    pub drag: Option<NodeId>,
    pub counters: ScreenCounters,
}

impl ScreenState {
    /// Whether a drag of `split` to `pos` moves a splitter.
    pub open spec fn moves(self, split: NodeId, pos: Point) -> bool {
        bar_of(self.bars, split) matches Some(bar) && self.shape.moves(
            split,
            crate::areas::shape::implied_ratio(bar, pos, bar_thickness()),
        )
    }

    /// The state after a drag of `split` to `pos`.
    pub open spec fn dragged(self, split: NodeId, pos: Point) -> ScreenState {
        match bar_of(self.bars, split) {
            Some(bar) => ScreenState {
                shape: self.shape.dragged(
                    split,
                    crate::areas::shape::implied_ratio(bar, pos, bar_thickness()),
                ),
                ..self
            },
            None => self,
        }
    }

    /// What a pointer event does to the state, and what the host is asked for.
    pub open spec fn pointed(self, event: PointerEvent, handled: bool) -> (
        ScreenState,
        ScreenResponse,
    ) {
        let nothing = (self, ScreenResponse::none());
        match event {
            PointerEvent::Down { button, pos } => if !handled && button == Some(Button::Primary) {
                match grabbed(self.bars, pos) {
                    Some(split) => (
                        ScreenState { drag: Some(split), ..self },
                        ScreenResponse { capture: true, handled: true, ..ScreenResponse::none() },
                    ),
                    None => nothing,
                }
            } else {
                nothing
            },
            PointerEvent::Move { pos } => match self.drag {
                Some(split) => if bar_of(self.bars, split) is Some {
                    (
                        self.dragged(split, pos),
                        ScreenResponse {
                            layout: self.moves(split, pos),
                            handled: true,
                            ..ScreenResponse::none()
                        },
                    )
                } else {
                    nothing
                },
                None => nothing,
            },
            PointerEvent::Up | PointerEvent::Cancel => if self.drag is Some {
                (
                    ScreenState { drag: None, ..self },
                    ScreenResponse { release: true, handled: true, ..ScreenResponse::none() },
                )
            } else {
                nothing
            },
            _ => nothing,
        }
    }

    /// The whole screen at `size`.
    pub open spec fn bounds(size: Size) -> Rect {
        Rect::from_origin_size(Point::origin(), size)
    }

    /// Whether a layout pass at `size` can divide the screen and count what it does.
    pub open spec fn can_lay_out(self, size: Size) -> bool {
        &&& self.shape.fits(ScreenState::bounds(size), bar_thickness())
        &&& self.counters.layouts < u64::MAX
        &&& self.counters.area_resizes + self.shape.leaves() <= u64::MAX
        &&& self.counters.area_layouts + self.shape.leaves() <= u64::MAX
    }

    /// The state after a layout pass at `size` that found `dirty` areas dirty.
    pub open spec fn laid_out(self, size: Size, dirty: nat) -> ScreenState {
        let rects = self.shape.placed(ScreenState::bounds(size), bar_thickness());
        let (sizes, told) = settled(self.sizes, rects);
        ScreenState {
            rects,
            bars: self.shape.bars(ScreenState::bounds(size), bar_thickness()),
            sizes,
            counters: ScreenCounters {
                layouts: (self.counters.layouts + 1) as u64,
                area_resizes: (self.counters.area_resizes + told) as u64,
                area_layouts: (self.counters.area_layouts + dirty) as u64,
            },
            ..self
        }
    }
}

/// A window tiled into areas, each holding one widget.
///
/// The screen owns the rects. Areas are laid out at exactly the size the split tree
/// computed, never at a size they asked for.
pub struct AreaScreen {
    tree: SplitTree,
    /// One widget per area, indexed by area.
    ids: Vec<u64>,
    sizes: Vec<Option<Size>>,
    rects: Vec<(AreaId, Rect)>,
    bars: Vec<Bar>,
    drag: Option<NodeId>,
    layouts: u64,
    area_resizes: u64,
    area_layouts: u64,
}

impl View for AreaScreen {
    type V = ScreenState;

    closed spec fn view(&self) -> ScreenState {
        ScreenState {
            shape: self.tree.shape(),
            ids: self.ids@,
            sizes: self.sizes@,
            rects: self.rects@,
            bars: self.bars@,
            drag: self.drag,
            counters: ScreenCounters {
                layouts: self.layouts,
                area_resizes: self.area_resizes,
                area_layouts: self.area_layouts,
            },
        }
    }
}

impl AreaScreen {
    /// Whether there is one widget and one size for every area.
    pub closed spec fn well_formed(self) -> bool {
        &&& self.tree.well_formed()
        &&& self.ids@.len() == self.tree.shape().leaves()
        &&& self.sizes@.len() == self.tree.shape().leaves()
    }

    /// Areas are numbered from zero without a gap and none occurs twice, and there is one
    /// widget and one size for every area.
    pub proof fn law_numbering(&self)
        requires
            self.well_formed(),
        ensures
            self@.shape.orderly(),
            1 <= self@.shape.leaves(),
            2 * self@.shape.leaves() - 1 <= usize::MAX,
            self@.ids.len() == self@.shape.leaves(),
            self@.sizes.len() == self@.shape.leaves(),
            forall|id: AreaId| #[trigger]
                self@.shape.has_area(id) <==> id < self@.shape.leaves(),
            forall|n: NodeId| #[trigger]
                self@.shape.has_node(n) <==> n < 2 * self@.shape.leaves() - 1,
    {
        self.tree.law_numbering();
    }

    /// Builds a screen over `tree`, calling `build` once per area for its widget.
    pub fn new(tree: SplitTree, build: impl FnMut(AreaId) -> u64) -> (r: AreaScreen)
        requires
            tree.well_formed(),
            forall|area: AreaId|
                area < tree.shape().leaves() ==> #[trigger] call_requires(build, (area,)),
        ensures
            r.well_formed(),
            r@.shape == tree.shape(),
            r@.ids.len() == tree.shape().leaves(),
            forall|area: AreaId|
                area < tree.shape().leaves() ==> call_ensures(
                    build,
                    (area,),
                    #[trigger] r@.ids[area as int],
                ),
            r@.sizes == Seq::new(tree.shape().leaves(), |area: int| None::<Size>),
            r@.rects.len() == 0,
            r@.bars.len() == 0,
            r@.drag is None,
            r@.counters == (ScreenCounters { layouts: 0, area_resizes: 0, area_layouts: 0 }),
    {
        let count = tree.area_count();
        let ghost builder = build;
        let mut build = build;
        let mut ids: Vec<u64> = Vec::with_capacity(count);
        let mut sizes: Vec<Option<Size>> = Vec::with_capacity(count);
        let mut area: AreaId = 0;
        while area < count
            invariant
                build == builder,
                count == tree.shape().leaves(),
                area <= count,
                ids@.len() == area,
                sizes@ == Seq::new(area as nat, |area: int| None::<Size>),
                forall|area: AreaId|
                    area < tree.shape().leaves() ==> #[trigger] call_requires(build, (area,)),
                forall|i: AreaId| i < area ==> call_ensures(build, (i,), #[trigger] ids@[i as int]),
            decreases count - area,
        {
            ids.push(build(area));
            sizes.push(None);
            area += 1;
        }
        AreaScreen {
            tree,
            ids,
            sizes,
            rects: Vec::with_capacity(count),
            bars: Vec::with_capacity(count),
            drag: None,
            layouts: 0,
            area_resizes: 0,
            area_layouts: 0,
        }
    }

    /// Current counters and area count.
    pub fn stats(&self) -> (r: ScreenStats)
        requires
            self.well_formed(),
        ensures
            r.areas == self@.shape.leaves(),
            r.counters == self@.counters,
    {
        ScreenStats {
            areas: self.tree.area_count(),
            counters: ScreenCounters {
                layouts: self.layouts,
                area_resizes: self.area_resizes,
                area_layouts: self.area_layouts,
            },
        }
    }

    /// The splitters, as laid out. Empty until the first layout pass has run.
    pub fn bars(&self) -> (r: &[Bar])
        ensures
            r@ == self@.bars,
    {
        self.bars.as_slice()
    }

    /// The widget of each area, in area order.
    pub fn area_ids(&self) -> (r: Vec<u64>)
        ensures
            r@ == self@.ids,
    {
        let mut ids: Vec<u64> = Vec::with_capacity(self.ids.len());
        let mut i: usize = 0;
        while i < self.ids.len()
            invariant
                i <= self.ids@.len(),
                ids@ == self.ids@.take(i as int),
            decreases self.ids@.len() - i,
        {
            ids.push(self.ids[i]);
            i += 1;
        }
        ids
    }

    fn find_bar(&self, split: NodeId) -> (r: Option<Bar>)
        ensures
            r == bar_of(self@.bars, split),
    {
        let mut i: usize = 0;
        proof {
            assert(self.bars@.skip(0) =~= self.bars@);
        }
        while i < self.bars.len()
            invariant
                i <= self.bars@.len(),
                bar_of(self.bars@, split) == bar_of(self.bars@.skip(i as int), split),
            decreases self.bars@.len() - i,
        {
            if self.bars[i].split == split {
                return Some(self.bars[i]);
            }
            proof {
                assert(self.bars@.skip(i as int).skip(1) =~= self.bars@.skip(i + 1));
            }
            i += 1;
        }
        None
    }

    /// Moves a splitter so that it sits under `pos`, in screen coordinates.
    ///
    /// Returns whether a layout pass is needed.
    pub fn drag_bar(&mut self, split: NodeId, pos: Point) -> (r: bool)
        requires
            old(self).well_formed(),
        ensures
            final(self).well_formed(),
            r == old(self)@.moves(split, pos),
            final(self)@ == old(self)@.dragged(split, pos),
    {
        match self.find_bar(split) {
            Some(bar) => {
                proof {
                    let shape = self.tree.shape();
                    let ratio = crate::areas::shape::implied_ratio(bar, pos, bar_thickness());
                    crate::areas::shape::lemma_ratio_keeps(
                        shape,
                        split,
                        ratio.clamp(Scalar::zero(), Scalar::from_whole(1)),
                    );
                }
                self.tree.set_ratio(split, ratio_at(&bar, pos, bar_thickness()))
            },
            None => false,
        }
    }

    /// The splitter under `pos`, if the pointer is close enough to grab one.
    pub fn bar_at(&self, pos: Point) -> (r: Option<NodeId>)
        ensures
            r == grabbed(self@.bars, pos),
    {
        let mut i: usize = 0;
        proof {
            assert(self.bars@.skip(0) =~= self.bars@);
        }
        while i < self.bars.len()
            invariant
                i <= self.bars@.len(),
                grabbed(self.bars@, pos) == grabbed(self.bars@.skip(i as int), pos),
            decreases self.bars@.len() - i,
        {
            if self.bars[i].rect.inset(grab_slop()).contains(pos) {
                return Some(self.bars[i].split);
            }
            proof {
                assert(self.bars@.skip(i as int).skip(1) =~= self.bars@.skip(i + 1));
            }
            i += 1;
        }
        None
    }

    /// Handles dragging of splitters. `handled` tells whether an area took the event.
    pub fn on_pointer_event(&mut self, event: PointerEvent, handled: bool) -> (r: ScreenResponse)
        requires
            old(self).well_formed(),
        ensures
            final(self).well_formed(),
            (final(self)@, r) == old(self)@.pointed(event, handled),
    {
        match event {
            PointerEvent::Down { button, pos } => {
                let primary = match button {
                    Some(button) => button == Button::Primary,
                    None => false,
                };
                if handled || !primary {
                    return ScreenResponse::none();
                }
                match self.bar_at(pos) {
                    Some(split) => {
                        self.drag = Some(split);
                        ScreenResponse {
                            layout: false,
                            capture: true,
                            release: false,
                            handled: true,
                        }
                    },
                    None => ScreenResponse::none(),
                }
            },
            PointerEvent::Move { pos } => {
                match self.drag {
                    Some(split) => {
                        if self.find_bar(split).is_none() {
                            return ScreenResponse::none();
                        }
                        let layout = self.drag_bar(split, pos);
                        ScreenResponse { layout, capture: false, release: false, handled: true }
                    },
                    None => ScreenResponse::none(),
                }
            },
            PointerEvent::Up | PointerEvent::Cancel => {
                if self.drag.is_none() {
                    return ScreenResponse::none();
                }
                self.drag = None;
                ScreenResponse { layout: false, capture: false, release: true, handled: true }
            },
            _ => ScreenResponse::none(),
        }
    }

    /// How long the screen would like to be. It fills its window.
    pub fn measure(&self, axis: Axis, len_req: LenReq) -> (r: Scalar)
        ensures
            r == len_req.filling(axis, Scalar::from_whole(1280), Scalar::from_whole(800)),
    {
        len_req.filling(axis, Scalar::from_whole(1280), Scalar::from_whole(800))
    }

    /// Whether `layout` can divide a screen of this size and count what it does.
    pub fn can_lay_out(&self, size: Size) -> (r: bool)
        requires
            self.well_formed(),
        ensures
            r == self@.can_lay_out(size),
    {
        let count = self.tree.area_count() as u64;
        self.tree.fits(Rect::from_origin_size(Point::origin(), size), bar_thickness())
            && self.layouts < u64::MAX && self.area_resizes <= u64::MAX - count
            && self.area_layouts <= u64::MAX - count
    }

    /// Lays the areas out at `size`, and returns where each goes.
    ///
    /// `needs_layout` tells whether the host considers an area dirty.
    pub fn layout(&mut self, size: Size, needs_layout: impl FnMut(AreaId) -> bool) -> (r: Vec<
        AreaPlacement,
    >)
        requires
            old(self).well_formed(),
            old(self)@.can_lay_out(size),
            forall|area: AreaId|
                area < old(self)@.shape.leaves() ==> #[trigger] call_requires(
                    needs_layout,
                    (area,),
                ),
        ensures
            final(self).well_formed(),
            exists|dirty: Seq<bool>|
                {
                    &&& dirty.len() == final(self)@.rects.len()
                    &&& forall|k: int|
                        0 <= k < dirty.len() ==> call_ensures(
                            needs_layout,
                            (final(self)@.rects[k].0,),
                            #[trigger] dirty[k],
                        )
                    &&& final(self)@ == old(self)@.laid_out(size, #[trigger] crate::widget::yes_count(dirty))
                },
            r@ == placements(final(self)@.rects),
    {
        self.layouts += 1;
        self.tree.layout(
            Rect::from_origin_size(Point::origin(), size),
            bar_thickness(),
            &mut self.rects,
            &mut self.bars,
        );
        let ghost start = *self;
        let ghost question = needs_layout;
        let ghost count = self.tree.shape().leaves();
        let ghost mut dirty: Seq<bool> = seq![];
        let mut needs_layout = needs_layout;
        let mut out: Vec<AreaPlacement> = Vec::with_capacity(self.rects.len());
        proof {
            let bounds = ScreenState::bounds(size);
            self.tree.law_numbering();
            crate::areas::shape::law_one_bar_less_than_areas(self.tree.shape(), bounds, bar_thickness());
            assert forall|k: int| 0 <= k < self.rects@.len() implies (#[trigger] self.rects@[k]).0
                < count by {
                assert(self.tree.shape().has_area(
                    self.tree.shape().placed(bounds, bar_thickness())[k].0,
                ));
            }
            assert(self.rects@.take(0) =~= Seq::<(AreaId, Rect)>::empty());
        }
        let mut i: usize = 0;
        while i < self.rects.len()
            invariant
                needs_layout == question,
                i <= self.rects@.len() == count,
                count == self.tree.shape().leaves(),
                *self == (AreaScreen {
                    sizes: self.sizes,
                    area_resizes: self.area_resizes,
                    area_layouts: self.area_layouts,
                    ..start
                }),
                start.area_resizes + count <= u64::MAX,
                start.area_layouts + count <= u64::MAX,
                start.sizes@.len() == count,
                self.sizes@.len() == count,
                forall|k: int| 0 <= k < self.rects@.len() ==> (#[trigger] self.rects@[k]).0 < count,
                forall|area: AreaId| area < count ==> #[trigger] call_requires(needs_layout, (area,)),
                dirty.len() == i,
                forall|k: int|
                    0 <= k < dirty.len() ==> call_ensures(
                        needs_layout,
                        (self.rects@[k].0,),
                        #[trigger] dirty[k],
                    ),
                (self.sizes@, (self.area_resizes - start.area_resizes) as nat) == settled(
                    start.sizes@,
                    self.rects@.take(i as int),
                ),
                start.area_resizes <= self.area_resizes <= start.area_resizes + i,
                self.area_layouts == start.area_layouts + crate::widget::yes_count(dirty),
                crate::widget::yes_count(dirty) <= i,
                out@ == placements(self.rects@).take(i as int),
            decreases self.rects@.len() - i,
        {
            let (area, rect) = self.rects[i];
            let area_size = rect.size();
            proof {
                assert(self.rects@.take(i + 1).drop_last() =~= self.rects@.take(i as int));
            }
            if resized(self.sizes[area], area_size) {
                self.sizes.set(area, Some(area_size));
                self.area_resizes += 1;
            }
            let needs = needs_layout(area);
            if needs {
                self.area_layouts += 1;
            }
            proof {
                let longer = dirty.push(needs);
                assert(longer.drop_last() =~= dirty);
                dirty = longer;
            }
            out.push(AreaPlacement { area, size: area_size, origin: rect.origin() });
            i += 1;
        }
        proof {
            assert(self.rects@.take(i as int) =~= self.rects@);
            assert(self@ == old(self)@.laid_out(size, crate::widget::yes_count(dirty)));
        }
        out
    }
}

} // verus!
