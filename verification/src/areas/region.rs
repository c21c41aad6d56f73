//! Regions inside an area, each with an interface scale of its own.
//!
//! The interface scale goes into layout: changing it costs a re-layout of the region, and
//! only of the region. Panning and zooming the content of a region is another matter and
//! costs no layout at all.

use vstd::prelude::*;

use crate::geometry::{Axis, Point, Size};
use crate::number::scalar::Scalar;
use crate::widget::{resized, LenReq};

verus! {

/// What a region is for.
#[derive(Clone, Copy, Debug, PartialEq, Eq, Structural)]
pub enum RegionKind {
    /// A strip of fixed logical height across the top, scaled by its interface scale.
    Header,
    /// Whatever is left. The editor proper.
    Main,
}

/// The interface scale of a region, as a property on its root widget.
///
/// A multiplier on logical lengths, not on the render target: one is the size the
/// application was designed at.
#[derive(Clone, Copy, Debug, PartialEq)]
pub struct UiScale(pub Scalar);

impl Default for UiScale {
    fn default() -> (r: UiScale)
        ensures
            r == UiScale(Scalar::from_whole(1)),
    {
        UiScale(Scalar::from_whole(1))
    }
}

/// Cumulative counters, for spotting work that should not be happening.
#[derive(Clone, Copy, Debug, Default, PartialEq, Eq)]
pub struct RegionCounters {
    /// Layout passes run on the area's region stack.
    pub layouts: u64,
    /// Regions handed a border-box size different from their last one.
    pub resizes: u64,
    /// Times a new scale was pushed down to a region's root.
    pub scale_pushes: u64,
}

/// One region.
#[derive(Clone, Copy, Debug, PartialEq)]
pub struct Region {
    pub kind: RegionKind,
    /// The widget at the region's root.
    pub id: u64,
    /// Height of a header at scale one. Ignored for a main region.
    pub base_height: Scalar,
    pub ui_scale: Scalar,
    /// The scale the root was last told about, if it has been told.
    pub pushed_scale: Option<Scalar>,
    /// Border-box size the region was last given.
    pub size: Option<Size>,
}

impl Region {
    /// A region that nothing has happened to, from its kind, base height and widget.
    pub open spec fn fresh(of: (RegionKind, Scalar, u64)) -> Region {
        Region {
            kind: of.0,
            id: of.2,
            base_height: of.1,
            ui_scale: Scalar::from_whole(1),
            pushed_scale: None,
            size: None,
        }
    }
}

/// Where a layout pass puts one region.
#[derive(Clone, Copy, Debug, PartialEq)]
pub struct RegionPlacement {
    pub index: usize,
    pub size: Size,
    pub origin: Point,
}

/// A scale on its way to a region's root.
#[derive(Clone, Copy, Debug, PartialEq)]
pub struct ScalePush {
    pub index: usize,
    pub scale: UiScale,
}

pub open spec fn spec_usable_scale(scale: Scalar) -> Scalar {
    scale.clamp(Scalar::ratio(1, 10), Scalar::from_whole(8))
}

/// The scale, kept from a tenth to eight.
#[verifier::when_used_as_spec(spec_usable_scale)]
pub fn usable_scale(scale: Scalar) -> (r: Scalar)
    ensures
        r == usable_scale(scale),
{
    proof {
        crate::number::exact::lemma_ratio_at_most(1, 10, 8);
        crate::number::exact::lemma_from_whole(8);
    }
    scale.clamp(Scalar::ratio(1, 10), Scalar::from_whole(8))
}

/// What is left of an area of height `height` below `y`.
pub open spec fn room_below(height: Scalar, y: Scalar) -> Scalar {
    height.minus(y).max(Scalar::zero())
}

/// The height of a region that starts at `y`: headers take their scaled height, rounded
/// to whole pixels, the others and the last take the rest.
pub open spec fn region_height(region: Region, last: bool, height: Scalar, y: Scalar) -> Scalar {
    if last || region.kind == RegionKind::Main {
        room_below(height, y)
    } else {
        region.base_height.times(region.ui_scale).round().min(room_below(height, y))
    }
}

/// Where region `i` starts in an area of height `height`.
pub open spec fn region_top(regions: Seq<Region>, height: Scalar, i: nat) -> Scalar
    decreases i,
{
    if i == 0 {
        Scalar::zero()
    } else {
        let above = (i - 1) as nat;
        let y = region_top(regions, height, above);
        y.plus(region_height(regions[above as int], i == regions.len(), height, y))
    }
}

/// The size of region `i` in an area of size `size`.
pub open spec fn region_size(regions: Seq<Region>, size: Size, i: nat) -> Size {
    Size {
        width: size.width,
        height: region_height(
            regions[i as int],
            i + 1 == regions.len(),
            size.height,
            region_top(regions, size.height, i),
        ),
    }
}

/// How many of the first `n` regions a layout pass at `size` gives another size.
pub open spec fn resize_count(regions: Seq<Region>, size: Size, n: nat) -> nat
    decreases n,
{
    if n == 0 {
        0
    } else {
        let i = (n - 1) as nat;
        resize_count(regions, size, i) + if resized(
            regions[i as int].size,
            region_size(regions, size, i),
        ) {
            1nat
        } else {
            0nat
        }
    }
}

/// The state of an area's region stack.
pub struct RegionState {
    pub regions: Seq<Region>,
    /// Regions whose root needs a new scale.
    pub pending: Seq<usize>,
    pub counters: RegionCounters,
}

impl RegionState {
    /// The state of a new stack.
    pub open spec fn fresh(regions: Seq<(RegionKind, Scalar, u64)>) -> RegionState {
        RegionState {
            regions: regions.map_values(|of: (RegionKind, Scalar, u64)| Region::fresh(of)),
            pending: seq![],
            counters: RegionCounters { layouts: 0, resizes: 0, scale_pushes: 0 },
        }
    }

    /// The state after region `index` is to have `scale`.
    pub open spec fn scaled(self, index: usize, scale: Scalar) -> RegionState {
        RegionState {
            regions: self.regions.update(
                index as int,
                Region { ui_scale: usable_scale(scale), ..self.regions[index as int] },
            ),
            pending: if self.pending.contains(index) {
                self.pending
            } else {
                self.pending.push(index)
            },
            ..self
        }
    }

    /// Whether asking for `scale` at region `index` changes anything.
    pub open spec fn rescales(self, index: usize, scale: Scalar) -> bool {
        index < self.regions.len() && !self.regions[index as int].ui_scale.same(usable_scale(scale))
    }

    /// The state after all queued scales have been pushed.
    pub open spec fn pushed(self) -> RegionState {
        RegionState {
            regions: Seq::new(
                self.regions.len(),
                |i: int|
                    if self.pending.contains(i as usize) {
                        Region {
                            pushed_scale: Some(self.regions[i].ui_scale),
                            ..self.regions[i]
                        }
                    } else {
                        self.regions[i]
                    },
            ),
            pending: seq![],
            counters: RegionCounters {
                scale_pushes: (self.counters.scale_pushes + self.pending.len()) as u64,
                ..self.counters
            },
        }
    }

    /// The state after a layout pass at `size`.
    pub open spec fn laid_out(self, size: Size) -> RegionState {
        RegionState {
            regions: Seq::new(
                self.regions.len(),
                |i: int|
                    if resized(self.regions[i].size, region_size(self.regions, size, i as nat)) {
                        Region {
                            size: Some(region_size(self.regions, size, i as nat)),
                            ..self.regions[i]
                        }
                    } else {
                        self.regions[i]
                    },
            ),
            counters: RegionCounters {
                layouts: (self.counters.layouts + 1) as u64,
                resizes: (self.counters.resizes + resize_count(
                    self.regions,
                    size,
                    self.regions.len(),
                )) as u64,
                ..self.counters
            },
            ..self
        }
    }

    /// Where a layout pass at `size` puts the regions.
    pub open spec fn placements(self, size: Size) -> Seq<RegionPlacement> {
        Seq::new(
            self.regions.len(),
            |i: int|
                RegionPlacement {
                    index: i as usize,
                    size: region_size(self.regions, size, i as nat),
                    origin: Point {
                        x: Scalar::zero(),
                        y: region_top(self.regions, size.height, i as nat),
                    },
                },
        )
    }
}

/// The stack of regions filling one area.
///
/// Regions are stacked along the vertical axis, header first.
pub struct AreaContent {
    regions: Vec<Region>,
    pending: Vec<usize>,
    layouts: u64,
    resizes: u64,
    scale_pushes: u64,
}

impl View for AreaContent {
    type V = RegionState;

    closed spec fn view(&self) -> RegionState {
        RegionState {
            regions: self.regions@,
            pending: self.pending@,
            counters: RegionCounters {
                layouts: self.layouts,
                resizes: self.resizes,
                scale_pushes: self.scale_pushes,
            },
        }
    }
}

impl AreaContent {
    /// Whether every queued region is one, and none is queued twice.
    pub open spec fn well_formed(self) -> bool {
        &&& self@.pending.no_duplicates()
        &&& forall|k: int|
            0 <= k < self@.pending.len() ==> #[trigger] self@.pending[k] < self@.regions.len()
        &&& self@.regions.len() <= usize::MAX
    }

    /// Builds an area from its regions, in stacking order.
    ///
    /// With each region comes a header's height in logical pixels at scale one, and the
    /// widget at its root.
    pub fn new(regions: Vec<(RegionKind, Scalar, u64)>) -> (r: AreaContent)
        ensures
            r.well_formed(),
            r@ == RegionState::fresh(regions@),
    {
        let mut slots: Vec<Region> = Vec::with_capacity(regions.len());
        let mut i: usize = 0;
        while i < regions.len()
            invariant
                i <= regions@.len(),
                slots@.len() == i,
                forall|k: int| 0 <= k < i ==> #[trigger] slots@[k] == Region::fresh(regions@[k]),
            decreases regions@.len() - i,
        {
            let (kind, base_height, id) = regions[i];
            slots.push(
                Region {
                    kind,
                    id,
                    base_height,
                    ui_scale: Scalar::from_whole(1),
                    pushed_scale: None,
                    size: None,
                },
            );
            i += 1;
        }
        proof {
            assert(slots@ =~= RegionState::fresh(regions@).regions);
        }
        AreaContent {
            regions: slots,
            pending: Vec::new(),
            layouts: 0,
            resizes: 0,
            scale_pushes: 0,
        }
    }

    /// A header of `base_height` logical pixels above a main region.
    pub fn header_and_main(base_height: Scalar, header: u64, main: u64) -> (r: AreaContent)
        ensures
            r.well_formed(),
            r@ == RegionState::fresh(
                seq![
                    (RegionKind::Header, base_height, header),
                    (RegionKind::Main, Scalar::zero(), main),
                ],
            ),
    {
        let mut regions: Vec<(RegionKind, Scalar, u64)> = Vec::new();
        regions.push((RegionKind::Header, base_height, header));
        regions.push((RegionKind::Main, Scalar::zero(), main));
        proof {
            assert(regions@ =~= seq![
                (RegionKind::Header, base_height, header),
                (RegionKind::Main, Scalar::zero(), main),
            ]);
        }
        AreaContent::new(regions)
    }

    fn is_pending(&self, index: usize) -> (r: bool)
        ensures
            r == self@.pending.contains(index),
    {
        let mut i: usize = 0;
        while i < self.pending.len()
            invariant
                i <= self.pending@.len(),
                forall|k: int| 0 <= k < i ==> self.pending@[k] != index,
            decreases self.pending@.len() - i,
        {
            if self.pending[i] == index {
                return true;
            }
            i += 1;
        }
        false
    }

    fn scale_region(&mut self, index: usize, scale: Scalar)
        requires
            old(self).well_formed(),
            index < old(self)@.regions.len(),
        ensures
            final(self).well_formed(),
            final(self)@ == old(self)@.scaled(index, scale),
    {
        let region = self.regions[index];
        let queued = self.is_pending(index);
        self.regions.set(index, Region { ui_scale: usable_scale(scale), ..region });
        if !queued {
            self.pending.push(index);
        }
    }

    /// Builder form of `set_ui_scale`, for a scale known before the widget is in a tree.
    ///
    /// The queued value is pushed down by the first layout pass, so a region built this way
    /// is never briefly shown at the wrong size.
    pub fn with_ui_scale(self, index: usize, scale: Scalar) -> (r: AreaContent)
        requires
            self.well_formed(),
        ensures
            r.well_formed(),
            r@ == (if index < self@.regions.len() {
                self@.scaled(index, scale)
            } else {
                self@
            }),
    {
        let mut content = self;
        if index < content.regions.len() {
            content.scale_region(index, scale);
        }
        content
    }

    /// Current counters.
    pub fn counters(&self) -> (r: RegionCounters)
        ensures
            r == self@.counters,
    {
        RegionCounters {
            layouts: self.layouts,
            resizes: self.resizes,
            scale_pushes: self.scale_pushes,
        }
    }

    /// How many regions this area has.
    pub fn region_count(&self) -> (r: usize)
        ensures
            r == self@.regions.len(),
    {
        self.regions.len()
    }

    /// The widget at each region's root, in stacking order.
    pub fn region_ids(&self) -> (r: Vec<u64>)
        ensures
            r@ == self@.regions.map_values(|region: Region| region.id),
    {
        let mut ids: Vec<u64> = Vec::with_capacity(self.regions.len());
        let mut i: usize = 0;
        while i < self.regions.len()
            invariant
                i <= self.regions@.len(),
                ids@.len() == i,
                forall|k: int| 0 <= k < i ==> #[trigger] ids@[k] == self.regions@[k].id,
            decreases self.regions@.len() - i,
        {
            ids.push(self.regions[i].id);
            i += 1;
        }
        ids
    }

    /// The scale of region `index`.
    pub fn ui_scale(&self, index: usize) -> (r: Option<Scalar>)
        ensures
            r == (if index < self@.regions.len() {
                Some(self@.regions[index as int].ui_scale)
            } else {
                None
            }),
    {
        if index < self.regions.len() {
            Some(self.regions[index].ui_scale)
        } else {
            None
        }
    }

    /// Sets the interface scale of one region. Returns whether a layout pass is needed.
    ///
    /// A header's own height is a function of its scale, so the stack has to be laid out
    /// again whatever the region's root decides to do about the property.
    pub fn set_ui_scale(&mut self, index: usize, scale: Scalar) -> (r: bool)
        requires
            old(self).well_formed(),
        ensures
            final(self).well_formed(),
            r == old(self)@.rescales(index, scale),
            final(self)@ == (if r {
                old(self)@.scaled(index, scale)
            } else {
                old(self)@
            }),
    {
        if index >= self.regions.len() {
            return false;
        }
        if self.regions[index].ui_scale.same(usable_scale(scale)) {
            return false;
        }
        self.scale_region(index, scale);
        true
    }

    /// Takes the queued scales off the queue, for the host to set on the regions' roots.
    pub fn apply_pending(&mut self) -> (r: Vec<ScalePush>)
        requires
            old(self).well_formed(),
            old(self)@.counters.scale_pushes + old(self)@.pending.len() <= u64::MAX,
        ensures
            final(self).well_formed(),
            final(self)@ == old(self)@.pushed(),
            r@ == old(self)@.pending.map_values(
                |index: usize|
                    ScalePush { index, scale: UiScale(old(self)@.regions[index as int].ui_scale) },
            ),
    {
        let mut pending: Vec<usize> = Vec::new();
        core::mem::swap(&mut pending, &mut self.pending);
        let ghost start = *self;
        let mut pushes: Vec<ScalePush> = Vec::with_capacity(pending.len());
        let mut k: usize = 0;
        while k < pending.len()
            invariant
                k <= pending@.len(),
                pending@ == old(self)@.pending,
                pending@.no_duplicates(),
                forall|j: int| 0 <= j < pending@.len() ==> #[trigger] pending@[j] < start.regions@.len(),
                *self == (AreaContent {
                    regions: self.regions,
                    scale_pushes: self.scale_pushes,
                    ..start
                }),
                start.scale_pushes + pending@.len() <= u64::MAX,
                start.regions@.len() <= usize::MAX,
                self.scale_pushes == start.scale_pushes + k,
                self.regions@.len() == start.regions@.len(),
                forall|i: int|
                    0 <= i < self.regions@.len() ==> #[trigger] self.regions@[i] == (
                    if pending@.take(k as int).contains(i as usize) {
                        Region {
                            pushed_scale: Some(start.regions@[i].ui_scale),
                            ..start.regions@[i]
                        }
                    } else {
                        start.regions@[i]
                    }),
                pushes@.len() == k,
                forall|j: int|
                    0 <= j < k ==> #[trigger] pushes@[j] == (ScalePush {
                        index: pending@[j],
                        scale: UiScale(start.regions@[pending@[j] as int].ui_scale),
                    }),
            decreases pending@.len() - k,
        {
            let index = pending[k];
            let ghost before = self.regions@;
            let region = self.regions[index];
            self.regions.set(index, Region { pushed_scale: Some(region.ui_scale), ..region });
            self.scale_pushes += 1;
            pushes.push(ScalePush { index, scale: UiScale(region.ui_scale) });
            proof {
                let done = pending@.take(k as int);
                let more = pending@.take(k + 1);
                assert(more =~= done.push(index));
                assert forall|i: int| 0 <= i < self.regions@.len() implies #[trigger]
                    self.regions@[i] == (if more.contains(i as usize) {
                    Region { pushed_scale: Some(start.regions@[i].ui_scale), ..start.regions@[i] }
                } else {
                    start.regions@[i]
                }) by {
                    assert(before[i] == before[i]);
                    if more.contains(i as usize) && i != index {
                        let j = more.index_of(i as usize);
                        assert(done[j] == i as usize);
                    }
                    if done.contains(i as usize) {
                        let j = done.index_of(i as usize);
                        assert(more[j] == i as usize);
                    }
                    if i == index {
                        assert(more[k as int] == i as usize);
                        assert(!done.contains(index));
                    }
                }
            }
            k += 1;
        }
        proof {
            assert(pending@.take(k as int) =~= pending@);
            assert(self@.regions =~= old(self)@.pushed().regions);
        }
        pushes
    }

    /// Whether scales are queued for the regions' roots.
    pub fn has_pending(&self) -> (r: bool)
        ensures
            r == (self@.pending.len() > 0),
    {
        self.pending.len() > 0
    }

    /// How long the area would like to be. It fills the space it is given.
    pub fn measure(&self, axis: Axis, len_req: LenReq) -> (r: Scalar)
        ensures
            r == len_req.filling(axis, Scalar::from_whole(800), Scalar::from_whole(600)),
    {
        len_req.filling(axis, Scalar::from_whole(800), Scalar::from_whole(600))
    }

    /// Lays the regions out at `size`, and returns where each goes.
    ///
    /// Headers take their scaled height off the top; the last region gets the rest. Rounded
    /// to whole pixels: a fractional boundary would make every region count as resized.
    pub fn layout(&mut self, size: Size) -> (r: Vec<RegionPlacement>)
        requires
            old(self).well_formed(),
            old(self)@.counters.layouts < u64::MAX,
            old(self)@.counters.resizes + old(self)@.regions.len() <= u64::MAX,
        ensures
            final(self).well_formed(),
            final(self)@ == old(self)@.laid_out(size),
            r@ == old(self)@.placements(size),
    {
        self.layouts += 1;
        let ghost start = *self;
        let count = self.regions.len();
        let mut out: Vec<RegionPlacement> = Vec::with_capacity(count);
        let mut y = Scalar::zero();
        let mut i: usize = 0;
        while i < count
            invariant
                i <= count == start.regions@.len(),
                self.regions@.len() == count,
                *self == (AreaContent { regions: self.regions, resizes: self.resizes, ..start }),
                y == region_top(start.regions@, size.height, i as nat),
                start.resizes + count <= u64::MAX,
                self.resizes == start.resizes + resize_count(start.regions@, size, i as nat),
                resize_count(start.regions@, size, i as nat) <= i,
                forall|k: int|
                    0 <= k < count ==> #[trigger] self.regions@[k] == (if k < i && resized(
                        start.regions@[k].size,
                        region_size(start.regions@, size, k as nat),
                    ) {
                        Region {
                            size: Some(region_size(start.regions@, size, k as nat)),
                            ..start.regions@[k]
                        }
                    } else {
                        start.regions@[k]
                    }),
                out@.len() == i,
                forall|k: int|
                    0 <= k < i ==> #[trigger] out@[k] == (RegionPlacement {
                        index: k as usize,
                        size: region_size(start.regions@, size, k as nat),
                        origin: Point {
                            x: Scalar::zero(),
                            y: region_top(start.regions@, size.height, k as nat),
                        },
                    }),
            decreases count - i,
        {
            let region = self.regions[i];
            let last: bool = i + 1 == count;
            let room = size.height.minus(y).max(Scalar::zero());
            let height = if last {
                room
            } else {
                match region.kind {
                    RegionKind::Header => region.base_height.times(region.ui_scale).round().min(
                        room,
                    ),
                    RegionKind::Main => room,
                }
            };
            let region_size = Size::new(size.width, height);
            if resized(region.size, region_size) {
                self.regions.set(i, Region { size: Some(region_size), ..region });
                self.resizes += 1;
            }
            out.push(
                RegionPlacement {
                    index: i,
                    size: region_size,
                    origin: Point::new(Scalar::zero(), y),
                },
            );
            y = y.plus(height);
            i += 1;
        }
        proof {
            assert(self@.regions =~= old(self)@.laid_out(size).regions);
            assert(out@ =~= old(self)@.placements(size));
        }
        out
    }
}

} // verus!
