//! The viewport of a canvas: pan, zoom and the pointer.

use vstd::prelude::*;

use crate::canvas::content::{CanvasContent, CanvasCounters, ContentState};
use crate::canvas::detail::{Detail, DetailThresholds};
use crate::canvas::invalidate::{Invalidator, RequestLog, Requests};
use crate::geometry::{Affine, Axis, Point, Rect, Size, Vec2};
use crate::number::rounding::{HIDDEN, INFINITE};
use crate::number::scalar::Scalar;
use crate::widget::{Button, LenReq, PointerEvent};

verus! {

/// What the canvas is doing right now, plus counters.
///
/// Captured during the canvas's layout. The far-field repaints are counted during *paint*
/// and are therefore always one frame behind the rest.
#[derive(Clone, Copy, Debug, PartialEq)]
pub struct CanvasStats {
    /// Total number of nodes.
    pub total: usize,
    /// Nodes that currently have a widget in the tree.
    ///
    /// Zero in far-field mode, where nodes are painted rather than materialised.
    pub materialised: usize,
    /// Detail level applied at the last layout.
    pub detail: Option<Detail>,
    /// Current zoom factor.
    pub zoom: Scalar,
    /// Cumulative work counters.
    pub counters: CanvasCounters,
}

impl CanvasStats {
    /// Statistics of nothing, at the given zoom.
    pub open spec fn spec_empty(zoom: Scalar) -> CanvasStats {
        CanvasStats {
            total: 0,
            materialised: 0,
            detail: None,
            zoom,
            counters: CanvasCounters {
                content_layouts: 0,
                child_layouts: 0,
                composes: 0,
                builds: 0,
                far_repaints: 0,
            },
        }
    }

    #[verifier::when_used_as_spec(spec_empty)]
    fn empty(zoom: Scalar) -> (r: CanvasStats)
        ensures
            r == CanvasStats::spec_empty(zoom),
    {
        CanvasStats {
            total: 0,
            materialised: 0,
            detail: None,
            zoom,
            counters: CanvasCounters {
                content_layouts: 0,
                child_layouts: 0,
                composes: 0,
                builds: 0,
                far_repaints: 0,
            },
        }
    }
}

impl Default for CanvasStats {
    fn default() -> (r: CanvasStats)
        ensures
            r == CanvasStats::spec_empty(Scalar::zero()),
    {
        CanvasStats::empty(Scalar::zero())
    }
}

/// What the pointer is currently doing on the canvas.
#[derive(Clone, Copy, Debug, PartialEq)]
pub enum Drag {
    /// Nothing.
    Idle,
    /// Panning the view. Holds the last pointer position in viewport space.
    Pan { last: Point },
    /// Dragging a node. Holds its index and the grab offset in canvas space.
    Node { index: usize, grab: Vec2 },
}

/// How far the wheel moved, vertically, in the unit that the device reports.
#[derive(Clone, Copy, Debug, PartialEq)]
pub enum ScrollDelta {
    Page(Scalar),
    Line(Scalar),
    /// Physical pixels.
    Pixel(Scalar),
}

/// What the canvas asks its host to do about a pointer event.
#[derive(Clone, Copy, Debug, PartialEq, Eq, Structural)]
pub struct CanvasResponse {
    /// Run a layout pass on the canvas itself.
    pub layout: bool,
    /// What to do about the content widget.
    pub content: Requests,
    /// Send all pointer events here from now on.
    pub capture: bool,
    /// Stop doing so.
    pub release: bool,
    /// Offer the event to nobody else.
    pub handled: bool,
}

impl CanvasResponse {
    pub open spec fn spec_none() -> CanvasResponse {
        CanvasResponse {
            layout: false,
            content: Requests::none(),
            capture: false,
            release: false,
            handled: false,
        }
    }

    /// Nothing to do.
    #[verifier::when_used_as_spec(spec_none)]
    pub fn none() -> (r: CanvasResponse)
        ensures
            r == CanvasResponse::none(),
    {
        CanvasResponse {
            layout: false,
            content: Requests::none(),
            capture: false,
            release: false,
            handled: false,
        }
    }
}

/// What a layout pass asks the host to do before it lays out the content widget.
#[derive(Clone, Copy, Debug, PartialEq)]
pub struct LayerLayout {
    /// A new transform for the content widget.
    pub transform: Option<Affine>,
    /// Repaint the content widget.
    pub repaint: bool,
    /// Apply the pending changes in the next mutate pass.
    pub mutate: bool,
}

pub open spec fn spec_default_overscan() -> Scalar {
    Scalar::ratio(1, 50)
}

/// How far past the viewport nodes stay materialised, as a fraction of the viewport.
///
/// Small on purpose: the margin buys smoothness under a fast drag rather than
/// correctness, and every extra node it keeps alive is paid for in every pass.
#[verifier::when_used_as_spec(spec_default_overscan)]
pub fn default_overscan() -> (r: Scalar)
    ensures
        r == default_overscan(),
{
    Scalar::ratio(1, 50)
}

pub open spec fn spec_zoom_epsilon() -> Scalar {
    Scalar::ratio(1, 1_000_000_000)
}

/// Zoom changes smaller than this are treated as no change at all.
#[verifier::when_used_as_spec(spec_zoom_epsilon)]
pub fn zoom_epsilon() -> (r: Scalar)
    ensures
        r == zoom_epsilon(),
{
    Scalar::ratio(1, 1_000_000_000)
}

pub open spec fn spec_wheel_exponent(travel: Scalar) -> Scalar {
    travel.negated().times(Scalar::ratio(3, 2000))
}

/// The exponent of the zoom that a wheel travel in logical pixels asks for.
#[verifier::when_used_as_spec(spec_wheel_exponent)]
pub fn wheel_exponent(travel: Scalar) -> (r: Scalar)
    ensures
        r == wheel_exponent(travel),
{
    travel.negated().times(Scalar::ratio(3, 2000))
}

pub open spec fn spec_is_scale_factor(scale: Scalar) -> bool {
    !scale.negative() && HIDDEN <= scale.magnitude() < INFINITE
}

/// Whether physical pixels can be `scale` to a logical one: positive, normal and finite.
#[verifier::when_used_as_spec(spec_is_scale_factor)]
pub fn is_scale_factor(scale: Scalar) -> (r: bool)
    ensures
        r == is_scale_factor(scale),
{
    !scale.is_negative() && HIDDEN <= scale.mag() && scale.mag() < INFINITE
}

/// The state of a canvas's viewport.
#[derive(Clone, Copy, Debug)]
pub struct LayerState {
    /// Canvas-space to viewport-space transform (pan and zoom).
    pub view: Affine,
    /// Whether `view` still needs pushing down to the content widget.
    pub view_dirty: bool,
    /// Viewport size in widget coordinates, set during layout.
    pub viewport: Size,
    /// How far past the viewport to keep nodes alive, as a fraction of the viewport.
    pub overscan: Scalar,
    /// Statistics as of the last layout pass.
    pub stats: CanvasStats,
    /// Current pointer gesture.
    pub drag: Drag,
    /// Whether only the node under the pointer gets interactive controls.
    pub controls_on_hover: bool,
    /// Where the detail levels switch over.
    pub thresholds: DetailThresholds,
    /// Smallest and largest permitted zoom.
    pub zoom_limits: (Scalar, Scalar),
}

impl LayerState {
    /// The viewport of a new canvas.
    pub open spec fn fresh() -> LayerState {
        LayerState {
            view: Affine::identity(),
            view_dirty: true,
            viewport: Size::zero(),
            overscan: default_overscan(),
            stats: CanvasStats::spec_empty(Scalar::from_whole(1)),
            drag: Drag::Idle,
            controls_on_hover: false,
            thresholds: DetailThresholds::usual(),
            zoom_limits: (Scalar::ratio(1, 50), Scalar::from_whole(8)),
        }
    }

    /// The current zoom factor.
    pub open spec fn zoom(self) -> Scalar {
        self.view.a.times(self.view.a).plus(self.view.b.times(self.view.b)).sqrt()
    }

    /// The region of canvas space currently visible, plus the overscan margin.
    pub open spec fn visible_canvas_rect(self) -> Rect {
        let rect = self.view.inverse().bounds_of(
            Rect::from_origin_size(Point::origin(), self.viewport),
        );
        rect.inflate(
            rect.width().times(self.overscan),
            rect.height().times(self.overscan),
        )
    }

    /// The state with another view.
    pub open spec fn viewed(self, view: Affine) -> LayerState {
        if self.view.same(view) {
            self
        } else {
            LayerState { view, view_dirty: true, ..self }
        }
    }

    /// The view after panning by `delta`.
    pub open spec fn panned(self, delta: Vec2) -> Affine {
        Affine::translate(delta).after(self.view)
    }

    /// The factor that zooming by `factor` comes to within the limits.
    pub open spec fn limited_factor(self, factor: Scalar) -> Scalar {
        self.zoom().times(factor).clamp(self.zoom_limits.0, self.zoom_limits.1).over(self.zoom())
    }

    /// The map that zooms the viewport by `factor` about `origin`.
    pub open spec fn zoom_step(origin: Point, factor: Scalar) -> Affine {
        Affine::translate(Vec2 { x: origin.x, y: origin.y }).after(Affine::scale(factor)).after(
            Affine::translate(Vec2 { x: origin.x.negated(), y: origin.y.negated() }),
        )
    }

    /// The view that results from zooming about `origin`, if that changes anything.
    pub open spec fn zoomed_view(self, origin: Point, factor: Scalar) -> Option<Affine> {
        let factor = self.limited_factor(factor);
        if factor.minus(Scalar::from_whole(1)).abs().less(zoom_epsilon()) {
            None
        } else {
            Some(LayerState::zoom_step(origin, factor).after(self.view))
        }
    }

    /// The state after zooming about `origin`.
    pub open spec fn zoomed(self, origin: Point, factor: Scalar) -> LayerState {
        match self.zoomed_view(origin, factor) {
            Some(view) => self.viewed(view),
            None => self,
        }
    }

    /// How far the wheel moved, in logical pixels.
    pub open spec fn travelled(self, delta: ScrollDelta, scale_factor: Scalar) -> Scalar {
        (match delta {
            ScrollDelta::Page(y) => y.times(self.viewport.height.times(scale_factor)),
            ScrollDelta::Line(y) => y.times(Scalar::from_whole(120).times(scale_factor)),
            ScrollDelta::Pixel(y) => y,
        }).over(scale_factor)
    }

    /// The canvas point at a viewport position.
    pub open spec fn canvas_point(self, pos: Point) -> Point {
        self.view.inverse().at(pos)
    }

    /// The gesture that a press starts.
    pub open spec fn pressed(self, content: ContentState, button: Option<Button>, pos: Point) -> Drag {
        match button {
            Some(Button::Primary) => match content.hit(self.canvas_point(pos)) {
                Some((index, child_pos)) => Drag::Node {
                    index,
                    grab: child_pos.to(self.canvas_point(pos)),
                },
                None => Drag::Pan { last: pos },
            },
            Some(Button::Auxiliary) => Drag::Pan { last: pos },
            _ => Drag::Idle,
        }
    }

    /// What a pointer event does, and what the host is asked for.
    ///
    /// `handled` tells whether a control took the event, `captured` whether one holds the
    /// pointer.
    pub open spec fn pointed(
        self,
        content: ContentState,
        event: PointerEvent,
        handled: bool,
        captured: bool,
    ) -> (LayerState, ContentState, CanvasResponse) {
        let none = CanvasResponse::none();
        match event {
            PointerEvent::Down { button, pos } => if handled || captured {
                (self, content, none)
            } else {
                let drag = self.pressed(content, button, pos);
                (
                    LayerState { drag, ..self },
                    content,
                    if drag is Idle {
                        none
                    } else {
                        CanvasResponse { capture: true, handled: true, ..none }
                    },
                )
            },
            PointerEvent::Move { pos } => match self.drag {
                Drag::Idle => if self.controls_on_hover {
                    let hit = match content.hit(self.canvas_point(pos)) {
                        Some((index, _)) => Some(index),
                        None => None,
                    };
                    self.hovering(content, hit)
                } else {
                    (self, content, none)
                },
                Drag::Pan { last } => {
                    let view = self.panned(last.to(pos));
                    (
                        LayerState { drag: Drag::Pan { last: pos }, ..self.viewed(view) },
                        content,
                        CanvasResponse {
                            layout: !self.view.same(view),
                            handled: true,
                            ..none
                        },
                    )
                },
                Drag::Node { index, grab } => {
                    let (moved, asks) = content.moved(index, self.canvas_point(pos).back(grab));
                    (
                        self,
                        moved,
                        CanvasResponse {
                            content: Requests {
                                layout: asks.wants_layout(),
                                paint: asks.wants_paint(),
                            },
                            handled: true,
                            ..none
                        },
                    )
                },
            },
            PointerEvent::Leave => if self.controls_on_hover {
                self.hovering(content, None)
            } else {
                (self, content, none)
            },
            PointerEvent::Up | PointerEvent::Cancel => if self.drag is Idle {
                (self, content, none)
            } else {
                (
                    LayerState { drag: Drag::Idle, ..self },
                    content,
                    CanvasResponse { release: true, handled: true, ..none },
                )
            },
            PointerEvent::Scroll { travel, factor, pos } => if handled || travel.same(
                Scalar::zero(),
            ) {
                (self, content, none)
            } else {
                match self.zoomed_view(pos, factor) {
                    Some(view) => (
                        self.viewed(view),
                        content,
                        CanvasResponse { layout: !self.view.same(view), handled: true, ..none },
                    ),
                    None => (self, content, none),
                }
            },
            PointerEvent::Other => (self, content, none),
        }
    }

    /// What a pointer over node `hit`, or over none, does.
    pub open spec fn hovering(self, content: ContentState, hit: Option<usize>) -> (
        LayerState,
        ContentState,
        CanvasResponse,
    ) {
        (
            self,
            content.hovered(hit),
            CanvasResponse {
                content: Requests {
                    layout: content.active != hit && !content.far.active,
                    paint: false,
                },
                ..CanvasResponse::none()
            },
        )
    }

    /// The content as a layout pass at `size` sees it, before the cull.
    pub open spec fn looked_at(self, content: ContentState, size: Size) -> ContentState {
        content.seen(
            self.controls_on_hover,
            (LayerState { viewport: size, ..self }).visible_canvas_rect(),
            self.thresholds.for_scale(self.zoom()),
        )
    }

    /// The transform that a layout pass pushes down to the content widget, if any.
    pub open spec fn pushed_down(self) -> Option<Affine> {
        if self.view_dirty {
            Some(self.view)
        } else {
            None
        }
    }

    /// The state after the first half of a layout pass at `size`.
    pub open spec fn sized(self, size: Size) -> LayerState {
        LayerState { viewport: size, view_dirty: false, ..self }
    }

    /// The state after the second half of a layout pass.
    pub open spec fn recorded(self, content: ContentState) -> LayerState {
        LayerState {
            stats: CanvasStats {
                total: content.slots.len() as usize,
                materialised: content.live.len() as usize,
                detail: content.detail,
                zoom: self.zoom(),
                counters: content.counters,
            },
            ..self
        }
    }
}

/// A canvas of freely positioned nodes with a pan/zoom view.
///
/// This is the viewport: fixed size, clips its content, and owns the view transform which
/// it pushes down to its content during layout.
pub struct CanvasLayer {
    state: LayerState,
}

impl View for CanvasLayer {
    type V = LayerState;

    closed spec fn view(&self) -> LayerState {
        self.state
    }
}

impl CanvasLayer {
    /// Whether the zoom limits are in order.
    pub open spec fn well_formed(self) -> bool {
        self@.zoom_limits.0.at_most(self@.zoom_limits.1)
    }

    /// Creates a canvas over `count` nodes: the viewport, and its content.
    ///
    /// `geometry` supplies each node's position and size. Only the geometry is stored up
    /// front.
    pub fn new(count: usize, geometry: impl FnMut(usize) -> (Point, Size)) -> (r: (
        CanvasLayer,
        CanvasContent,
    ))
        requires
            forall|i: usize| i < count ==> #[trigger] call_requires(geometry, (i,)),
        ensures
            r.0.well_formed(),
            r.0@ == LayerState::fresh(),
            r.1.well_formed(),
            exists|places: Seq<(Point, Size)>|
                {
                    &&& places.len() == count
                    &&& forall|i: int|
                        0 <= i < count ==> call_ensures(
                            geometry,
                            (i as usize,),
                            #[trigger] places[i],
                        )
                    &&& r.1@ == #[trigger] ContentState::fresh(places)
                },
    {
        let ghost question = geometry;
        let mut geometry = geometry;
        let mut places: Vec<(Point, Size)> = Vec::with_capacity(count);
        let mut i: usize = 0;
        while i < count
            invariant
                geometry == question,
                i <= count,
                places@.len() == i,
                forall|i: usize| i < count ==> #[trigger] call_requires(geometry, (i,)),
                forall|k: int|
                    0 <= k < i ==> call_ensures(geometry, (k as usize,), #[trigger] places@[k]),
            decreases count - i,
        {
            places.push(geometry(i));
            i += 1;
        }
        proof {
            crate::number::exact::lemma_ratio_at_most(1, 50, 8);
            crate::number::exact::lemma_from_whole(8);
        }
        let thresholds = DetailThresholds::default();
        let layer = CanvasLayer {
            state: LayerState {
                view: Affine::identity(),
                view_dirty: true,
                viewport: Size::zero(),
                overscan: default_overscan(),
                stats: CanvasStats::empty(Scalar::from_whole(1)),
                drag: Drag::Idle,
                controls_on_hover: false,
                thresholds,
                zoom_limits: (Scalar::ratio(1, 50), Scalar::from_whole(8)),
            },
        };
        (layer, CanvasContent::new(places))
    }

    /// Materialises interactive controls only for the node under the pointer.
    ///
    /// Off by default. When on, every other node gets whatever its simplified form paints
    /// instead of real control widgets.
    pub fn with_controls_on_hover(self, enabled: bool) -> (r: CanvasLayer)
        requires
            self.well_formed(),
        ensures
            r.well_formed(),
            r@ == (LayerState { controls_on_hover: enabled, ..self@ }),
    {
        CanvasLayer { state: LayerState { controls_on_hover: enabled, ..self.state } }
    }

    /// The current zoom factor, derived from the view transform.
    pub fn zoom(&self) -> (r: Scalar)
        ensures
            r == self@.zoom(),
    {
        let view = self.state.view;
        view.a.times(view.a).plus(view.b.times(view.b)).sqrt()
    }

    /// Statistics as of the last layout pass.
    pub fn stats(&self) -> (r: CanvasStats)
        ensures
            r == self@.stats,
    {
        self.state.stats
    }

    /// The region of canvas space currently visible, plus the overscan margin.
    pub fn visible_canvas_rect(&self) -> (r: Rect)
        ensures
            r == self@.visible_canvas_rect(),
    {
        let viewport = Rect::from_origin_size(Point::origin(), self.state.viewport);
        let rect = self.state.view.inverse().bounds_of(viewport);
        rect.inflate(
            rect.width().times(self.state.overscan),
            rect.height().times(self.state.overscan),
        )
    }

    /// Records a new view transform. Returns whether a layout pass is needed.
    #[must_use]
    pub fn store_view(&mut self, view: Affine) -> (r: bool)
        requires
            old(self).well_formed(),
        ensures
            final(self).well_formed(),
            final(self)@ == old(self)@.viewed(view),
            r == !old(self)@.view.same(view),
    {
        if self.state.view.same(view) {
            return false;
        }
        self.state.view = view;
        self.state.view_dirty = true;
        true
    }

    /// Sets the view transform. Returns whether a layout pass is needed.
    ///
    /// Culling depends on the view, so the canvas itself has to be laid out. The content
    /// widget does not: node positions are in canvas coordinates.
    pub fn set_view(&mut self, view: Affine) -> (r: bool)
        requires
            old(self).well_formed(),
        ensures
            final(self).well_formed(),
            final(self)@ == old(self)@.viewed(view),
            r == !old(self)@.view.same(view),
    {
        self.store_view(view)
    }

    /// Pans the view by a delta in viewport coordinates. Returns whether a layout pass is
    /// needed.
    pub fn pan(&mut self, delta: Vec2) -> (r: bool)
        requires
            old(self).well_formed(),
        ensures
            final(self).well_formed(),
            final(self)@ == old(self)@.viewed(old(self)@.panned(delta)),
            r == !old(self)@.view.same(old(self)@.panned(delta)),
    {
        let view = Affine::translate(delta).after(self.state.view);
        self.set_view(view)
    }

    /// The view that results from zooming about `origin`, or `None` if the zoom is already
    /// at its limit.
    pub fn zoomed_view(&self, origin: Point, factor: Scalar) -> (r: Option<Affine>)
        requires
            self.well_formed(),
        ensures
            r == self@.zoomed_view(origin, factor),
    {
        let current = self.zoom();
        let limits = self.state.zoom_limits;
        let clamped = current.times(factor).clamp(limits.0, limits.1);
        let factor = clamped.over(current);
        if factor.minus(Scalar::from_whole(1)).abs().less(zoom_epsilon()) {
            return None;
        }
        // Zoom about the cursor: the canvas point under `origin` stays under it.
        Some(
            Affine::translate(Vec2::new(origin.x, origin.y)).after(Affine::scale(factor)).after(
                Affine::translate(Vec2::new(origin.x.negated(), origin.y.negated())),
            ).after(self.state.view),
        )
    }

    /// Zooms around a fixed point given in viewport coordinates. Returns whether a layout
    /// pass is needed.
    pub fn zoom_around(&mut self, origin: Point, factor: Scalar) -> (r: bool)
        requires
            old(self).well_formed(),
        ensures
            final(self).well_formed(),
            final(self)@ == old(self)@.zoomed(origin, factor),
            r == (old(self)@.zoomed_view(origin, factor) matches Some(view)
                && !old(self)@.view.same(view)),
    {
        match self.zoomed_view(origin, factor) {
            Some(view) => self.set_view(view),
            None => false,
        }
    }

    /// Moves a node to a new canvas-space position. Returns what the content widget needs.
    pub fn move_child(content: &mut CanvasContent, index: usize, pos: Point) -> (r: Requests)
        requires
            old(content).well_formed(),
        ensures
            final(content).well_formed(),
            final(content)@ == old(content)@.moved(index, pos).0,
            r.layout == old(content)@.moved(index, pos).1.wants_layout(),
            r.paint == old(content)@.moved(index, pos).1.wants_paint(),
    {
        let mut log = RequestLog::new();
        let change = content.store_child_pos(index, pos);
        change.apply(&mut log);
        proof {
            assert(log.asked() =~= change.wants());
            change.lemma_wants();
        }
        log.summary()
    }

    /// The nodes that currently have a widget, with it.
    ///
    /// The list changes as nodes scroll in and out.
    pub fn live_children(content: &CanvasContent) -> (r: Vec<(usize, u64)>)
        requires
            content.well_formed(),
        ensures
            r@ == content@.live_children(),
    {
        content.live_children()
    }

    /// The canvas-space position of a node.
    pub fn child_pos(content: &CanvasContent, index: usize) -> (r: Option<Point>)
        ensures
            r == (if index < content@.slots.len() {
                Some(content@.slots[index as int].pos)
            } else {
                None
            }),
    {
        content.child_pos(index)
    }

    fn canvas_point(&self, pos: Point) -> (r: Point)
        ensures
            r == self@.canvas_point(pos),
    {
        self.state.view.inverse().at(pos)
    }

    fn hover(&self, content: &mut CanvasContent, hit: Option<usize>) -> (r: CanvasResponse)
        requires
            old(content).well_formed(),
        ensures
            final(content).well_formed(),
            (self@, final(content)@, r) == self@.hovering(old(content)@, hit),
    {
        let layout = content.set_active(hit);
        CanvasResponse {
            layout: false,
            content: Requests { layout, paint: false },
            capture: false,
            release: false,
            handled: false,
        }
    }

    /// Handles pan, zoom and node dragging.
    ///
    /// Runs after the event has been offered to the widget under the pointer: a control
    /// inside a node gets first refusal. `handled` tells whether it took the event,
    /// `captured` whether it holds the pointer.
    pub fn on_pointer_event(
        &mut self,
        content: &mut CanvasContent,
        event: PointerEvent,
        handled: bool,
        captured: bool,
    ) -> (r: CanvasResponse)
        requires
            old(self).well_formed(),
            old(content).well_formed(),
        ensures
            final(self).well_formed(),
            final(content).well_formed(),
            (final(self)@, final(content)@, r) == old(self)@.pointed(
                old(content)@,
                event,
                handled,
                captured,
            ),
    {
        match event {
            PointerEvent::Down { button, pos } => {
                if handled || captured {
                    return CanvasResponse::none();
                }
                let canvas_pos = self.canvas_point(pos);
                self.state.drag = match button {
                    // The primary button drags a node if there is one under the pointer,
                    // and pans otherwise.
                    Some(Button::Primary) => match content.hit_child(canvas_pos) {
                        Some((index, child_pos)) => Drag::Node {
                            index,
                            grab: child_pos.to(canvas_pos),
                        },
                        None => Drag::Pan { last: pos },
                    },
                    Some(Button::Auxiliary) => Drag::Pan { last: pos },
                    _ => Drag::Idle,
                };
                match self.state.drag {
                    Drag::Idle => CanvasResponse::none(),
                    _ => CanvasResponse {
                        layout: false,
                        content: Requests::none(),
                        capture: true,
                        release: false,
                        handled: true,
                    },
                }
            },
            PointerEvent::Move { pos } => match self.state.drag {
                Drag::Idle => {
                    if !self.state.controls_on_hover {
                        return CanvasResponse::none();
                    }
                    let hit: Option<usize> = match content.hit_child(self.canvas_point(pos)) {
                        Some((index, _)) => Some(index),
                        None => None,
                    };
                    self.hover(content, hit)
                },
                Drag::Pan { last } => {
                    self.state.drag = Drag::Pan { last: pos };
                    let view = Affine::translate(last.to(pos)).after(self.state.view);
                    let layout = self.store_view(view);
                    CanvasResponse {
                        layout,
                        content: Requests::none(),
                        capture: false,
                        release: false,
                        handled: true,
                    }
                },
                Drag::Node { index, grab } => {
                    let to = self.canvas_point(pos).back(grab);
                    let requests = CanvasLayer::move_child(content, index, to);
                    CanvasResponse {
                        layout: false,
                        content: requests,
                        capture: false,
                        release: false,
                        handled: true,
                    }
                },
            },
            PointerEvent::Leave => {
                if !self.state.controls_on_hover {
                    return CanvasResponse::none();
                }
                self.hover(content, None)
            },
            PointerEvent::Up | PointerEvent::Cancel => match self.state.drag {
                Drag::Idle => CanvasResponse::none(),
                _ => {
                    self.state.drag = Drag::Idle;
                    CanvasResponse {
                        layout: false,
                        content: Requests::none(),
                        capture: false,
                        release: true,
                        handled: true,
                    }
                },
            },
            PointerEvent::Scroll { travel, factor, pos } => {
                if handled || travel.same(Scalar::zero()) {
                    return CanvasResponse::none();
                }
                match self.zoomed_view(pos, factor) {
                    Some(view) => {
                        let layout = self.store_view(view);
                        CanvasResponse {
                            layout,
                            content: Requests::none(),
                            capture: false,
                            release: false,
                            handled: true,
                        }
                    },
                    None => CanvasResponse::none(),
                }
            },
            PointerEvent::Other => CanvasResponse::none(),
        }
    }

    /// How far the wheel moved, in logical pixels.
    ///
    /// A line is 120 logical pixels, a page the height of the viewport.
    pub fn wheel_travel(&self, delta: ScrollDelta, scale_factor: Scalar) -> (r: Scalar)
        requires
            is_scale_factor(scale_factor),
        ensures
            r == (match delta {
                ScrollDelta::Page(y) => y.times(self@.viewport.height.times(scale_factor)),
                ScrollDelta::Line(y) => y.times(Scalar::from_whole(120).times(scale_factor)),
                ScrollDelta::Pixel(y) => y,
            }).over(scale_factor),
            r == self@.travelled(delta, scale_factor),
    {
        let physical = match delta {
            ScrollDelta::Page(y) => y.times(self.state.viewport.height.times(scale_factor)),
            ScrollDelta::Line(y) => y.times(Scalar::from_whole(120).times(scale_factor)),
            ScrollDelta::Pixel(y) => y,
        };
        physical.over(scale_factor)
    }

    /// How long the canvas would like to be. It fills whatever space it is given.
    pub fn measure(&self, axis: Axis, len_req: LenReq) -> (r: Scalar)
        ensures
            r == len_req.filling(axis, Scalar::from_whole(800), Scalar::from_whole(600)),
    {
        len_req.filling(axis, Scalar::from_whole(800), Scalar::from_whole(600))
    }

    /// The first half of a layout pass at `size`: pushes the view down and culls.
    ///
    /// The host then does what is asked, lays out the content widget at `size`, and calls
    /// `record`.
    pub fn layout(&mut self, content: &mut CanvasContent, size: Size) -> (r: LayerLayout)
        requires
            old(self).well_formed(),
            old(content).well_formed(),
        ensures
            final(self).well_formed(),
            final(content).well_formed(),
            final(self)@ == old(self)@.sized(size),
            ({
                let culled = old(self)@.looked_at(old(content)@, size).culled();
                &&& final(content)@ == culled.repainting()
                &&& r.repaint == culled.far.dirty
                &&& r.mutate == culled.pending is Some
            }),
            r.transform == (if old(self)@.view_dirty {
                Some(old(self)@.view)
            } else {
                None
            }),
            r.transform == old(self)@.pushed_down(),
    {
        self.state.viewport = size;
        let visible_rect = self.visible_canvas_rect();
        let detail = self.state.thresholds.for_scale(self.zoom());
        let view_dirty = self.state.view_dirty;
        self.state.view_dirty = false;
        content.see(self.state.controls_on_hover, visible_rect, detail);
        content.cull();
        let repaint = content.take_repaint();
        LayerLayout {
            transform: if view_dirty {
                Some(self.state.view)
            } else {
                None
            },
            repaint,
            mutate: content.has_pending(),
        }
    }

    /// The second half of a layout pass: refreshes the statistics.
    pub fn record(&mut self, content: &CanvasContent)
        requires
            old(self).well_formed(),
            content.well_formed(),
        ensures
            final(self).well_formed(),
            final(self)@ == old(self)@.recorded(content@),
    {
        self.state.stats = CanvasStats {
            total: content.total(),
            materialised: content.materialised(),
            detail: content.detail(),
            zoom: self.zoom(),
            counters: content.counters(),
        };
    }
}

} // verus!
