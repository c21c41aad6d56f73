//! Virtualisation: which nodes have a widget, and what becomes of them.

use blazy::canvas::content::CanvasContent;
use blazy::canvas::detail::Detail;
use blazy::canvas::layer::{CanvasLayer, CanvasResponse, LayerLayout};
use blazy::geometry::{Affine, Axis, Point, Rect, Size, Vec2};
use blazy::number::scalar::Scalar;
use blazy::widget::{Button, LenReq, PointerEvent};

fn s(x: f64) -> Scalar {
    Scalar { bits: x.to_bits() }
}

fn f(x: Scalar) -> f64 {
    f64::from_bits(x.bits)
}

fn point(x: f64, y: f64) -> Point {
    Point::new(s(x), s(y))
}

const COLS: usize = 80;
const STEP: f64 = 220.0;

/// A grid of nodes, slightly out of line.
fn place(i: usize) -> (Point, Size) {
    let (col, row) = (i % COLS, i / COLS);
    let h = (i as u64).wrapping_mul(0x9E37_79B9_7F4A_7C15);
    let x = col as f64 * STEP + ((h >> 33) % 61) as f64 - 30.0;
    let y = row as f64 * STEP + ((h >> 17) % 41) as f64 - 20.0;
    (point(x, y), Size::new(s(160.0), s(96.0)))
}

/// A host that builds widgets and runs the passes.
struct Host {
    layer: CanvasLayer,
    content: CanvasContent,
    /// What was built: node, its own level, the canvas-wide one, widget.
    built: Vec<(usize, Detail, Detail, u64)>,
    removed: Vec<(usize, u64)>,
    next: u64,
    repaints: usize,
    transforms: Vec<Affine>,
    size: Size,
}

impl Host {
    fn with(layer: CanvasLayer, content: CanvasContent) -> Host {
        let mut host = Host {
            layer,
            content,
            built: Vec::new(),
            removed: Vec::new(),
            next: 1,
            repaints: 0,
            transforms: Vec::new(),
            size: Size::new(s(1100.0), s(750.0)),
        };
        host.redraw();
        host
    }

    fn new(count: usize) -> Host {
        let (layer, content) = CanvasLayer::new(count, place);
        Host::with(layer, content)
    }

    fn hovering(count: usize) -> Host {
        let (layer, content) = CanvasLayer::new(count, place);
        Host::with(layer.with_controls_on_hover(true), content)
    }

    fn lay_out(&mut self) -> LayerLayout {
        let asks = self.layer.layout(&mut self.content, self.size);
        if let Some(transform) = asks.transform {
            self.transforms.push(transform);
        }
        if asks.repaint {
            self.content.paint();
            self.repaints += 1;
        }
        self.content.layout(|_| false);
        self.layer.record(&self.content);
        asks
    }

    /// A layout pass, the mutate pass that it asks for, and the layout pass after that.
    fn redraw(&mut self) {
        if self.lay_out().mutate {
            let (built, next) = (&mut self.built, &mut self.next);
            let applied = self.content.apply_pending(|index, detail, global| {
                let id = *next;
                *next += 1;
                built.push((index, detail, global, id));
                id
            });
            assert_eq!(applied.changed, !applied.removed.is_empty() || !applied.added.is_empty());
            self.removed.extend(applied.removed);
            self.lay_out();
        }
    }

    fn live(&self) -> Vec<(usize, u64)> {
        CanvasLayer::live_children(&self.content)
    }

    fn is_live(&self, index: usize) -> bool {
        self.live().iter().any(|(i, _)| *i == index)
    }

    fn pan(&mut self, x: f64, y: f64) {
        assert!(self.layer.pan(Vec2::new(s(x), s(y))));
        self.redraw();
    }

    fn zoom(&mut self, factor: f64) {
        self.layer.zoom_around(point(550.0, 375.0), s(factor));
        self.redraw();
    }

    fn send(&mut self, event: PointerEvent) -> CanvasResponse {
        self.layer.on_pointer_event(&mut self.content, event, false, false)
    }
}

#[test]
fn only_visible_nodes_are_materialised() {
    let host = Host::new(5000);
    let live = host.live();
    assert!(
        !live.is_empty() && live.len() < 100,
        "expected a viewport-bounded number of widgets, got {}",
        live.len()
    );
    assert_eq!(host.layer.stats().total, 5000);
    assert_eq!(host.layer.stats().materialised, live.len());
    assert_eq!(host.layer.stats().detail, Some(Detail::Full));
    assert_eq!(host.layer.stats().counters.builds, live.len() as u64);
}

#[test]
fn exactly_the_nodes_in_view_have_a_widget() {
    let mut host = Host::new(2000);
    for (x, y) in [(0.0, 0.0), (-700.3, 12.0), (-1000.0, -900.7)] {
        host.layer.pan(Vec2::new(s(x), s(y)));
        host.redraw();
        let seen = host.layer.visible_canvas_rect();
        let live: Vec<usize> = host.live().iter().map(|(i, _)| *i).collect();
        let expected: Vec<usize> = (0..2000)
            .filter(|i| {
                let (pos, size) = place(*i);
                Rect::from_origin_size(pos, size).overlaps(seen)
            })
            .collect();
        assert_eq!(live, expected);
    }
}

#[test]
fn materialised_count_is_independent_of_graph_size() {
    let small = Host::new(500).live().len();
    let large = Host::new(20_000).live().len();
    assert_eq!(small, large);
}

#[test]
fn nodes_dematerialise_when_panned_away() {
    let mut host = Host::new(5000);
    assert!(host.is_live(0), "node 0 should start on screen");
    host.pan(-5000.0, -3000.0);
    assert!(!host.is_live(0), "node 0 should have left the tree after panning away");
    assert!(!host.live().is_empty(), "some other nodes should have entered");
    assert!(host.removed.iter().any(|(i, _)| *i == 0));
}

#[test]
fn nodes_come_back_after_a_round_trip_out_of_view() {
    let mut host = Host::new(5000);
    let before = host.live();
    host.pan(-5000.0, -3000.0);
    host.pan(5000.0, 3000.0);
    let after = host.live();
    let nodes = |list: &[(usize, u64)]| list.iter().map(|(i, _)| *i).collect::<Vec<_>>();
    assert_eq!(nodes(&after), nodes(&before));
    assert_ne!(after, before, "the widgets are new, built from current state");
}

#[test]
fn far_field_materialises_no_widgets() {
    let mut host = Host::new(5000);
    assert!(!host.live().is_empty());
    host.zoom(0.05);
    assert!(host.live().is_empty());
    assert_eq!(host.layer.stats().detail, Some(Detail::Box));
    assert_eq!(host.layer.stats().materialised, 0);
    assert!(!host.content.paint().is_empty(), "the far field must actually be drawn");
}

#[test]
fn nothing_is_painted_above_the_far_field() {
    let mut host = Host::new(500);
    assert!(host.content.paint().is_empty());
    assert_eq!(host.content.counters().far_repaints, 0);
    host.zoom(0.05);
    assert_eq!(host.repaints, 1);
    host.zoom(20.0);
    assert!(host.content.paint().is_empty());
    assert!(!host.live().is_empty());
}

#[test]
fn far_field_nodes_stay_draggable() {
    let mut host = Host::new(5000);
    host.zoom(0.05);
    let before = CanvasLayer::child_pos(&host.content, 7).unwrap();
    let asks = CanvasLayer::move_child(&mut host.content, 7, point(f(before.x) + 500.0, f(before.y)));
    assert!(asks.layout && asks.paint, "the recording has to be redone");
    host.redraw();
    let after = CanvasLayer::child_pos(&host.content, 7).unwrap();
    assert_eq!(f(after.x), f(before.x) + 500.0);
    assert_eq!(host.repaints, 2);
}

#[test]
fn a_far_pan_inside_the_recording_repaints_nothing() {
    let mut host = Host::new(5000);
    host.zoom(0.05);
    let repaints = host.repaints;
    for _ in 0..10 {
        host.pan(20.0, 10.0);
    }
    assert_eq!(host.repaints, repaints);
    host.pan(2000.0, 0.0);
    assert_eq!(host.repaints, repaints + 1, "leaving the region re-records it");
}

#[test]
fn an_idle_canvas_stays_idle() {
    for zoom in [1.0, 0.1, 0.03] {
        let mut host = Host::new(5000);
        host.zoom(zoom);
        let (live, builds, repaints) = (host.live(), host.built.len(), host.repaints);
        for _ in 0..5 {
            let asks = host.lay_out();
            assert!(!asks.mutate && !asks.repaint && asks.transform.is_none());
        }
        assert_eq!((host.live(), host.built.len(), host.repaints), (live, builds, repaints));
    }
}

#[test]
fn a_small_pan_builds_nothing() {
    let mut host = Host::new(5000);
    let builds = host.built.len();
    host.pan(1.0, 0.0);
    host.pan(-1.0, 0.0);
    assert_eq!(host.built.len(), builds);
    assert_eq!(host.transforms.len(), 3, "one transform per view");
}

#[test]
fn crossing_a_threshold_rebuilds_in_place() {
    let mut host = Host::new(5000);
    let before = host.live();
    assert!(host.built.iter().all(|(_, detail, global, _)| (*detail, *global) == (Detail::Full, Detail::Full)));
    host.zoom(0.15);
    assert_eq!(host.layer.stats().detail, Some(Detail::Simplified));
    let after = host.live();
    for (i, id) in &before {
        let now = after.iter().find(|(j, _)| j == i).unwrap().1;
        assert_ne!(now, *id, "node {i} kept a widget of the wrong level");
        assert!(host.removed.contains(&(*i, *id)));
        assert!(host.built.contains(&(*i, Detail::Simplified, Detail::Simplified, now)));
    }
}

#[test]
fn moving_a_node_touches_only_it() {
    let mut host = Host::new(500);
    let before: Vec<_> = (0..500).map(|i| CanvasLayer::child_pos(&host.content, i)).collect();
    let asks = CanvasLayer::move_child(&mut host.content, 3, point(1.0, 2.0));
    assert!(asks.layout && !asks.paint);
    for i in 0..500 {
        let now = CanvasLayer::child_pos(&host.content, i);
        if i == 3 {
            assert_eq!(now, Some(point(1.0, 2.0)));
        } else {
            assert_eq!(now, before[i]);
        }
    }
    let again = CanvasLayer::move_child(&mut host.content, 3, point(1.0, 2.0));
    assert!(!again.layout && !again.paint, "a move to the same place is none");
    let missing = CanvasLayer::move_child(&mut host.content, 500, point(1.0, 2.0));
    assert!(!missing.layout && !missing.paint);
    assert_eq!(CanvasLayer::child_pos(&host.content, 500), None);
}

#[test]
fn layout_places_live_nodes_at_their_natural_size() {
    let mut host = Host::new(500);
    host.zoom(0.5);
    let live = host.live();
    let mut asked = Vec::new();
    let places = host.content.layout(|i| {
        asked.push(i);
        i % 2 == 0
    });
    assert_eq!(places.len(), live.len());
    for (place_of, (i, _)) in places.iter().zip(&live) {
        assert_eq!(place_of.index, *i);
        assert_eq!((place_of.pos, place_of.size), place(*i));
    }
    assert_eq!(asked, live.iter().map(|(i, _)| *i).collect::<Vec<_>>());
    let even = asked.iter().filter(|i| **i % 2 == 0).count() as u64;
    assert_eq!(host.content.counters().child_layouts, even);
}

#[test]
fn hovering_gives_controls_to_one_node() {
    let mut host = Host::hovering(500);
    assert!(host.built.iter().all(|(_, detail, _, _)| *detail == Detail::Simplified));

    let (pos, _) = place(81);
    let at = point(f(pos.x) + 10.0, f(pos.y) + 10.0);
    let asks = host.send(PointerEvent::Move { pos: at });
    assert!(asks.content.layout && !asks.handled);
    let so_far = host.built.len();
    host.redraw();
    assert_eq!(host.built.len(), so_far + 1);
    let (index, detail, global, _) = host.built[so_far];
    assert_eq!((index, detail, global), (81, Detail::Full, Detail::Full));
    assert_eq!(host.content.effective_detail(81), Detail::Full);
    assert_eq!(host.content.effective_detail(82), Detail::Simplified);

    let asks = host.send(PointerEvent::Move { pos: at });
    assert!(!asks.content.layout, "still the same node");
    let asks = host.send(PointerEvent::Leave);
    assert!(asks.content.layout);
    host.redraw();
    assert_eq!(host.content.build_spec(81), (Detail::Simplified, Detail::Full));
}

#[test]
fn without_hovering_every_node_has_controls() {
    let mut host = Host::new(500);
    assert_eq!(host.content.effective_detail(81), Detail::Full);
    let (pos, _) = place(81);
    assert_eq!(host.send(PointerEvent::Move { pos }), CanvasResponse::none());
    assert_eq!(host.send(PointerEvent::Leave), CanvasResponse::none());
}

#[test]
fn the_far_field_marks_nobody() {
    let mut host = Host::hovering(500);
    host.zoom(0.05);
    let asks = host.send(PointerEvent::Move { pos: point(550.0, 375.0) });
    assert_eq!(asks, CanvasResponse::none());
    assert_eq!(host.content.effective_detail(3), Detail::Box);
}

#[test]
fn a_press_takes_the_topmost_node() {
    let (layer, content) = CanvasLayer::new(3, |i| {
        let at = [(0.0, 0.0), (50.0, 50.0), (300.0, 0.0)][i];
        (point(at.0, at.1), Size::new(s(100.0), s(100.0)))
    });
    let host = Host::with(layer, content);
    assert_eq!(host.content.hit_child(point(75.0, 75.0)), Some((1, point(50.0, 50.0))));
    assert_eq!(host.content.hit_child(point(25.0, 25.0)), Some((0, point(0.0, 0.0))));
    assert_eq!(host.content.hit_child(point(100.0, 20.0)), None);
    assert_eq!(host.content.hit_child(point(350.0, 50.0)), Some((2, point(300.0, 0.0))));
}

#[test]
fn a_node_follows_the_pointer() {
    let mut host = Host::new(500);
    let (pos, _) = place(81);
    let grab = point(f(pos.x) + 10.0, f(pos.y) + 20.0);
    let asks = host.send(PointerEvent::Down { button: Some(Button::Primary), pos: grab });
    assert!(asks.capture && asks.handled);
    let asks = host.send(PointerEvent::Move { pos: point(f(grab.x) + 33.0, f(grab.y) - 7.0) });
    assert!(asks.handled && asks.content.layout && !asks.content.paint && !asks.layout);
    assert_eq!(
        CanvasLayer::child_pos(&host.content, 81),
        Some(point(f(pos.x) + 33.0, f(pos.y) - 7.0))
    );
    let asks = host.send(PointerEvent::Up);
    assert!(asks.release && asks.handled);
    assert_eq!(host.send(PointerEvent::Up), CanvasResponse::none());
}

/// Any number of moves, in a view of another scale: the grabbed point stays under the pointer.
#[test]
fn a_dragged_node_stays_where_it_was_grabbed() {
    let mut host = Host::new(500);
    assert!(host.layer.set_view(Affine::scale(s(0.5))));
    host.redraw();
    let before: Vec<_> = (0..500).map(|i| CanvasLayer::child_pos(&host.content, i)).collect();
    let pos = before[81].unwrap();
    let seen = (f(pos.x) * 0.5 + 8.0, f(pos.y) * 0.5 + 4.25);
    host.send(PointerEvent::Down { button: Some(Button::Primary), pos: point(seen.0, seen.1) });
    for k in 1..=20 {
        let to = (seen.0 + k as f64 * 3.5, seen.1 - (k * k) as f64);
        assert!(host.send(PointerEvent::Move { pos: point(to.0, to.1) }).handled);
        let now = CanvasLayer::child_pos(&host.content, 81).unwrap();
        assert_eq!((f(now.x) * 0.5 + 8.0, f(now.y) * 0.5 + 4.25), to);
    }
    for i in (0..500).filter(|i| *i != 81) {
        assert_eq!(CanvasLayer::child_pos(&host.content, i), before[i]);
    }
    assert!(!host.layer.set_view(Affine::scale(s(0.5))), "the view has not moved");
}

#[test]
fn content_fills_and_never_measures() {
    let host = Host::new(5);
    assert_eq!(f(host.content.measure(Axis::Horizontal, LenReq::MinContent)), 0.0);
    assert_eq!(f(host.content.measure(Axis::Vertical, LenReq::MaxContent)), 0.0);
    assert_eq!(f(host.content.measure(Axis::Vertical, LenReq::FitContent(s(9.0)))), 9.0);
}

#[test]
fn composing_is_counted() {
    let mut host = Host::new(5);
    host.content.compose();
    host.content.compose();
    assert_eq!(host.content.counters().composes, 2);
}
