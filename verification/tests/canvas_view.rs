//! Panning, zooming and the pointer.

use blazy::canvas::content::CanvasContent;
use blazy::canvas::layer::{
    default_overscan, is_scale_factor, wheel_exponent, zoom_epsilon, CanvasLayer, CanvasResponse, CanvasStats, ScrollDelta,
};
use blazy::geometry::{Affine, Axis, Point, Rect, Size, Vec2};
use blazy::number::scalar::Scalar;
use blazy::widget::{Button, LenReq, PointerEvent};
use masonry::kurbo;

fn s(x: f64) -> Scalar {
    Scalar { bits: x.to_bits() }
}

fn f(x: Scalar) -> f64 {
    f64::from_bits(x.bits)
}

fn point(x: f64, y: f64) -> Point {
    Point::new(s(x), s(y))
}

fn affine(c: [f64; 6]) -> Affine {
    Affine { a: s(c[0]), b: s(c[1]), c: s(c[2]), d: s(c[3]), e: s(c[4]), f: s(c[5]) }
}

fn coeffs(m: Affine) -> [f64; 6] {
    [f(m.a), f(m.b), f(m.c), f(m.d), f(m.e), f(m.f)]
}

/// A canvas with no nodes, laid out once.
fn canvas() -> (CanvasLayer, CanvasContent) {
    let (mut layer, mut content) = CanvasLayer::new(0, |_| (Point::origin(), Size::zero()));
    layer.layout(&mut content, Size::new(s(1100.0), s(750.0)));
    layer.record(&content);
    (layer, content)
}

fn view(layer: &mut CanvasLayer, content: &mut CanvasContent) -> [f64; 6] {
    // A view that has not been pushed down yet comes with the next layout pass.
    let asks = layer.layout(content, Size::new(s(1100.0), s(750.0)));
    coeffs(asks.transform.expect("the view has changed"))
}

#[test]
fn a_new_canvas_shows_everything_at_its_own_size() {
    let (layer, _) = CanvasLayer::new(0, |_| (Point::origin(), Size::zero()));
    assert_eq!(f(layer.zoom()), 1.0);
    assert_eq!(f(layer.stats().zoom), 1.0);
    assert_eq!(layer.stats().total, 0);
    assert_eq!(f(CanvasStats::default().zoom), 0.0);
    assert_eq!(CanvasStats::default().detail, None);
}

#[test]
fn the_margin_is_a_fraction_of_the_viewport() {
    let (layer, _) = canvas();
    let r = layer.visible_canvas_rect();
    assert_eq!([f(r.x0), f(r.y0), f(r.x1), f(r.y1)], [-22.0, -15.0, 1122.0, 765.0]);
    assert_eq!(f(default_overscan()), 0.02);
}

#[test]
fn the_visible_rect_follows_the_view() {
    let (mut layer, _) = canvas();
    assert!(layer.set_view(affine([2.0, 0.0, 0.0, 2.0, 100.0, -50.0])));
    let r = layer.visible_canvas_rect();
    // -50 to 500 and 25 to 400, and 0.02 of that around.
    assert_eq!([f(r.x0), f(r.y0), f(r.x1), f(r.y1)], [-61.0, 17.5, 511.0, 407.5]);
}

#[test]
fn an_unchanged_view_asks_for_nothing() {
    let (mut layer, mut content) = canvas();
    assert!(!layer.set_view(Affine::identity()));
    assert!(!layer.pan(Vec2::new(s(0.0), s(0.0))));
    let asks = layer.layout(&mut content, Size::new(s(1100.0), s(750.0)));
    assert!(asks.transform.is_none());
    assert!(layer.store_view(affine([1.0, 0.0, 0.0, 1.0, 1.0, 0.0])));
}

#[test]
fn panning_moves_the_view_by_the_delta() {
    let (mut layer, mut content) = canvas();
    layer.set_view(affine([0.5, 0.0, 0.0, 0.5, 10.0, 20.0]));
    assert!(layer.pan(Vec2::new(s(3.0), s(-4.0))));
    assert_eq!(view(&mut layer, &mut content), [0.5, 0.0, 0.0, 0.5, 13.0, 16.0]);
}

#[test]
fn zooming_keeps_the_point_under_the_cursor() {
    let (mut layer, mut content) = canvas();
    layer.set_view(affine([0.5, 0.0, 0.0, 0.5, 10.0, 20.0]));
    let origin = point(300.0, 200.0);
    // The canvas point there is (580, 360).
    assert!(layer.zoom_around(origin, s(1.5)));
    let m = view(&mut layer, &mut content);
    assert_eq!(m[0], 0.75);
    let (x, y) = (m[0] * 580.0 + m[4], m[3] * 360.0 + m[5]);
    assert_eq!((x, y), (300.0, 200.0));
    assert_eq!(f(layer.zoom()), 0.75);
}

#[test]
fn a_zoom_step_fixes_its_origin_exactly() {
    for x in [0.0, 1.0, 0.1, 333.3, -17.77, 1e9 / 7.0, 5e-324, 1e300] {
        for factor in [0.5, 0.7, 0.835, 1.0, 1.197, 1.9999, 2.0] {
            let o = point(x, x * 0.3);
            let step = Affine::translate(Vec2::new(o.x, o.y))
                .after(Affine::scale(s(factor)))
                .after(Affine::translate(Vec2::new(o.x.negated(), o.y.negated())));
            assert_eq!(step.at(o), o, "{x} by {factor}");
        }
    }
}

/// Wherever the view is, the canvas point under the pointer stays under it.
#[test]
fn a_zoom_keeps_the_anchor_through_any_view() {
    let (mut layer, mut content) = canvas();
    let mut k: u64 = 1;
    let mut next = |range: f64| {
        k = k.wrapping_mul(6364136223846793005).wrapping_add(1442695040888963407);
        ((k >> 11) as f64 / (1u64 << 53) as f64 - 0.5) * range
    };
    for _ in 0..300 {
        let origin = point(next(2200.0), next(1500.0));
        let before = {
            layer.set_view(affine([1.0 + next(1.0), 0.0, 0.0, 1.0 + next(1.0), next(1e6), next(1e6)]));
            view(&mut layer, &mut content)
        };
        let p = ((f(origin.x) - before[4]) / before[0], (f(origin.y) - before[5]) / before[3]);
        if !layer.zoom_around(origin, s(3.0 + next(5.9))) {
            continue;
        }
        let after = view(&mut layer, &mut content);
        assert!((after[0] * p.0 + after[4] - f(origin.x)).abs() < 1.0 / 128.0);
        assert!((after[3] * p.1 + after[5] - f(origin.y)).abs() < 1.0 / 128.0);
        assert_eq!((after[1], after[2]), (0.0, 0.0), "a zoom neither turns nor skews");
    }
}

#[test]
fn zooming_stops_at_the_limits() {
    let (mut layer, _) = canvas();
    assert!(layer.zoom_around(point(0.0, 0.0), s(100.0)));
    assert_eq!(f(layer.zoom()), 8.0);
    assert!(!layer.zoom_around(point(0.0, 0.0), s(2.0)), "already at the limit");
    assert!(layer.zoomed_view(point(5.0, 5.0), s(1.5)).is_none());
    assert!(layer.zoom_around(point(0.0, 0.0), s(1e-9)));
    assert_eq!(f(layer.zoom()), 0.02);
    assert!(!layer.zoom_around(point(0.0, 0.0), s(0.5)));
}

#[test]
fn a_tiny_zoom_is_none() {
    let (layer, _) = canvas();
    assert_eq!(f(zoom_epsilon()), 1e-9);
    assert!(layer.zoomed_view(point(1.0, 1.0), s(1.0 + 1e-10)).is_none());
    assert!(layer.zoomed_view(point(1.0, 1.0), s(1.0 + 1e-8)).is_some());
}

#[test]
fn zoom_is_the_length_of_the_first_column() {
    let (mut layer, _) = canvas();
    layer.set_view(affine([3.0, 4.0, -4.0, 3.0, 0.0, 0.0]));
    assert_eq!(f(layer.zoom()), 5.0);
}

#[test]
fn the_wheel_zooms_about_the_pointer() {
    let (mut layer, mut content) = canvas();
    let travel = s(-100.0);
    let factor = f(wheel_exponent(travel)).exp();
    assert_eq!(f(wheel_exponent(travel)), 100.0 * 0.0015);
    let event = PointerEvent::Scroll { travel, factor: s(factor), pos: point(64.0, 32.0) };
    let r = layer.on_pointer_event(&mut content, event, false, false);
    assert!(r.layout && r.handled && !r.content.layout);
    assert_eq!(f(layer.zoom()), factor);

    let m = view(&mut layer, &mut content);
    assert!((m[0] * 64.0 + m[4] - 64.0).abs() < 1e-9);
}

#[test]
fn a_wheel_that_did_not_move_or_was_taken_zooms_nothing() {
    let (mut layer, mut content) = canvas();
    let still = PointerEvent::Scroll { travel: s(0.0), factor: s(1.5), pos: point(1.0, 1.0) };
    assert_eq!(layer.on_pointer_event(&mut content, still, false, false), CanvasResponse::none());
    let taken = PointerEvent::Scroll { travel: s(5.0), factor: s(1.5), pos: point(1.0, 1.0) };
    assert_eq!(layer.on_pointer_event(&mut content, taken, true, false), CanvasResponse::none());
    let same = PointerEvent::Scroll { travel: s(5.0), factor: s(1.0), pos: point(1.0, 1.0) };
    assert_eq!(layer.on_pointer_event(&mut content, same, false, false), CanvasResponse::none());
    assert_eq!(f(layer.zoom()), 1.0);
}

#[test]
fn wheel_travel_is_in_logical_pixels() {
    let (layer, _) = canvas();
    assert_eq!(f(layer.wheel_travel(ScrollDelta::Line(s(-1.0)), s(2.0))), -120.0);
    assert_eq!(f(layer.wheel_travel(ScrollDelta::Page(s(0.5)), s(1.25))), 375.0);
    assert_eq!(f(layer.wheel_travel(ScrollDelta::Pixel(s(30.0)), s(2.0))), 15.0);
}

#[test]
fn scale_factors_are_positive_and_normal() {
    for (x, ok) in [
        (1.0, true),
        (1.5, true),
        (0.0, false),
        (-1.0, false),
        (f64::NAN, false),
        (f64::INFINITY, false),
        (5e-324, false),
        (f64::MIN_POSITIVE, true),
    ] {
        assert_eq!(is_scale_factor(s(x)), ok, "{x:e}");
    }
}

#[test]
fn the_middle_button_and_empty_canvas_pan() {
    for button in [Button::Auxiliary, Button::Primary] {
        let (mut layer, mut content) = canvas();
        let press = PointerEvent::Down { button: Some(button), pos: point(10.0, 10.0) };
        let r = layer.on_pointer_event(&mut content, press, false, false);
        assert!(r.capture && r.handled);
        let drag = PointerEvent::Move { pos: point(15.0, 4.0) };
        let r = layer.on_pointer_event(&mut content, drag, false, false);
        assert!(r.layout && r.handled);
        let drag = PointerEvent::Move { pos: point(16.0, 4.0) };
        layer.on_pointer_event(&mut content, drag, false, false);
        assert_eq!(view(&mut layer, &mut content), [1.0, 0.0, 0.0, 1.0, 6.0, -6.0]);
        let r = layer.on_pointer_event(&mut content, PointerEvent::Cancel, false, false);
        assert!(r.release && r.handled);
    }
}

#[test]
fn controls_come_first() {
    let (mut layer, mut content) = canvas();
    let press = PointerEvent::Down { button: Some(Button::Primary), pos: point(10.0, 10.0) };
    let taken = layer.on_pointer_event(&mut content, press, true, false);
    assert_eq!(taken, CanvasResponse::none());
    let held = layer.on_pointer_event(&mut content, press, false, true);
    assert_eq!(held, CanvasResponse::none());
    let other = PointerEvent::Down { button: Some(Button::Other), pos: point(10.0, 10.0) };
    assert_eq!(layer.on_pointer_event(&mut content, other, false, false), CanvasResponse::none());
    assert_eq!(
        layer.on_pointer_event(&mut content, PointerEvent::Other, false, false),
        CanvasResponse::none()
    );
}

#[test]
fn a_canvas_fills_its_space() {
    let (layer, _) = canvas();
    assert_eq!(f(layer.measure(Axis::Horizontal, LenReq::MinContent)), 0.0);
    assert_eq!(f(layer.measure(Axis::Horizontal, LenReq::MaxContent)), 800.0);
    assert_eq!(f(layer.measure(Axis::Vertical, LenReq::MaxContent)), 600.0);
    assert_eq!(f(layer.measure(Axis::Vertical, LenReq::FitContent(s(7.0)))), 7.0);
}

#[test]
fn geometry_agrees_with_the_usual_library() {
    let numbers = [0.0, 1.0, -2.5, 13.37, 400.0, -0.125, 1e6 / 3.0];
    let mut k = 0;
    let mut next = || {
        k += 1;
        numbers[(k * k + 3 * k) % numbers.len()] + (k % 11) as f64
    };
    for _ in 0..200 {
        let c = [next() + 0.5, next(), next() * 0.5, next() - 3.25, next(), next()];
        let d = [next() + 2.5, next(), next(), next() * 1.75, next(), next()];
        let (m, n) = (affine(c), affine(d));
        let (km, kn) = (kurbo::Affine::new(c), kurbo::Affine::new(d));
        assert_eq!(coeffs(m.after(n)), (km * kn).as_coeffs());
        if km.determinant() != 0.0 {
            assert_eq!(coeffs(m.inverse()), km.inverse().as_coeffs());
        }
        let r = [next(), next(), next(), next()];
        let ours = Rect::new(s(r[0]), s(r[1]), s(r[2]), s(r[3]));
        let theirs = kurbo::Rect::new(r[0], r[1], r[2], r[3]);
        let edges = |r: Rect| [f(r.x0), f(r.y0), f(r.x1), f(r.y1)];
        let kedges = |r: kurbo::Rect| [r.x0, r.y0, r.x1, r.y1];
        assert_eq!(edges(m.bounds_of(ours)), kedges(km.transform_rect_bbox(theirs)));
        assert_eq!(edges(ours.abs()), kedges(theirs.abs()));
        assert_eq!(edges(ours.inflate(s(2.5), s(-1.0))), kedges(theirs.inflate(2.5, -1.0)));
        assert_eq!(edges(ours.inset(s(3.0))), kedges(theirs.inset(3.0)));
        let (px, py) = (next(), next());
        let p = point(px, py);
        let kp = kurbo::Point::new(px, py);
        let at = m.at(p);
        let kat = km * kp;
        assert_eq!((f(at.x), f(at.y)), (kat.x, kat.y));
        assert_eq!(ours.contains(p), theirs.contains(kp));
        let size = (next().abs(), next());
        let boxed = Rect::from_origin_size(p, Size::new(s(size.0), s(size.1)));
        let kboxed = kurbo::Rect::from_origin_size(kp, kurbo::Size::new(size.0, size.1));
        assert_eq!(edges(boxed), kedges(kboxed));
        assert_eq!(edges(boxed.union(ours)), kedges(kboxed.union(theirs)));
        assert_eq!(f(ours.width()), theirs.width());
        assert_eq!(f(ours.height()), theirs.height());
        assert_eq!(boxed.overlaps(ours.abs()), kboxed.overlaps(theirs.abs()));
    }
}

/// However many moves it takes, a pan adds up to the way the pointer went.
#[test]
fn a_pan_adds_up_to_the_whole_way() {
    for steps in [1, 2, 7, 100] {
        for end in [PointerEvent::Up, PointerEvent::Cancel] {
            let (mut layer, mut content) = canvas();
            layer.set_view(affine([0.75, 0.0, 0.0, 0.75, 10.5, -20.25]));
            let press = PointerEvent::Down { button: Some(Button::Primary), pos: point(33.25, 44.5) };
            assert!(layer.on_pointer_event(&mut content, press, false, false).capture);
            for k in 1..=steps {
                // Back and forth, and at last to (400.75, 300).
                let way = if k == steps { 0.0 } else { (k * k % 17) as f64 * 0.125 };
                let pos = point(400.75 - way, 300.0 + way);
                let r = layer.on_pointer_event(&mut content, PointerEvent::Move { pos }, k % 2 == 0, false);
                assert!(r.handled);
            }
            let there = [0.75, 0.0, 0.0, 0.75, 10.5 + 367.5, -20.25 + 255.5];
            assert_eq!(view(&mut layer, &mut content), there);
            assert!(layer.on_pointer_event(&mut content, end, false, false).release);
            let late = PointerEvent::Move { pos: point(1.0, 2.0) };
            assert_eq!(layer.on_pointer_event(&mut content, late, false, false), CanvasResponse::none());
            assert!(!layer.set_view(affine(there)), "the view has not moved since");
        }
    }
}

/// The point that the view's own inverse gives for the pointer is still there after a zoom.
#[test]
fn a_zoom_keeps_the_canvas_point_of_the_pointer() {
    let (mut layer, mut content) = canvas();
    for (scale, shift) in [(0.02, 1e9), (0.3, -7777.7), (1.0 / 3.0, 1e6 / 7.0), (7.9, 0.1)] {
        let from = affine([scale, 0.0, 0.0, scale * 1.1, shift, -shift / 3.0]);
        for factor in [0.3, 0.9, 1.1, 3.7] {
            layer.set_view(from);
            let origin = point(313.3, 77.7);
            let p = from.inverse().at(origin);
            if !layer.zoom_around(origin, s(factor)) {
                continue;
            }
            let at = affine(view(&mut layer, &mut content)).at(p);
            assert!((f(at.x) - 313.3).abs() <= 1.0 / 64.0);
            assert!((f(at.y) - 77.7).abs() <= 1.0 / 64.0);
        }
    }
}
