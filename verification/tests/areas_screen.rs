//! The screen of areas.

use blazy::areas::screen::{AreaPlacement, AreaScreen, ScreenResponse};
use blazy::areas::shape::{AreaId, Bar};
use blazy::areas::tree::SplitTree;
use blazy::geometry::{Axis, Point, Rect, Size};
use blazy::number::scalar::Scalar;
use blazy::widget::{Button, LenReq, PointerEvent};

fn s(x: f64) -> Scalar {
    Scalar { bits: x.to_bits() }
}

fn f(x: Scalar) -> f64 {
    f64::from_bits(x.bits)
}

fn point(x: f64, y: f64) -> Point {
    Point::new(s(x), s(y))
}

const SCREEN: (u32, u32) = (1400, 900);

fn screen_size() -> Size {
    Size::new(s(SCREEN.0 as f64), s(SCREEN.1 as f64))
}

/// A host that gives every area the box it is told to.
struct Host {
    screen: AreaScreen,
    boxes: Vec<Size>,
    places: Vec<AreaPlacement>,
}

impl Host {
    fn new(areas: usize) -> Host {
        let screen = AreaScreen::new(SplitTree::balanced(areas), |area| 100 + area as u64);
        let mut host = Host {
            screen,
            boxes: vec![Size::zero(); areas],
            places: Vec::new(),
        };
        host.redraw();
        host
    }

    fn redraw(&mut self) {
        assert!(self.screen.can_lay_out(screen_size()));
        self.places = self.screen.layout(screen_size(), |_| false);
        for place in &self.places {
            self.boxes[place.area] = place.size;
        }
    }
}

fn centre(r: Rect) -> (f64, f64) {
    (0.5 * (f(r.x0) + f(r.x1)), 0.5 * (f(r.y0) + f(r.y1)))
}

/// What the split tree says the areas should be, computed independently.
fn expected(areas: usize) -> Vec<(AreaId, Rect)> {
    let (mut rects, mut bars) = (Vec::new(), Vec::new());
    SplitTree::balanced(areas).layout(
        Rect::from_origin_size(Point::origin(), screen_size()),
        s(4.0),
        &mut rects,
        &mut bars,
    );
    rects
}

/// The screen's whole job: an area is the size the tree says, not a size it chose.
#[test]
fn areas_are_laid_out_at_the_rects_the_tree_computed() {
    for count in [1, 2, 4, 8] {
        let host = Host::new(count);
        let ids = host.screen.area_ids();
        assert_eq!(ids.len(), count);

        for (area, rect) in expected(count) {
            let size = host.boxes[area];
            assert_eq!(size, rect.size(), "area {area} of {count}");
            let place = host.places.iter().find(|p| p.area == area).unwrap();
            assert_eq!(place.origin, rect.origin());
            assert_eq!(ids[area], 100 + area as u64);
        }
    }
}

/// A screen with nothing happening to it must not be handing areas new sizes.
#[test]
fn an_idle_screen_resizes_nothing() {
    let mut host = Host::new(8);
    let before = host.screen.stats().counters.area_resizes;
    for _ in 0..5 {
        host.redraw();
    }
    assert_eq!(host.screen.stats().counters.area_resizes, before);
}

/// The two areas sharing a leaf splitter change size and nobody else does.
#[test]
fn dragging_a_leaf_splitter_resizes_two_areas() {
    let mut host = Host::new(8);
    let bar = *host
        .screen
        .bars()
        .iter()
        .min_by(|a, b| {
            let span = |x: &Bar| f(x.span.width()) * f(x.span.height());
            span(a).total_cmp(&span(b))
        })
        .expect("eight areas have splitters");

    let before = host.boxes.clone();
    let resizes_before = host.screen.stats().counters.area_resizes;

    let (x, y) = centre(bar.rect);
    let step = match bar.axis {
        Axis::Horizontal => point(x + 20.0, y),
        Axis::Vertical => point(x, y + 20.0),
    };
    assert!(host.screen.drag_bar(bar.split, step), "a drag asks for a layout pass");
    host.redraw();

    let after = host.boxes.clone();
    let changed = before.iter().zip(&after).filter(|(a, b)| a != b).count();
    assert_eq!(changed, 2, "before {before:?}\nafter  {after:?}");
    assert_eq!(
        host.screen.stats().counters.area_resizes - resizes_before,
        2,
        "the screen's own counter must agree with the measured sizes"
    );
}

/// A splitter that stops where the pointer is not is a splitter that feels broken.
#[test]
fn a_drag_moves_the_bar_to_the_pointer() {
    let mut host = Host::new(2);
    let bar = host.screen.bars()[0];
    let target = point(400.0, 450.0);

    host.screen.drag_bar(bar.split, target);
    host.redraw();

    let moved = centre(host.screen.bars()[0].rect).0;
    assert!((moved - f(target.x)).abs() <= 1.0, "bar landed at {moved}");
}

/// A screen of one area still tiles, and has no splitter to grab.
#[test]
fn a_single_area_screen_has_no_splitters() {
    let host = Host::new(1);
    assert!(host.screen.bars().is_empty());
    assert_eq!(host.screen.area_ids().len(), 1);
}

#[test]
fn counters_start_at_zero_and_count_passes() {
    let mut screen = AreaScreen::new(SplitTree::balanced(3), |area| area as u64);
    assert!(screen.bars().is_empty(), "no bars before the first layout");
    assert_eq!(screen.stats().areas, 3);
    assert_eq!(screen.stats().counters.layouts, 0);

    screen.layout(screen_size(), |area| area != 1);
    let counters = screen.stats().counters;
    assert_eq!((counters.layouts, counters.area_resizes, counters.area_layouts), (1, 3, 2));

    screen.layout(screen_size(), |_| false);
    let counters = screen.stats().counters;
    assert_eq!((counters.layouts, counters.area_resizes, counters.area_layouts), (2, 3, 2));
}

#[test]
fn dragging_a_splitter_that_is_not_there_does_nothing() {
    let mut host = Host::new(2);
    assert!(!host.screen.drag_bar(77, point(10.0, 10.0)));
}

#[test]
fn a_bar_can_be_grabbed_from_three_pixels_away() {
    let host = Host::new(2);
    let split = host.screen.bars()[0].split;
    // The bar covers 698 to 702.
    assert_eq!(host.screen.bar_at(point(695.0, 10.0)), Some(split));
    assert_eq!(host.screen.bar_at(point(694.5, 10.0)), None);
    assert_eq!(host.screen.bar_at(point(704.5, 10.0)), Some(split));
    assert_eq!(host.screen.bar_at(point(705.0, 10.0)), None);
}

#[test]
fn a_pointer_drags_a_bar_from_press_to_release() {
    let mut host = Host::new(2);
    let press = PointerEvent::Down { button: Some(Button::Primary), pos: point(700.0, 450.0) };
    let r = host.screen.on_pointer_event(press, false);
    assert!(r.capture && r.handled && !r.layout && !r.release);

    let r = host.screen.on_pointer_event(PointerEvent::Move { pos: point(500.0, 450.0) }, false);
    assert!(r.layout && r.handled);
    host.redraw();
    assert_eq!(centre(host.screen.bars()[0].rect).0, 500.0);

    let r = host.screen.on_pointer_event(PointerEvent::Move { pos: point(500.0, 460.0) }, false);
    assert!(!r.layout && r.handled, "a drag that moves nothing asks for nothing");

    let r = host.screen.on_pointer_event(PointerEvent::Up, false);
    assert!(r.release && r.handled);
    let r = host.screen.on_pointer_event(PointerEvent::Move { pos: point(100.0, 450.0) }, false);
    assert_eq!(r, ScreenResponse::none(), "nothing is dragged any more");
    let r = host.screen.on_pointer_event(PointerEvent::Cancel, false);
    assert_eq!(r, ScreenResponse::none());
}

#[test]
fn presses_that_are_not_for_the_screen_are_left_alone() {
    let mut host = Host::new(2);
    let on_bar = point(700.0, 450.0);
    for (button, pos, handled) in [
        (Some(Button::Primary), on_bar, true),
        (Some(Button::Auxiliary), on_bar, false),
        (None, on_bar, false),
        (Some(Button::Primary), point(10.0, 10.0), false),
    ] {
        let r = host.screen.on_pointer_event(PointerEvent::Down { button, pos }, handled);
        assert_eq!(r, ScreenResponse::none());
    }
    assert_eq!(host.screen.on_pointer_event(PointerEvent::Up, false), ScreenResponse::none());
}

#[test]
fn a_screen_fills_its_window() {
    let host = Host::new(1);
    assert_eq!(f(host.screen.measure(Axis::Horizontal, LenReq::MinContent)), 0.0);
    assert_eq!(f(host.screen.measure(Axis::Horizontal, LenReq::MaxContent)), 1280.0);
    assert_eq!(f(host.screen.measure(Axis::Vertical, LenReq::MaxContent)), 800.0);
    assert_eq!(f(host.screen.measure(Axis::Vertical, LenReq::FitContent(s(77.5)))), 77.5);
}

#[test]
fn every_point_of_a_screen_is_in_one_area_or_bar() {
    for (width, height, areas) in [(1400.0, 900.0, 7), (1023.4, 511.7, 5), (37.0, 9.0, 6)] {
        let mut screen = AreaScreen::new(SplitTree::balanced(areas), |area| area as u64);
        let places = screen.layout(Size::new(s(width), s(height)), |_| false);
        let mut x = 0.0;
        while x < width {
            let mut y = 0.0;
            while y < height {
                let p = point(x, y);
                let inside = places
                    .iter()
                    .filter(|a| Rect::from_origin_size(a.origin, a.size).contains(p))
                    .count();
                let on_bars = screen.bars().iter().filter(|b| b.rect.contains(p)).count();
                assert_eq!(inside + on_bars, 1, "at {x}, {y} of {width} by {height}");
                y += height / 23.0;
            }
            x += width / 29.0;
        }
    }
}

/// Moving does something from a press on a bar to the release, and at no other time.
#[test]
fn only_a_held_bar_follows_the_pointer() {
    let mut host = Host::new(4);
    let bar = host.screen.bars()[0];
    let (x, y) = centre(bar.rect);
    let step = PointerEvent::Move { pos: point(x + 40.0, y + 40.0) };
    let press = |button: Option<Button>, pos: Point| PointerEvent::Down { button, pos };
    let idle = ScreenResponse::none();

    assert_eq!(host.screen.on_pointer_event(step, false), idle, "nothing was pressed");
    for (event, handled) in [
        (press(Some(Button::Primary), point(x, y)), true),
        (press(Some(Button::Auxiliary), point(x, y)), false),
        (press(None, point(x, y)), false),
        (press(Some(Button::Primary), point(x + 100.0, y - 100.0)), false),
        (PointerEvent::Leave, false),
        (PointerEvent::Other, false),
    ] {
        host.screen.on_pointer_event(event, handled);
        assert_eq!(host.screen.on_pointer_event(step, false), idle);
    }
    for end in [PointerEvent::Up, PointerEvent::Cancel] {
        host.redraw();
        host.screen.on_pointer_event(press(Some(Button::Primary), point(x, y)), false);
        host.redraw();
        host.screen.on_pointer_event(PointerEvent::Leave, false);
        let asks = host.screen.on_pointer_event(step, true);
        assert!(asks.handled && asks.layout, "held through layouts and other events");
        host.screen.on_pointer_event(PointerEvent::Move { pos: point(x, y) }, false);
        host.screen.on_pointer_event(end, false);
        assert_eq!(host.screen.on_pointer_event(step, false), idle, "let go");
    }
}
