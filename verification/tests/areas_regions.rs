//! Regions inside an area.

use blazy::areas::region::{AreaContent, RegionKind, UiScale};
use blazy::geometry::{Axis, Point, Size};
use blazy::number::scalar::Scalar;
use blazy::widget::LenReq;

fn s(x: f64) -> Scalar {
    Scalar { bits: x.to_bits() }
}

fn f(x: Scalar) -> f64 {
    f64::from_bits(x.bits)
}

fn size(width: f64, height: f64) -> Size {
    Size::new(s(width), s(height))
}

const AREA: (u32, u32) = (600, 400);
const HEADER: f64 = 24.0;

/// A host with a region root that remembers the scale it was told and the box it was given.
struct Host {
    content: AreaContent,
    seen: Vec<f64>,
    boxes: Vec<Size>,
    origins: Vec<Point>,
}

impl Host {
    fn of(content: AreaContent) -> Host {
        let count = content.region_count();
        let mut host = Host {
            content,
            seen: vec![f(UiScale::default().0); count],
            boxes: vec![Size::zero(); count],
            origins: vec![Point::origin(); count],
        };
        host.redraw();
        host
    }

    fn new() -> Host {
        Host::of(AreaContent::header_and_main(s(HEADER), 10, 11))
    }

    /// A layout pass, the mutate pass that it asks for, and the layout pass after that.
    fn redraw(&mut self) {
        self.lay_out();
        if self.content.has_pending() {
            for push in self.content.apply_pending() {
                self.seen[push.index] = f(push.scale.0);
            }
            self.lay_out();
        }
    }

    fn lay_out(&mut self) {
        for place in self.content.layout(size(AREA.0 as f64, AREA.1 as f64)) {
            self.boxes[place.index] = place.size;
            self.origins[place.index] = place.origin;
        }
    }
}

#[test]
fn regions_stack_and_fill_the_area() {
    let host = Host::new();
    let header = host.boxes[0];
    let main = host.boxes[1];

    assert_eq!(header, size(AREA.0 as f64, HEADER));
    assert_eq!(main, size(AREA.0 as f64, AREA.1 as f64 - HEADER));
    assert_eq!(host.origins[1], Point::new(s(0.0), s(HEADER)));
}

/// The scale is a layout input, so it has to arrive at the region and change what comes out.
#[test]
fn ui_scale_reaches_the_regions_layout() {
    let mut host = Host::new();
    assert_eq!(host.seen[0], 1.0);

    assert!(host.content.set_ui_scale(0, s(1.5)));
    host.redraw();

    assert_eq!(host.seen[0], 1.5, "the header did not see the new scale");
    assert_eq!(
        host.boxes[0],
        size(AREA.0 as f64, HEADER * 1.5),
        "a scaled header takes more room"
    );
}

/// The regions are independent knobs: scaling one must leave the other's scale alone, even
/// though its size necessarily changes to make room.
#[test]
fn scaling_one_region_does_not_scale_another() {
    let mut host = Host::new();
    host.content.set_ui_scale(0, s(2.0));
    host.redraw();

    assert_eq!(host.seen[0], 2.0);
    assert_eq!(host.seen[1], 1.0, "the main region has its own scale");
    assert_eq!(f(host.boxes[1].height), AREA.1 as f64 - HEADER * 2.0);
}

#[test]
fn an_unchanged_scale_is_not_a_change() {
    let mut host = Host::new();
    let before = host.content.counters();
    assert!(!host.content.set_ui_scale(0, s(1.0)));
    host.redraw();
    assert_eq!(host.content.counters().scale_pushes, before.scale_pushes);
}

#[test]
fn an_idle_area_resizes_no_region() {
    let mut host = Host::new();
    let before = host.content.counters().resizes;
    for _ in 0..5 {
        host.redraw();
    }
    assert_eq!(host.content.counters().resizes, before);
}

/// A scale change costs a resize of the header and of whatever it took the room from, and of
/// nothing else.
#[test]
fn a_scale_change_resizes_two_regions() {
    let mut host = Host::new();
    let before = host.content.counters().resizes;
    host.content.set_ui_scale(0, s(1.5));
    host.redraw();
    assert_eq!(host.content.counters().resizes - before, 2);
}

#[test]
fn the_scale_is_clamped_to_something_usable() {
    let mut host = Host::new();
    host.content.set_ui_scale(0, s(1000.0));
    host.redraw();
    assert_eq!(host.content.ui_scale(0), Some(s(8.0)));

    host.content.set_ui_scale(0, s(0.0));
    assert_eq!(host.content.ui_scale(0), Some(s(0.1)));
}

#[test]
fn a_main_regions_box_does_not_depend_on_its_own_scale() {
    let mut host = Host::new();
    let before = (host.boxes.clone(), host.content.counters().resizes);
    assert!(host.content.set_ui_scale(1, s(2.0)));
    host.redraw();
    assert_eq!(host.boxes, before.0);
    assert_eq!(host.content.counters().resizes, before.1);
    assert_eq!(host.seen[1], 2.0);
}

#[test]
fn a_missing_region_has_no_scale_to_set() {
    let mut host = Host::new();
    assert!(!host.content.set_ui_scale(2, s(2.0)));
    assert_eq!(host.content.ui_scale(2), None);
    assert!(!host.content.has_pending());
}

#[test]
fn a_scale_known_beforehand_is_pushed_by_the_first_pass() {
    let content = AreaContent::header_and_main(s(HEADER), 10, 11)
        .with_ui_scale(0, s(3.0))
        .with_ui_scale(0, s(2.0))
        .with_ui_scale(9, s(2.0));
    assert_eq!(content.region_ids(), vec![10, 11]);
    let host = Host::of(content);
    assert_eq!(host.seen, vec![2.0, 1.0]);
    assert_eq!(f(host.boxes[0].height), 48.0);
    assert_eq!(host.content.counters().scale_pushes, 1, "queued once, pushed once");
    assert_eq!(host.content.counters().layouts, 2);
}

#[test]
fn headers_round_and_give_way() {
    let content = AreaContent::new(vec![
        (RegionKind::Header, s(10.3), 1),
        (RegionKind::Header, s(500.0), 2),
        (RegionKind::Main, s(0.0), 3),
        (RegionKind::Header, s(5.0), 4),
    ]);
    let host = Host::of(content);
    let heights: Vec<f64> = host.boxes.iter().map(|b| f(b.height)).collect();
    // A header takes no more than there is; the last region takes what is left.
    assert_eq!(heights, vec![10.0, 390.0, 0.0, 0.0]);
    let tops: Vec<f64> = host.origins.iter().map(|o| f(o.y)).collect();
    assert_eq!(tops, vec![0.0, 10.0, 400.0, 400.0]);
}

#[test]
fn the_last_region_fills_whatever_its_kind() {
    let content = AreaContent::new(vec![(RegionKind::Header, s(24.0), 1)]);
    let host = Host::of(content);
    assert_eq!(f(host.boxes[0].height), AREA.1 as f64);
    assert_eq!(AreaContent::new(vec![]).region_count(), 0);
}

#[test]
fn an_area_fills_its_space() {
    let content = AreaContent::header_and_main(s(HEADER), 10, 11);
    assert_eq!(f(content.measure(Axis::Horizontal, LenReq::MinContent)), 0.0);
    assert_eq!(f(content.measure(Axis::Horizontal, LenReq::MaxContent)), 800.0);
    assert_eq!(f(content.measure(Axis::Vertical, LenReq::MaxContent)), 600.0);
    assert_eq!(f(content.measure(Axis::Vertical, LenReq::FitContent(s(12.0)))), 12.0);
}

/// The header and the main region, once each, whichever way the header goes.
#[test]
fn a_header_change_resizes_exactly_two() {
    let mut host = Host::new();
    for (scale, more) in [(1.5, 2), (0.5, 2), (0.51, 0), (8.0, 2), (1.0, 2)] {
        let before = host.content.counters().resizes;
        host.content.set_ui_scale(0, s(scale));
        host.redraw();
        assert_eq!(host.content.counters().resizes - before, more, "scale {scale}");
        assert_eq!(f(host.boxes[0].height), (HEADER * scale).round());
        assert_eq!(f(host.boxes[0].height) + f(host.boxes[1].height), AREA.1 as f64);
    }
}
