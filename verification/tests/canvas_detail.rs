//! Detail levels, rectangles and requests.

use blazy::canvas::detail::{CanvasDetail, Detail, DetailThresholds};
use blazy::canvas::invalidate::{Invalidate, Request, RequestLog, Requests};
use blazy::geometry::{contains_rect, Point, Rect};
use blazy::number::scalar::Scalar;

fn s(x: f64) -> Scalar {
    Scalar { bits: x.to_bits() }
}

fn rect(x0: f64, y0: f64, x1: f64, y1: f64) -> Rect {
    Rect::new(s(x0), s(y0), s(x1), s(y1))
}

#[test]
fn contains_rect_is_inclusive() {
    let outer = rect(0.0, 0.0, 10.0, 10.0);
    assert!(contains_rect(outer, outer));
    assert!(contains_rect(outer, rect(1.0, 1.0, 9.0, 9.0)));
    assert!(!contains_rect(outer, rect(-1.0, 0.0, 5.0, 5.0)));
}

#[test]
fn contains_rect_minds_every_edge() {
    let outer = rect(0.0, 0.0, 10.0, 10.0);
    assert!(!contains_rect(outer, rect(0.0, -1.0, 5.0, 5.0)));
    assert!(!contains_rect(outer, rect(0.0, 0.0, 11.0, 5.0)));
    assert!(!contains_rect(outer, rect(0.0, 0.0, 5.0, 11.0)));
    assert!(!contains_rect(outer, rect(f64::NAN, 0.0, 5.0, 5.0)));
}

#[test]
fn containment_passes_on() {
    let (a, b, c) = (rect(0.0, 0.0, 10.0, 10.0), rect(1.0, 1.0, 9.0, 9.0), rect(2.0, 2.0, 3.0, 9.0));
    assert!(contains_rect(a, b) && contains_rect(b, c) && contains_rect(a, c));
    let p = Point::new(s(2.5), s(8.0));
    assert!(c.contains(p) && b.contains(p) && a.contains(p));
}

#[test]
fn detail_thresholds_are_ordered() {
    let thresholds = DetailThresholds::default();
    assert_eq!(thresholds.for_scale(s(1.0)), Detail::Full);
    assert_eq!(thresholds.for_scale(s(0.2)), Detail::Simplified);
    assert_eq!(thresholds.for_scale(s(0.01)), Detail::Box);
    assert_eq!(thresholds.for_scale(s(0.05)), Detail::Box);
    assert_eq!(thresholds.for_scale(s(0.050001)), Detail::Simplified);
}

#[test]
fn detail_thresholds_are_configurable() {
    let thresholds = DetailThresholds {
        full: s(0.6),
        simplified: s(0.25),
    };
    assert_eq!(thresholds.for_scale(s(0.4)), Detail::Simplified);
    assert_eq!(thresholds.for_scale(s(0.1)), Detail::Box);
}

#[test]
fn zooming_in_never_makes_a_node_coarser() {
    let thresholds = DetailThresholds::default();
    let mut last = Detail::Box;
    for step in 0..100 {
        let now = thresholds.for_scale(s(step as f64 / 100.0));
        assert!(now <= last, "levels are ordered from fine to coarse");
        last = now;
    }
    assert_eq!(last, Detail::Full);
}

#[test]
fn levels_have_names() {
    assert_eq!(Detail::Full.as_str(), "full");
    assert_eq!(Detail::Simplified.as_str(), "simplified");
    assert_eq!(Detail::Box.as_str(), "box");
    assert_eq!(CanvasDetail::default(), CanvasDetail(Detail::Full));
}

#[test]
fn invalidation_asks_for_what_it_names() {
    let asked = |what: Invalidate| {
        let mut log = RequestLog::new();
        what.apply(&mut log);
        (log.asked.clone(), log.summary())
    };
    assert_eq!(asked(Invalidate::Nothing), (vec![], Requests { layout: false, paint: false }));
    assert_eq!(
        asked(Invalidate::Layout),
        (vec![Request::Layout], Requests { layout: true, paint: false })
    );
    assert_eq!(
        asked(Invalidate::LayoutAndPaint),
        (vec![Request::Layout, Request::Paint], Requests { layout: true, paint: true })
    );

    let mut log = RequestLog { asked: vec![Request::Paint] };
    Invalidate::Nothing.apply(&mut log);
    assert_eq!(log.asked, vec![Request::Paint], "nothing takes nothing back");
    Invalidate::Layout.apply(&mut log);
    assert_eq!(log.asked, vec![Request::Paint, Request::Layout]);
    assert_eq!(log.summary(), Requests { layout: true, paint: true });
}
