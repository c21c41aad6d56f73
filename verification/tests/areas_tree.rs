//! The split tree.

use blazy::areas::shape::{AreaId, Bar};
use blazy::areas::tree::{ratio_at, SplitTree};
use blazy::geometry::{Axis, Point, Rect};
use blazy::number::scalar::Scalar;

fn s(x: f64) -> Scalar {
    Scalar { bits: x.to_bits() }
}

fn f(x: Scalar) -> f64 {
    f64::from_bits(x.bits)
}

fn rect(x0: f64, y0: f64, x1: f64, y1: f64) -> Rect {
    Rect::new(s(x0), s(y0), s(x1), s(y1))
}

fn screen() -> Rect {
    rect(0.0, 0.0, 1400.0, 900.0)
}

const BAR: f64 = 4.0;

fn laid_out_in(tree: &SplitTree, rect: Rect) -> (Vec<(AreaId, Rect)>, Vec<Bar>) {
    let (mut areas, mut bars) = (Vec::new(), Vec::new());
    assert!(tree.fits(rect, s(BAR)));
    tree.layout(rect, s(BAR), &mut areas, &mut bars);
    (areas, bars)
}

fn laid_out(tree: &SplitTree) -> (Vec<(AreaId, Rect)>, Vec<Bar>) {
    laid_out_in(tree, screen())
}

fn area(r: Rect) -> f64 {
    f(r.width()) * f(r.height())
}

/// The area that two rectangles have in common.
fn common(a: Rect, b: Rect) -> f64 {
    let width = f(a.x1).min(f(b.x1)) - f(a.x0).max(f(b.x0));
    let height = f(a.y1).min(f(b.y1)) - f(a.y0).max(f(b.y0));
    width.max(0.0) * height.max(0.0)
}

fn centre_x(r: Rect) -> f64 {
    0.5 * (f(r.x0) + f(r.x1))
}

#[test]
fn one_area_fills_the_screen() {
    let (areas, bars) = laid_out(&SplitTree::single());
    assert_eq!(areas, vec![(0, screen())]);
    assert!(bars.is_empty(), "a single area has nothing to divide");
}

/// A tiling that leaves gaps or overlaps is a tiling that paints garbage between areas or
/// lets two of them fight over the same pixels.
#[test]
fn areas_and_bars_tile_the_screen_exactly() {
    for count in [1, 2, 3, 4, 7, 8, 16] {
        let (areas, bars) = laid_out(&SplitTree::balanced(count));
        assert_eq!(areas.len(), count);
        assert_eq!(bars.len(), count - 1, "{count} areas need {} splitters", count - 1);

        let covered: f64 = areas.iter().map(|(_, r)| area(*r)).sum::<f64>()
            + bars.iter().map(|b| area(b.rect)).sum::<f64>();
        assert!(
            (covered - area(screen())).abs() < 1.0,
            "{count} areas cover {covered} of {}",
            area(screen())
        );

        for (i, (_, a)) in areas.iter().enumerate() {
            for (_, b) in areas.iter().skip(i + 1) {
                assert!(common(*a, *b) < 1.0, "areas overlap: {a:?} and {b:?}");
            }
        }
    }
}

#[test]
fn every_area_gets_a_distinct_id() {
    let (areas, _) = laid_out(&SplitTree::balanced(8));
    let mut ids: Vec<_> = areas.iter().map(|(id, _)| *id).collect();
    ids.sort_unstable();
    assert_eq!(ids, (0..8).collect::<Vec<_>>());
}

/// Splitting has to be non-destructive: whatever widget the caller built for the area being
/// split is still that area's widget afterwards.
#[test]
fn splitting_keeps_the_existing_area_id() {
    let mut tree = SplitTree::single();
    let fresh = tree.split(0, Axis::Horizontal, s(0.5)).expect("area 0 exists");
    assert_eq!(fresh, 1);
    assert_eq!(tree.area_count(), 2);

    let (areas, bars) = laid_out(&tree);
    assert_eq!(areas.len(), 2);
    assert_eq!(bars.len(), 1);
    assert!(areas.iter().any(|(id, _)| *id == 0), "area 0 survives the split");
}

#[test]
fn splitting_a_missing_area_changes_nothing() {
    let mut tree = SplitTree::single();
    assert_eq!(tree.split(7, Axis::Horizontal, s(0.5)), None);
    assert_eq!(tree.area_count(), 1);
}

#[test]
fn set_ratio_reports_change_and_clamps() {
    let mut tree = SplitTree::balanced(2);
    let (_, bars) = laid_out(&tree);
    let split = bars[0].split;

    assert!(tree.set_ratio(split, s(0.25)));
    assert_eq!(tree.ratio(split), Some(s(0.25)));
    assert!(!tree.set_ratio(split, s(0.25)), "an unchanged ratio is not a change");

    assert!(tree.set_ratio(split, s(5.0)));
    assert_eq!(tree.ratio(split), Some(s(1.0)), "past the end pins to the end");
    assert_eq!(tree.ratio(usize::MAX), None);
}

/// `ratio_at` is the inverse of the layout, and an inverse that drifts from its forward
/// function is a splitter that lags the pointer by a growing amount.
#[test]
fn dragging_puts_the_bar_under_the_pointer() {
    let mut tree = SplitTree::balanced(2);
    let (_, bars) = laid_out(&tree);
    let bar = bars[0];

    for target in [200.0, 700.0, 1100.0] {
        let pos = Point::new(s(target), s(450.0));
        assert!(tree.set_ratio(bar.split, ratio_at(&bar, pos, s(BAR))));
        let (_, bars) = laid_out(&tree);
        let centre = centre_x(bars[0].rect);
        assert!(
            (centre - target).abs() <= 1.0,
            "bar landed at {centre}, pointer was at {target}"
        );
    }
}

#[test]
fn a_balanced_pair_is_split_down_the_middle() {
    let tree = SplitTree::balanced(2);
    let (areas, bars) = laid_out(&tree);
    // 1396 pixels are left beside the bar.
    assert_eq!(areas[0], (0, rect(0.0, 0.0, 698.0, 900.0)));
    assert_eq!(areas[1], (1, rect(702.0, 0.0, 1400.0, 900.0)));
    assert_eq!(bars[0].rect, rect(698.0, 0.0, 702.0, 900.0));
    assert_eq!(bars[0].span, screen());
    assert_eq!(bars[0].axis, Axis::Horizontal);
    assert_eq!(tree.ratio(bars[0].split), Some(s(0.5)));
}

#[test]
fn splits_alternate_axis_by_depth() {
    let (_, bars) = laid_out(&SplitTree::balanced(4));
    let axes: Vec<_> = bars.iter().map(|b| b.axis).collect();
    assert_eq!(axes, vec![Axis::Horizontal, Axis::Vertical, Axis::Vertical]);
}

#[test]
fn an_uneven_count_gives_the_smaller_half_to_the_first_side() {
    let tree = SplitTree::balanced(3);
    let (_, bars) = laid_out(&tree);
    assert_eq!(f(tree.ratio(bars[0].split).unwrap()), 1.0 / 3.0);
}

#[test]
fn the_first_extent_is_a_whole_pixel() {
    let mut tree = SplitTree::balanced(2);
    let (_, bars) = laid_out(&tree);
    tree.set_ratio(bars[0].split, s(0.3337));
    let (areas, _) = laid_out(&tree);
    // 1396 * 0.3337 = 465.8452
    assert_eq!(f(areas[0].1.x1), 466.0);
}

#[test]
fn a_screen_thinner_than_its_bar_is_all_bar() {
    let (areas, bars) = laid_out_in(&SplitTree::balanced(2), rect(0.0, 0.0, 3.0, 10.0));
    assert_eq!(f(areas[0].1.width()), 0.0);
    assert_eq!(f(bars[0].rect.width()), 3.0);
    assert_eq!(f(areas[1].1.width()), 0.0);
    // There is nothing to divide, so a drag pins to the start.
    let pos = Point::new(s(2.0), s(5.0));
    assert_eq!(f(ratio_at(&bars[0], pos, s(BAR))), 0.0);
}

#[test]
fn a_drag_past_the_ends_pins_there() {
    let (_, bars) = laid_out(&SplitTree::balanced(2));
    let far_left = Point::new(s(-500.0), s(0.0));
    let far_right = Point::new(s(5000.0), s(0.0));
    assert_eq!(f(ratio_at(&bars[0], far_left, s(BAR))), 0.0);
    assert_eq!(f(ratio_at(&bars[0], far_right, s(BAR))), 1.0);
    // (351 - 0 - 2) / 1396
    let between = Point::new(s(351.0), s(0.0));
    assert_eq!(f(ratio_at(&bars[0], between, s(BAR))), 0.25);
}

#[test]
fn splitting_disturbs_nobody_else() {
    let mut tree = SplitTree::balanced(4);
    let (before, _) = laid_out(&tree);
    let fresh = tree.split(2, Axis::Vertical, s(0.25)).unwrap();
    assert_eq!(fresh, 4);
    let (after, _) = laid_out(&tree);
    for (id, r) in &before {
        let now = after.iter().find(|(other, _)| other == id).unwrap().1;
        if *id == 2 {
            assert_eq!(now.x0, r.x0);
            assert_eq!(now.y0, r.y0);
            // A quarter of what the bar leaves.
            assert_eq!(f(now.height()), ((f(r.height()) - BAR) * 0.25).round());
        } else {
            assert_eq!(now, *r);
        }
    }
}

#[test]
fn moving_a_splitter_disturbs_its_sides_only() {
    let mut tree = SplitTree::balanced(8);
    let (before, bars) = laid_out(&tree);
    // The last bar is between two leaves.
    let bar = *bars.last().unwrap();
    assert!(tree.set_ratio(bar.split, s(0.75)));
    let (after, _) = laid_out(&tree);
    let changed = before.iter().zip(&after).filter(|(a, b)| a != b).count();
    assert_eq!(changed, 2);
}

/// A length that is no number cannot be divided, so such a layout is refused beforehand.
#[test]
fn a_layout_without_numbers_does_not_fit() {
    let mut tree = SplitTree::balanced(8);
    let (_, bars) = laid_out(&tree);
    assert!(tree.fits(screen(), s(BAR)));
    assert!(tree.set_ratio(bars[0].split, s(f64::NAN)));
    assert!(tree.ratio(bars[0].split).unwrap().is_nan());
    assert!(!tree.fits(screen(), s(BAR)));

    let endless = rect(0.0, 0.0, f64::INFINITY, 1.0);
    assert!(!SplitTree::balanced(2).fits(rect(0.0, 0.0, f64::NAN, 1.0), s(BAR)));
    assert!(SplitTree::balanced(2).fits(endless, s(BAR)));
    assert!(!SplitTree::balanced(8).fits(endless, s(BAR)));
    assert!(SplitTree::single().fits(rect(f64::NAN, 0.0, 1.0, 1.0), s(BAR)));
}

#[test]
fn an_area_is_no_splitter() {
    let mut tree = SplitTree::single();
    assert_eq!(tree.ratio(0), None);
    assert!(!tree.set_ratio(0, s(0.5)));
}

#[test]
fn a_split_outside_the_area_pins_to_its_end() {
    let mut tree = SplitTree::single();
    tree.split(0, Axis::Vertical, s(7.0));
    let (_, bars) = laid_out(&tree);
    assert_eq!(tree.ratio(bars[0].split), Some(s(1.0)));
    assert_eq!(bars[0].rect, rect(0.0, 896.0, 1400.0, 900.0));
}

#[test]
fn a_copy_of_a_tree_is_its_own() {
    let tree = SplitTree::balanced(5);
    let mut copy = tree.clone();
    assert_eq!(laid_out(&copy), laid_out(&tree));
    copy.split(0, Axis::Horizontal, s(0.5));
    assert_eq!((copy.area_count(), tree.area_count()), (6, 5));
}

/// A split inserts one bar and leaves all the others as they were.
#[test]
fn a_split_adds_one_bar_and_moves_none() {
    let mut tree = SplitTree::balanced(5);
    let (areas, bars) = laid_out(&tree);
    let whole = areas.iter().find(|(id, _)| *id == 2).unwrap().1;
    let fresh = tree.split(2, Axis::Vertical, s(0.25)).unwrap();
    let (after, now) = laid_out(&tree);

    assert_eq!(now.len(), bars.len() + 1);
    let new: Vec<&Bar> = now.iter().filter(|b| !bars.contains(b)).collect();
    assert_eq!(new.len(), 1);
    assert_eq!(new[0].span, whole);
    assert_eq!(new[0].axis, Axis::Vertical);
    let rest: Vec<Bar> = now.iter().filter(|b| bars.contains(b)).copied().collect();
    assert_eq!(rest, bars, "in the same order, too");

    let place = |id: AreaId| after.iter().find(|(x, _)| *x == id).unwrap().1;
    assert_eq!((place(2).x0, place(2).y0), (whole.x0, whole.y0));
    assert_eq!(place(2).y1, new[0].rect.y0);
    assert_eq!(new[0].rect.y1, place(fresh).y0);
    assert_eq!((place(fresh).x1, place(fresh).y1), (whole.x1, whole.y1));
}

#[test]
fn whole_corners_stay_whole() {
    let mut tree = SplitTree::balanced(7);
    tree.split(3, Axis::Horizontal, s(0.3137));
    let (areas, bars) = laid_out_in(&tree, rect(-317.0, 45.0, 1083.0, 946.0));
    let rects = areas.iter().map(|a| a.1).chain(bars.iter().map(|b| b.rect));
    for r in rects.chain(bars.iter().map(|b| b.span)) {
        for x in [r.x0, r.y0, r.x1, r.y1] {
            assert_eq!(f(x), f(x).round());
        }
    }
}

/// Any thickness, and a pointer that is on no whole pixel.
#[test]
fn a_bar_lands_within_a_pixel_of_any_pointer() {
    let span = rect(13.7, 0.0, 1413.9, 900.0);
    let bar = Bar { split: 0, axis: Axis::Horizontal, rect: span, span };
    for thickness in [0.0, 1.0, 4.0, 6.3, 57.125] {
        let mut at = 13.7 + thickness / 2.0;
        while at <= 1413.9 - thickness / 2.0 {
            let ratio = ratio_at(&bar, Point::new(s(at), s(450.0)), s(thickness));
            let mut tree = SplitTree::balanced(2);
            tree.set_ratio(2, ratio);
            let (mut areas, mut bars) = (Vec::new(), Vec::new());
            tree.layout(span, s(thickness), &mut areas, &mut bars);
            assert!((centre_x(bars[0].rect) - at).abs() <= 1.0, "{thickness} at {at}");
            at += 12.8 / 1.5;
        }
    }
}

#[test]
fn a_ratio_is_pinned_half_a_bar_from_the_ends() {
    let span = rect(100.0, 0.0, 1100.0, 900.0);
    let bar = Bar { split: 0, axis: Axis::Horizontal, rect: span, span };
    let at = |x: f64, thickness: f64| f(ratio_at(&bar, Point::new(s(x), s(1.0)), s(thickness)));
    assert_eq!(at(102.0, 4.0), 0.0);
    assert_eq!(at(-5e300, 4.0), 0.0);
    assert!(at(102.5, 4.0) > 0.0);
    assert_eq!(at(1098.0, 4.0), 1.0);
    assert_eq!(at(5e300, 4.0), 1.0);
    assert!(at(1097.5, 4.0) < 1.0);
    assert_eq!(at(600.0, 1000.0), 0.0, "a bar as wide as the span leaves nothing to share");
    assert_eq!(at(600.0, 2000.0), 0.0);
}

#[test]
fn no_tree_has_a_last_node() {
    assert!(SplitTree::balanced(9).ratio(usize::MAX).is_none());
    assert!(!SplitTree::balanced(9).set_ratio(usize::MAX, s(0.5)));
}

/// Where a bar lands, of a span far longer than any screen.
fn landing(lo: f64, hi: f64, at: f64, thickness: f64) -> f64 {
    let span = rect(lo, 0.0, hi, 900.0);
    let bar = Bar { split: 2, axis: Axis::Horizontal, rect: span, span };
    let mut tree = SplitTree::balanced(2);
    tree.set_ratio(2, ratio_at(&bar, Point::new(s(at), s(1.0)), s(thickness)));
    let (mut areas, mut bars) = (Vec::new(), Vec::new());
    tree.layout(span, s(thickness), &mut areas, &mut bars);
    (f(bars[0].rect.x0) - at) / 2.0 + (f(bars[0].rect.x1) - at) / 2.0
}

#[test]
fn a_bar_lands_within_a_pixel_on_huge_spans() {
    assert!(landing(0.0, 2f64.powi(45), 1000.0, 4.0).abs() <= 1.0);
    let reach = 2f64.powi(50) - 1.0;
    for (lo, hi) in [(-reach, reach), (0.0, reach), (-751943790397679.75, reach), (-reach, 77.7)] {
        for thickness in [0.0, 4.0, 6.3, 253752212133774.34] {
            for share in [0.0, 0.1, 0.31, 0.5, 0.77, 0.999, 1.0] {
                let at = lo + thickness / 2.0 + (hi - lo - thickness) * share;
                assert!(landing(lo, hi, at, thickness).abs() <= 1.0, "{lo} {hi} {at} {thickness}");
            }
        }
    }
}

#[test]
fn a_bar_lands_within_a_pixel_as_far_as_whole_pixels_go() {
    let end = 2f64.powi(53);
    for at in [2.0, 1000.0, 3330027233872418.0, 2f64.powi(52) + 1.0, end - 2.0] {
        assert!(landing(0.0, end, at, 4.0).abs() <= 1.0);
        assert!(landing(0.0, 5728443032654466.0, at.min(5728443032654464.0), 4.0).abs() <= 1.0);
    }
}
