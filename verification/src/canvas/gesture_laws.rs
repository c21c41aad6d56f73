//! What the pointer does on a canvas.

use vstd::prelude::*;

use crate::canvas::content::ContentState;
use crate::canvas::layer::{Drag, LayerState};
use crate::geometry::{Affine, Point, Size};
use crate::number::scalar::Scalar;
use crate::widget::{Button, PointerEvent};

verus! {

/// Whether a visible node's rectangle holds a point, and no visible node above it does.
pub open spec fn is_on_top(content: ContentState, i: usize, p: Point) -> bool {
    &&& content.visible.contains(i)
    &&& content.slots[i as int].rect().contains(p)
    &&& forall|j: usize| #[trigger]
        content.visible.contains(j) && content.slots[j as int].rect().contains(p) ==> j <= i
}

/// Whether no visible node's rectangle holds a point.
pub open spec fn is_bare(content: ContentState, p: Point) -> bool {
    forall|j: usize| #[trigger]
        content.visible.contains(j) ==> !content.slots[j as int].rect().contains(p)
}

/// A press with the primary button takes hold of the topmost node under the pointer, by the
/// point where the pointer is, or pans where there is none. The middle button pans whatever
/// is there, and another button does nothing. A gesture takes the pointer; the press itself
/// moves nothing.
pub proof fn law_press_picks_the_gesture(
    layer: LayerState,
    content: ContentState,
    button: Option<Button>,
    pos: Point,
)
    requires
        content.consistent(),
    ensures
        ({
            let (after, there, asks) = layer.pointed(
                content,
                PointerEvent::Down { button, pos },
                false,
                false,
            );
            let p = layer.canvas_point(pos);
            &&& there == content
            &&& after == (LayerState { drag: after.drag, ..layer })
            &&& asks.capture <==> !(after.drag is Idle)
            &&& asks.handled <==> !(after.drag is Idle)
            &&& !asks.layout && !asks.release && !asks.content.layout && !asks.content.paint
            &&& button == Some(Button::Primary) && is_bare(content, p) ==> after.drag == (
            Drag::Pan { last: pos })
            &&& button == Some(Button::Primary) && !is_bare(content, p) ==> {
                &&& after.drag matches Drag::Node { index, grab }
                &&& index < content.slots.len()
                &&& is_on_top(content, index, p)
                &&& grab.x == p.x.minus(content.slots[index as int].pos.x)
                &&& grab.y == p.y.minus(content.slots[index as int].pos.y)
            }
            &&& button == Some(Button::Auxiliary) ==> after.drag == (Drag::Pan { last: pos })
            &&& button is None || button == Some(Button::Other) ==> after.drag is Idle
        }),
{
    crate::canvas::node_laws::law_hit_is_a_node_under_the_point(content, layer.canvas_point(pos));
}

/// Without a gesture a moving pointer only marks the node that it is on, and only where
/// controls follow it; leaving the canvas marks none. Neither moves the view or a node.
pub proof fn law_hover_follows_the_pointer(
    layer: LayerState,
    content: ContentState,
    pos: Point,
    handled: bool,
    captured: bool,
)
    requires
        content.consistent(),
    ensures
        ({
            let (after, there, asks) = layer.pointed(
                content,
                PointerEvent::Move { pos },
                handled,
                captured,
            );
            let p = layer.canvas_point(pos);
            let marking = layer.controls_on_hover && !content.far.active;
            layer.drag is Idle ==> {
                &&& after == layer
                &&& there.slots == content.slots
                &&& !marking ==> there == content
                &&& marking && is_bare(content, p) ==> there.active is None
                &&& marking && !is_bare(content, p) ==> {
                    &&& there.active matches Some(index)
                    &&& is_on_top(content, index, p)
                }
                &&& asks.content.layout <==> there.active != content.active
                &&& !asks.layout && !asks.content.paint && !asks.capture && !asks.release
                &&& !asks.handled
            }
        }),
        ({
            let (after, there, asks) = layer.pointed(
                content,
                PointerEvent::Leave,
                handled,
                captured,
            );
            let marking = layer.controls_on_hover && !content.far.active;
            &&& after == layer
            &&& there.slots == content.slots
            &&& !marking ==> there == content
            &&& marking ==> there.active is None
            &&& asks.content.layout <==> there.active != content.active
            &&& !asks.layout && !asks.content.paint && !asks.capture && !asks.release
            &&& !asks.handled
        }),
{
    crate::canvas::node_laws::law_hit_is_a_node_under_the_point(content, layer.canvas_point(pos));
}

/// The wheel zooms about the pointer by the factor that it asks for, unless a control took
/// it or it did not move; that moves no node and starts no gesture.
pub proof fn law_wheel_zooms_about_the_pointer(
    layer: LayerState,
    content: ContentState,
    travel: Scalar,
    factor: Scalar,
    pos: Point,
    handled: bool,
    captured: bool,
)
    requires
        !travel.is_nan(),
    ensures
        ({
            let (after, there, asks) = layer.pointed(
                content,
                PointerEvent::Scroll { travel, factor, pos },
                handled,
                captured,
            );
            &&& there == content
            &&& !asks.capture && !asks.release && !asks.content.layout && !asks.content.paint
            &&& handled || travel.value() == 0 ==> after == layer && !asks.layout && !asks.handled
            &&& !handled && travel.value() != 0 ==> {
                &&& after == layer.zoomed(pos, factor)
                &&& asks.handled <==> layer.zoomed_view(pos, factor) is Some
                &&& after.drag == layer.drag
                &&& !asks.layout ==> after == layer
            }
        }),
{
    crate::number::exact::lemma_unit_interval();
}

/// A layout pass looks at the content through the viewport at its new size: what is visible
/// there, at the level that the zoom calls for. It leaves the view as it is and done with.
pub proof fn law_layout_looks_through_the_viewport(
    layer: LayerState,
    content: ContentState,
    size: Size,
)
    ensures
        ({
            let after = layer.sized(size);
            let seen = layer.looked_at(content, size);
            &&& after.viewport == size
            &&& !after.view_dirty
            &&& after.view == layer.view
            &&& after.drag == layer.drag
            &&& after.zoom_limits == layer.zoom_limits
            &&& after.overscan == layer.overscan
            &&& after.thresholds == layer.thresholds
            &&& after.controls_on_hover == layer.controls_on_hover
            &&& seen.visible_rect == after.visible_canvas_rect()
            &&& seen.detail == Some(after.thresholds.for_scale(after.zoom()))
            &&& seen.controls_on_hover == after.controls_on_hover
            &&& seen.slots == content.slots
            &&& seen.live == content.live
            &&& seen.active == content.active
        }),
{
}

/// A new view is pushed down by the next layout pass, as it is, and by that one only. A view
/// that is stored again is not pushed down again.
pub proof fn law_view_is_pushed_down_once(layer: LayerState, view: Affine, size: Size)
    requires
        crate::canvas::view_laws::finite_map(view),
    ensures
        ({
            let after = layer.viewed(view);
            let done = after.sized(size);
            &&& !layer.view.same(view) ==> after.pushed_down() == Some(view)
            &&& layer.view.same(view) ==> after.pushed_down() == layer.pushed_down()
            &&& done.pushed_down() is None
            &&& done.viewed(view).pushed_down() is None
            &&& LayerState::fresh().pushed_down() == Some(LayerState::fresh().view)
        }),
{
}

/// The statistics tell how many nodes there are, how many of them have a widget, at which
/// level and zoom, and what has been counted.
pub proof fn law_statistics_tell_the_state(layer: LayerState, content: ContentState)
    requires
        content.consistent(),
    ensures
        ({
            let after = layer.recorded(content);
            &&& after.stats.total == content.slots.len()
            &&& after.stats.materialised == content.live.len()
            &&& after.stats.materialised <= after.stats.total
            &&& after.stats.detail == content.detail
            &&& after.stats.zoom == layer.zoom()
            &&& after.stats.counters == content.counters
            &&& after == (LayerState { stats: after.stats, ..layer })
        }),
{
    lemma_list_is_no_longer(content.live, content.slots.len());
}

/// An ascending list of numbers below a count has no more entries than that.
proof fn lemma_list_is_no_longer(list: Seq<usize>, count: nat)
    requires
        crate::canvas::content::is_node_list(list, count),
    ensures
        list.len() <= count,
{
    if list.len() > 0 {
        lemma_entry_is_no_smaller(list, list.len() - 1);
    }
}

proof fn lemma_entry_is_no_smaller(list: Seq<usize>, k: int)
    requires
        crate::canvas::diff::ascending(list),
        0 <= k < list.len(),
    ensures
        k <= list[k],
    decreases k,
{
    if k > 0 {
        lemma_entry_is_no_smaller(list, k - 1);
    }
}

} // verus!
