//! What holds of a drag from its press to its release: of the view, or of a node.

use vstd::prelude::*;

use crate::canvas::content::{ContentState, Slot};
use crate::canvas::layer::{Drag, LayerState};
use crate::geometry::{Affine, Point, Vec2};
use crate::number::rounding::UNIT_EXPONENT;
use crate::widget::{Button, PointerEvent};

verus! {

/// A pointer move: where to, whether a control took it and whether one holds the pointer.
pub struct PointerMove {
    pub pos: Point,
    pub handled: bool,
    pub captured: bool,
}

/// The canvas after a run of moves, with nothing in between.
pub open spec fn after_moves(
    layer: LayerState,
    content: ContentState,
    moves: Seq<PointerMove>,
) -> (LayerState, ContentState)
    decreases moves.len(),
{
    if moves.len() == 0 {
        (layer, content)
    } else {
        let (on, stuff) = after_moves(layer, content, moves.drop_last());
        let last = moves.last();
        let after = on.pointed(
            stuff,
            PointerEvent::Move { pos: last.pos },
            last.handled,
            last.captured,
        );
        (after.0, after.1)
    }
}

/// Whether a pan from `from` needs no rounding along one axis: the displacement `shift` and
/// all pointer coordinates are on one grid, and every step and every sum stays in its reach.
pub open spec fn exact_pan(shift: int, from: int, at: Seq<int>, g: nat) -> bool {
    let step = crate::number::rounding::two_to(g) as int;
    &&& g <= UNIT_EXPONENT
    &&& shift % step == 0
    &&& from % step == 0
    &&& forall|i: int|
        0 <= i < at.len() ==> {
            &&& (#[trigger] at[i]) % step == 0
            &&& crate::number::exact::within_grid(shift + at[i] - from, g)
            &&& crate::number::exact::within_grid(at[i] - from, g)
            &&& crate::number::exact::within_grid(
                at[i] - (if i == 0 {
                    from
                } else {
                    at[i - 1]
                }),
                g,
            )
        }
}

/// The horizontal coordinates of a run of moves.
pub open spec fn across(moves: Seq<PointerMove>) -> Seq<int> {
    Seq::new(moves.len(), |i: int| moves[i].pos.x.value())
}

/// The vertical coordinates of a run of moves.
pub open spec fn down(moves: Seq<PointerMove>) -> Seq<int> {
    Seq::new(moves.len(), |i: int| moves[i].pos.y.value())
}

pub open spec fn finite_point(p: Point) -> bool {
    p.x.finite() && p.y.finite()
}

proof fn lemma_shorter_pan(shift: int, from: int, at: Seq<int>, g: nat)
    requires
        exact_pan(shift, from, at, g),
        at.len() > 0,
    ensures
        exact_pan(shift, from, at.drop_last(), g),
{
    let less = at.drop_last();
    assert forall|i: int| 0 <= i < less.len() implies less[i] == at[i] by {}
    let step = crate::number::rounding::two_to(g) as int;
    assert forall|i: int| 0 <= i < less.len() implies {
        &&& (#[trigger] less[i]) % step == 0
        &&& crate::number::exact::within_grid(shift + less[i] - from, g)
        &&& crate::number::exact::within_grid(less[i] - from, g)
        &&& crate::number::exact::within_grid(
            less[i] - (if i == 0 {
                from
            } else {
                less[i - 1]
            }),
            g,
        )
    } by {
        assert(at[i] % step == 0);
    }
}

/// Where the pointer is after a run of moves that started at `from`.
pub open spec fn ends_at(from: Point, moves: Seq<PointerMove>) -> Point {
    if moves.len() == 0 {
        from
    } else {
        moves.last().pos
    }
}

/// The state of a pan after any number of moves.
proof fn lemma_pan(
    layer: LayerState,
    content: ContentState,
    from: Point,
    moves: Seq<PointerMove>,
    gx: nat,
    gy: nat,
)
    requires
        layer.drag == (Drag::Pan { last: from }),
        crate::canvas::view_laws::finite_map(layer.view),
        finite_point(from),
        forall|i: int| 0 <= i < moves.len() ==> finite_point((#[trigger] moves[i]).pos),
        exact_pan(layer.view.e.value(), from.x.value(), across(moves), gx),
        exact_pan(layer.view.f.value(), from.y.value(), down(moves), gy),
    ensures
        ({
            let (end, stuff) = after_moves(layer, content, moves);
            let to = ends_at(from, moves);
            &&& stuff == content
            &&& end.drag == (Drag::Pan { last: to })
            &&& end == (LayerState {
                view: end.view,
                view_dirty: end.view_dirty,
                drag: end.drag,
                ..layer
            })
            &&& crate::canvas::view_laws::finite_map(end.view)
            &&& end.view.a.value() == layer.view.a.value()
            &&& end.view.b.value() == layer.view.b.value()
            &&& end.view.c.value() == layer.view.c.value()
            &&& end.view.d.value() == layer.view.d.value()
            &&& end.view.e.value() == layer.view.e.value() + to.x.value() - from.x.value()
            &&& end.view.f.value() == layer.view.f.value() + to.y.value() - from.y.value()
        }),
    decreases moves.len(),
{
    if moves.len() > 0 {
        let less = moves.drop_last();
        let n = moves.len() - 1;
        assert(across(less) =~= across(moves).drop_last());
        assert(down(less) =~= down(moves).drop_last());
        lemma_shorter_pan(layer.view.e.value(), from.x.value(), across(moves), gx);
        lemma_shorter_pan(layer.view.f.value(), from.y.value(), down(moves), gy);
        assert forall|i: int| 0
            <= i < less.len() implies finite_point((#[trigger] less[i]).pos) by {
            assert(less[i] == moves[i]);
        }
        lemma_pan(layer, content, from, less, gx, gy);
        let (on, stuff) = after_moves(layer, content, less);
        let last = ends_at(from, less);
        let to = moves[n].pos;
        assert(finite_point(to));
        if n > 0 {
            assert(finite_point(moves[n - 1].pos));
            assert(across(moves)[n - 1] == last.x.value());
            assert(down(moves)[n - 1] == last.y.value());
            let sx = crate::number::rounding::two_to(gx) as int;
            let sy = crate::number::rounding::two_to(gy) as int;
            assert(across(moves)[n - 1] % sx == 0);
            assert(down(moves)[n - 1] % sy == 0);
            assert(crate::number::exact::within_grid(
                layer.view.e.value() + across(moves)[n - 1] - from.x.value(),
                gx,
            ));
            assert(crate::number::exact::within_grid(
                layer.view.f.value() + down(moves)[n - 1] - from.y.value(),
                gy,
            ));
        }
        assert(across(moves)[n] == to.x.value());
        assert(down(moves)[n] == to.y.value());
        crate::number::exact::lemma_grid_minus(to.x, last.x, gx);
        crate::number::exact::lemma_grid_minus(to.y, last.y, gy);
        let delta = last.to(to);
        crate::number::exact::lemma_grid_plus(on.view.e, delta.x, gx);
        crate::number::exact::lemma_grid_plus(on.view.f, delta.y, gy);
        crate::canvas::view_laws::law_pan_only_moves(on, delta);
    }
}

/// Letting go or losing the pointer ends a gesture: the view and the nodes stay as they are,
/// and further moves leave both where they are.
pub proof fn law_release_ends_a_gesture(
    layer: LayerState,
    content: ContentState,
    event: PointerEvent,
    handled: bool,
    captured: bool,
    later: PointerMove,
)
    requires
        event is Up || event is Cancel,
    ensures
        ({
            let (rest, left, _) = layer.pointed(content, event, handled, captured);
            let (after, then, _) = rest.pointed(
                left,
                PointerEvent::Move { pos: later.pos },
                later.handled,
                later.captured,
            );
            &&& rest.drag is Idle
            &&& left == content
            &&& after == rest
            &&& after.view == layer.view
            &&& then.slots == content.slots
        }),
{
    let (rest, left, _) = layer.pointed(content, event, handled, captured);
    assert(rest.drag is Idle && left == content && rest.view == layer.view);
}

/// What a press that starts a pan does.
proof fn lemma_press(layer: LayerState, content: ContentState, button: Button, from: Point)
    requires
        button == Button::Auxiliary || (button == Button::Primary && content.hit(
            layer.canvas_point(from),
        ) is None),
    ensures
        ({
            let press = PointerEvent::Down { button: Some(button), pos: from };
            let (pressed, there, asks) = layer.pointed(content, press, false, false);
            &&& pressed == (LayerState { drag: Drag::Pan { last: from }, ..layer })
            &&& there == content
        }),
{
}

/// A move during a pan is handled.
proof fn lemma_pan_is_handled(layer: LayerState, content: ContentState, by: PointerMove)
    requires
        layer.drag is Pan,
    ensures
        layer.pointed(
            content,
            PointerEvent::Move { pos: by.pos },
            by.handled,
            by.captured,
        ).2.handled,
{
}

/// A pan goes on through any number of moves.
proof fn lemma_pan_goes_on(layer: LayerState, content: ContentState, moves: Seq<PointerMove>)
    requires
        layer.drag is Pan,
    ensures
        after_moves(layer, content, moves).0.drag is Pan,
    decreases moves.len(),
{
    if moves.len() > 0 {
        lemma_pan_goes_on(layer, content, moves.drop_last());
    }
}

/// Where the view of a pan ends up, as one displacement.
proof fn lemma_whole_way(layer: LayerState, from: Point, to: Point, end: Affine, gx: nat, gy: nat)
    requires
        crate::canvas::view_laws::finite_map(layer.view),
        crate::canvas::view_laws::finite_map(end),
        finite_point(from),
        finite_point(to),
        exact_pan(layer.view.e.value(), from.x.value(), seq![to.x.value()], gx),
        exact_pan(layer.view.f.value(), from.y.value(), seq![to.y.value()], gy),
        end.a.value() == layer.view.a.value(),
        end.b.value() == layer.view.b.value(),
        end.c.value() == layer.view.c.value(),
        end.d.value() == layer.view.d.value(),
        end.e.value() == layer.view.e.value() + to.x.value() - from.x.value(),
        end.f.value() == layer.view.f.value() + to.y.value() - from.y.value(),
    ensures
        end.same(Affine::translate(from.to(to)).after(layer.view)),
{
    let xs = seq![to.x.value()];
    let ys = seq![to.y.value()];
    assert(xs[0] == to.x.value() && ys[0] == to.y.value());
    crate::number::exact::lemma_grid_minus(to.x, from.x, gx);
    crate::number::exact::lemma_grid_minus(to.y, from.y, gy);
    let delta = from.to(to);
    crate::number::exact::lemma_grid_plus(layer.view.e, delta.x, gx);
    crate::number::exact::lemma_grid_plus(layer.view.f, delta.y, gy);
    crate::canvas::view_laws::law_pan_only_moves(layer, delta);
}

/// One way is as exact as the many that it was made of.
proof fn lemma_one_way(shift: int, from: int, at: Seq<int>, g: nat)
    requires
        exact_pan(shift, from, at, g),
        at.len() > 0,
    ensures
        exact_pan(shift, from, seq![at.last()], g),
{
    let n = at.len() - 1;
    let step = crate::number::rounding::two_to(g) as int;
    assert(at[n] % step == 0);
    assert(crate::number::exact::within_grid(at[n] - from, g));
}

/// A pan follows the pointer: a press of the middle button, or of the primary one over no
/// node, and any number of moves after it displace the view by the whole way that the
/// pointer went, however many moves it took. No node moves, and the last move, like all
/// before it, is handled.
///
/// For pointers and displacements whose sums need no rounding.
pub proof fn law_pan_follows_the_pointer(
    layer: LayerState,
    content: ContentState,
    button: Button,
    from: Point,
    moves: Seq<PointerMove>,
    gx: nat,
    gy: nat,
)
    requires
        button == Button::Auxiliary || (button == Button::Primary && content.hit(
            layer.canvas_point(from),
        ) is None),
        crate::canvas::view_laws::finite_map(layer.view),
        finite_point(from),
        forall|i: int| 0 <= i < moves.len() ==> finite_point((#[trigger] moves[i]).pos),
        exact_pan(layer.view.e.value(), from.x.value(), across(moves), gx),
        exact_pan(layer.view.f.value(), from.y.value(), down(moves), gy),
        moves.len() > 0,
    ensures
        ({
            let press = PointerEvent::Down { button: Some(button), pos: from };
            let (pressed, there, _) = layer.pointed(content, press, false, false);
            let (end, stuff) = after_moves(pressed, there, moves);
            let to = moves.last().pos;
            &&& stuff == content
            &&& end.view.same(Affine::translate(from.to(to)).after(layer.view))
            &&& end.view.e.value() == layer.view.e.value() + to.x.value() - from.x.value()
            &&& end.view.f.value() == layer.view.f.value() + to.y.value() - from.y.value()
            &&& end.drag == (Drag::Pan { last: to })
            &&& ({
                let (on, here) = after_moves(pressed, there, moves.drop_last());
                let last = moves.last();
                on.pointed(
                    here,
                    PointerEvent::Move { pos: last.pos },
                    last.handled,
                    last.captured,
                ).2.handled
            })
        }),
{
    let press = PointerEvent::Down { button: Some(button), pos: from };
    let pressed = layer.pointed(content, press, false, false).0;
    lemma_press(layer, content, button, from);
    lemma_pan(pressed, content, from, moves, gx, gy);
    let to = moves.last().pos;
    let n = moves.len() - 1;
    assert(finite_point(moves[n].pos));
    assert(across(moves).last() == to.x.value());
    assert(down(moves).last() == to.y.value());
    lemma_one_way(layer.view.e.value(), from.x.value(), across(moves), gx);
    lemma_one_way(layer.view.f.value(), from.y.value(), down(moves), gy);
    let (end, stuff) = after_moves(pressed, content, moves);
    lemma_whole_way(layer, from, to, end.view, gx, gy);
    let (on, here) = after_moves(pressed, content, moves.drop_last());
    lemma_pan_goes_on(pressed, content, moves.drop_last());
    lemma_pan_is_handled(on, here, moves.last());
}

/// Whether `now` is the position `wanted`, up to the sign of a zero.
pub open spec fn is_at(now: Point, wanted: Point) -> bool {
    now == wanted || now.same(wanted)
}

/// A node drag after any number of moves: the node is where the last one put it, and nothing
/// else has changed.
proof fn lemma_node_drag(
    layer: LayerState,
    content: ContentState,
    index: usize,
    grab: Vec2,
    moves: Seq<PointerMove>,
)
    requires
        layer.drag == (Drag::Node { index, grab }),
        index < content.slots.len(),
    ensures
        ({
            let (end, stuff) = after_moves(layer, content, moves);
            &&& end == layer
            &&& stuff.slots.len() == content.slots.len()
            &&& stuff.slots[index as int] == (Slot {
                pos: stuff.slots[index as int].pos,
                ..content.slots[index as int]
            })
            &&& forall|j: int|
                0 <= j < content.slots.len() && j != index ==> #[trigger] stuff.slots[j]
                    == content.slots[j]
            &&& moves.len() > 0 ==> is_at(
                stuff.slots[index as int].pos,
                layer.canvas_point(moves.last().pos).back(grab),
            )
        }),
    decreases moves.len(),
{
    if moves.len() > 0 {
        lemma_node_drag(layer, content, index, grab, moves.drop_last());
    }
}

/// What a press on a node does.
proof fn lemma_press_on_node(
    layer: LayerState,
    content: ContentState,
    from: Point,
    index: usize,
    was: Point,
)
    requires
        content.hit(layer.canvas_point(from)) == Some((index, was)),
    ensures
        ({
            let press = PointerEvent::Down { button: Some(Button::Primary), pos: from };
            let grab = was.to(layer.canvas_point(from));
            let (pressed, there, _) = layer.pointed(content, press, false, false);
            &&& pressed == (LayerState { drag: Drag::Node { index, grab }, ..layer })
            &&& there == content
        }),
{
}

/// A node that was hit is one, and is hit where it is.
proof fn lemma_hit_is_a_node(content: ContentState, pos: Point, n: nat)
    requires
        content.consistent(),
        n <= content.visible.len(),
    ensures
        content.topmost(pos, n) matches Some(i) ==> i < content.slots.len(),
    decreases n,
{
    if n > 0 {
        assert(content.visible[n - 1] < content.slots.len());
        lemma_hit_is_a_node(content, pos, (n - 1) as nat);
    }
}

/// A move during a node drag is handled.
proof fn lemma_node_drag_is_handled(layer: LayerState, content: ContentState, by: PointerMove)
    requires
        layer.drag is Node,
    ensures
        layer.pointed(
            content,
            PointerEvent::Move { pos: by.pos },
            by.handled,
            by.captured,
        ).2.handled,
{
}

/// Whether a drag of a node needs no rounding along one axis: where it was, where it was
/// grabbed and where the pointer went, all in canvas coordinates, are on one grid, and both
/// differences stay in its reach.
pub open spec fn exact_drag(was: int, grabbed: int, to: int, g: nat) -> bool {
    let step = crate::number::rounding::two_to(g) as int;
    &&& g <= UNIT_EXPONENT
    &&& was % step == 0
    &&& grabbed % step == 0
    &&& to % step == 0
    &&& crate::number::exact::within_grid(grabbed - was, g)
    &&& crate::number::exact::within_grid(to - (grabbed - was), g)
}

/// A node follows the pointer: a press of the primary button over one, and any number of
/// moves after it, put it where the point of it that was grabbed is under the pointer. The
/// view stays, every other node stays, of the node itself nothing but its position changes,
/// and the last move, like all before it, is handled.
pub proof fn law_node_follows_the_pointer(
    layer: LayerState,
    content: ContentState,
    from: Point,
    index: usize,
    was: Point,
    moves: Seq<PointerMove>,
)
    requires
        content.consistent(),
        content.hit(layer.canvas_point(from)) == Some((index, was)),
        moves.len() > 0,
    ensures
        ({
            let press = PointerEvent::Down { button: Some(Button::Primary), pos: from };
            let (pressed, there, _) = layer.pointed(content, press, false, false);
            let (end, stuff) = after_moves(pressed, there, moves);
            let grabbed = layer.canvas_point(from);
            let to = layer.canvas_point(moves.last().pos);
            &&& index < content.slots.len()
            &&& end.view == layer.view
            &&& end == pressed
            &&& is_at(stuff.slots[index as int].pos, to.back(was.to(grabbed)))
            &&& stuff.slots.len() == content.slots.len()
            &&& stuff.slots[index as int] == (Slot {
                pos: stuff.slots[index as int].pos,
                ..content.slots[index as int]
            })
            &&& forall|j: int|
                0 <= j < content.slots.len() && j != index ==> #[trigger] stuff.slots[j]
                    == content.slots[j]
            &&& ({
                let (on, here) = after_moves(pressed, there, moves.drop_last());
                let last = moves.last();
                on.pointed(
                    here,
                    PointerEvent::Move { pos: last.pos },
                    last.handled,
                    last.captured,
                ).2.handled
            })
        }),
{
    let grab = was.to(layer.canvas_point(from));
    let pressed = LayerState { drag: Drag::Node { index, grab }, ..layer };
    lemma_press_on_node(layer, content, from, index, was);
    lemma_hit_is_a_node(content, layer.canvas_point(from), content.visible.len());
    lemma_node_drag(pressed, content, index, grab, moves);
    lemma_node_drag(pressed, content, index, grab, moves.drop_last());
    let (on, here) = after_moves(pressed, content, moves.drop_last());
    lemma_node_drag_is_handled(on, here, moves.last());
}

/// Where a node that follows the pointer is, without rounding: as far from the pointer as
/// when it was grabbed, so that the grabbed point is exactly under it.
pub proof fn law_grabbed_point_stays_under_the_pointer(
    was: Point,
    grabbed: Point,
    to: Point,
    now: Point,
    gx: nat,
    gy: nat,
)
    requires
        finite_point(was),
        finite_point(grabbed),
        finite_point(to),
        is_at(now, to.back(was.to(grabbed))),
        exact_drag(was.x.value(), grabbed.x.value(), to.x.value(), gx),
        exact_drag(was.y.value(), grabbed.y.value(), to.y.value(), gy),
    ensures
        to.x.value() - now.x.value() == grabbed.x.value() - was.x.value(),
        to.y.value() - now.y.value() == grabbed.y.value() - was.y.value(),
{
    crate::number::exact::lemma_grid_minus(grabbed.x, was.x, gx);
    crate::number::exact::lemma_grid_minus(grabbed.y, was.y, gy);
    let grab = was.to(grabbed);
    crate::number::exact::lemma_grid_minus(to.x, grab.x, gx);
    crate::number::exact::lemma_grid_minus(to.y, grab.y, gy);
}

} // verus!
