//! What holds of a screen over a whole history of events.

use vstd::prelude::*;

use crate::areas::screen::{ScreenResponse, ScreenState};
use crate::areas::shape::NodeId;
use crate::geometry::{Point, Size};
use crate::widget::{Button, PointerEvent};

verus! {

/// Something that happens to a screen.
pub enum ScreenStep {
    /// A pointer event. `handled` tells whether an area took it.
    Pointer { event: PointerEvent, handled: bool },
    /// A splitter is moved from outside.
    Drag { split: NodeId, pos: Point },
    /// A layout pass that finds `dirty` areas dirty.
    Layout { size: Size, dirty: nat },
}

/// The state after one step.
pub open spec fn after_step(state: ScreenState, step: ScreenStep) -> ScreenState {
    match step {
        ScreenStep::Pointer { event, handled } => state.pointed(event, handled).0,
        ScreenStep::Drag { split, pos } => state.dragged(split, pos),
        ScreenStep::Layout { size, dirty } => state.laid_out(size, dirty),
    }
}

/// The state after a history.
pub open spec fn after_steps(state: ScreenState, steps: Seq<ScreenStep>) -> ScreenState
    decreases steps.len(),
{
    if steps.len() == 0 {
        state
    } else {
        after_step(after_steps(state, steps.drop_last()), steps.last())
    }
}

/// The splitter that step `i` of a history grabs: it is a press of the primary button that
/// no area took, on a splitter as laid out at the time.
pub open spec fn grabs(state: ScreenState, steps: Seq<ScreenStep>, i: int) -> Option<NodeId> {
    match steps[i] {
        ScreenStep::Pointer {
            event: PointerEvent::Down { button, pos },
            handled,
        } => if !handled && button == Some(Button::Primary) {
            crate::areas::screen::grabbed(after_steps(state, steps.take(i)).bars, pos)
        } else {
            None
        },
        _ => None,
    }
}

/// Whether a step lets go of whatever was grabbed.
pub open spec fn lets_go(step: ScreenStep) -> bool {
    step matches ScreenStep::Pointer { event, .. } && (event is Up || event is Cancel)
}

/// Whether step `i` of a history grabbed `split`, and since then nothing let go and nothing
/// else was grabbed.
pub open spec fn held_since(
    state: ScreenState,
    steps: Seq<ScreenStep>,
    split: NodeId,
    i: int,
) -> bool {
    &&& 0 <= i < steps.len()
    &&& grabs(state, steps, i) == Some(split)
    &&& forall|j: int|
        i < j < steps.len() ==> !lets_go(#[trigger] steps[j]) && grabs(state, steps, j) is None
}

/// A step at the end changes nothing about what came before.
proof fn lemma_earlier(state: ScreenState, steps: Seq<ScreenStep>, i: int)
    requires
        0 <= i < steps.len() - 1,
    ensures
        grabs(state, steps.drop_last(), i) == grabs(state, steps, i),
        steps.drop_last()[i] == steps[i],
{
    assert(steps.drop_last().take(i) =~= steps.take(i));
}

/// A splitter is being dragged exactly where a press grabbed it and nothing let go since.
proof fn lemma_drag_is_held(state: ScreenState, steps: Seq<ScreenStep>, split: NodeId)
    requires
        state.drag is None,
    ensures
        after_steps(state, steps).drag == Some(split) <==> exists|i: int|
            held_since(state, steps, split, i),
    decreases steps.len(),
{
    if steps.len() == 0 {
    } else {
        let n = steps.len() - 1;
        let before = steps.drop_last();
        lemma_drag_is_held(state, before, split);
        assert(steps.take(n) =~= before);
        let was = after_steps(state, before);
        let now = after_steps(state, steps);
        assert(now == after_step(was, steps[n]));
        match grabs(state, steps, n) {
            Some(grabbed) => {
                assert(now.drag == Some(grabbed));
                if grabbed == split {
                    assert(held_since(state, steps, split, n));
                } else {
                    assert forall|i: int| !held_since(state, steps, split, i) by {
                        if held_since(state, steps, split, i) {
                            assert(i != n);
                            assert(grabs(state, steps, n) is None) by {
                                assert(steps[n] == steps[n]);
                            }
                        }
                    }
                }
            },
            None => {
                if lets_go(steps[n]) {
                    assert(now.drag is None);
                    assert forall|i: int| !held_since(state, steps, split, i) by {
                        if held_since(state, steps, split, i) {
                            assert(i != n);
                            assert(!lets_go(steps[n]));
                        }
                    }
                } else {
                    assert(now.drag == was.drag);
                    if was.drag == Some(split) {
                        let i = choose|i: int| held_since(state, before, split, i);
                        lemma_earlier(state, steps, i);
                        assert forall|j: int| i < j < steps.len() implies !lets_go(
                            #[trigger] steps[j],
                        ) && grabs(state, steps, j) is None by {
                            if j < n {
                                lemma_earlier(state, steps, j);
                                assert(!lets_go(before[j]));
                            }
                        }
                        assert(held_since(state, steps, split, i));
                    }
                    assert forall|i: int| held_since(state, steps, split, i) implies exists|k: int|
                        held_since(state, before, split, k) by {
                        assert(i != n);
                        lemma_earlier(state, steps, i);
                        assert forall|j: int| i < j < before.len() implies !lets_go(
                            #[trigger] before[j],
                        ) && grabs(state, before, j) is None by {
                            lemma_earlier(state, steps, j);
                            assert(!lets_go(steps[j]));
                        }
                        assert(held_since(state, before, split, i));
                    }
                }
            },
        }
    }
}

/// Whatever happened to a screen that started at rest, moving the pointer does nothing
/// unless a press grabbed a splitter and nothing let go of it since. Where one did, a move
/// drags that very splitter, as laid out now, under the pointer.
pub proof fn law_only_a_held_splitter_follows(
    state: ScreenState,
    steps: Seq<ScreenStep>,
    pos: Point,
    handled: bool,
)
    requires
        state.drag is None,
    ensures
        ({
            let now = after_steps(state, steps);
            let (after, asks) = now.pointed(PointerEvent::Move { pos }, handled);
            &&& (forall|split: NodeId, i: int| !held_since(state, steps, split, i)) ==> after == now
                && asks == ScreenResponse::spec_none()
            &&& forall|split: NodeId, i: int| #[trigger]
                held_since(state, steps, split, i) ==> now.drag == Some(split) && after
                    == now.dragged(split, pos) && asks == (if crate::areas::screen::bar_of(
                    now.bars,
                    split,
                ) is Some {
                    ScreenResponse {
                        layout: now.moves(split, pos),
                        handled: true,
                        ..ScreenResponse::spec_none()
                    }
                } else {
                    ScreenResponse::spec_none()
                })
        }),
{
    let now = after_steps(state, steps);
    if now.drag is Some {
        let split = now.drag.unwrap();
        lemma_drag_is_held(state, steps, split);
        let i = choose|i: int| held_since(state, steps, split, i);
        assert(held_since(state, steps, split, i));
    }
    assert forall|split: NodeId, i: int| #[trigger]
        held_since(state, steps, split, i) implies now.drag == Some(split) by {
        lemma_drag_is_held(state, steps, split);
    }
}

} // verus!
