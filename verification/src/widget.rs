//! What a widget and its host tell each other.

use vstd::prelude::*;

use crate::geometry::{Axis, Point, Size};
use crate::number::scalar::Scalar;

verus! {

/// How long a widget is asked to be along one axis.
#[derive(Clone, Copy, Debug, PartialEq)]
pub enum LenReq {
    /// As short as its contents permit.
    MinContent,
    /// As long as its contents would like.
    MaxContent,
    /// As suits its contents, in the given space.
    FitContent(Scalar),
}

impl LenReq {
    pub open spec fn spec_filling(self, axis: Axis, width: Scalar, height: Scalar) -> Scalar {
        match self {
            LenReq::MinContent => Scalar::zero(),
            LenReq::MaxContent => match axis {
                Axis::Horizontal => width,
                Axis::Vertical => height,
            },
            LenReq::FitContent(space) => space,
        }
    }

    /// The length of a widget that fills the space it is given, and asks for `width` by
    /// `height` where there is no limit.
    #[verifier::when_used_as_spec(spec_filling)]
    pub fn filling(self, axis: Axis, width: Scalar, height: Scalar) -> (r: Scalar)
        ensures
            r == self.filling(axis, width, height),
    {
        match self {
            LenReq::MinContent => Scalar::zero(),
            LenReq::MaxContent => match axis {
                Axis::Horizontal => width,
                Axis::Vertical => height,
            },
            LenReq::FitContent(space) => space,
        }
    }
}

/// A pointer button.
#[derive(Clone, Copy, Debug, PartialEq, Eq, Structural)]
pub enum Button {
    /// Usually the left one.
    Primary,
    /// Usually the middle one.
    Auxiliary,
    /// Any other.
    Other,
}

/// Something the pointer did, at a position in the widget's own coordinates.
#[derive(Clone, Copy, Debug, PartialEq)]
pub enum PointerEvent {
    Down { button: Option<Button>, pos: Point },
    Move { pos: Point },
    Up,
    Cancel,
    Leave,
    /// The wheel moved by `travel` logical pixels. `factor` is the zoom that it asks for.
    Scroll { travel: Scalar, factor: Scalar, pos: Point },
    Other,
}

pub open spec fn spec_resized(last: Option<Size>, now: Size) -> bool {
    !(last matches Some(size) && size.same(now))
}

/// Whether a child that was last given one size has to be told of another.
#[verifier::when_used_as_spec(spec_resized)]
pub fn resized(last: Option<Size>, now: Size) -> (r: bool)
    ensures
        r == resized(last, now),
{
    match last {
        Some(size) => !size.same(now),
        None => true,
    }
}

/// How many answers are yes.
pub open spec fn yes_count(answers: Seq<bool>) -> nat
    decreases answers.len(),
{
    if answers.len() == 0 {
        0
    } else {
        yes_count(answers.drop_last()) + if answers.last() {
            1nat
        } else {
            0nat
        }
    }
}

} // verus!
