//! How much of a node is worth drawing at a given zoom.

use vstd::prelude::*;

use crate::number::scalar::Scalar;

verus! {

/// How much detail a canvas child should draw at the current zoom level.
#[derive(Clone, Copy, Debug, PartialEq, Eq, PartialOrd, Ord, Structural)]
pub enum Detail {
    /// Full contents: header, body and interactive controls.
    Full,
    /// Header only; controls are stashed.
    Simplified,
    /// A flat filled rectangle. Contents are stashed and not laid out.
    Box,
}

impl Detail {
    /// The name of the level.
    pub fn as_str(&self) -> (r: &'static str)
        ensures
            r@ == (match *self {
                Detail::Full => "full"@,
                Detail::Simplified => "simplified"@,
                Detail::Box => "box"@,
            }),
    {
        match *self {
            Detail::Full => "full",
            Detail::Simplified => "simplified",
            Detail::Box => "box",
        }
    }

    /// How coarse the level is: zero for full contents.
    pub open spec fn coarseness(self) -> nat {
        match self {
            Detail::Full => 0,
            Detail::Simplified => 1,
            Detail::Box => 2,
        }
    }
}

/// The zoom levels at which a canvas switches between detail levels.
///
/// Policy, not mechanism: how small a node has to get before its controls stop being
/// usable depends on how the application draws it.
#[derive(Clone, Copy, Debug, PartialEq)]
pub struct DetailThresholds {
    /// Above this zoom, nodes are drawn in full and carry interactive controls.
    pub full: Scalar,
    /// Above this zoom (and below `full`), nodes keep widgets but drop their controls.
    /// Below it the canvas paints nodes itself and materialises nothing.
    pub simplified: Scalar,
}

impl Default for DetailThresholds {
    fn default() -> (r: DetailThresholds)
        ensures
            r == DetailThresholds::usual(),
    {
        DetailThresholds { full: Scalar::ratio(1, 5), simplified: Scalar::ratio(1, 20) }
    }
}

impl DetailThresholds {
    /// The thresholds of a canvas that sets none: a fifth and a twentieth.
    pub open spec fn usual() -> DetailThresholds {
        DetailThresholds { full: Scalar::ratio(1, 5), simplified: Scalar::ratio(1, 20) }
    }

    pub open spec fn spec_for_scale(&self, scale: Scalar) -> Detail {
        if self.full.less(scale) {
            Detail::Full
        } else if self.simplified.less(scale) {
            Detail::Simplified
        } else {
            Detail::Box
        }
    }

    /// Chooses a detail level for an effective scale factor.
    #[verifier::when_used_as_spec(spec_for_scale)]
    pub fn for_scale(&self, scale: Scalar) -> (r: Detail)
        ensures
            r == self.for_scale(scale),
    {
        if self.full.less(scale) {
            Detail::Full
        } else if self.simplified.less(scale) {
            Detail::Simplified
        } else {
            Detail::Box
        }
    }
}

/// The detail level the canvas as a whole is showing.
///
/// The *global* level, not the level the individual node was built at: a node under the
/// pointer keeps its controls while everything around it is simplified.
#[derive(Clone, Copy, Debug, PartialEq, Eq, Structural)]
pub struct CanvasDetail(pub Detail);

impl Default for CanvasDetail {
    fn default() -> (r: CanvasDetail)
        ensures
            r == CanvasDetail(Detail::Full),
    {
        CanvasDetail(Detail::Full)
    }
}

/// Which level a zoom gets is a matter of which thresholds it is above: the full one for full
/// contents, neither for a box. A zoom that is not a number is above none, and none is above a
/// threshold that is not a number.
pub proof fn law_level_is_where_the_zoom_lies(thresholds: DetailThresholds, scale: Scalar)
    ensures
        ({
            let level = thresholds.for_scale(scale);
            let full = thresholds.full;
            let simplified = thresholds.simplified;
            let above_full = !scale.is_nan() && !full.is_nan() && full.value() < scale.value();
            let above_simplified = !scale.is_nan() && !simplified.is_nan() && simplified.value()
                < scale.value();
            &&& level == Detail::Full <==> above_full
            &&& level == Detail::Simplified <==> above_simplified && !above_full
            &&& level == Detail::Box <==> !above_simplified && !above_full
            &&& !scale.is_nan() && simplified.at_most(full) ==> {
                &&& level == Detail::Full <==> full.value() < scale.value()
                &&& level == Detail::Simplified <==> simplified.value() < scale.value()
                    <= full.value()
                &&& level == Detail::Box <==> scale.value() <= simplified.value()
            }
        }),
{
}

/// The usual thresholds are a fifth and a twentieth, as near as numbers come to them.
pub proof fn law_usual_thresholds()
    ensures
        ({
            let usual = DetailThresholds::usual();
            let u = crate::number::error::grain();
            &&& usual.full.finite() && usual.simplified.finite()
            &&& crate::number::error::size(
                5real * crate::number::error::real_of(usual.full) - 1real,
            ) <= 2real * u
            &&& crate::number::error::size(
                20real * crate::number::error::real_of(usual.simplified) - 1real,
            ) <= 2real * u
        }),
{
    crate::number::error::lemma_real_ratio(1, 5);
    crate::number::error::lemma_real_ratio(1, 20);
    crate::number::error::lemma_grain();
}

/// Zooming in never makes a node coarser.
pub proof fn law_zooming_in_refines(thresholds: DetailThresholds, far: Scalar, near: Scalar)
    requires
        far.at_most(near),
    ensures
        thresholds.for_scale(near).coarseness() <= thresholds.for_scale(far).coarseness(),
{
}

} // verus!
