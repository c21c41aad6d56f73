//! What a split tree stands for: which area sits where.

use vstd::prelude::*;

use crate::geometry::{Axis, Point, Rect};
use crate::number::scalar::Scalar;

verus! {

/// Index of a node in the tree.
pub type NodeId = usize;

/// Index of an area. Stable for the life of the tree.
pub type AreaId = usize;

/// One splitter, as laid out.
#[derive(Clone, Copy, Debug, PartialEq)]
pub struct Bar {
    /// The split this bar divides. Pass it to `SplitTree::set_ratio`.
    pub split: NodeId,
    pub axis: Axis,
    /// The bar itself, for hit testing and painting.
    pub rect: Rect,
    /// The whole rect the split divides.
    ///
    /// A drag turns a pointer position into a ratio against this rect, so it has to
    /// travel with the bar.
    pub span: Rect,
}

/// The length of `rect` along `axis`.
pub open spec fn extent(rect: Rect, axis: Axis) -> Scalar {
    match axis {
        Axis::Horizontal => rect.width(),
        Axis::Vertical => rect.height(),
    }
}

/// Where `rect` begins along `axis`.
pub open spec fn start(rect: Rect, axis: Axis) -> Scalar {
    match axis {
        Axis::Horizontal => rect.x0,
        Axis::Vertical => rect.y0,
    }
}

/// The part of `rect` along `axis` that a bar leaves for its two sides.
pub open spec fn usable(rect: Rect, axis: Axis, bar: Scalar) -> Scalar {
    extent(rect, axis).minus(bar.min(extent(rect, axis)))
}

/// `rect` with other ends along `axis`.
pub open spec fn between(rect: Rect, axis: Axis, from: Scalar, to: Scalar) -> Rect {
    match axis {
        Axis::Horizontal => Rect { x0: from, x1: to, ..rect },
        Axis::Vertical => Rect { y0: from, y1: to, ..rect },
    }
}

/// How `rect` is divided into first child, bar and second child.
///
/// The first child takes `ratio` of what the bar leaves, rounded to a whole pixel.
pub open spec fn divided(rect: Rect, axis: Axis, ratio: Scalar, bar: Scalar) -> (Rect, Rect, Rect) {
    let room = usable(rect, axis, bar);
    let first = room.times(ratio).round().clamp(Scalar::zero(), room);
    let bar_start = start(rect, axis).plus(first);
    let second_start = bar_start.plus(bar.min(extent(rect, axis)));
    let end = start(rect, axis).plus(extent(rect, axis));
    (
        between(rect, axis, start(rect, axis), bar_start),
        between(rect, axis, bar_start, second_start),
        between(rect, axis, second_start, end),
    )
}

/// The ratio that puts a bar under `pos`, up to rounding.
pub open spec fn implied_ratio(bar: Bar, pos: Point, thickness: Scalar) -> Scalar {
    let room = usable(bar.span, bar.axis, thickness);
    if room.at_most(Scalar::zero()) {
        Scalar::zero()
    } else {
        let at = match bar.axis {
            Axis::Horizontal => pos.x,
            Axis::Vertical => pos.y,
        };
        at.minus(start(bar.span, bar.axis)).minus(
            thickness.over(Scalar::from_whole(2)),
        ).over(room).clamp(Scalar::zero(), Scalar::from_whole(1))
    }
}

/// A split tree without its node table: an area, or two trees side by side.
pub enum Shape {
    Area { node: NodeId, area: AreaId },
    Split { node: NodeId, axis: Axis, ratio: Scalar, first: Box<Shape>, second: Box<Shape> },
}

impl Shape {
    /// The node at the top.
    pub open spec fn node(self) -> NodeId {
        match self {
            Shape::Area { node, .. } => node,
            Shape::Split { node, .. } => node,
        }
    }

    /// Whether `n` is one of the nodes.
    pub open spec fn has_node(self, n: NodeId) -> bool
        decreases self,
    {
        match self {
            Shape::Area { node, .. } => n == node,
            Shape::Split { node, first, second, .. } => n == node || first.has_node(n)
                || second.has_node(n),
        }
    }

    /// Whether `id` is one of the areas.
    pub open spec fn has_area(self, id: AreaId) -> bool
        decreases self,
    {
        match self {
            Shape::Area { area, .. } => id == area,
            Shape::Split { first, second, .. } => first.has_area(id) || second.has_area(id),
        }
    }

    /// Whether area `id` sits at node `n`.
    pub open spec fn has_leaf(self, n: NodeId, id: AreaId) -> bool
        decreases self,
    {
        match self {
            Shape::Area { node, area } => n == node && id == area,
            Shape::Split { first, second, .. } => first.has_leaf(n, id) || second.has_leaf(n, id),
        }
    }

    /// How many areas there are.
    pub open spec fn leaves(self) -> nat
        decreases self,
    {
        match self {
            Shape::Area { .. } => 1,
            Shape::Split { first, second, .. } => first.leaves() + second.leaves(),
        }
    }

    /// Whether no node and no area occurs twice.
    pub open spec fn orderly(self) -> bool
        decreases self,
    {
        match self {
            Shape::Area { .. } => true,
            Shape::Split { node, first, second, .. } => {
                &&& first.orderly()
                &&& second.orderly()
                &&& !first.has_node(node)
                &&& !second.has_node(node)
                &&& forall|n: NodeId| !(#[trigger] first.has_node(n) && second.has_node(n))
                &&& forall|id: AreaId| !(#[trigger] first.has_area(id) && second.has_area(id))
            },
        }
    }

    /// The share that the first child of `split` takes, if `split` is one.
    pub open spec fn ratio_of(self, split: NodeId) -> Option<Scalar>
        decreases self,
    {
        match self {
            Shape::Area { .. } => None,
            Shape::Split { node, ratio, first, second, .. } => if node == split {
                Some(ratio)
            } else if first.has_node(split) {
                first.ratio_of(split)
            } else {
                second.ratio_of(split)
            },
        }
    }

    /// The same tree with another ratio at `split`.
    pub open spec fn with_ratio(self, split: NodeId, new: Scalar) -> Shape
        decreases self,
    {
        match self {
            Shape::Area { .. } => self,
            Shape::Split { node, axis, ratio, first, second } => Shape::Split {
                node,
                axis,
                ratio: if node == split {
                    new
                } else {
                    ratio
                },
                first: Box::new(first.with_ratio(split, new)),
                second: Box::new(second.with_ratio(split, new)),
            },
        }
    }

    /// Whether asking for `ratio` at `split` moves a splitter.
    pub open spec fn moves(self, split: NodeId, ratio: Scalar) -> bool {
        &&& self.has_node(split)
        &&& self.ratio_of(split) matches Some(current)
        &&& !current.same(ratio.clamp(Scalar::zero(), Scalar::from_whole(1)))
    }

    /// The tree after asking for `ratio` at `split`.
    pub open spec fn dragged(self, split: NodeId, ratio: Scalar) -> Shape {
        if self.moves(split, ratio) {
            self.with_ratio(split, ratio.clamp(Scalar::zero(), Scalar::from_whole(1)))
        } else {
            self
        }
    }

    /// The same tree with area `id` split in two: `id` keeps the first part, `fresh`
    /// gets the second. The new leaves are nodes `a` and `b`.
    pub open spec fn with_split(
        self,
        id: AreaId,
        axis: Axis,
        ratio: Scalar,
        a: NodeId,
        b: NodeId,
        fresh: AreaId,
    ) -> Shape
        decreases self,
    {
        match self {
            Shape::Area { node, area } => if area == id {
                Shape::Split {
                    node,
                    axis,
                    ratio,
                    first: Box::new(Shape::Area { node: a, area: id }),
                    second: Box::new(Shape::Area { node: b, area: fresh }),
                }
            } else {
                self
            },
            Shape::Split { node, axis: own_axis, ratio: own_ratio, first, second } => Shape::Split {
                node,
                axis: own_axis,
                ratio: own_ratio,
                first: Box::new(first.with_split(id, axis, ratio, a, b, fresh)),
                second: Box::new(second.with_split(id, axis, ratio, a, b, fresh)),
            },
        }
    }

    /// `leaves` areas in halves, the axis alternating by depth.
    ///
    /// Areas are numbered from `area` in order, nodes from `node` with every split after
    /// its two sides.
    pub open spec fn balanced(leaves: nat, depth: nat, area: nat, node: nat) -> Shape
        decreases leaves,
    {
        if leaves <= 1 {
            Shape::Area { node: node as NodeId, area: area as AreaId }
        } else {
            let half = leaves / 2;
            Shape::Split {
                node: (node + 2 * leaves - 2) as NodeId,
                axis: if depth % 2 == 0 {
                    Axis::Horizontal
                } else {
                    Axis::Vertical
                },
                ratio: Scalar::ratio(half as u64, leaves as u64),
                first: Box::new(Shape::balanced(half, depth + 1, area, node)),
                second: Box::new(
                    Shape::balanced(
                        (leaves - half) as nat,
                        depth + 1,
                        area + half,
                        (node + 2 * half - 1) as nat,
                    ),
                ),
            }
        }
    }

    /// Where every area goes inside `rect`, from first to last.
    pub open spec fn placed(self, rect: Rect, bar: Scalar) -> Seq<(AreaId, Rect)>
        decreases self,
    {
        match self {
            Shape::Area { area, .. } => seq![(area, rect)],
            Shape::Split { axis, ratio, first, second, .. } => {
                let (one, _, two) = divided(rect, axis, ratio, bar);
                first.placed(one, bar) + second.placed(two, bar)
            },
        }
    }

    /// Where every splitter goes inside `rect`, a split before what it divides.
    pub open spec fn bars(self, rect: Rect, bar: Scalar) -> Seq<Bar>
        decreases self,
    {
        match self {
            Shape::Area { .. } => seq![],
            Shape::Split { node, axis, ratio, first, second } => {
                let (one, mid, two) = divided(rect, axis, ratio, bar);
                seq![Bar { split: node, axis, rect: mid, span: rect }] + first.bars(one, bar)
                    + second.bars(two, bar)
            },
        }
    }

    /// Whether every split has room that is a number, not less than zero.
    ///
    /// So it is wherever the extents met on the way down are finite.
    pub open spec fn fits(self, rect: Rect, bar: Scalar) -> bool
        decreases self,
    {
        match self {
            Shape::Area { .. } => true,
            Shape::Split { axis, ratio, first, second, .. } => {
                let (one, _, two) = divided(rect, axis, ratio, bar);
                &&& Scalar::zero().at_most(usable(rect, axis, bar))
                &&& first.fits(one, bar)
                &&& second.fits(two, bar)
            },
        }
    }
}

/// A leaf is one of the nodes and holds one of the areas.
pub proof fn lemma_leaf_belongs(shape: Shape, n: NodeId, id: AreaId)
    requires
        shape.has_leaf(n, id),
    ensures
        shape.has_node(n),
        shape.has_area(id),
    decreases shape,
{
    match shape {
        Shape::Area { .. } => {},
        Shape::Split { first, second, .. } => {
            if first.has_leaf(n, id) {
                lemma_leaf_belongs(*first, n, id);
            } else {
                lemma_leaf_belongs(*second, n, id);
            }
        },
    }
}

/// Splitting an area leaves a shape without that area alone.
pub proof fn lemma_split_elsewhere(
    shape: Shape,
    id: AreaId,
    axis: Axis,
    ratio: Scalar,
    a: NodeId,
    b: NodeId,
    fresh: AreaId,
)
    requires
        !shape.has_area(id),
    ensures
        shape.with_split(id, axis, ratio, a, b, fresh) == shape,
    decreases shape,
{
    match shape {
        Shape::Area { .. } => {},
        Shape::Split { first, second, .. } => {
            lemma_split_elsewhere(*first, id, axis, ratio, a, b, fresh);
            lemma_split_elsewhere(*second, id, axis, ratio, a, b, fresh);
        },
    }
}

/// What splitting an area does to the nodes and the areas: two nodes and one area more.
pub proof fn lemma_split(
    shape: Shape,
    id: AreaId,
    axis: Axis,
    ratio: Scalar,
    a: NodeId,
    b: NodeId,
    fresh: AreaId,
)
    requires
        shape.orderly(),
        shape.has_area(id),
        !shape.has_node(a),
        !shape.has_node(b),
        a != b,
        !shape.has_area(fresh),
    ensures
        ({
            let split = shape.with_split(id, axis, ratio, a, b, fresh);
            &&& split.orderly()
            &&& split.leaves() == shape.leaves() + 1
            &&& forall|n: NodeId| #[trigger]
                split.has_node(n) <==> shape.has_node(n) || n == a || n == b
            &&& forall|x: AreaId| #[trigger] split.has_area(x) <==> shape.has_area(x) || x == fresh
        }),
    decreases shape,
{
    match shape {
        Shape::Area { .. } => {
            reveal_with_fuel(Shape::orderly, 2);
            reveal_with_fuel(Shape::leaves, 2);
            reveal_with_fuel(Shape::has_node, 2);
            reveal_with_fuel(Shape::has_area, 2);
        },
        Shape::Split { first, second, .. } => {
            if first.has_area(id) {
                lemma_split(*first, id, axis, ratio, a, b, fresh);
                lemma_split_elsewhere(*second, id, axis, ratio, a, b, fresh);
            } else {
                lemma_split(*second, id, axis, ratio, a, b, fresh);
                lemma_split_elsewhere(*first, id, axis, ratio, a, b, fresh);
            }
        },
    }
    let split = shape.with_split(id, axis, ratio, a, b, fresh);
    assert forall|n: NodeId| #[trigger] split.has_node(n) <==> shape.has_node(n) || n == a || n
        == b by {
        if let Shape::Split { first, second, .. } = shape {
            let one = first.with_split(id, axis, ratio, a, b, fresh);
            let two = second.with_split(id, axis, ratio, a, b, fresh);
            assert(split.has_node(n) <==> n == shape.node() || one.has_node(n) || two.has_node(n));
        }
    }
    assert forall|x: AreaId| #[trigger] split.has_area(x) <==> shape.has_area(x) || x == fresh by {
        if let Shape::Split { first, second, .. } = shape {
            let one = first.with_split(id, axis, ratio, a, b, fresh);
            let two = second.with_split(id, axis, ratio, a, b, fresh);
            assert(split.has_area(x) <==> one.has_area(x) || two.has_area(x));
        }
    }
}

/// Moving a splitter keeps all nodes and areas.
pub proof fn lemma_ratio_keeps(shape: Shape, split: NodeId, new: Scalar)
    ensures
        ({
            let moved = shape.with_ratio(split, new);
            &&& shape.orderly() ==> moved.orderly()
            &&& moved.leaves() == shape.leaves()
            &&& forall|n: NodeId| #[trigger] moved.has_node(n) <==> shape.has_node(n)
            &&& forall|x: AreaId| #[trigger] moved.has_area(x) <==> shape.has_area(x)
        }),
    decreases shape,
{
    let moved = shape.with_ratio(split, new);
    match shape {
        Shape::Area { .. } => {
            assert(moved == shape);
        },
        Shape::Split { first, second, .. } => {
            lemma_ratio_keeps(*first, split, new);
            lemma_ratio_keeps(*second, split, new);
        },
    }
    assert forall|n: NodeId| #[trigger] moved.has_node(n) <==> shape.has_node(n) by {
        if let Shape::Split { first, second, .. } = shape {
            let one = first.with_ratio(split, new);
            let two = second.with_ratio(split, new);
            assert(moved.has_node(n) <==> n == shape.node() || one.has_node(n) || two.has_node(n));
        }
    }
    assert forall|x: AreaId| #[trigger] moved.has_area(x) <==> shape.has_area(x) by {
        if let Shape::Split { first, second, .. } = shape {
            let one = first.with_ratio(split, new);
            let two = second.with_ratio(split, new);
            assert(moved.has_area(x) <==> one.has_area(x) || two.has_area(x));
        }
    }
}

/// The nodes and areas of a balanced tree are two runs of numbers.
pub proof fn lemma_balanced(leaves: nat, depth: nat, area: nat, node: nat)
    requires
        0 < leaves,
        area + leaves <= usize::MAX,
        node + 2 * leaves - 1 <= usize::MAX,
    ensures
        ({
            let shape = Shape::balanced(leaves, depth, area, node);
            &&& shape.orderly()
            &&& shape.leaves() == leaves
            &&& shape.node() == node + 2 * leaves - 2
            &&& forall|n: NodeId| #[trigger]
                shape.has_node(n) <==> node <= n < node + 2 * leaves - 1
            &&& forall|x: AreaId| #[trigger] shape.has_area(x) <==> area <= x < area + leaves
        }),
    decreases leaves,
{
    let shape = Shape::balanced(leaves, depth, area, node);
    if leaves == 1 {
        assert(shape == (Shape::Area { node: node as NodeId, area: area as AreaId }));
    } else {
        let half = leaves / 2;
        lemma_balanced(half, depth + 1, area, node);
        lemma_balanced(
            (leaves - half) as nat,
            depth + 1,
            area + half,
            (node + 2 * half - 1) as nat,
        );
        let one = Shape::balanced(half, depth + 1, area, node);
        let two = Shape::balanced(
            (leaves - half) as nat,
            depth + 1,
            area + half,
            (node + 2 * half - 1) as nat,
        );
        assert forall|n: NodeId| #[trigger] shape.has_node(n) <==> node <= n < node + 2 * leaves
            - 1 by {
            assert(shape.has_node(n) <==> n == shape.node() || one.has_node(n) || two.has_node(n));
        }
        assert forall|x: AreaId| #[trigger] shape.has_area(x) <==> area <= x < area + leaves by {
            assert(shape.has_area(x) <==> one.has_area(x) || two.has_area(x));
        }
    }
}

/// A layout has a rectangle for every area, and one splitter less than areas.
pub proof fn law_one_bar_less_than_areas(shape: Shape, rect: Rect, bar: Scalar)
    ensures
        shape.placed(rect, bar).len() == shape.leaves(),
        shape.bars(rect, bar).len() == shape.leaves() - 1,
        forall|k: int|
            0 <= k < shape.leaves() ==> shape.has_area(#[trigger] shape.placed(rect, bar)[k].0),
    decreases shape,
{
    match shape {
        Shape::Area { .. } => {},
        Shape::Split { axis, ratio, first, second, .. } => {
            let (one, _, two) = divided(rect, axis, ratio, bar);
            law_one_bar_less_than_areas(*first, one, bar);
            law_one_bar_less_than_areas(*second, two, bar);
        },
    }
}

} // verus!
