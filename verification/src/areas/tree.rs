//! The split tree: which area sits where, and nothing at all about widgets.

use vstd::prelude::*;

use crate::areas::shape::{AreaId, Bar, NodeId, Shape};
use crate::geometry::{Axis, Point, Rect};
use crate::number::scalar::Scalar;

verus! {

#[derive(Clone, Copy, Debug)]
enum Node {
    /// Two children laid out along `axis`, `ratio` of the usable space to the first.
    Split { axis: Axis, ratio: Scalar, a: NodeId, b: NodeId },
    Area(AreaId),
}

/// A binary tree of splits with an area at every leaf.
pub struct SplitTree {
    nodes: Vec<Node>,
    root: NodeId,
    areas: usize,
    shape: Ghost<Shape>,
}

/// Whether the node table spells out `shape`.
spec fn spells(nodes: Seq<Node>, shape: Shape) -> bool
    decreases shape,
{
    &&& shape.node() < nodes.len()
    &&& match shape {
        Shape::Area { node, area } => nodes[node as int] == Node::Area(area),
        Shape::Split { node, axis, ratio, first, second } => {
            &&& nodes[node as int] == (Node::Split {
                axis,
                ratio,
                a: first.node(),
                b: second.node(),
            })
            &&& spells(nodes, *first)
            &&& spells(nodes, *second)
        },
    }
}

/// The table may change wherever the shape has no node.
proof fn lemma_spells_elsewhere(before: Seq<Node>, after: Seq<Node>, shape: Shape)
    requires
        spells(before, shape),
        forall|n: NodeId|
            #[trigger] shape.has_node(n) && n < before.len() ==> n < after.len()
                && before[n as int] == after[n as int],
    ensures
        spells(after, shape),
    decreases shape,
{
    assert(shape.has_node(shape.node()));
    match shape {
        Shape::Area { .. } => {},
        Shape::Split { first, second, .. } => {
            assert forall|n: NodeId| #[trigger] first.has_node(n) && n < before.len() implies n
                < after.len() && before[n as int] == after[n as int] by {
                assert(shape.has_node(n));
            }
            assert forall|n: NodeId| #[trigger] second.has_node(n) && n < before.len() implies n
                < after.len() && before[n as int] == after[n as int] by {
                assert(shape.has_node(n));
            }
            lemma_spells_elsewhere(before, after, *first);
            lemma_spells_elsewhere(before, after, *second);
        },
    }
}

/// What the table holds at a node of the shape.
proof fn lemma_entry(nodes: Seq<Node>, shape: Shape, n: NodeId)
    requires
        spells(nodes, shape),
        shape.orderly(),
        shape.has_node(n),
    ensures
        n < nodes.len(),
        match nodes[n as int] {
            Node::Area(id) => shape.has_leaf(n, id) && shape.ratio_of(n) == None::<Scalar>,
            Node::Split { ratio, .. } => shape.ratio_of(n) == Some(ratio),
        },
    decreases shape,
{
    match shape {
        Shape::Area { .. } => {},
        Shape::Split { node, first, second, .. } => {
            if n == node {
            } else if first.has_node(n) {
                lemma_entry(nodes, *first, n);
            } else {
                lemma_entry(nodes, *second, n);
            }
        },
    }
}

/// Where an area of the shape is found in the table.
proof fn lemma_leaf_of(nodes: Seq<Node>, shape: Shape, id: AreaId) -> (n: NodeId)
    requires
        spells(nodes, shape),
        shape.has_area(id),
    ensures
        n < nodes.len(),
        nodes[n as int] == Node::Area(id),
    decreases shape,
{
    match shape {
        Shape::Area { node, .. } => node,
        Shape::Split { first, second, .. } => {
            if first.has_area(id) {
                lemma_leaf_of(nodes, *first, id)
            } else {
                lemma_leaf_of(nodes, *second, id)
            }
        },
    }
}

/// A split of the leaf at `leaf`, as done in the table.
proof fn lemma_spells_split(
    nodes: Seq<Node>,
    after: Seq<Node>,
    shape: Shape,
    leaf: NodeId,
    id: AreaId,
    axis: Axis,
    ratio: Scalar,
    a: NodeId,
    b: NodeId,
    fresh: AreaId,
)
    requires
        spells(nodes, shape),
        shape.orderly(),
        shape.has_leaf(leaf, id),
        a < after.len(),
        b < after.len(),
        after[a as int] == Node::Area(id),
        after[b as int] == Node::Area(fresh),
        leaf < after.len(),
        after[leaf as int] == (Node::Split { axis, ratio, a, b }),
        forall|n: NodeId|
            #[trigger] shape.has_node(n) && n != leaf && n < nodes.len() ==> n < after.len()
                && nodes[n as int] == after[n as int],
    ensures
        spells(after, shape.with_split(id, axis, ratio, a, b, fresh)),
        shape.with_split(id, axis, ratio, a, b, fresh).node() == shape.node(),
    decreases shape,
{
    match shape {
        Shape::Area { .. } => {
            reveal_with_fuel(spells, 2);
        },
        Shape::Split { node, first, second, .. } => {
            let (inside, outside) = if first.has_leaf(leaf, id) {
                (*first, *second)
            } else {
                (*second, *first)
            };
            crate::areas::shape::lemma_leaf_belongs(inside, leaf, id);
            assert(shape.has_node(leaf) && shape.has_node(node));
            assert(leaf != node);
            assert(!outside.has_node(leaf));
            assert(!outside.has_area(id)) by {
                assert(first.has_area(id) ==> !second.has_area(id));
            }
            assert forall|n: NodeId| #[trigger] outside.has_node(n) && n < nodes.len() implies n
                < after.len() && nodes[n as int] == after[n as int] by {
                assert(shape.has_node(n));
            }
            assert forall|n: NodeId| #[trigger] inside.has_node(n) && n != leaf && n
                < nodes.len() implies n < after.len() && nodes[n as int] == after[n as int] by {
                assert(shape.has_node(n));
            }
            lemma_spells_elsewhere(nodes, after, outside);
            crate::areas::shape::lemma_split_elsewhere(outside, id, axis, ratio, a, b, fresh);
            lemma_spells_split(nodes, after, inside, leaf, id, axis, ratio, a, b, fresh);
        },
    }
}

/// Another ratio at one split, as done in the table.
proof fn lemma_spells_ratio(
    nodes: Seq<Node>,
    after: Seq<Node>,
    shape: Shape,
    split: NodeId,
    new: Scalar,
)
    requires
        spells(nodes, shape),
        split < nodes.len() == after.len(),
        nodes[split as int] matches Node::Split { axis, a, b, .. } && after == nodes.update(
            split as int,
            Node::Split { axis, ratio: new, a, b },
        ),
    ensures
        spells(after, shape.with_ratio(split, new)),
        shape.with_ratio(split, new).node() == shape.node(),
    decreases shape,
{
    match shape {
        Shape::Area { .. } => {},
        Shape::Split { first, second, .. } => {
            lemma_spells_ratio(nodes, after, *first, split, new);
            lemma_spells_ratio(nodes, after, *second, split, new);
        },
    }
}

impl SplitTree {
    /// What the tree stands for.
    pub closed spec fn shape(self) -> Shape {
        self.shape@
    }

    /// Whether the table holds exactly the nodes of the shape, and the areas are numbered
    /// without a gap.
    pub closed spec fn well_formed(self) -> bool {
        &&& spells(self.nodes@, self.shape@)
        &&& self.root == self.shape@.node()
        &&& self.shape@.orderly()
        &&& self.areas == self.shape@.leaves()
        &&& self.nodes@.len() == 2 * self.areas - 1
        &&& forall|n: NodeId| #[trigger] self.shape@.has_node(n) <==> n < self.nodes@.len()
        &&& forall|id: AreaId| #[trigger] self.shape@.has_area(id) <==> id < self.areas
    }

    /// Areas and nodes are numbered from zero without a gap, and none occurs twice.
    pub proof fn law_numbering(&self)
        requires
            self.well_formed(),
        ensures
            self.shape().orderly(),
            1 <= self.shape().leaves(),
            2 * self.shape().leaves() - 1 <= usize::MAX,
            forall|id: AreaId| #[trigger] self.shape().has_area(id) <==> id < self.shape().leaves(),
            forall|n: NodeId| #[trigger]
                self.shape().has_node(n) <==> n < 2 * self.shape().leaves() - 1,
    {
        assert(self.nodes.len() == self.nodes@.len());
    }

    /// A screen holding one area.
    pub fn single() -> (r: SplitTree)
        ensures
            r.well_formed(),
            r.shape() == (Shape::Area { node: 0, area: 0 }),
    {
        let mut nodes: Vec<Node> = Vec::new();
        nodes.push(Node::Area(0));
        SplitTree { nodes, root: 0, areas: 1, shape: Ghost(Shape::Area { node: 0, area: 0 }) }
    }

    /// A screen tiled into `areas` roughly equal parts.
    ///
    /// Splits alternate axis by depth, so the result stays close to square instead of
    /// degenerating into stripes.
    pub fn balanced(areas: usize) -> (r: SplitTree)
        requires
            0 < areas,
            2 * areas - 1 <= usize::MAX,
        ensures
            r.well_formed(),
            r.shape() == Shape::balanced(areas as nat, 0, 0, 0),
            r.shape().leaves() == areas,
    {
        let mut nodes: Vec<Node> = Vec::new();
        let mut next: AreaId = 0;
        let root = build_balanced(&mut nodes, areas, 0, &mut next);
        let ghost shape = Shape::balanced(areas as nat, 0, 0, 0);
        proof {
            crate::areas::shape::lemma_balanced(areas as nat, 0, 0, 0);
        }
        SplitTree { nodes, root, areas, shape: Ghost(shape) }
    }

    /// How many areas the screen holds.
    pub fn area_count(&self) -> (r: usize)
        requires
            self.well_formed(),
        ensures
            r == self.shape().leaves(),
    {
        self.areas
    }

    /// Splits `area` in two, returning the id of the area that appears.
    ///
    /// The existing area keeps its id and the first `ratio` of the space, which is what
    /// makes a split non-destructive.
    pub fn split(&mut self, area: AreaId, axis: Axis, ratio: Scalar) -> (r: Option<AreaId>)
        requires
            old(self).well_formed(),
            old(self).shape().leaves() <= usize::MAX / 2,
        ensures
            final(self).well_formed(),
            match r {
                Some(fresh) => {
                    let count = old(self).shape().leaves();
                    &&& old(self).shape().has_area(area)
                    &&& fresh == count
                    &&& final(self).shape().leaves() == count + 1
                    &&& final(self).shape() == old(self).shape().with_split(
                        area,
                        axis,
                        ratio.clamp(Scalar::zero(), Scalar::from_whole(1)),
                        (2 * count - 1) as NodeId,
                        (2 * count) as NodeId,
                        fresh,
                    )
                },
                None => !old(self).shape().has_area(area) && *final(self) == *old(self),
            },
    {
        let mut node: usize = 0;
        while node < self.nodes.len()
            invariant_except_break
                node <= self.nodes@.len(),
                forall|i: int| 0 <= i < node ==> self.nodes@[i] != Node::Area(area),
            invariant
                *self == *old(self),
            ensures
                node <= self.nodes@.len(),
                forall|i: int| 0 <= i < node ==> self.nodes@[i] != Node::Area(area),
                node < self.nodes@.len() ==> self.nodes@[node as int] == Node::Area(area),
            decreases self.nodes@.len() - node,
        {
            if let Node::Area(id) = self.nodes[node] {
                if id == area {
                    break;
                }
            }
            node += 1;
        }
        if node == self.nodes.len() {
            proof {
                if self.shape@.has_area(area) {
                    let n = lemma_leaf_of(self.nodes@, self.shape@, area);
                }
            }
            return None;
        }
        proof {
            crate::number::exact::lemma_unit_interval();
        }
        let fresh = self.areas;
        let a = self.nodes.len();
        let b = a + 1;
        let ratio = ratio.clamp(Scalar::zero(), Scalar::from_whole(1));
        let ghost before = self.nodes@;
        let ghost shape = self.shape@;
        self.areas += 1;
        self.nodes.push(Node::Area(area));
        self.nodes.push(Node::Area(fresh));
        self.nodes.set(node, Node::Split { axis, ratio, a, b });
        proof {
            assert(shape.has_node(node));
            lemma_entry(before, shape, node);
            crate::areas::shape::lemma_leaf_belongs(shape, node, area);
            lemma_spells_split(
                before,
                self.nodes@,
                shape,
                node,
                area,
                axis,
                ratio,
                a,
                b,
                fresh,
            );
            crate::areas::shape::lemma_split(shape, area, axis, ratio, a, b, fresh);
            self.shape@ = shape.with_split(area, axis, ratio, a, b, fresh);
        }
        Some(fresh)
    }

    /// The share of its span the first child of `split` takes, if `split` is one.
    pub fn ratio(&self, split: NodeId) -> (r: Option<Scalar>)
        requires
            self.well_formed(),
        ensures
            r == (if self.shape().has_node(split) {
                self.shape().ratio_of(split)
            } else {
                None
            }),
    {
        if split >= self.nodes.len() {
            return None;
        }
        proof {
            assert(self.shape@.has_node(split));
            lemma_entry(self.nodes@, self.shape@, split);
        }
        match self.nodes[split] {
            Node::Split { ratio, .. } => Some(ratio),
            Node::Area(_) => None,
        }
    }

    /// Moves a splitter. Returns whether anything changed.
    ///
    /// Clamped rather than rejected at the edges: a drag that runs past the end of the
    /// span should pin the splitter there, not stop tracking the pointer.
    pub fn set_ratio(&mut self, split: NodeId, ratio: Scalar) -> (r: bool)
        requires
            old(self).well_formed(),
        ensures
            final(self).well_formed(),
            r == old(self).shape().moves(split, ratio),
            final(self).shape() == old(self).shape().dragged(split, ratio),
    {
        if split >= self.nodes.len() {
            return false;
        }
        proof {
            assert(self.shape@.has_node(split));
            lemma_entry(self.nodes@, self.shape@, split);
        }
        let (axis, current, a, b) = match self.nodes[split] {
            Node::Split { axis, ratio, a, b } => (axis, ratio, a, b),
            Node::Area(_) => {
                return false;
            },
        };
        proof {
            crate::number::exact::lemma_unit_interval();
        }
        let clamped = ratio.clamp(Scalar::zero(), Scalar::from_whole(1));
        if current.same(clamped) {
            return false;
        }
        let ghost before = self.nodes@;
        self.nodes.set(split, Node::Split { axis, ratio: clamped, a, b });
        proof {
            let shape = self.shape@;
            lemma_spells_ratio(before, self.nodes@, shape, split, clamped);
            crate::areas::shape::lemma_ratio_keeps(shape, split, clamped);
            self.shape@ = shape.with_ratio(split, clamped);
        }
        true
    }

    /// Computes where every area and every splitter goes inside `rect`.
    ///
    /// Both outputs are cleared first, so the caller can keep reusing two buffers.
    pub fn layout(
        &self,
        rect: Rect,
        bar_thickness: Scalar,
        areas: &mut Vec<(AreaId, Rect)>,
        bars: &mut Vec<Bar>,
    )
        requires
            self.well_formed(),
            self.shape().fits(rect, bar_thickness),
        ensures
            final(areas)@ == self.shape().placed(rect, bar_thickness),
            final(bars)@ == self.shape().bars(rect, bar_thickness),
    {
        areas.clear();
        bars.clear();
        self.layout_node(self.root, rect, bar_thickness, areas, bars, Ghost(self.shape@));
    }

    fn layout_node(
        &self,
        node: NodeId,
        rect: Rect,
        bar_thickness: Scalar,
        areas: &mut Vec<(AreaId, Rect)>,
        bars: &mut Vec<Bar>,
        Ghost(shape): Ghost<Shape>,
    )
        requires
            spells(self.nodes@, shape),
            shape.node() == node,
            shape.fits(rect, bar_thickness),
        ensures
            final(areas)@ == old(areas)@ + shape.placed(rect, bar_thickness),
            final(bars)@ == old(bars)@ + shape.bars(rect, bar_thickness),
        decreases shape,
    {
        match self.nodes[node] {
            Node::Area(area) => {
                areas.push((area, rect));
            },
            Node::Split { axis, ratio, a, b } => {
                let (first, bar, second) = split_rect(rect, axis, ratio, bar_thickness);
                bars.push(Bar { split: node, axis, rect: bar, span: rect });
                self.layout_node(a, first, bar_thickness, areas, bars, Ghost(*shape->first));
                self.layout_node(b, second, bar_thickness, areas, bars, Ghost(*shape->second));
            },
        }
    }

    /// Whether `layout` can divide `rect`: no split meets a length that is not a number.
    pub fn fits(&self, rect: Rect, bar_thickness: Scalar) -> (r: bool)
        requires
            self.well_formed(),
        ensures
            r == self.shape().fits(rect, bar_thickness),
    {
        self.fits_node(self.root, rect, bar_thickness, Ghost(self.shape@))
    }

    fn fits_node(
        &self,
        node: NodeId,
        rect: Rect,
        bar_thickness: Scalar,
        Ghost(shape): Ghost<Shape>,
    ) -> (r: bool)
        requires
            spells(self.nodes@, shape),
            shape.node() == node,
        ensures
            r == shape.fits(rect, bar_thickness),
        decreases shape,
    {
        match self.nodes[node] {
            Node::Area(_) => true,
            Node::Split { axis, ratio, a, b } => {
                let extent = match axis {
                    Axis::Horizontal => rect.width(),
                    Axis::Vertical => rect.height(),
                };
                if !Scalar::zero().at_most(extent.minus(bar_thickness.min(extent))) {
                    return false;
                }
                let (first, _, second) = split_rect(rect, axis, ratio, bar_thickness);
                self.fits_node(a, first, bar_thickness, Ghost(*shape->first))
                    && self.fits_node(b, second, bar_thickness, Ghost(*shape->second))
            },
        }
    }
}

impl Clone for SplitTree {
    fn clone(&self) -> (r: SplitTree)
        ensures
            r.shape() == self.shape(),
            self.well_formed() ==> r.well_formed(),
    {
        let mut nodes: Vec<Node> = Vec::with_capacity(self.nodes.len());
        let mut i: usize = 0;
        while i < self.nodes.len()
            invariant
                i <= self.nodes@.len(),
                nodes@ == self.nodes@.take(i as int),
            decreases self.nodes@.len() - i,
        {
            nodes.push(self.nodes[i]);
            i += 1;
        }
        proof {
            assert(nodes@ =~= self.nodes@);
        }
        SplitTree { nodes, root: self.root, areas: self.areas, shape: Ghost(self.shape@) }
    }
}

fn build_balanced(nodes: &mut Vec<Node>, leaves: usize, depth: usize, next: &mut AreaId) -> (r:
    NodeId)
    requires
        0 < leaves,
        depth + leaves <= usize::MAX,
        *old(next) + leaves <= usize::MAX,
        old(nodes)@.len() + 2 * leaves - 1 <= usize::MAX,
    ensures
        *final(next) == *old(next) + leaves,
        final(nodes)@.len() == old(nodes)@.len() + 2 * leaves - 1,
        r == final(nodes)@.len() - 1,
        final(nodes)@.subrange(0, old(nodes)@.len() as int) == old(nodes)@,
        ({
            let shape = Shape::balanced(
                leaves as nat,
                depth as nat,
                *old(next) as nat,
                old(nodes)@.len(),
            );
            spells(final(nodes)@, shape) && shape.node() == r
        }),
    decreases leaves,
{
    if leaves == 1 {
        let area = *next;
        *next = *next + 1;
        nodes.push(Node::Area(area));
        return nodes.len() - 1;
    }
    let ghost start = nodes@;
    let ghost first_area = *next as nat;
    let first = leaves / 2;
    let a = build_balanced(nodes, first, depth + 1, next);
    let ghost middle = nodes@;
    let b = build_balanced(nodes, leaves - first, depth + 1, next);
    let axis = if depth % 2 == 0 {
        Axis::Horizontal
    } else {
        Axis::Vertical
    };
    let ghost almost = nodes@;
    nodes.push(
        Node::Split { axis, ratio: Scalar::ratio(first as u64, leaves as u64), a, b },
    );
    proof {
        let left = Shape::balanced(first as nat, depth as nat + 1, first_area, start.len());
        let right = Shape::balanced(
            (leaves - first) as nat,
            depth as nat + 1,
            first_area + first as nat,
            middle.len(),
        );
        crate::areas::shape::lemma_balanced(
            first as nat,
            depth as nat + 1,
            first_area,
            start.len(),
        );
        crate::areas::shape::lemma_balanced(
            (leaves - first) as nat,
            depth as nat + 1,
            first_area + first as nat,
            middle.len(),
        );
        assert forall|n: NodeId| #[trigger] left.has_node(n) && n < middle.len() implies n
            < nodes@.len() && middle[n as int] == nodes@[n as int] by {
            assert(almost.subrange(0, middle.len() as int)[n as int] == middle[n as int]);
        }
        lemma_spells_elsewhere(middle, nodes@, left);
        lemma_spells_elsewhere(almost, nodes@, right);
        assert(nodes@.subrange(0, start.len() as int) =~= start) by {
            assert forall|i: int| 0 <= i < start.len() implies nodes@[i] == start[i] by {
                assert(almost.subrange(0, middle.len() as int)[i] == middle[i]);
                assert(middle.subrange(0, start.len() as int)[i] == start[i]);
            }
        }
    }
    nodes.len() - 1
}

/// Divides `rect` into first child, splitter bar and second child.
///
/// The first extent is rounded to a whole pixel. An unrounded ratio would make every
/// descendant rect drift by a fraction of a pixel on every frame of a drag, so every area
/// would count as resized.
fn split_rect(rect: Rect, axis: Axis, ratio: Scalar, bar: Scalar) -> (r: (Rect, Rect, Rect))
    requires
        Scalar::zero().at_most(crate::areas::shape::usable(rect, axis, bar)),
    ensures
        r == crate::areas::shape::divided(rect, axis, ratio, bar),
{
    let (extent, origin) = match axis {
        Axis::Horizontal => (rect.width(), rect.x0),
        Axis::Vertical => (rect.height(), rect.y0),
    };
    let bar = bar.min(extent);
    let usable = extent.minus(bar);
    let first = usable.times(ratio).round().clamp(Scalar::zero(), usable);

    let bar_start = origin.plus(first);
    let second_start = bar_start.plus(bar);
    let end = origin.plus(extent);

    match axis {
        Axis::Horizontal => (
            Rect::new(rect.x0, rect.y0, bar_start, rect.y1),
            Rect::new(bar_start, rect.y0, second_start, rect.y1),
            Rect::new(second_start, rect.y0, end, rect.y1),
        ),
        Axis::Vertical => (
            Rect::new(rect.x0, rect.y0, rect.x1, bar_start),
            Rect::new(rect.x0, bar_start, rect.x1, second_start),
            Rect::new(rect.x0, second_start, rect.x1, end),
        ),
    }
}

/// The ratio a pointer at `pos` implies for a bar.
///
/// The inverse of how a layout places the bar, up to rounding.
pub fn ratio_at(bar: &Bar, pos: Point, bar_thickness: Scalar) -> (r: Scalar)
    ensures
        r == crate::areas::shape::implied_ratio(*bar, pos, bar_thickness),
{
    let (extent, origin, at) = match bar.axis {
        Axis::Horizontal => (bar.span.width(), bar.span.x0, pos.x),
        Axis::Vertical => (bar.span.height(), bar.span.y0, pos.y),
    };
    let usable = extent.minus(bar_thickness.min(extent));
    if usable.at_most(Scalar::zero()) {
        return Scalar::zero();
    }
    proof {
        crate::number::exact::lemma_unit_interval();
    }
    at.minus(origin).minus(bar_thickness.over(Scalar::from_whole(2))).over(usable).clamp(
        Scalar::zero(),
        Scalar::from_whole(1),
    )
}

} // verus!
