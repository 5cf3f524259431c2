//! Graph vertices, edge weights, layers, and paths.

use vstd::prelude::*;

use crate::grid::Grid;

verus! {

/// A graph vertex: an integer 2-D grid coordinate.
#[derive(Clone, Copy, Debug, PartialEq, Eq, Hash, Structural)]
pub struct Node {
    pub x: i64,
    pub y: i64,
}

/// An edge cost: a finite non-negative count, or `Infinity` for "no edge".
///
/// The derived `PartialOrd`/`Ord` order the variants as the domain demands:
/// every `Finite` value is below `Infinity`, and `Finite` values compare
/// numerically.
#[derive(Clone, Copy, Debug, PartialEq, Eq, PartialOrd, Ord, Hash, Structural)]
pub enum GraphWeight {
    Finite(i32),
    Infinity,
}

impl GraphWeight {
    /// True when the weight is a finite value.
    pub open spec fn spec_is_finite(self) -> bool {
        self is Finite
    }

    /// True when the weight is not a negative finite value.
    pub open spec fn is_nonneg(self) -> bool {
        match self {
            GraphWeight::Finite(n) => n >= 0,
            GraphWeight::Infinity => true,
        }
    }

    /// Mathematical order: `Infinity` is greater than or equal to everything.
    pub open spec fn spec_le(self, other: Self) -> bool {
        match (self, other) {
            (_, GraphWeight::Infinity) => true,
            (GraphWeight::Infinity, GraphWeight::Finite(_)) => false,
            (GraphWeight::Finite(a), GraphWeight::Finite(b)) => a <= b,
        }
    }

    /// Strict order derived from `spec_le`.
    pub open spec fn spec_lt(self, other: Self) -> bool {
        self.spec_le(other) && self != other
    }

    /// Saturating addition: any `Infinity` operand gives `Infinity`, and a
    /// finite sum that leaves `i32` saturates to `Infinity` as well.
    pub open spec fn spec_add(self, other: Self) -> GraphWeight {
        match (self, other) {
            (GraphWeight::Finite(a), GraphWeight::Finite(b)) => {
                if i32::MIN <= a + b <= i32::MAX {
                    GraphWeight::Finite((a + b) as i32)
                } else {
                    GraphWeight::Infinity
                }
            },
            _ => GraphWeight::Infinity,
        }
    }

    pub fn is_finite(&self) -> (r: bool)
        ensures
            r == self.spec_is_finite(),
    {
        match self {
            GraphWeight::Finite(_) => true,
            GraphWeight::Infinity => false,
        }
    }

    /// Executable saturating addition.
    pub fn add(self, other: Self) -> (r: Self)
        ensures
            r == self.spec_add(other),
    {
        match (self, other) {
            (GraphWeight::Finite(a), GraphWeight::Finite(b)) => {
                let s: i64 = a as i64 + b as i64;
                if i32::MIN as i64 <= s && s <= i32::MAX as i64 {
                    GraphWeight::Finite(s as i32)
                } else {
                    GraphWeight::Infinity
                }
            },
            _ => GraphWeight::Infinity,
        }
    }

    /// Executable comparison matching `spec_le`.
    pub fn le(&self, other: &Self) -> (r: bool)
        ensures
            r == self.spec_le(*other),
    {
        match (self, other) {
            (_, GraphWeight::Infinity) => true,
            (GraphWeight::Infinity, GraphWeight::Finite(_)) => false,
            (GraphWeight::Finite(a), GraphWeight::Finite(b)) => a <= b,
        }
    }

    /// Executable comparison matching `spec_lt`.
    pub fn lt(&self, other: &Self) -> (r: bool)
        ensures
            r == self.spec_lt(*other),
    {
        match (self, other) {
            (GraphWeight::Finite(_), GraphWeight::Infinity) => true,
            (GraphWeight::Infinity, GraphWeight::Infinity) => false,
            (GraphWeight::Infinity, GraphWeight::Finite(_)) => false,
            (GraphWeight::Finite(a), GraphWeight::Finite(b)) => a < b,
        }
    }
}

/// Law: `Infinity` is the top of the order. For every finite weight `a`,
/// `a < Infinity` and `a <= Infinity`, and `Infinity <= Infinity`.
pub proof fn lemma_weight_order(a: GraphWeight)
    ensures
        a is Finite ==> a.spec_lt(GraphWeight::Infinity),
        a.spec_le(GraphWeight::Infinity),
        GraphWeight::Infinity.spec_le(GraphWeight::Infinity),
        GraphWeight::Infinity is Finite == false,
{
}

/// Law: the order is total: `le` is reflexive, transitive, antisymmetric,
/// and any two weights compare.
pub proof fn lemma_weight_order_total(a: GraphWeight, b: GraphWeight, c: GraphWeight)
    ensures
        a.spec_le(a),
        a.spec_le(b) && b.spec_le(c) ==> a.spec_le(c),
        a.spec_le(b) && b.spec_le(a) ==> a == b,
        a.spec_le(b) || b.spec_le(a),
{
}

/// Law: addition saturates at `Infinity`. For every weight `w`,
/// `Infinity + w == Infinity` and `w + Infinity == Infinity`.
pub proof fn lemma_weight_add_infinity(w: GraphWeight)
    ensures
        GraphWeight::Infinity.spec_add(w) == GraphWeight::Infinity,
        w.spec_add(GraphWeight::Infinity) == GraphWeight::Infinity,
{
}

/// Law: finite weights add numerically: `Finite(a) + Finite(b) == Finite(a + b)`
/// whenever the sum stays inside `i32` (the machine limit of the weight type).
pub proof fn lemma_weight_add_finite(a: i32, b: i32)
    requires
        i32::MIN <= a + b <= i32::MAX,
    ensures
        GraphWeight::Finite(a).spec_add(GraphWeight::Finite(b)) == GraphWeight::Finite(
            (a + b) as i32,
        ),
{
}

/// Per-cell record of the four outgoing edge weights of a grid vertex.
#[derive(Clone, Copy, Debug)]
pub struct GridNode {
    pub x_plus: GraphWeight,
    pub x_minus: GraphWeight,
    pub z_plus: GraphWeight,
    pub z_minus: GraphWeight,
}

impl GridNode {
    /// All four stored weights are non-negative.
    pub open spec fn wf(self) -> bool {
        self.x_plus.is_nonneg() && self.x_minus.is_nonneg() && self.z_plus.is_nonneg()
            && self.z_minus.is_nonneg()
    }
}

/// A transport edge: exactly one directed edge from `start` to `end`.
#[derive(Clone, Copy, Debug)]
pub struct LiftLayer {
    pub start: Node,
    pub end: Node,
    pub weight: GraphWeight,
}

impl LiftLayer {
    /// The edges leaving `source` through this lift.
    pub open spec fn spec_children(self, source: Node) -> Seq<(Node, GraphWeight)> {
        if source == self.start {
            seq![(self.end, self.weight)]
        } else {
            Seq::empty()
        }
    }

    /// Returns the lift's single edge when `source` is its start, else nothing.
    pub fn get_children(&self, source: &Node) -> (r: Vec<(Node, GraphWeight)>)
        ensures
            r@ == self.spec_children(*source),
    {
        if *source == self.start {
            let r = vec![(self.end, self.weight)];
            assert(r@ =~= self.spec_children(*source));
            r
        } else {
            let r: Vec<(Node, GraphWeight)> = Vec::new();
            assert(r@ =~= self.spec_children(*source));
            r
        }
    }

    /// The weight of the edge from `source` to `destination`, or `Infinity`
    /// when the lift offers no such edge.
    pub fn get(&self, source: Node, destination: Node) -> (r: GraphWeight)
        ensures
            r == if source == self.start && destination == self.end {
                self.weight
            } else {
                GraphWeight::Infinity
            },
    {
        if source == self.start && destination == self.end {
            self.weight
        } else {
            GraphWeight::Infinity
        }
    }
}

/// One source of edges: a weighted terrain lattice or a single lift edge.
#[derive(Clone)]
pub enum GraphLayer {
    Grid { grid: Grid<GridNode> },
    Lift(LiftLayer),
}

/// A singleton edge list when `cond` holds, else no edges.
pub open spec fn seq_if(cond: bool, e: (Node, GraphWeight)) -> Seq<(Node, GraphWeight)> {
    if cond {
        seq![e]
    } else {
        Seq::empty()
    }
}

/// The edges leaving `source` on a grid layer: the four cardinal neighbours
/// with their per-direction weight, keeping only the finite ones; empty when
/// `source` lies outside the grid.
pub open spec fn grid_children(grid: Grid<GridNode>, source: Node) -> Seq<(Node, GraphWeight)> {
    if grid.spec_in_bounds(source.x as int, source.y as int) {
        let gn = grid.spec_at(source.x as int, source.y as int);
        seq_if(
            gn.x_plus.spec_is_finite(),
            (Node { x: (source.x + 1) as i64, y: source.y }, gn.x_plus),
        ) + seq_if(
            gn.x_minus.spec_is_finite(),
            (Node { x: (source.x - 1) as i64, y: source.y }, gn.x_minus),
        ) + seq_if(
            gn.z_plus.spec_is_finite(),
            (Node { x: source.x, y: (source.y + 1) as i64 }, gn.z_plus),
        ) + seq_if(
            gn.z_minus.spec_is_finite(),
            (Node { x: source.x, y: (source.y - 1) as i64 }, gn.z_minus),
        )
    } else {
        Seq::empty()
    }
}

/// The rectangle of nodes a grid and its one-step neighbours can occupy.
pub open spec fn grid_rect(w: int, h: int) -> Set<Node> {
    Set::new(|n: Node| -1 <= n.x <= w && -1 <= n.y <= h)
}

/// The nodes a grid layer can ever mention: its cells, and the targets of
/// the finite edges it offers.
pub open spec fn grid_layer_universe(grid: Grid<GridNode>) -> Set<Node> {
    Set::new(
        |n: Node|
            grid.spec_in_bounds(n.x as int, n.y as int) || exists|m: Node, i: int|
                0 <= i < grid_children(grid, m).len() && (#[trigger] grid_children(grid, m)[i]).0
                    == n,
    )
}

/// The i-th edge a grid offers leaves an in-bounds cell for one of its four
/// cardinal neighbours, and carries that direction's stored weight.
pub proof fn lemma_grid_child_shape(grid: Grid<GridNode>, m: Node, i: int)
    requires
        0 <= i < grid_children(grid, m).len(),
    ensures
        grid.spec_in_bounds(m.x as int, m.y as int),
        ({
            let gn = grid.spec_at(m.x as int, m.y as int);
            let e = grid_children(grid, m)[i];
            ||| e == (Node { x: (m.x + 1) as i64, y: m.y }, gn.x_plus)
            ||| e == (Node { x: (m.x - 1) as i64, y: m.y }, gn.x_minus)
            ||| e == (Node { x: m.x, y: (m.y + 1) as i64 }, gn.z_plus)
            ||| e == (Node { x: m.x, y: (m.y - 1) as i64 }, gn.z_minus)
        }),
        grid_children(grid, m)[i].1.spec_is_finite(),
{
    let gn = grid.spec_at(m.x as int, m.y as int);
    let a = seq_if(gn.x_plus.spec_is_finite(), (Node { x: (m.x + 1) as i64, y: m.y }, gn.x_plus));
    let b = seq_if(
        gn.x_minus.spec_is_finite(),
        (Node { x: (m.x - 1) as i64, y: m.y }, gn.x_minus),
    );
    let c = seq_if(gn.z_plus.spec_is_finite(), (Node { x: m.x, y: (m.y + 1) as i64 }, gn.z_plus));
    let d = seq_if(
        gn.z_minus.spec_is_finite(),
        (Node { x: m.x, y: (m.y - 1) as i64 }, gn.z_minus),
    );
    assert(grid_children(grid, m) == a + b + c + d);
    if i < a.len() {
        assert(grid_children(grid, m)[i] == a[i]);
    } else if i < a.len() + b.len() {
        assert(grid_children(grid, m)[i] == b[i - a.len()]);
    } else if i < a.len() + b.len() + c.len() {
        assert(grid_children(grid, m)[i] == c[i - a.len() - b.len()]);
    } else {
        assert(grid_children(grid, m)[i] == d[i - a.len() - b.len() - c.len()]);
    }
}

/// A bounded rectangle of nodes is a finite set.
pub proof fn lemma_grid_rect_finite(w: int, h: int)
    requires
        w >= 0,
        h >= 0,
    ensures
        grid_rect(w, h).finite(),
{
    let d = h + 2;
    let count = (w + 2) * d;
    let range = vstd::set_lib::set_int_range(0, count);
    let f = |i: int| Node { x: (i / d - 1) as i64, y: (i % d - 1) as i64 };
    let image = range.map(f);
    vstd::set_lib::lemma_int_range(0, count);
    range.lemma_map_finite(f);
    assert forall|n: Node| grid_rect(w, h).contains(n) implies image.contains(n) by {
        let q = n.x + 1;
        let r = n.y + 1;
        let i = q * d + r;
        vstd::arithmetic::div_mod::lemma_fundamental_div_mod_converse(i, d, q, r);
        assert(0 <= i < count) by (nonlinear_arith)
            requires
                i == q * d + r,
                count == (w + 2) * d,
                0 <= q <= w + 1,
                0 <= r < d,
                d >= 2,
        ;
        assert(range.contains(i));
        assert(f(i) == n);
    }
    vstd::set_lib::lemma_set_subset_finite(image, grid_rect(w, h));
}

/// A grid layer's universe is finite: it sits inside the bounded rectangle
/// one step around the grid.
pub proof fn lemma_grid_layer_universe_finite(grid: Grid<GridNode>)
    requires
        grid.wf(),
    ensures
        grid_layer_universe(grid).finite(),
{
    let w = grid.spec_width() as int;
    let h = grid.spec_height() as int;
    lemma_grid_rect_finite(w, h);
    assert forall|n: Node| grid_layer_universe(grid).contains(n) implies grid_rect(w, h).contains(
        n,
    ) by {
        if !grid.spec_in_bounds(n.x as int, n.y as int) {
            let (m, i) = choose|m: Node, i: int|
                0 <= i < grid_children(grid, m).len() && (#[trigger] grid_children(grid, m)[i]).0
                    == n;
            lemma_grid_child_shape(grid, m, i);
            assert(0 <= m.x < grid.spec_width() <= 40000);
            assert(0 <= m.y < grid.spec_height() <= 40000);
        }
    }
    vstd::set_lib::lemma_set_subset_finite(grid_rect(w, h), grid_layer_universe(grid));
}

impl GraphLayer {
    /// Grid cells all carry non-negative weights; a lift's weight is
    /// non-negative.
    pub open spec fn wf(self) -> bool {
        match self {
            GraphLayer::Grid { grid } => grid.wf() && forall|i: int|
                0 <= i < grid.spec_data().len() ==> (#[trigger] grid.spec_data()[i]).wf(),
            GraphLayer::Lift(l) => l.weight.is_nonneg(),
        }
    }

    /// The edges leaving `source` on this layer.
    pub open spec fn spec_children(self, source: Node) -> Seq<(Node, GraphWeight)> {
        match self {
            GraphLayer::Grid { grid } => grid_children(grid, source),
            GraphLayer::Lift(l) => l.spec_children(source),
        }
    }

    /// Every node this layer can mention.
    pub open spec fn spec_universe(self) -> Set<Node> {
        match self {
            GraphLayer::Grid { grid } => grid_layer_universe(grid),
            GraphLayer::Lift(l) => set![l.start, l.end],
        }
    }

    pub proof fn lemma_layer_wf(self, source: Node)
        requires
            self.wf(),
        ensures
            self.spec_universe().finite(),
            forall|i: int|
                0 <= i < self.spec_children(source).len() ==> self.spec_universe().contains(
                    (#[trigger] self.spec_children(source)[i]).0,
                ) && self.spec_children(source)[i].1.is_nonneg(),
    {
        match self {
            GraphLayer::Grid { grid } => {
                lemma_grid_layer_universe_finite(grid);
                if grid.spec_in_bounds(source.x as int, source.y as int) {
                    let xi = source.x as int;
                    let yi = source.y as int;
                    assert(0 <= xi * grid.spec_height() + yi < grid.spec_data().len())
                        by (nonlinear_arith)
                        requires
                            0 <= xi < grid.spec_width(),
                            0 <= yi < grid.spec_height(),
                            grid.spec_data().len() == grid.spec_width() * grid.spec_height(),
                    ;
                }
            },
            GraphLayer::Lift(l) => {},
        }
    }

    /// The weight this layer offers for a single step from `source` to
    /// `destination`: a grid's per-direction weight for a cardinal step, a
    /// lift's weight for its one edge, and `Infinity` for anything else.
    pub open spec fn spec_get(self, source: Node, destination: Node) -> GraphWeight {
        match self {
            GraphLayer::Grid { grid } => {
                if grid.spec_in_bounds(source.x as int, source.y as int) {
                    let gn = grid.spec_at(source.x as int, source.y as int);
                    if destination.x - source.x == 1 && destination.y == source.y {
                        gn.x_plus
                    } else if destination.x - source.x == -1 && destination.y == source.y {
                        gn.x_minus
                    } else if destination.y - source.y == 1 && destination.x == source.x {
                        gn.z_plus
                    } else if destination.y - source.y == -1 && destination.x == source.x {
                        gn.z_minus
                    } else {
                        GraphWeight::Infinity
                    }
                } else {
                    GraphWeight::Infinity
                }
            },
            GraphLayer::Lift(l) => {
                if source == l.start && destination == l.end {
                    l.weight
                } else {
                    GraphWeight::Infinity
                }
            },
        }
    }

    /// The weight of a single step from `source` to `destination`.
    pub fn get(&self, source: Node, destination: Node) -> (r: GraphWeight)
        requires
            self.wf(),
        ensures
            r == self.spec_get(source, destination),
    {
        match self {
            GraphLayer::Grid { grid } => {
                match grid.get(source.x, source.y) {
                    None => GraphWeight::Infinity,
                    Some(gn) => {
                        let gn = *gn;
                        let dx: i128 = destination.x as i128 - source.x as i128;
                        let dy: i128 = destination.y as i128 - source.y as i128;
                        if dx == 1 && dy == 0 {
                            gn.x_plus
                        } else if dx == -1 && dy == 0 {
                            gn.x_minus
                        } else if dy == 1 && dx == 0 {
                            gn.z_plus
                        } else if dy == -1 && dx == 0 {
                            gn.z_minus
                        } else {
                            GraphWeight::Infinity
                        }
                    },
                }
            },
            GraphLayer::Lift(l) => l.get(source, destination),
        }
    }

    /// Returns every edge leaving `source` on this layer.
    pub fn get_children(&self, source: &Node) -> (r: Vec<(Node, GraphWeight)>)
        requires
            self.wf(),
        ensures
            r@ == self.spec_children(*source),
    {
        match self {
            GraphLayer::Grid { grid } => {
                let mut out: Vec<(Node, GraphWeight)> = Vec::new();
                match grid.get(source.x, source.y) {
                    None => {},
                    Some(gn) => {
                        let gn = *gn;
                        proof {
                            let xi = source.x as int;
                            let yi = source.y as int;
                            assert(0 <= xi * grid.spec_height() + yi < grid.spec_data().len())
                                by (nonlinear_arith)
                                requires
                                    0 <= xi < grid.spec_width(),
                                    0 <= yi < grid.spec_height(),
                                    grid.spec_data().len() == grid.spec_width()
                                        * grid.spec_height(),
                            ;
                        }
                        if gn.x_plus.is_finite() {
                            out.push((Node { x: source.x + 1, y: source.y }, gn.x_plus));
                        }
                        if gn.x_minus.is_finite() {
                            out.push((Node { x: source.x - 1, y: source.y }, gn.x_minus));
                        }
                        if gn.z_plus.is_finite() {
                            out.push((Node { x: source.x, y: source.y + 1 }, gn.z_plus));
                        }
                        if gn.z_minus.is_finite() {
                            out.push((Node { x: source.x, y: source.y - 1 }, gn.z_minus));
                        }
                    },
                }
                assert(out@ =~= self.spec_children(*source));
                out
            },
            GraphLayer::Lift(l) => {
                let r = l.get_children(source);
                r
            },
        }
    }
}

/// Capability of producing the outgoing edges of a node.
pub trait Graph {
    /// The edges leaving `node`, as the contract sees them.
    spec fn spec_children(&self, node: Node) -> Seq<(Node, GraphWeight)>;

    /// A finite over-approximation of every node the graph can mention.
    spec fn universe(&self) -> Set<Node>;

    /// The graph's construction invariant.
    spec fn wf(&self) -> bool;

    /// Gets children of a given node.
    fn get_children(&self, node: &Node) -> (r: Vec<(Node, GraphWeight)>)
        requires
            self.wf(),
        ensures
            r@ == self.spec_children(*node),
    ;

    /// A well-formed graph has a finite universe that is closed under edges,
    /// and never offers a negative edge weight.
    proof fn lemma_wf_children(&self, node: Node)
        requires
            self.wf(),
        ensures
            self.universe().finite(),
            forall|i: int|
                0 <= i < self.spec_children(node).len() ==> self.universe().contains(
                    (#[trigger] self.spec_children(node)[i]).0,
                ) && self.spec_children(node)[i].1.is_nonneg(),
    ;
}

/// The lift layers among `s`, kept in order.
pub open spec fn lifts_of(s: Seq<GraphLayer>) -> Seq<LiftLayer>
    decreases s.len(),
{
    if s.len() == 0 {
        Seq::empty()
    } else {
        lifts_of(s.drop_last()) + (match s.last() {
            GraphLayer::Lift(l) => seq![l],
            GraphLayer::Grid { .. } => Seq::empty(),
        })
    }
}

/// The concatenation of every layer's edges leaving `node`.
pub open spec fn children_of(s: Seq<GraphLayer>, node: Node) -> Seq<(Node, GraphWeight)>
    decreases s.len(),
{
    if s.len() == 0 {
        Seq::empty()
    } else {
        children_of(s.drop_last(), node) + s.last().spec_children(node)
    }
}

/// The union of every layer's universe.
pub open spec fn universe_of(s: Seq<GraphLayer>) -> Set<Node>
    decreases s.len(),
{
    if s.len() == 0 {
        Set::empty()
    } else {
        universe_of(s.drop_last()).union(s.last().spec_universe())
    }
}

/// Every layer is well formed.
pub open spec fn layers_wf(s: Seq<GraphLayer>) -> bool {
    forall|i: int| 0 <= i < s.len() ==> (#[trigger] s[i]).wf()
}

proof fn lemma_layers_wf(s: Seq<GraphLayer>, node: Node)
    requires
        layers_wf(s),
    ensures
        universe_of(s).finite(),
        forall|i: int|
            0 <= i < children_of(s, node).len() ==> universe_of(s).contains(
                (#[trigger] children_of(s, node)[i]).0,
            ) && children_of(s, node)[i].1.is_nonneg(),
    decreases s.len(),
{
    if s.len() == 0 {
    } else {
        lemma_layers_wf(s.drop_last(), node);
        s.last().lemma_layer_wf(node);
        assert forall|i: int| 0 <= i < children_of(s, node).len() implies universe_of(s).contains(
            (#[trigger] children_of(s, node)[i]).0,
        ) && children_of(s, node)[i].1.is_nonneg() by {
            let front = children_of(s.drop_last(), node);
            if i >= front.len() {
                assert(children_of(s, node)[i] == s.last().spec_children(node)[i - front.len()]);
            }
        }
    }
}

/// A read-only composition of layers presented as one graph.
pub struct GraphLayerList {
    layers: Vec<GraphLayer>,
}

impl GraphLayerList {
    pub closed spec fn spec_layers(self) -> Seq<GraphLayer> {
        self.layers@
    }

    /// The lift layers of the list, in order.
    pub open spec fn spec_lifts(self) -> Seq<LiftLayer> {
        lifts_of(self.spec_layers())
    }

    pub fn new(layers: Vec<GraphLayer>) -> (r: Self)
        ensures
            r.spec_layers() == layers@,
    {
        Self { layers }
    }

    /// Returns every lift layer; grid layers are invisible to this query.
    pub fn find_lifts(&self) -> (r: Vec<LiftLayer>)
        ensures
            r@ == self.spec_lifts(),
    {
        let mut out: Vec<LiftLayer> = Vec::new();
        let n = self.layers.len();
        for i in 0..n
            invariant
                n == self.layers.len(),
                out@ == lifts_of(self.layers@.subrange(0, i as int)),
        {
            match &self.layers[i] {
                GraphLayer::Grid { .. } => {},
                GraphLayer::Lift(l) => out.push(*l),
            }
            proof {
                let pre = self.layers@.subrange(0, i as int);
                let post = self.layers@.subrange(0, i + 1 as int);
                assert(post.drop_last() =~= pre);
                assert(post.last() == self.layers@[i as int]);
            }
        }
        proof {
            assert(self.layers@.subrange(0, n as int) =~= self.layers@);
        }
        out
    }
}

impl Graph for GraphLayerList {
    open spec fn spec_children(&self, node: Node) -> Seq<(Node, GraphWeight)> {
        children_of(self.spec_layers(), node)
    }

    open spec fn universe(&self) -> Set<Node> {
        universe_of(self.spec_layers())
    }

    open spec fn wf(&self) -> bool {
        layers_wf(self.spec_layers())
    }

    /// Returns every edge leaving `node` across all layers, concatenated.
    fn get_children(&self, node: &Node) -> (r: Vec<(Node, GraphWeight)>) {
        let mut out: Vec<(Node, GraphWeight)> = Vec::new();
        let n = self.layers.len();
        for i in 0..n
            invariant
                n == self.layers.len(),
                layers_wf(self.layers@),
                out@ == children_of(self.layers@.subrange(0, i as int), *node),
        {
            let mut part = self.layers[i].get_children(node);
            out.append(&mut part);
            proof {
                let pre = self.layers@.subrange(0, i as int);
                let post = self.layers@.subrange(0, i + 1 as int);
                assert(post.drop_last() =~= pre);
                assert(post.last() == self.layers@[i as int]);
            }
        }
        proof {
            assert(self.layers@.subrange(0, n as int) =~= self.layers@);
        }
        out
    }

    proof fn lemma_wf_children(&self, node: Node) {
        lemma_layers_wf(self.spec_layers(), node);
    }
}

/// An ordered hop sequence: each pair is the node reached and the edge weight
/// that reached it from its predecessor; the first pair's weight is zero.
#[derive(Clone, Debug, PartialEq)]
pub struct Path {
    pub path: Vec<(Node, GraphWeight)>,
}

impl View for Path {
    type V = Seq<(Node, GraphWeight)>;

    open spec fn view(&self) -> Seq<(Node, GraphWeight)> {
        self.path@
    }
}

/// The saturating sum of the edge weights along `s`; an empty sequence sums
/// to `Finite(0)`.
pub open spec fn path_total(s: Seq<(Node, GraphWeight)>) -> GraphWeight
    decreases s.len(),
{
    if s.len() == 0 {
        GraphWeight::Finite(0)
    } else {
        path_total(s.drop_last()).spec_add(s.last().1)
    }
}

impl Path {
    pub fn new(path: Vec<(Node, GraphWeight)>) -> (r: Self)
        ensures
            r@ == path@,
    {
        Self { path }
    }

    /// Concatenates two paths, this one first.
    pub fn append(self, other: &Self) -> (r: Self)
        ensures
            r@ == self@ + other@,
    {
        let mut path = self.path;
        let n = other.path.len();
        for i in 0..n
            invariant
                n == other@.len(),
                path@ == self@ + other@.subrange(0, i as int),
        {
            path.push(other.path[i]);
            proof {
                assert(self@ + other@.subrange(0, i + 1 as int) =~= (self@ + other@.subrange(
                    0,
                    i as int,
                )).push(other@[i as int]));
            }
        }
        proof {
            assert(self@ + other@.subrange(0, n as int) =~= self@ + other@);
        }
        Self { path }
    }

    pub fn is_empty(&self) -> (r: bool)
        ensures
            r == (self@.len() == 0),
    {
        self.path.len() == 0
    }

    pub fn len(&self) -> (r: usize)
        ensures
            r == self@.len(),
    {
        self.path.len()
    }

    /// The last node of the path, if any.
    pub fn endpoint(&self) -> (r: Option<Node>)
        ensures
            match r {
                Some(n) => self@.len() > 0 && n == self@.last().0,
                None => self@.len() == 0,
            },
    {
        if self.path.len() > 0 {
            Some(self.path[self.path.len() - 1].0)
        } else {
            None
        }
    }

    /// The saturating sum of the path's edge weights.
    pub fn total(&self) -> (r: GraphWeight)
        ensures
            r == path_total(self@),
    {
        let mut acc = GraphWeight::Finite(0);
        let n = self.path.len();
        for i in 0..n
            invariant
                n == self@.len(),
                acc == path_total(self@.subrange(0, i as int)),
        {
            acc = acc.add(self.path[i].1);
            proof {
                let pre = self@.subrange(0, i as int);
                let post = self@.subrange(0, i + 1 as int);
                assert(post.drop_last() =~= pre);
                assert(post.last() == self@[i as int]);
            }
        }
        proof {
            assert(self@.subrange(0, n as int) =~= self@);
        }
        acc
    }
}

impl Default for Path {
    /// The empty path.
    fn default() -> (r: Self)
        ensures
            r@ == Seq::<(Node, GraphWeight)>::empty(),
    {
        Path { path: Vec::new() }
    }
}

/// `p` is a real walk through `g` from `source` to `dest`: it starts at
/// `source` with weight zero, ends at `dest`, and every later pair is an edge
/// the graph offers from the pair before it.
pub open spec fn path_valid<G: Graph>(
    g: &G,
    p: Seq<(Node, GraphWeight)>,
    source: Node,
    dest: Node,
) -> bool {
    &&& p.len() >= 1
    &&& p[0] == (source, GraphWeight::Finite(0))
    &&& p.last().0 == dest
    &&& forall|i: int|
        0 <= i < p.len() - 1 ==> (#[trigger] g.spec_children(p[i].0)).contains((p[i + 1].0, p[i + 1].1))
}

/// Some walk of the graph's edges leads from `source` to `dest`.
pub open spec fn spec_connected<G: Graph>(g: &G, source: Node, dest: Node) -> bool {
    exists|p: Seq<(Node, GraphWeight)>| path_valid(g, p, source, dest)
}

/// Some walk of at least one edge leads from `source` to `dest`.
pub open spec fn spec_connected_hop<G: Graph>(g: &G, source: Node, dest: Node) -> bool {
    exists|p: Seq<(Node, GraphWeight)>| path_valid(g, p, source, dest) && p.len() >= 2
}

/// A set that contains a valid path's start and every edge target of its
/// members contains every node of the path.
pub proof fn lemma_chain_in_closed<G: Graph>(
    g: &G,
    s: Set<Node>,
    p: Seq<(Node, GraphWeight)>,
    source: Node,
    dest: Node,
    k: int,
)
    requires
        path_valid(g, p, source, dest),
        s.contains(source),
        forall|n: Node, i: int|
            s.contains(n) && 0 <= i < g.spec_children(n).len() ==> s.contains(
                (#[trigger] g.spec_children(n)[i]).0,
            ),
        0 <= k < p.len(),
    ensures
        s.contains(p[k].0),
    decreases k,
{
    if k > 0 {
        lemma_chain_in_closed(g, s, p, source, dest, k - 1);
        let cs = g.spec_children(p[k - 1].0);
        assert(cs.contains((p[k].0, p[k].1)));
        let i = choose|i: int| 0 <= i < cs.len() && cs[i] == (p[k].0, p[k].1);
        assert(s.contains(cs[i].0));
    }
}

/// Every node on a valid path, after the first, lies in the graph's universe.
pub proof fn lemma_path_in_universe<G: Graph>(
    g: &G,
    p: Seq<(Node, GraphWeight)>,
    source: Node,
    dest: Node,
)
    requires
        g.wf(),
        path_valid(g, p, source, dest),
    ensures
        forall|i: int| 1 <= i < p.len() ==> g.universe().contains((#[trigger] p[i]).0),
{
    assert forall|i: int| 1 <= i < p.len() implies g.universe().contains((#[trigger] p[i]).0) by {
        g.lemma_wf_children(p[i - 1].0);
        let cs = g.spec_children(p[i - 1].0);
        assert(cs.contains((p[i].0, p[i].1)));
        let j = choose|j: int| 0 <= j < cs.len() && cs[j] == (p[i].0, p[i].1);
        assert(g.universe().contains(cs[j].0));
    }
}

} // verus!
