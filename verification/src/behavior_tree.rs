//! Bounded-depth lookahead over strategic ski moves.

use vstd::prelude::*;

use crate::follow_path::FollowPath;
use crate::graph::{
    lifts_of, path_total, path_valid, spec_connected_hop, Graph, GraphLayer, GraphLayerList,
    GraphWeight, LiftLayer, Node, Path,
};
use crate::search::{a_star, ManhattanHeuristic};
use crate::terrain::{Position3, Terrain};

verus! {

/// A cost that may be infinite. The derived order puts every `Finite` value
/// below `Infinite`, and compares `Finite` values by their content.
#[derive(Clone, Copy, Debug, PartialEq, PartialOrd)]
pub enum Number<T> {
    Finite(T),
    Infinite,
}

/// Mathematical order on plan costs: `Infinite` is greater than or equal to
/// everything.
pub open spec fn num_le(a: Number<i64>, b: Number<i64>) -> bool {
    match (a, b) {
        (_, Number::Infinite) => true,
        (Number::Infinite, Number::Finite(_)) => false,
        (Number::Finite(x), Number::Finite(y)) => x <= y,
    }
}

/// Strict order derived from `num_le`.
pub open spec fn num_lt(a: Number<i64>, b: Number<i64>) -> bool {
    num_le(a, b) && a != b
}

/// Saturating addition on plan costs: any `Infinite` operand gives
/// `Infinite`, and a finite sum that leaves `i64` saturates as well.
pub open spec fn num_add(a: Number<i64>, b: Number<i64>) -> Number<i64> {
    match (a, b) {
        (Number::Finite(x), Number::Finite(y)) => {
            if i64::MIN <= x + y <= i64::MAX {
                Number::Finite((x + y) as i64)
            } else {
                Number::Infinite
            }
        },
        _ => Number::Infinite,
    }
}

impl Number<i64> {
    /// Executable comparison matching `num_le`.
    pub fn le(&self, other: &Self) -> (r: bool)
        ensures
            r == num_le(*self, *other),
    {
        match (self, other) {
            (_, Number::Infinite) => true,
            (Number::Infinite, Number::Finite(_)) => false,
            (Number::Finite(x), Number::Finite(y)) => x <= y,
        }
    }

    /// Executable comparison matching `num_lt`.
    pub fn lt(&self, other: &Self) -> (r: bool)
        ensures
            r == num_lt(*self, *other),
    {
        match (self, other) {
            (Number::Finite(_), Number::Infinite) => true,
            (Number::Infinite, Number::Infinite) => false,
            (Number::Infinite, Number::Finite(_)) => false,
            (Number::Finite(x), Number::Finite(y)) => x < y,
        }
    }

    /// Executable saturating addition.
    pub fn add(self, other: Self) -> (r: Self)
        ensures
            r == num_add(self, other),
    {
        match (self, other) {
            (Number::Finite(x), Number::Finite(y)) => {
                match x.checked_add(y) {
                    Some(s) => Number::Finite(s),
                    None => Number::Infinite,
                }
            },
            _ => Number::Infinite,
        }
    }
}

/// The plan cost equal to a path weight: finite values carry over and
/// `Infinity` becomes `Infinite`.
pub open spec fn spec_weight_to_number(w: GraphWeight) -> Number<i64> {
    match w {
        GraphWeight::Finite(n) => Number::Finite(n as i64),
        GraphWeight::Infinity => Number::Infinite,
    }
}

fn weight_to_number(w: GraphWeight) -> (r: Number<i64>)
    ensures
        r == spec_weight_to_number(w),
{
    match w {
        GraphWeight::Finite(n) => Number::Finite(n as i64),
        GraphWeight::Infinity => Number::Infinite,
    }
}

/// The index the cost-minimizing fold selects from `ws`: the first index
/// whose cost no later cost strictly undercuts.
pub open spec fn first_min_index(ws: Seq<Number<i64>>) -> int
    decreases ws.len(),
{
    if ws.len() <= 1 {
        0
    } else {
        let r = first_min_index(ws.drop_last());
        if num_lt(ws.last(), ws[r]) {
            ws.len() - 1
        } else {
            r
        }
    }
}

/// Law: the selected candidate is minimal, and it strictly undercuts every
/// candidate before it — ties go to the first candidate enumerated.
pub proof fn lemma_first_min_is_min(ws: Seq<Number<i64>>)
    requires
        ws.len() > 0,
    ensures
        0 <= first_min_index(ws) < ws.len(),
        forall|i: int| 0 <= i < ws.len() ==> num_le(ws[first_min_index(ws)], #[trigger] ws[i]),
        forall|i: int| 0 <= i < first_min_index(ws) ==> num_lt(ws[first_min_index(ws)], #[trigger] ws[i]),
    decreases ws.len(),
{
    if ws.len() > 1 {
        lemma_first_min_is_min(ws.drop_last());
        let r = first_min_index(ws.drop_last());
        let m = first_min_index(ws);
        assert(forall|i: int| 0 <= i < ws.len() - 1 ==> ws[i] == #[trigger] ws.drop_last()[i]);
        if num_lt(ws.last(), ws[r]) {
            assert(m == ws.len() - 1);
            assert forall|i: int| 0 <= i < ws.len() implies num_le(ws[m], #[trigger] ws[i]) by {
                if i < ws.len() - 1 {
                    assert(num_le(ws.drop_last()[r], ws.drop_last()[i]));
                }
            }
            assert forall|i: int| 0 <= i < m implies num_lt(ws[m], #[trigger] ws[i]) by {
                assert(num_le(ws.drop_last()[r], ws.drop_last()[i]));
            }
        } else {
            assert(m == r);
            assert forall|i: int| 0 <= i < ws.len() implies num_le(ws[m], #[trigger] ws[i]) by {
                if i < ws.len() - 1 {
                    assert(num_le(ws.drop_last()[r], ws.drop_last()[i]));
                }
            }
            assert forall|i: int| 0 <= i < m implies num_lt(ws[m], #[trigger] ws[i]) by {
                assert(num_lt(ws.drop_last()[r], ws.drop_last()[i]));
            }
        }
    }
}

/// Law: an infinite candidate is never selected while a finite alternative
/// exists.
pub proof fn lemma_finite_candidate_selected(ws: Seq<Number<i64>>)
    requires
        ws.len() > 0,
        exists|i: int| 0 <= i < ws.len() && (#[trigger] ws[i]) is Finite,
    ensures
        ws[first_min_index(ws)] is Finite,
{
    lemma_first_min_is_min(ws);
    let i = choose|i: int| 0 <= i < ws.len() && (#[trigger] ws[i]) is Finite;
    assert(num_le(ws[first_min_index(ws)], ws[i]));
}

/// The outcome of evaluating one strategic move from one position.
#[derive(Clone, Debug, PartialEq)]
pub struct Decision {
    pub cost: Number<i64>,
    pub name: String,
    pub path: FollowPath,
    pub endpoint: Node,
}

/// The saturating total cost of a plan.
pub open spec fn plan_total(s: Seq<Decision>) -> Number<i64>
    decreases s.len(),
{
    if s.len() == 0 {
        Number::Finite(0)
    } else {
        num_add(plan_total(s.drop_last()), s.last().cost)
    }
}

/// The saturating total cost of a plan.
pub fn total_cost(plan: &Vec<Decision>) -> (r: Number<i64>)
    ensures
        r == plan_total(plan@),
{
    let mut acc = Number::Finite(0);
    let n = plan.len();
    for i in 0..n
        invariant
            n == plan@.len(),
            acc == plan_total(plan@.subrange(0, i as int)),
    {
        acc = acc.add(plan[i].cost);
        proof {
            let pre = plan@.subrange(0, i as int);
            let post = plan@.subrange(0, i + 1 as int);
            assert(post.drop_last() =~= pre);
            assert(post.last() == plan@[i as int]);
        }
    }
    proof {
        assert(plan@.subrange(0, n as int) =~= plan@);
    }
    acc
}

/// Every node the layer list can mention lies on the terrain.
pub open spec fn covers(terrain: Terrain, layers: GraphLayerList) -> bool {
    forall|n: Node| #[trigger] layers.universe().contains(n) ==> terrain.spec_in_bounds(n)
}

/// A layer the terrain carries: a grid of the terrain's dimensions whose
/// finite edges stay on the terrain, or a lift with both ends on it.
pub open spec fn layer_on_terrain(terrain: Terrain, layer: GraphLayer) -> bool {
    match layer {
        GraphLayer::Grid { grid } => grid.spec_width() == terrain.spec_width()
            && grid.spec_height() == terrain.spec_height() && forall|m: Node, i: int|
            0 <= i < crate::graph::grid_children(grid, m).len() ==> terrain.spec_in_bounds(
                (#[trigger] crate::graph::grid_children(grid, m)[i]).0,
            ),
        GraphLayer::Lift(l) => terrain.spec_in_bounds(l.start) && terrain.spec_in_bounds(l.end),
    }
}

proof fn lemma_layers_on_terrain(terrain: Terrain, s: Seq<GraphLayer>)
    requires
        forall|i: int| 0 <= i < s.len() ==> layer_on_terrain(terrain, #[trigger] s[i]),
    ensures
        forall|n: Node| #[trigger]
            crate::graph::universe_of(s).contains(n) ==> terrain.spec_in_bounds(n),
    decreases s.len(),
{
    if s.len() > 0 {
        assert(forall|i: int|
            0 <= i < s.len() - 1 ==> layer_on_terrain(terrain, #[trigger] s.drop_last()[i]));
        lemma_layers_on_terrain(terrain, s.drop_last());
        assert forall|n: Node| #[trigger]
            crate::graph::universe_of(s).contains(n) implies terrain.spec_in_bounds(n) by {
            if !crate::graph::universe_of(s.drop_last()).contains(n) {
                assert(s.last().spec_universe().contains(n));
                assert(layer_on_terrain(terrain, s[s.len() - 1]));
                match s.last() {
                    GraphLayer::Grid { grid } => {
                        if !grid.spec_in_bounds(n.x as int, n.y as int) {
                            let (m, i) = choose|m: Node, i: int|
                                0 <= i < crate::graph::grid_children(grid, m).len() && (
                                #[trigger] crate::graph::grid_children(grid, m)[i]).0 == n;
                            assert(terrain.spec_in_bounds(
                                crate::graph::grid_children(grid, m)[i].0,
                            ));
                        }
                    },
                    GraphLayer::Lift(l) => {},
                }
            }
        }
    }
}

/// Law: a terrain covers a layer list when it carries every layer of the
/// list, so the planner's preconditions are satisfiable for real scenes.
pub proof fn lemma_covers(terrain: Terrain, layers: GraphLayerList)
    requires
        forall|i: int|
            0 <= i < layers.spec_layers().len() ==> layer_on_terrain(
                terrain,
                #[trigger] layers.spec_layers()[i],
            ),
    ensures
        covers(terrain, layers),
{
    lemma_layers_on_terrain(terrain, layers.spec_layers());
}

/// Law: a terrain carries the grid layer compiled from it, because a
/// compiled cell offers a finite weight only toward a cell on the terrain.
pub proof fn lemma_compiled_grid_on_terrain(terrain: Terrain, layer: GraphLayer)
    requires
        terrain.wf(),
        match layer {
            GraphLayer::Grid { grid } => grid.spec_width() == terrain.spec_width()
                && grid.spec_height() == terrain.spec_height() && forall|x: int, y: int|
                0 <= x < terrain.spec_width() && 0 <= y < terrain.spec_height() ==> grid.spec_at(
                    x,
                    y,
                ) == #[trigger] terrain.spec_grid_node(x, y),
            GraphLayer::Lift(..) => false,
        },
    ensures
        layer_on_terrain(terrain, layer),
{
    match layer {
        GraphLayer::Grid { grid } => {
            assert forall|m: Node, i: int|
                0 <= i < crate::graph::grid_children(grid, m).len() implies terrain.spec_in_bounds(
                (#[trigger] crate::graph::grid_children(grid, m)[i]).0,
            ) by {
                crate::graph::lemma_grid_child_shape(grid, m, i);
                assert(grid.spec_at(m.x as int, m.y as int) == terrain.spec_grid_node(
                    m.x as int,
                    m.y as int,
                ));
                let e = crate::graph::grid_children(grid, m)[i];
                let gn = terrain.spec_grid_node(m.x as int, m.y as int);
                if e == (Node { x: (m.x + 1) as i64, y: m.y }, gn.x_plus) {
                    assert(gn.x_plus == terrain.spec_weight(
                        Node { x: m.x, y: m.y },
                        Node { x: (m.x + 1) as i64, y: m.y },
                    ));
                } else if e == (Node { x: (m.x - 1) as i64, y: m.y }, gn.x_minus) {
                    assert(gn.x_minus == terrain.spec_weight(
                        Node { x: m.x, y: m.y },
                        Node { x: (m.x - 1) as i64, y: m.y },
                    ));
                } else if e == (Node { x: m.x, y: (m.y + 1) as i64 }, gn.z_plus) {
                    assert(gn.z_plus == terrain.spec_weight(
                        Node { x: m.x, y: m.y },
                        Node { x: m.x, y: (m.y + 1) as i64 },
                    ));
                } else {
                    assert(gn.z_minus == terrain.spec_weight(
                        Node { x: m.x, y: m.y },
                        Node { x: m.x, y: (m.y - 1) as i64 },
                    ));
                }
            }
        },
        GraphLayer::Lift(..) => {},
    }
}

/// Both ends of every lift lie in the layer list's universe.
pub proof fn lemma_lifts_in_universe(s: Seq<GraphLayer>, j: int)
    requires
        0 <= j < lifts_of(s).len(),
    ensures
        crate::graph::universe_of(s).contains(lifts_of(s)[j].start),
        crate::graph::universe_of(s).contains(lifts_of(s)[j].end),
    decreases s.len(),
{
    if s.len() > 0 {
        let front = lifts_of(s.drop_last());
        if j < front.len() {
            lemma_lifts_in_universe(s.drop_last(), j);
        } else {
            match s.last() {
                GraphLayer::Lift(l) => {
                    assert(lifts_of(s)[j] == l);
                    assert(s.last().spec_universe().contains(l.start));
                    assert(s.last().spec_universe().contains(l.end));
                },
                GraphLayer::Grid { .. } => {},
            }
        }
    }
}

/// The cost of riding lift `l` from `position`: the lift's weight when the
/// skier stands at its start, else infinite.
pub open spec fn up_candidate(l: LiftLayer, position: Node) -> Number<i64> {
    if l.start == position {
        spec_weight_to_number(l.weight)
    } else {
        Number::Infinite
    }
}

/// The up candidates of every lift, in lift order.
pub open spec fn up_candidates(lifts: Seq<LiftLayer>, position: Node) -> Seq<Number<i64>> {
    lifts.map(|i: int, l: LiftLayer| up_candidate(l, position))
}

/// What an `Up` decision from `position` looks like: the minimum-cost lift
/// candidate is chosen, first found winning ties; with no lift to ride, the
/// decision is infinite and stays put.
pub open spec fn up_cost_ok(
    layers: GraphLayerList,
    position: Node,
    terrain: Terrain,
    d: Decision,
) -> bool {
    let lifts = layers.spec_lifts();
    let cands = up_candidates(lifts, position);
    &&& d.name@ == "Up"@
    &&& d.path.spec_t() == 0
    &&& if lifts.len() == 0 {
        d.cost == Number::<i64>::Infinite && d.endpoint == position && d.path.spec_nodes()
            =~= Seq::<Position3>::empty() && d.path.spec_start() is None
            && d.path.spec_endpoint() is None
    } else {
        let j = first_min_index(cands);
        &&& d.cost == cands[j]
        &&& if cands[j] is Finite {
            lifts[j].start == position && d.endpoint == lifts[j].end && d.path.spec_nodes()
                =~= seq![
                terrain.spec_transform(lifts[j].start),
                terrain.spec_transform(lifts[j].end),
            ] && d.path.spec_start() == Some(position) && d.path.spec_endpoint() == Some(
                lifts[j].end,
            )
        } else {
            d.endpoint == position && d.path.spec_nodes() =~= Seq::<Position3>::empty()
                && d.path.spec_start() is None && d.path.spec_endpoint() is None
        }
    }
}

/// Every walk of at least one hop from `a` to `b` carries a finite total.
/// This is the graph-side hypothesis under which a downhill move owes a
/// finite answer: a walk through an infinite lift edge, or one whose sum
/// saturates the weight type, escapes it, and the search may then surface
/// such a walk and report it as infinite.
pub open spec fn all_hop_walks_finite(layers: GraphLayerList, a: Node, b: Node) -> bool {
    forall|p: Seq<(Node, GraphWeight)>|
        #[trigger] path_valid(&layers, p, a, b) && p.len() >= 2 ==> path_total(p) is Finite
}

/// What a `Down` decision from `position` looks like: when some lift base
/// can be reached by a walk and every such walk has a finite total, the
/// decision is finite; a finite decision carries the total of a real walk
/// to some lift's start, ends there, and its waypoints are that walk's
/// transforms; an infinite decision stays put with an empty path.
pub open spec fn down_cost_ok(
    layers: GraphLayerList,
    position: Node,
    terrain: Terrain,
    d: Decision,
) -> bool {
    let lifts = layers.spec_lifts();
    &&& d.name@ == "Down"@
    &&& d.path.spec_t() == 0
    &&& (lifts.len() == 0 ==> d.cost == Number::<i64>::Infinite)
    &&& ((exists|j: int|
        0 <= j < lifts.len() && spec_connected_hop(&layers, position, (#[trigger] lifts[j]).start)
            && all_hop_walks_finite(layers, position, lifts[j].start)) ==> d.cost is Finite)
    &&& (d.cost is Finite ==> exists|j: int, p: Seq<(Node, GraphWeight)>|
        {
            &&& 0 <= j < lifts.len()
            &&& #[trigger] path_valid(&layers, p, position, lifts[j].start)
            &&& p.len() >= 2
            &&& d.cost == spec_weight_to_number(path_total(p))
            &&& d.endpoint == lifts[j].start
            &&& d.path.spec_nodes().len() == p.len()
            &&& (forall|k: int|
                0 <= k < p.len() ==> d.path.spec_nodes()[k] == terrain.spec_transform(
                    (#[trigger] p[k]).0,
                ))
            &&& d.path.spec_start() == Some(position)
            &&& d.path.spec_endpoint() == Some(lifts[j].start)
        })
    &&& (d.cost is Infinite ==> d.endpoint == position && d.path.spec_nodes() =~= Seq::<
        Position3,
    >::empty() && d.path.spec_start() is None && d.path.spec_endpoint() is None)
}

/// What a `SearchStart` decision looks like: free, empty, staying put.
pub open spec fn start_cost_ok(
    layers: GraphLayerList,
    position: Node,
    terrain: Terrain,
    d: Decision,
) -> bool {
    &&& d.name@ == "Search Start"@
    &&& d.path.spec_t() == 0
    &&& d.cost == Number::<i64>::Finite(0)
    &&& d.endpoint == position
    &&& d.path.spec_nodes() =~= Seq::<Position3>::empty()
    &&& d.path.spec_start() is None
    &&& d.path.spec_endpoint() is None
}

/// The no-op root of the lookahead.
#[derive(Clone, Copy, Debug, PartialEq, Eq, Structural)]
pub struct SearchStart {}

/// The strategic move "ride the lift that starts here".
#[derive(Clone, Copy, Debug, PartialEq, Eq, Structural)]
pub struct Up {}

/// The strategic move "ski down to the nearest lift base".
#[derive(Clone, Copy, Debug, PartialEq, Eq, Structural)]
pub struct Down {}

impl Default for SearchStart {
    fn default() -> (r: Self)
        ensures
            r == (SearchStart {  }),
    {
        SearchStart {  }
    }
}

/// One strategic move, dispatched as a closed set of variants.
#[derive(Clone, Copy, Debug, PartialEq, Eq, Structural)]
pub enum TreeNode {
    SearchStart(SearchStart),
    Up(Up),
    Down(Down),
}

/// The decisions reachable after any move: up again, or down.
pub open spec fn spec_both_children() -> Seq<TreeNode> {
    seq![TreeNode::Up(Up {  }), TreeNode::Down(Down {  })]
}

/// What a decision of the given move from `position` looks like.
pub open spec fn tree_cost_ok(
    t: TreeNode,
    layers: GraphLayerList,
    position: Node,
    terrain: Terrain,
    d: Decision,
) -> bool {
    match t {
        TreeNode::SearchStart(_) => start_cost_ok(layers, position, terrain, d),
        TreeNode::Up(_) => up_cost_ok(layers, position, terrain, d),
        TreeNode::Down(_) => down_cost_ok(layers, position, terrain, d),
    }
}

/// Step `i` of plan `s` is a real `Up` or `Down` evaluation from the
/// endpoint of the step before it.
pub open spec fn chained_step(s: Seq<Decision>, i: int, layers: GraphLayerList, terrain: Terrain) -> bool {
    exists|k: TreeNode|
        (k is Up || k is Down) && #[trigger] tree_cost_ok(k, layers, s[i - 1].endpoint, terrain, s[i])
}

/// A complete lookahead plan of the given depth for move `k` from
/// `position`: the right length, a first decision of that move, and every
/// later decision a real evaluation from the endpoint of the one before.
pub open spec fn plan_ok(
    k: TreeNode,
    layers: GraphLayerList,
    position: Node,
    terrain: Terrain,
    plan: Seq<Decision>,
    depth: int,
) -> bool {
    &&& plan.len() == depth + 1
    &&& tree_cost_ok(k, layers, position, terrain, plan[0])
    &&& forall|i: int| 1 <= i < plan.len() ==> #[trigger] chained_step(plan, i, layers, terrain)
}

impl SearchStart {
    pub fn name(&self) -> (r: String)
        ensures
            r@ == "Search Start"@,
    {
        "Search Start".to_owned()
    }

    /// Evaluates the no-op root: zero cost, empty path, staying put.
    pub fn cost(&self, layers: &GraphLayerList, position: Node, terrain: &Terrain) -> (d: Decision)
        requires
            layers.wf(),
            terrain.wf(),
            covers(*terrain, *layers),
            terrain.spec_in_bounds(position),
        ensures
            start_cost_ok(*layers, position, *terrain, d),
            terrain.spec_in_bounds(d.endpoint),
    {
        let empty = Path::default();
        Decision {
            cost: Number::Finite(0),
            endpoint: position,
            path: FollowPath::new(&empty, terrain),
            name: self.name(),
        }
    }

    pub fn children(&self) -> (r: Vec<TreeNode>)
        ensures
            r@ == spec_both_children(),
    {
        both_children()
    }
}

impl Up {
    pub fn name(&self) -> (r: String)
        ensures
            r@ == "Up"@,
    {
        "Up".to_owned()
    }

    /// Evaluates "ride the lift that starts here": the cheapest lift whose
    /// start is `position`, first found winning ties; infinite when there is
    /// none.
    pub fn cost(&self, layers: &GraphLayerList, position: Node, terrain: &Terrain) -> (d: Decision)
        requires
            layers.wf(),
            terrain.wf(),
            covers(*terrain, *layers),
            terrain.spec_in_bounds(position),
        ensures
            up_cost_ok(*layers, position, *terrain, d),
            terrain.spec_in_bounds(d.endpoint),
    {
        let lifts = layers.find_lifts();
        let n = lifts.len();
        let mut best_cost = Number::<i64>::Infinite;
        let mut best_path = Path::default();
        let ghost mut best_idx: int = 0;
        for i in 0..n
            invariant
                lifts@ == layers.spec_lifts(),
                n == lifts@.len(),
                layers.wf(),
                terrain.wf(),
                covers(*terrain, *layers),
                terrain.spec_in_bounds(position),
                i > 0 ==> {
                    let cands = up_candidates(lifts@.subrange(0, i as int), position);
                    &&& best_idx == first_min_index(cands)
                    &&& 0 <= best_idx < i
                    &&& best_cost == cands[best_idx]
                },
                i == 0 ==> best_cost == Number::<i64>::Infinite && best_idx == 0,
                best_cost is Finite ==> 0 <= best_idx < i && lifts@[best_idx].start == position
                    && best_path@ =~= seq![
                    (lifts@[best_idx].start, GraphWeight::Finite(0)),
                    (lifts@[best_idx].end, lifts@[best_idx].weight),
                ],
                best_cost is Infinite ==> best_path@ =~= Seq::<(Node, GraphWeight)>::empty(),
        {
            let l = lifts[i];
            let mut cand = Number::<i64>::Infinite;
            let mut cpath = Path::default();
            if l.start == position {
                cand = weight_to_number(l.weight);
                cpath = Path::new(vec![(l.start, GraphWeight::Finite(0)), (l.end, l.weight)]);
                proof {
                    assert(cpath@ =~= seq![
                        (l.start, GraphWeight::Finite(0)),
                        (l.end, l.weight),
                    ]);
                }
            }
            proof {
                let pre = up_candidates(lifts@.subrange(0, i as int), position);
                let post = up_candidates(lifts@.subrange(0, i + 1 as int), position);
                assert(lifts@.subrange(0, i + 1 as int).drop_last() =~= lifts@.subrange(
                    0,
                    i as int,
                ));
                assert(post.drop_last() =~= pre);
                assert(post.last() == up_candidate(lifts@[i as int], position));
                assert(cand == post.last());
                if i == 0 {
                    assert(post.len() == 1);
                    assert(first_min_index(post) == 0);
                } else {
                    assert(first_min_index(post) == (if num_lt(post.last(), post[
                        first_min_index(pre)
                    ]) {
                        post.len() - 1
                    } else {
                        first_min_index(pre)
                    }));
                }
            }
            if cand.lt(&best_cost) {
                best_cost = cand;
                best_path = cpath;
                proof {
                    best_idx = i as int;
                }
            }
        }
        proof {
            assert(lifts@.subrange(0, n as int) =~= lifts@);
            if best_cost is Finite {
                lemma_lifts_in_universe(layers.spec_layers(), best_idx);
                assert(layers.universe().contains(lifts@[best_idx].end));
                assert(terrain.spec_in_bounds(lifts@[best_idx].end));
                assert forall|k: int| 0 <= k < best_path@.len() implies terrain.spec_in_bounds(
                    (#[trigger] best_path@[k]).0,
                ) by {
                    assert(best_path@[0].0 == position);
                    assert(best_path@[1].0 == lifts@[best_idx].end);
                }
            }
        }
        let endpoint = match best_path.endpoint() {
            Some(p) => p,
            None => position,
        };
        Decision {
            cost: best_cost,
            endpoint,
            path: FollowPath::new(&best_path, terrain),
            name: self.name(),
        }
    }

    pub fn children(&self) -> (r: Vec<TreeNode>)
        ensures
            r@ == spec_both_children(),
    {
        both_children()
    }
}

impl Down {
    pub fn name(&self) -> (r: String)
        ensures
            r@ == "Down"@,
    {
        "Down".to_owned()
    }

    /// Evaluates "ski down to the nearest lift base": an informed search
    /// toward every lift start, keeping the cheapest found path, first
    /// found winning ties. The decision is finite whenever some lift base
    /// is reachable and every walk to it has a finite total; a finite
    /// decision carries the total and the waypoints of a real route to the
    /// lift base it ends at.
    pub fn cost(&self, layers: &GraphLayerList, position: Node, terrain: &Terrain) -> (d: Decision)
        requires
            layers.wf(),
            terrain.wf(),
            covers(*terrain, *layers),
            terrain.spec_in_bounds(position),
        ensures
            down_cost_ok(*layers, position, *terrain, d),
            terrain.spec_in_bounds(d.endpoint),
    {
        let lifts = layers.find_lifts();
        let n = lifts.len();
        let mut best_cost = Number::<i64>::Infinite;
        let mut best_path = Path::default();
        for i in 0..n
            invariant
                lifts@ == layers.spec_lifts(),
                n == lifts@.len(),
                layers.wf(),
                terrain.wf(),
                covers(*terrain, *layers),
                terrain.spec_in_bounds(position),
                best_cost is Finite ==> exists|j: int|
                    0 <= j < i && path_valid(
                        layers,
                        best_path@,
                        position,
                        (#[trigger] lifts@[j]).start,
                    ) && best_path@.len() >= 2 && best_cost == spec_weight_to_number(
                        path_total(best_path@),
                    ),
                best_cost is Infinite ==> best_path@ =~= Seq::<(Node, GraphWeight)>::empty(),
                (exists|j: int|
                    0 <= j < i && spec_connected_hop(
                        layers,
                        position,
                        (#[trigger] lifts@[j]).start,
                    ) && all_hop_walks_finite(*layers, position, lifts@[j].start)) ==> best_cost
                    is Finite,
        {
            let ghost pre_best = best_cost;
            let target = lifts[i].start;
            match a_star(&position, &target, layers, &ManhattanHeuristic) {
                Ok(p) => {
                    let total = p.total();
                    let cand = weight_to_number(total);
                    proof {
                        if all_hop_walks_finite(*layers, position, lifts@[i as int].start) {
                            assert(path_valid(layers, p@, position, lifts@[i as int].start));
                            assert(path_total(p@) is Finite);
                            assert(cand is Finite);
                        }
                    }
                    if cand.lt(&best_cost) {
                        best_cost = cand;
                        best_path = p;
                    }
                    proof {
                        if exists|j: int|
                            0 <= j < i + 1 && spec_connected_hop(
                                layers,
                                position,
                                (#[trigger] lifts@[j]).start,
                            ) && all_hop_walks_finite(*layers, position, lifts@[j].start) {
                            let j = choose|j: int|
                                0 <= j < i + 1 && spec_connected_hop(
                                    layers,
                                    position,
                                    (#[trigger] lifts@[j]).start,
                                ) && all_hop_walks_finite(*layers, position, lifts@[j].start);
                            if j < i {
                                assert(pre_best is Finite);
                            }
                            assert(best_cost is Finite);
                        }
                    }
                },
                Err(_) => {
                    proof {
                        assert(!spec_connected_hop(layers, position, lifts@[i as int].start));
                        if exists|j: int|
                            0 <= j < i + 1 && spec_connected_hop(
                                layers,
                                position,
                                (#[trigger] lifts@[j]).start,
                            ) && all_hop_walks_finite(*layers, position, lifts@[j].start) {
                            let j = choose|j: int|
                                0 <= j < i + 1 && spec_connected_hop(
                                    layers,
                                    position,
                                    (#[trigger] lifts@[j]).start,
                                ) && all_hop_walks_finite(*layers, position, lifts@[j].start);
                            assert(j < i);
                            assert(best_cost is Finite);
                        }
                    }
                },
            }
        }
        let final_cost = if best_path.len() > 1 {
            best_cost
        } else {
            Number::Infinite
        };
        let endpoint = match best_path.endpoint() {
            Some(p) => p,
            None => position,
        };
        proof {
            if best_cost is Finite {
                let j = choose|j: int|
                    0 <= j < lifts@.len() && path_valid(
                        layers,
                        best_path@,
                        position,
                        (#[trigger] lifts@[j]).start,
                    ) && best_path@.len() >= 2;
                lemma_lifts_in_universe(layers.spec_layers(), j);
                crate::graph::lemma_path_in_universe(
                    layers,
                    best_path@,
                    position,
                    lifts@[j].start,
                );
                assert(terrain.spec_in_bounds(lifts@[j].start));
                assert forall|k: int| 0 <= k < best_path@.len() implies terrain.spec_in_bounds(
                    (#[trigger] best_path@[k]).0,
                ) by {
                    if k >= 1 {
                        assert(layers.universe().contains(best_path@[k].0));
                    }
                }
            }
        }
        Decision {
            cost: final_cost,
            endpoint,
            path: FollowPath::new(&best_path, terrain),
            name: self.name(),
        }
    }

    pub fn children(&self) -> (r: Vec<TreeNode>)
        ensures
            r@ == spec_both_children(),
    {
        both_children()
    }
}

/// The decisions reachable after any move.
fn both_children() -> (r: Vec<TreeNode>)
    ensures
        r@ == spec_both_children(),
{
    let r = vec![TreeNode::Up(Up {  }), TreeNode::Down(Down {  })];
    proof {
        assert(r@ =~= spec_both_children());
    }
    r
}

impl TreeNode {
    /// The display name of the move.
    pub fn name(&self) -> (r: String)
        ensures
            match *self {
                TreeNode::SearchStart(_) => r@ == "Search Start"@,
                TreeNode::Up(_) => r@ == "Up"@,
                TreeNode::Down(_) => r@ == "Down"@,
            },
    {
        match self {
            TreeNode::SearchStart(s) => s.name(),
            TreeNode::Up(u) => u.name(),
            TreeNode::Down(d) => d.name(),
        }
    }

    /// Evaluates this one strategic move from `position`.
    pub fn cost(&self, layers: &GraphLayerList, position: Node, terrain: &Terrain) -> (d: Decision)
        requires
            layers.wf(),
            terrain.wf(),
            covers(*terrain, *layers),
            terrain.spec_in_bounds(position),
        ensures
            tree_cost_ok(*self, *layers, position, *terrain, d),
            terrain.spec_in_bounds(d.endpoint),
    {
        match self {
            TreeNode::SearchStart(s) => s.cost(layers, position, terrain),
            TreeNode::Up(u) => u.cost(layers, position, terrain),
            TreeNode::Down(d) => d.cost(layers, position, terrain),
        }
    }

    /// The decisions reachable after this one.
    pub fn children(&self) -> (r: Vec<TreeNode>)
        ensures
            r@ == spec_both_children(),
    {
        both_children()
    }

    /// Bounded-depth lookahead: evaluates this move, then one full plan per
    /// child one level shorter from the resulting position, and keeps the
    /// plan whose total cost is minimal, the first child winning ties.
    ///
    /// The returned plan has exactly `search_length + 1` decisions; its
    /// first decision is this move's, and each later decision is a real
    /// `Up` or `Down` evaluation from the endpoint of the one before it.
    /// Past the first decision, the plan is one of the two evaluated child
    /// plans, its total is no greater than either of theirs, and the
    /// down-headed plan is kept only when it strictly undercuts the
    /// up-headed one.
    pub fn best_path(
        &self,
        search_length: usize,
        layers: &GraphLayerList,
        position: Node,
        terrain: &Terrain,
    ) -> (r: Vec<Decision>)
        requires
            layers.wf(),
            terrain.wf(),
            covers(*terrain, *layers),
            terrain.spec_in_bounds(position),
        ensures
            r@.len() == search_length + 1,
            tree_cost_ok(*self, *layers, position, *terrain, r@[0]),
            forall|i: int| 1 <= i < r@.len() ==> #[trigger] chained_step(r@, i, *layers, *terrain),
            forall|i: int| 0 <= i < r@.len() ==> terrain.spec_in_bounds((#[trigger] r@[i]).endpoint),
            search_length >= 1 ==> exists|pa: Seq<Decision>, pb: Seq<Decision>|
                {
                    &&& #[trigger] plan_ok(
                        spec_both_children()[0],
                        *layers,
                        r@[0].endpoint,
                        *terrain,
                        pa,
                        search_length - 1,
                    )
                    &&& #[trigger] plan_ok(
                        spec_both_children()[1],
                        *layers,
                        r@[0].endpoint,
                        *terrain,
                        pb,
                        search_length - 1,
                    )
                    &&& (r@.skip(1) == pa || r@.skip(1) == pb)
                    &&& num_le(plan_total(r@.skip(1)), plan_total(pa))
                    &&& num_le(plan_total(r@.skip(1)), plan_total(pb))
                    &&& (r@.skip(1) == pb && pa != pb ==> num_lt(plan_total(pb), plan_total(pa)))
                },
        decreases search_length,
    {
        let d = self.cost(layers, position, terrain);
        if search_length == 0 {
            let r = vec![d];
            return r;
        }
        let kids = self.children();
        let kn = kids.len();
        let mut best: Vec<Decision> = Vec::new();
        let mut best_w = Number::<i64>::Infinite;
        let mut chosen = false;
        let ghost mut plans: Seq<Seq<Decision>> = Seq::empty();
        for i in 0..kn
            invariant
                kids@ == spec_both_children(),
                kn == kids@.len(),
                layers.wf(),
                terrain.wf(),
                covers(*terrain, *layers),
                terrain.spec_in_bounds(position),
                terrain.spec_in_bounds(d.endpoint),
                search_length >= 1,
                i > 0 ==> chosen,
                plans.len() == i,
                forall|j: int|
                    0 <= j < i ==> #[trigger] plan_ok(
                        kids@[j],
                        *layers,
                        d.endpoint,
                        *terrain,
                        plans[j],
                        search_length - 1,
                    ),
                chosen ==> exists|j: int| 0 <= j < i && best@ == #[trigger] plans[j],
                forall|j: int|
                    0 <= j < i ==> num_le(plan_total(best@), plan_total(#[trigger] plans[j])),
                i >= 1 ==> (best@ == plans[0] || num_lt(plan_total(best@), plan_total(plans[0]))),
                chosen ==> {
                    &&& best@.len() == search_length
                    &&& best_w == plan_total(best@)
                    &&& exists|k: TreeNode|
                        (k is Up || k is Down) && #[trigger] tree_cost_ok(
                            k,
                            *layers,
                            d.endpoint,
                            *terrain,
                            best@[0],
                        )
                    &&& forall|j: int|
                        1 <= j < best@.len() ==> #[trigger] chained_step(
                            best@,
                            j,
                            *layers,
                            *terrain,
                        )
                    &&& forall|j: int|
                        0 <= j < best@.len() ==> terrain.spec_in_bounds(
                            (#[trigger] best@[j]).endpoint,
                        )
                },
        {
            let child = kids[i];
            let child_plan = child.best_path(search_length - 1, layers, d.endpoint, terrain);
            let w = total_cost(&child_plan);
            let ghost pre_best = best@;
            let ghost pre_w = best_w;
            proof {
                assert(child is Up || child is Down);
                assert(tree_cost_ok(child, *layers, d.endpoint, *terrain, child_plan@[0]));
                plans = plans.push(child_plan@);
                assert(plans[i as int] == child_plan@);
                assert(plan_ok(
                    kids@[i as int],
                    *layers,
                    d.endpoint,
                    *terrain,
                    child_plan@,
                    search_length - 1,
                ));
            }
            if !chosen || w.lt(&best_w) {
                best = child_plan;
                best_w = w;
                chosen = true;
            }
            proof {
                assert forall|j: int| 0 <= j < i + 1 implies num_le(
                    plan_total(best@),
                    plan_total(#[trigger] plans[j]),
                ) by {
                    if j < i {
                        assert(num_le(plan_total(pre_best), plan_total(plans[j])));
                    }
                }
            }
        }
        let mut out: Vec<Decision> = Vec::new();
        out.push(d);
        let ghost best0 = best@;
        let ghost best_w0 = best_w;
        out.append(&mut best);
        proof {
            assert(out@ =~= seq![d] + best0);
            assert(out@.skip(1) =~= best0);
            let pa = plans[0];
            let pb = plans[1];
            assert(kids@[0] == spec_both_children()[0]);
            assert(kids@[1] == spec_both_children()[1]);
            assert(out@[0] == d);
            assert(plan_ok(
                spec_both_children()[0],
                *layers,
                out@[0].endpoint,
                *terrain,
                pa,
                search_length - 1,
            ));
            assert(plan_ok(
                spec_both_children()[1],
                *layers,
                out@[0].endpoint,
                *terrain,
                pb,
                search_length - 1,
            ));
            let j = choose|j: int| 0 <= j < 2 && best0 == #[trigger] plans[j];
            assert(out@.skip(1) == pa || out@.skip(1) == pb);
            if out@.skip(1) == pb && pa != pb {
                assert(best0 != plans[0]);
                assert(num_lt(plan_total(best0), plan_total(plans[0])));
            }
            assert forall|i: int| 1 <= i < out@.len() implies #[trigger] chained_step(
                out@,
                i,
                *layers,
                *terrain,
            ) by {
                if i == 1 {
                    assert(out@[0].endpoint == d.endpoint);
                    let k = choose|k: TreeNode|
                        (k is Up || k is Down) && #[trigger] tree_cost_ok(
                            k,
                            *layers,
                            d.endpoint,
                            *terrain,
                            best0[0],
                        );
                    assert(tree_cost_ok(k, *layers, out@[0].endpoint, *terrain, out@[1]));
                } else {
                    assert(chained_step(best0, i - 1, *layers, *terrain));
                    let k = choose|k: TreeNode|
                        (k is Up || k is Down) && #[trigger] tree_cost_ok(
                            k,
                            *layers,
                            best0[i - 2].endpoint,
                            *terrain,
                            best0[i - 1],
                        );
                    assert(tree_cost_ok(k, *layers, out@[i - 1].endpoint, *terrain, out@[i]));
                }
            }
        }
        out
    }
}

} // verus!
