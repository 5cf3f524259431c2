use ski_paths::behavior_tree::{Down, Number, SearchStart, TreeNode, Up};
use ski_paths::graph::{GraphLayer, GraphLayerList, GraphWeight, LiftLayer, Node};
use ski_paths::terrain::{Terrain, Tile, TileType};

fn node(x: i64, y: i64) -> Node {
    Node { x, y }
}

fn flat_terrain(w: usize, h: usize) -> Terrain {
    let tile = Tile {
        height: 0,
        tile_type: TileType::Snow,
    };
    Terrain::from_tiles(vec![tile; w * h], w, h)
}

/// One lift that loops on the origin, so riding up is always possible.
fn loop_lift_layers() -> GraphLayerList {
    GraphLayerList::new(vec![GraphLayer::Lift(LiftLayer {
        start: node(0, 0),
        end: node(0, 0),
        weight: GraphWeight::Finite(1),
    })])
}

#[test]
fn lookahead_depth_zero_is_single_decision() {
    let layers = loop_lift_layers();
    let terrain = flat_terrain(1, 1);
    let start = TreeNode::SearchStart(SearchStart {});
    let plan = start.best_path(0, &layers, node(0, 0), &terrain);
    assert_eq!(plan.len(), 1);
    let d = start.cost(&layers, node(0, 0), &terrain);
    assert_eq!(plan[0], d);
    assert_eq!(plan[0].cost, Number::Finite(0));
    assert_eq!(plan[0].name, "Search Start");
    assert_eq!(plan[0].endpoint, node(0, 0));
}

#[test]
fn lookahead_picks_cheap_branch_every_level() {
    // Both moves cost one at every level (skiing "down" also rides the loop
    // edge), so the tie must go to "Up", the first child enumerated.
    let layers = loop_lift_layers();
    let terrain = flat_terrain(1, 1);
    let up = TreeNode::Up(Up {});
    let plan = up.best_path(4, &layers, node(0, 0), &terrain);
    assert_eq!(plan.len(), 5);
    for d in plan.iter() {
        assert_eq!(d.name, "Up");
        assert_eq!(d.cost, Number::Finite(1));
        assert_eq!(d.endpoint, node(0, 0));
    }
}

#[test]
fn down_with_no_lift_is_infinite() {
    let layers = GraphLayerList::new(vec![]);
    let terrain = flat_terrain(1, 1);
    let down = TreeNode::Down(Down {});
    let d = down.cost(&layers, node(0, 0), &terrain);
    assert_eq!(d.cost, Number::Infinite);
    assert_eq!(d.endpoint, node(0, 0));
    assert_eq!(d.path.len(), 0);
}

#[test]
fn infinite_down_never_beats_finite_up() {
    // A one-way lift out of the origin: riding up is finite, while skiing
    // down cannot loop back to the lift base, so "Down" is infinite and must
    // never be chosen at the first level.
    let layers = GraphLayerList::new(vec![GraphLayer::Lift(LiftLayer {
        start: node(0, 0),
        end: node(1, 0),
        weight: GraphWeight::Finite(1),
    })]);
    let terrain = flat_terrain(2, 1);
    let start = TreeNode::SearchStart(SearchStart {});
    let plan = start.best_path(1, &layers, node(0, 0), &terrain);
    assert_eq!(plan.len(), 2);
    assert_eq!(plan[0].name, "Search Start");
    assert_eq!(plan[1].name, "Up");
    assert_eq!(plan[1].cost, Number::Finite(1));
    assert_eq!(plan[1].endpoint, node(1, 0));
}

#[test]
fn down_chosen_when_up_impossible() {
    // No lift starts at the origin, but the lift base one cell over is
    // reachable by skiing: the finite "Down" must win over the infinite
    // "Up".
    let cells = vec![
        ski_paths::graph::GridNode {
            x_plus: GraphWeight::Finite(3),
            x_minus: GraphWeight::Infinity,
            z_plus: GraphWeight::Infinity,
            z_minus: GraphWeight::Infinity,
        },
        ski_paths::graph::GridNode {
            x_plus: GraphWeight::Infinity,
            x_minus: GraphWeight::Infinity,
            z_plus: GraphWeight::Infinity,
            z_minus: GraphWeight::Infinity,
        },
    ];
    let grid = ski_paths::grid::Grid::from_vec(cells, 2, 1);
    let layers = GraphLayerList::new(vec![
        GraphLayer::Grid { grid },
        GraphLayer::Lift(LiftLayer {
            start: node(1, 0),
            end: node(0, 0),
            weight: GraphWeight::Finite(1),
        }),
    ]);
    let terrain = flat_terrain(2, 1);
    let start = TreeNode::SearchStart(SearchStart {});
    let plan = start.best_path(1, &layers, node(0, 0), &terrain);
    assert_eq!(plan.len(), 2);
    assert_eq!(plan[1].name, "Down");
    assert_eq!(plan[1].cost, Number::Finite(3));
    assert_eq!(plan[1].endpoint, node(1, 0));
}

#[test]
fn up_away_from_lift_is_infinite() {
    let layers = GraphLayerList::new(vec![GraphLayer::Lift(LiftLayer {
        start: node(1, 0),
        end: node(0, 0),
        weight: GraphWeight::Finite(1),
    })]);
    let terrain = flat_terrain(2, 1);
    let up = TreeNode::Up(Up {});
    let d = up.cost(&layers, node(0, 0), &terrain);
    assert_eq!(d.cost, Number::Infinite);
    assert_eq!(d.endpoint, node(0, 0));
    let at_base = up.cost(&layers, node(1, 0), &terrain);
    assert_eq!(at_base.cost, Number::Finite(1));
    assert_eq!(at_base.endpoint, node(0, 0));
    assert_eq!(at_base.path.len(), 2);
}

#[test]
fn up_uses_lift_weight() {
    let layers = GraphLayerList::new(vec![GraphLayer::Lift(LiftLayer {
        start: node(0, 0),
        end: node(1, 0),
        weight: GraphWeight::Finite(7),
    })]);
    let terrain = flat_terrain(2, 1);
    let up = TreeNode::Up(Up {});
    let d = up.cost(&layers, node(0, 0), &terrain);
    assert_eq!(d.cost, Number::Finite(7));
    assert_eq!(d.endpoint, node(1, 0));
}

#[test]
fn find_lifts_sees_only_lifts() {
    let lift = LiftLayer {
        start: node(0, 0),
        end: node(1, 0),
        weight: GraphWeight::Finite(1),
    };
    let tile = ski_paths::graph::GridNode {
        x_plus: GraphWeight::Infinity,
        x_minus: GraphWeight::Infinity,
        z_plus: GraphWeight::Infinity,
        z_minus: GraphWeight::Infinity,
    };
    let grid = ski_paths::grid::Grid::from_vec(vec![tile], 1, 1);
    let layers = GraphLayerList::new(vec![GraphLayer::Grid { grid }, GraphLayer::Lift(lift)]);
    let lifts = layers.find_lifts();
    assert_eq!(lifts.len(), 1);
    assert_eq!(lifts[0].start, node(0, 0));
    assert_eq!(lifts[0].end, node(1, 0));
}

#[test]
fn cheaper_finite_branch_wins() {
    // Riding the lift at the origin costs 5; skiing down to the same lift
    // base means a round trip over the dear grid edges and costs 30. Both
    // branches are finite with different costs, and the cheaper must win.
    let inf = GraphWeight::Infinity;
    let cells = vec![
        // (0, 0): one dear edge to (1, 0)
        ski_paths::graph::GridNode {
            x_plus: GraphWeight::Finite(15),
            x_minus: inf,
            z_plus: inf,
            z_minus: inf,
        },
        // (1, 0): the dear edge back
        ski_paths::graph::GridNode {
            x_plus: inf,
            x_minus: GraphWeight::Finite(15),
            z_plus: inf,
            z_minus: inf,
        },
        // (2, 0): the lift's top, a dead end
        ski_paths::graph::GridNode { x_plus: inf, x_minus: inf, z_plus: inf, z_minus: inf },
    ];
    let grid = ski_paths::grid::Grid::from_vec(cells, 3, 1);
    let layers = GraphLayerList::new(vec![
        GraphLayer::Grid { grid },
        GraphLayer::Lift(LiftLayer {
            start: node(0, 0),
            end: node(2, 0),
            weight: GraphWeight::Finite(5),
        }),
    ]);
    let terrain = flat_terrain(3, 1);
    let down = TreeNode::Down(Down {});
    let d = down.cost(&layers, node(0, 0), &terrain);
    assert_eq!(d.cost, Number::Finite(30));
    assert_eq!(d.endpoint, node(0, 0));
    let start = TreeNode::SearchStart(SearchStart {});
    let plan = start.best_path(1, &layers, node(0, 0), &terrain);
    assert_eq!(plan.len(), 2);
    assert_eq!(plan[1].name, "Up");
    assert_eq!(plan[1].cost, Number::Finite(5));
    assert_eq!(plan[1].endpoint, node(2, 0));
}
