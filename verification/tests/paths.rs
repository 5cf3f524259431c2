use ski_paths::follow_path::FollowPath;
use ski_paths::graph::{GraphLayer, GraphLayerList, GraphWeight, GridNode, LiftLayer, Node, Path};
use ski_paths::grid::Grid;
use ski_paths::search::{a_star, dijkstra, ManhattanHeuristic, PathError};
use ski_paths::terrain::{Position3, Terrain, Tile, TileType};

fn node(x: i64, y: i64) -> Node {
    Node { x, y }
}

/// A single isolated cell: no finite edge leaves it.
fn lone_cell() -> GraphLayerList {
    let cell = GridNode {
        x_plus: GraphWeight::Infinity,
        x_minus: GraphWeight::Infinity,
        z_plus: GraphWeight::Infinity,
        z_minus: GraphWeight::Infinity,
    };
    let grid = Grid::from_vec(vec![cell], 1, 1);
    GraphLayerList::new(vec![GraphLayer::Grid { grid }])
}

/// A line of four cells joined by weight-one edges.
fn line_of_four() -> GraphLayerList {
    let mut cells = Vec::new();
    for i in 0..4i64 {
        cells.push(GridNode {
            x_plus: if i < 3 {
                GraphWeight::Finite(1)
            } else {
                GraphWeight::Infinity
            },
            x_minus: if i > 0 {
                GraphWeight::Finite(1)
            } else {
                GraphWeight::Infinity
            },
            z_plus: GraphWeight::Infinity,
            z_minus: GraphWeight::Infinity,
        });
    }
    let grid = Grid::from_vec(cells, 4, 1);
    GraphLayerList::new(vec![GraphLayer::Grid { grid }])
}

#[test]
fn grid_simple_create() {
    let g = Grid::from_vec(vec![0u8], 1, 1);
    assert_eq!(g.get(0, 0), Some(&0));
    assert_eq!(g.get(0, 1), None);
}

#[test]
fn dijkstra_single_node() {
    let g = lone_cell();
    let n = node(0, 0);
    let path = dijkstra(&n, &n, &g).unwrap();
    assert_eq!(path.len(), 1);
    assert_eq!(path.total(), GraphWeight::Finite(0));
    assert_eq!(path.endpoint(), Some(n));
}

#[test]
fn dijkstra_line() {
    let g = line_of_four();
    let path = dijkstra(&node(0, 0), &node(3, 0), &g).unwrap();
    assert_eq!(path.total(), GraphWeight::Finite(3));
    let visited: Vec<Node> = path.path.iter().map(|p| p.0).collect();
    assert_eq!(
        visited,
        vec![node(0, 0), node(1, 0), node(2, 0), node(3, 0)]
    );
}

#[test]
fn dijkstra_unreachable() {
    let g = lone_cell();
    let r = dijkstra(&node(0, 0), &node(9, 9), &g);
    assert_eq!(r, Err(PathError::Unreachable));
}

#[test]
fn a_star_line() {
    let g = line_of_four();
    let path = a_star(&node(0, 0), &node(3, 0), &g, &ManhattanHeuristic).unwrap();
    assert_eq!(path.total(), GraphWeight::Finite(3));
    assert_eq!(path.len(), 4);
    assert_eq!(path.endpoint(), Some(node(3, 0)));
}

#[test]
fn a_star_unreachable() {
    let g = lone_cell();
    let r = a_star(&node(0, 0), &node(9, 9), &g, &ManhattanHeuristic);
    assert_eq!(r, Err(PathError::Unreachable));
}

#[test]
fn lift_edge_exactness() {
    let lift = LiftLayer {
        start: node(0, 0),
        end: node(5, 5),
        weight: GraphWeight::Finite(1),
    };
    assert_eq!(
        lift.get_children(&node(0, 0)),
        vec![(node(5, 5), GraphWeight::Finite(1))]
    );
    assert_eq!(lift.get_children(&node(1, 1)), vec![]);
    assert_eq!(lift.get(node(0, 0), node(5, 5)), GraphWeight::Finite(1));
    assert_eq!(lift.get(node(1, 1), node(5, 5)), GraphWeight::Infinity);
}

#[test]
fn path_append_and_endpoint() {
    let a = Path::new(vec![(node(0, 0), GraphWeight::Finite(0))]);
    let b = Path::new(vec![(node(1, 0), GraphWeight::Finite(2))]);
    let joined = a.append(&b);
    assert_eq!(joined.len(), 2);
    assert_eq!(joined.endpoint(), Some(node(1, 0)));
    assert_eq!(joined.total(), GraphWeight::Finite(2));
    assert!(Path::default().is_empty());
    assert_eq!(Path::default().endpoint(), None);
    // Summing an empty hop sequence yields zero.
    assert_eq!(Path::default().total(), GraphWeight::Finite(0));
}

fn flat_terrain_three_wide() -> Terrain {
    let tile = Tile {
        height: 0,
        tile_type: TileType::Snow,
    };
    Terrain::from_tiles(vec![tile.clone(), tile.clone(), tile], 3, 1)
}

#[test]
fn follow_path_interpolation() {
    let terrain = flat_terrain_three_wide();
    let path = Path::new(vec![
        (node(0, 0), GraphWeight::Finite(0)),
        (node(2, 0), GraphWeight::Finite(1)),
    ]);
    let mut fp = FollowPath::new(&path, &terrain);
    assert_eq!(fp.len(), 2);
    // Half a hop in: halfway between the two waypoints.
    fp.incr(500);
    assert_eq!(fp.get(), Position3 { x: 1000, y: 0, z: 0 });
    // Past the last segment: clamped to the last waypoint.
    fp.incr(1000);
    assert_eq!(fp.get(), Position3 { x: 2000, y: 0, z: 0 });
    assert!(!fp.at_end());
    // Past the waypoint count: the path is over.
    fp.incr(1000);
    assert!(fp.at_end());
}

#[test]
fn follow_path_append_prefers_other_endpoint() {
    let terrain = flat_terrain_three_wide();
    let a = FollowPath::new(
        &Path::new(vec![(node(0, 0), GraphWeight::Finite(0))]),
        &terrain,
    );
    let b = FollowPath::new(
        &Path::new(vec![(node(1, 0), GraphWeight::Finite(1))]),
        &terrain,
    );
    let joined = a.append(&b);
    assert_eq!(joined.len(), 2);
    assert_eq!(joined.start(), Some(node(0, 0)));
    assert_eq!(joined.endpoint(), Some(node(1, 0)));
    let empty = FollowPath::new(&Path::default(), &terrain);
    let kept = a.append(&empty);
    assert_eq!(kept.endpoint(), Some(node(0, 0)));
}

#[test]
fn terrain_transform_and_weights() {
    let low = Tile {
        height: 0,
        tile_type: TileType::Snow,
    };
    let high = Tile {
        height: 1000,
        tile_type: TileType::Snow,
    };
    let t = Terrain::from_tiles(vec![low, high], 2, 1);
    assert_eq!(
        t.get_transform(&node(1, 0)),
        Some(Position3 { x: 1000, y: 1000, z: 0 })
    );
    assert_eq!(t.get_transform(&node(2, 0)), None);
    // Downhill from the high cell: one hundred per world unit.
    assert_eq!(t.get_weight(node(1, 0), node(0, 0)), GraphWeight::Finite(100));
    // Uphill to the high cell: ten per world unit.
    assert_eq!(t.get_weight(node(0, 0), node(1, 0)), GraphWeight::Finite(10));
    assert_eq!(t.get_weight(node(0, 0), node(2, 0)), GraphWeight::Infinity);
}

/// A two-by-two block where the direct hop is dear and the detour is cheap;
/// exercises the search's priority order.
fn square_with_detour() -> GraphLayerList {
    let inf = GraphWeight::Infinity;
    // Cell (x, y) sits at offset x * height + y. From (0, 0) the direct hop
    // to (1, 0) costs 10; the detour (0,0) -> (0,1) -> (1,1) -> (1,0) costs
    // 2 + 2 + 2.
    let cells = vec![
        // (0, 0)
        GridNode { x_plus: GraphWeight::Finite(10), x_minus: inf, z_plus: GraphWeight::Finite(2), z_minus: inf },
        // (0, 1)
        GridNode { x_plus: GraphWeight::Finite(2), x_minus: inf, z_plus: inf, z_minus: inf },
        // (1, 0): dead end
        GridNode { x_plus: inf, x_minus: inf, z_plus: inf, z_minus: inf },
        // (1, 1)
        GridNode { x_plus: inf, x_minus: inf, z_plus: inf, z_minus: GraphWeight::Finite(2) },
    ];
    let grid = Grid::from_vec(cells, 2, 2);
    GraphLayerList::new(vec![GraphLayer::Grid { grid }])
}

#[test]
fn dijkstra_prefers_cheap_detour() {
    let g = square_with_detour();
    let path = dijkstra(&node(0, 0), &node(1, 0), &g).unwrap();
    assert_eq!(path.total(), GraphWeight::Finite(6));
    assert_eq!(path.len(), 4);
    assert_eq!(path.endpoint(), Some(node(1, 0)));
}

#[test]
fn a_star_finds_the_detour() {
    let g = square_with_detour();
    let path = a_star(&node(0, 0), &node(1, 0), &g, &ManhattanHeuristic).unwrap();
    // The informed search settles for the first discovery of the goal, so it
    // must at least return a real route; the cheap detour costs 6 and the
    // dear direct hop costs 10.
    let total = path.total();
    assert!(total == GraphWeight::Finite(6) || total == GraphWeight::Finite(10));
    assert_eq!(path.endpoint(), Some(node(1, 0)));
}
