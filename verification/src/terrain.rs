//! The terrain model the planner reads: per-cell heights and the world
//! positions derived from them.
//!
//! Heights and positions are held in fixed point: one world unit is
//! `SCALE` height units, so conversions from and to other height sources
//! stay exact arithmetic.

use vstd::prelude::*;

use crate::graph::{GraphLayer, GraphWeight, GridNode, Node};
use crate::grid::{Grid, DIM_LIMIT};

verus! {

/// Fixed-point units per world unit.
pub const SCALE: i64 = 1000;

/// Largest accepted tile height, in fixed-point units.
pub const HEIGHT_LIMIT: i64 = 1000000000;

/// The surface kind of a tile.
#[derive(Clone, Debug, PartialEq, Eq, Structural)]
pub enum TileType {
    Snow,
}

/// One terrain cell: its height in fixed-point units and its surface kind.
#[derive(Clone, Debug, PartialEq, Eq, Structural)]
pub struct Tile {
    pub height: i64,
    pub tile_type: TileType,
}

/// A 3-D world position in fixed-point units.
#[derive(Clone, Copy, Debug, PartialEq, Eq, Structural)]
pub struct Position3 {
    pub x: i64,
    pub y: i64,
    pub z: i64,
}

/// The terrain: a rectangle of tiles, cell `(x, y)` at offset
/// `x * height + y`.
#[derive(Clone, Debug, PartialEq)]
pub struct Terrain {
    tiles: Vec<Tile>,
    width: usize,
    height: usize,
}

impl Terrain {
    pub closed spec fn spec_tiles(self) -> Seq<Tile> {
        self.tiles@
    }

    pub closed spec fn spec_width(self) -> usize {
        self.width
    }

    pub closed spec fn spec_height(self) -> usize {
        self.height
    }

    /// The tiles fill the rectangle, the dimensions are bounded, and every
    /// height is bounded.
    pub open spec fn wf(self) -> bool {
        &&& self.spec_tiles().len() == self.spec_width() * self.spec_height()
        &&& self.spec_width() <= DIM_LIMIT
        &&& self.spec_height() <= DIM_LIMIT
        &&& forall|i: int|
            0 <= i < self.spec_tiles().len() ==> -HEIGHT_LIMIT <= (#[trigger] self.spec_tiles()[i]).height
                <= HEIGHT_LIMIT
    }

    /// `node` names a tile of the terrain.
    pub open spec fn spec_in_bounds(self, node: Node) -> bool {
        0 <= node.x < self.spec_width() && 0 <= node.y < self.spec_height()
    }

    /// The height stored for `node`.
    pub open spec fn spec_height_at(self, node: Node) -> i64
        recommends
            self.spec_in_bounds(node),
    {
        self.spec_tiles()[node.x * self.spec_height() + node.y].height
    }

    /// The world position of `node`: its coordinates scaled to fixed point,
    /// with the tile height in between.
    pub open spec fn spec_transform(self, node: Node) -> Position3
        recommends
            self.spec_in_bounds(node),
    {
        Position3 {
            x: (node.x * SCALE) as i64,
            y: self.spec_height_at(node),
            z: (node.y * SCALE) as i64,
        }
    }

    /// The weight of stepping from `start` to `end`: infinite when either
    /// cell is off the terrain; otherwise a charge per height difference,
    /// steeper for descents than for climbs.
    pub open spec fn spec_weight(self, start: Node, end: Node) -> GraphWeight {
        if !self.spec_in_bounds(start) || !self.spec_in_bounds(end) {
            GraphWeight::Infinity
        } else {
            let delta = self.spec_height_at(start) - self.spec_height_at(end);
            if delta >= 0 {
                GraphWeight::Finite((delta / 10) as i32)
            } else {
                GraphWeight::Finite(((0 - delta) / 100) as i32)
            }
        }
    }

    /// Builds a terrain from row-major tiles matching the dimensions.
    pub fn from_tiles(tiles: Vec<Tile>, width: usize, height: usize) -> (r: Self)
        requires
            tiles@.len() == width * height,
            width <= DIM_LIMIT,
            height <= DIM_LIMIT,
            forall|i: int|
                0 <= i < tiles@.len() ==> -HEIGHT_LIMIT <= (#[trigger] tiles@[i]).height
                    <= HEIGHT_LIMIT,
        ensures
            r.wf(),
            r.spec_tiles() == tiles@,
            r.spec_width() == width,
            r.spec_height() == height,
    {
        Self { tiles, width, height }
    }

    proof fn lemma_index_in_range(self, node: Node)
        requires
            self.wf(),
            self.spec_in_bounds(node),
        ensures
            0 <= node.x * self.spec_height() + node.y < self.spec_tiles().len(),
            self.spec_tiles().len() <= 1600000000,
    {
        let xi = node.x as int;
        let yi = node.y as int;
        assert(0 <= xi * self.spec_height() + yi < self.spec_width() * self.spec_height())
            by (nonlinear_arith)
            requires
                0 <= xi < self.spec_width(),
                0 <= yi < self.spec_height(),
        ;
        assert(self.spec_width() * self.spec_height() <= 1600000000) by (nonlinear_arith)
            requires
                0 <= self.spec_width() <= DIM_LIMIT,
                0 <= self.spec_height() <= DIM_LIMIT,
        ;
    }

    /// The world position of `node`, or `None` when it is off the terrain.
    pub fn get_transform(&self, node: &Node) -> (r: Option<Position3>)
        requires
            self.wf(),
        ensures
            match r {
                Some(p) => self.spec_in_bounds(*node) && p == self.spec_transform(*node) && 0
                    <= p.x <= 40000000 && -HEIGHT_LIMIT <= p.y <= HEIGHT_LIMIT && 0 <= p.z
                    <= 40000000,
                None => !self.spec_in_bounds(*node),
            },
    {
        if node.x < 0 || node.y < 0 || node.x >= self.width as i64 || node.y >= self.height as i64 {
            None
        } else {
            proof {
                self.lemma_index_in_range(*node);
                assert(0 <= node.x * SCALE <= 40000000) by (nonlinear_arith)
                    requires
                        0 <= node.x <= 40000,
                ;
                assert(0 <= node.y * SCALE <= 40000000) by (nonlinear_arith)
                    requires
                        0 <= node.y <= 40000,
                ;
            }
            let i: usize = (node.x as usize) * self.height + (node.y as usize);
            Some(
                Position3 {
                    x: node.x * SCALE,
                    y: self.tiles[i].height,
                    z: node.y * SCALE,
                },
            )
        }
    }

    /// The step weight from `start` to `end`.
    pub fn get_weight(&self, start: Node, end: Node) -> (r: GraphWeight)
        requires
            self.wf(),
        ensures
            r == self.spec_weight(start, end),
            r.is_nonneg(),
    {
        let out_of_bounds = start.x < 0 || start.y < 0 || start.x >= self.width as i64 || start.y
            >= self.height as i64 || end.x < 0 || end.y < 0 || end.x >= self.width as i64 || end.y
            >= self.height as i64;
        if out_of_bounds {
            GraphWeight::Infinity
        } else {
            proof {
                self.lemma_index_in_range(start);
                self.lemma_index_in_range(end);
            }
            let si: usize = (start.x as usize) * self.height + (start.y as usize);
            let ei: usize = (end.x as usize) * self.height + (end.y as usize);
            let delta: i64 = self.tiles[si].height - self.tiles[ei].height;
            if delta >= 0 {
                let q: u64 = (delta as u64) / 10;
                proof {
                    vstd::arithmetic::div_mod::lemma_div_is_ordered(
                        delta as int,
                        2 * HEIGHT_LIMIT as int,
                        10,
                    );
                }
                GraphWeight::Finite(q as i32)
            } else {
                let q: u64 = ((-delta) as u64) / 100;
                proof {
                    vstd::arithmetic::div_mod::lemma_div_is_ordered(
                        (0 - delta) as int,
                        2 * HEIGHT_LIMIT as int,
                        100,
                    );
                }
                GraphWeight::Finite(q as i32)
            }
        }
    }

    /// The grid node of cell `(x, y)`: one step weight per direction.
    pub open spec fn spec_grid_node(self, x: int, y: int) -> GridNode {
        let here = Node { x: x as i64, y: y as i64 };
        GridNode {
            x_plus: self.spec_weight(here, Node { x: (x + 1) as i64, y: y as i64 }),
            x_minus: self.spec_weight(here, Node { x: (x - 1) as i64, y: y as i64 }),
            z_plus: self.spec_weight(here, Node { x: x as i64, y: (y + 1) as i64 }),
            z_minus: self.spec_weight(here, Node { x: x as i64, y: (y - 1) as i64 }),
        }
    }

    /// Compiles the terrain into a grid layer whose cells carry the step
    /// weights of their four cardinal moves.
    pub fn build_graph(&self) -> (r: GraphLayer)
        requires
            self.wf(),
        ensures
            r.wf(),
            match r {
                GraphLayer::Grid { grid } => {
                    &&& grid.spec_width() == self.spec_width()
                    &&& grid.spec_height() == self.spec_height()
                    &&& forall|x: int, y: int|
                        0 <= x < self.spec_width() && 0 <= y < self.spec_height()
                            ==> grid.spec_at(x, y) == #[trigger] self.spec_grid_node(x, y)
                },
                GraphLayer::Lift(..) => false,
            },
    {
        let mut data: Vec<GridNode> = Vec::new();
        let w = self.width;
        let h = self.height;
        for x in 0..w
            invariant
                w == self.spec_width(),
                h == self.spec_height(),
                self.wf(),
                data@.len() == x * h,
                forall|a: int, b: int|
                    0 <= a < x && 0 <= b < h ==> data@[a * h + b] == #[trigger] self.spec_grid_node(
                        a,
                        b,
                    ),
                forall|i: int| 0 <= i < data@.len() ==> (#[trigger] data@[i]).wf(),
        {
            for y in 0..h
                invariant
                    w == self.spec_width(),
                    h == self.spec_height(),
                    self.wf(),
                    x < w,
                    data@.len() == x * h + y,
                    forall|a: int, b: int|
                        0 <= a < x && 0 <= b < h ==> data@[a * h + b]
                            == #[trigger] self.spec_grid_node(a, b),
                    forall|b: int|
                        0 <= b < y ==> data@[x * h + b] == #[trigger] self.spec_grid_node(
                            x as int,
                            b,
                        ),
                    forall|i: int| 0 <= i < data@.len() ==> (#[trigger] data@[i]).wf(),
            {
                proof {
                    assert(x * h + y < w * h <= DIM_LIMIT * DIM_LIMIT) by (nonlinear_arith)
                        requires
                            0 <= x < w,
                            0 <= y < h,
                            w <= DIM_LIMIT,
                            h <= DIM_LIMIT,
                    ;
                }
                let here = Node { x: x as i64, y: y as i64 };
                let node = GridNode {
                    x_plus: self.get_weight(here, Node { x: x as i64 + 1, y: y as i64 }),
                    x_minus: self.get_weight(here, Node { x: x as i64 - 1, y: y as i64 }),
                    z_plus: self.get_weight(here, Node { x: x as i64, y: y as i64 + 1 }),
                    z_minus: self.get_weight(here, Node { x: x as i64, y: y as i64 - 1 }),
                };
                data.push(node);
                proof {
                    assert(data@.len() == x * h + y + 1);
                    assert forall|a: int, b: int| 0 <= a < x && 0 <= b < h implies data@[a * h + b]
                        == #[trigger] self.spec_grid_node(a, b) by {
                        assert(a * h + b < x * h) by (nonlinear_arith)
                            requires
                                0 <= a < x,
                                0 <= b < h,
                        ;
                    }
                }
            }
            proof {
                assert(x * h + h == (x + 1) * h) by (nonlinear_arith);
            }
        }
        proof {
            assert(data@.len() == w * h);
        }
        let grid = Grid::from_vec(data, w, h);
        let r = GraphLayer::Grid { grid };
        r
    }
}

} // verus!
