//! Time-parameterized sampling of a path as world positions.

use vstd::prelude::*;

use crate::graph::{Node, Path};
use crate::terrain::{Position3, Terrain};

verus! {

/// Fixed-point clock units per hop.
pub const TIME_SCALE: u64 = 1000;

/// Largest coordinate a waypoint may carry; keeps the interpolation
/// arithmetic inside `i64`.
pub const POS_LIMIT: i64 = 2000000000;

/// Linear interpolation of one coordinate: `frac` thousandths of the way
/// from `a` to `b`.
pub open spec fn spec_lerp(a: i64, b: i64, frac: int) -> int {
    if b >= a {
        a + (b - a) * frac / (TIME_SCALE as int)
    } else {
        a - (a - b) * frac / (TIME_SCALE as int)
    }
}

/// Law: interpolation never leaves the segment: for any fraction of the
/// way, the sampled coordinate lies between its two endpoints.
pub proof fn lemma_lerp_bounded(a: i64, b: i64, frac: int)
    requires
        0 <= frac < TIME_SCALE,
    ensures
        a <= b ==> a <= spec_lerp(a, b, frac) <= b,
        b <= a ==> b <= spec_lerp(a, b, frac) <= a,
{
    if b >= a {
        vstd::arithmetic::div_mod::lemma_div_pos_is_pos((b - a) * frac, TIME_SCALE as int);
        assert((b - a) * frac <= (b - a) * (TIME_SCALE as int)) by (nonlinear_arith)
            requires
                0 <= frac < TIME_SCALE,
                b - a >= 0,
        ;
        vstd::arithmetic::div_mod::lemma_div_is_ordered(
            (b - a) * frac,
            (b - a) * (TIME_SCALE as int),
            TIME_SCALE as int,
        );
        vstd::arithmetic::div_mod::lemma_div_by_multiple(b - a, TIME_SCALE as int);
    } else {
        vstd::arithmetic::div_mod::lemma_div_pos_is_pos((a - b) * frac, TIME_SCALE as int);
        assert((a - b) * frac <= (a - b) * (TIME_SCALE as int)) by (nonlinear_arith)
            requires
                0 <= frac < TIME_SCALE,
                a - b >= 0,
        ;
        vstd::arithmetic::div_mod::lemma_div_is_ordered(
            (a - b) * frac,
            (a - b) * (TIME_SCALE as int),
            TIME_SCALE as int,
        );
        vstd::arithmetic::div_mod::lemma_div_by_multiple(a - b, TIME_SCALE as int);
    }
}

/// A path to follow: waypoints in world coordinates, endpoints of the hop
/// sequence it was built from, and a clock that only increases.
#[derive(Clone, Debug, PartialEq)]
pub struct FollowPath {
    pub nodes: Vec<Position3>,
    start: Option<Node>,
    endpoint: Option<Node>,
    t: u64,
}

/// Every coordinate of `p` is bounded.
pub open spec fn pos_bounded(p: Position3) -> bool {
    -POS_LIMIT <= p.x <= POS_LIMIT && -POS_LIMIT <= p.y <= POS_LIMIT && -POS_LIMIT <= p.z
        <= POS_LIMIT
}

impl FollowPath {
    /// The waypoints, as the contracts see them.
    pub closed spec fn spec_nodes(self) -> Seq<Position3> {
        self.nodes@
    }

    pub closed spec fn spec_t(self) -> u64 {
        self.t
    }

    pub closed spec fn spec_start(self) -> Option<Node> {
        self.start
    }

    pub closed spec fn spec_endpoint(self) -> Option<Node> {
        self.endpoint
    }

    /// Every waypoint is bounded.
    pub open spec fn wf(self) -> bool {
        forall|i: int| 0 <= i < self.spec_nodes().len() ==> pos_bounded(#[trigger] self.spec_nodes()[i])
    }

    /// The position at the current clock: waypoint `t / TIME_SCALE`,
    /// interpolated toward the next waypoint by the leftover fraction, and
    /// clamped to the last waypoint at and beyond the end.
    pub open spec fn spec_sample(self) -> Position3
        recommends
            self.spec_nodes().len() > 0,
    {
        let t0 = self.spec_t() as int / (TIME_SCALE as int);
        let frac = self.spec_t() as int % (TIME_SCALE as int);
        if t0 >= self.spec_nodes().len() - 1 {
            self.spec_nodes().last()
        } else {
            let a = self.spec_nodes()[t0];
            let b = self.spec_nodes()[t0 + 1];
            Position3 {
                x: spec_lerp(a.x, b.x, frac) as i64,
                y: spec_lerp(a.y, b.y, frac) as i64,
                z: spec_lerp(a.z, b.z, frac) as i64,
            }
        }
    }

    /// Builds a follow path from a hop sequence, converting every node into
    /// its world position; every node of the path must be on the terrain.
    pub fn new(path: &Path, terrain: &Terrain) -> (r: Self)
        requires
            terrain.wf(),
            forall|i: int|
                0 <= i < path@.len() ==> terrain.spec_in_bounds((#[trigger] path@[i]).0),
        ensures
            r.wf(),
            r.spec_nodes().len() == path@.len(),
            forall|i: int|
                0 <= i < path@.len() ==> r.spec_nodes()[i] == terrain.spec_transform(
                    (#[trigger] path@[i]).0,
                ),
            r.spec_t() == 0,
            r.spec_start() == (if path@.len() > 0 {
                Some(path@[0].0)
            } else {
                Option::<Node>::None
            }),
            r.spec_endpoint() == (if path@.len() > 0 {
                Some(path@.last().0)
            } else {
                Option::<Node>::None
            }),
    {
        let n = path.len();
        let start = if n > 0 {
            Some(path.path[0].0)
        } else {
            None
        };
        let endpoint = if n > 0 {
            Some(path.path[n - 1].0)
        } else {
            None
        };
        let mut nodes: Vec<Position3> = Vec::new();
        for i in 0..n
            invariant
                n == path@.len(),
                terrain.wf(),
                forall|j: int|
                    0 <= j < path@.len() ==> terrain.spec_in_bounds((#[trigger] path@[j]).0),
                nodes@.len() == i,
                forall|j: int|
                    0 <= j < i ==> nodes@[j] == terrain.spec_transform((#[trigger] path@[j]).0),
                forall|j: int| 0 <= j < i ==> pos_bounded(#[trigger] nodes@[j]),
        {
            let p = match terrain.get_transform(&path.path[i].0) {
                Some(p) => p,
                None => {
                    proof {
                        assert(false);
                    }
                    Position3 { x: 0, y: 0, z: 0 }
                },
            };
            nodes.push(p);
        }
        FollowPath { nodes, start, endpoint, t: 0 }
    }

    /// Advances the clock; it never moves backward.
    pub fn incr(&mut self, incr: u64)
        requires
            old(self).spec_t() + incr <= u64::MAX,
        ensures
            final(self).spec_t() == old(self).spec_t() + incr,
            final(self).spec_nodes() == old(self).spec_nodes(),
            final(self).spec_start() == old(self).spec_start(),
            final(self).spec_endpoint() == old(self).spec_endpoint(),
    {
        self.t = self.t + incr;
    }

    /// The first node of the hop sequence this path was built from.
    pub fn start(&self) -> (r: Option<Node>)
        ensures
            r == self.spec_start(),
    {
        self.start
    }

    /// Concatenates the waypoints, keeping this path's clock and start and
    /// preferring the other path's endpoint when it has one.
    pub fn append(&self, other: &Self) -> (r: Self)
        ensures
            r.spec_nodes() == self.spec_nodes() + other.spec_nodes(),
            r.spec_t() == self.spec_t(),
            r.spec_start() == self.spec_start(),
            r.spec_endpoint() == (if other.spec_endpoint() is Some {
                other.spec_endpoint()
            } else {
                self.spec_endpoint()
            }),
            self.wf() && other.wf() ==> r.wf(),
    {
        let mut nodes: Vec<Position3> = Vec::new();
        let n = self.nodes.len();
        for i in 0..n
            invariant
                n == self.nodes@.len(),
                nodes@ =~= self.nodes@.subrange(0, i as int),
        {
            nodes.push(self.nodes[i]);
        }
        let m = other.nodes.len();
        for i in 0..m
            invariant
                m == other.nodes@.len(),
                nodes@ =~= self.nodes@ + other.nodes@.subrange(0, i as int),
        {
            nodes.push(other.nodes[i]);
        }
        proof {
            assert(nodes@ =~= self.nodes@ + other.nodes@);
        }
        let endpoint = if other.endpoint.is_some() {
            other.endpoint
        } else {
            self.endpoint
        };
        let r = FollowPath { nodes, start: self.start, endpoint, t: self.t };
        proof {
            if self.wf() && other.wf() {
                assert forall|i: int|
                    0 <= i < r.spec_nodes().len() implies pos_bounded(
                    #[trigger] r.spec_nodes()[i],
                ) by {
                    if i < self.spec_nodes().len() {
                        assert(r.spec_nodes()[i] == self.spec_nodes()[i]);
                    } else {
                        assert(r.spec_nodes()[i] == other.spec_nodes()[
                            i - self.spec_nodes().len()
                        ]);
                    }
                }
            }
        }
        r
    }

    pub fn len(&self) -> (r: usize)
        ensures
            r == self.spec_nodes().len(),
    {
        self.nodes.len()
    }

    pub fn is_empty(&self) -> (r: bool)
        ensures
            r == (self.spec_nodes().len() == 0),
    {
        self.nodes.len() == 0
    }

    /// The last node of the hop sequence this path was built from.
    pub fn endpoint(&self) -> (r: Option<Node>)
        ensures
            r == self.spec_endpoint(),
    {
        self.endpoint
    }

    /// Samples the current position.
    pub fn get(&self) -> (r: Position3)
        requires
            self.wf(),
            self.spec_nodes().len() > 0,
        ensures
            r == self.spec_sample(),
    {
        let t0u: u64 = self.t / TIME_SCALE;
        let len = self.nodes.len();
        if t0u >= (len - 1) as u64 {
            self.nodes[len - 1]
        } else {
            let t0: usize = t0u as usize;
            let frac: u64 = self.t % TIME_SCALE;
            let a = self.nodes[t0];
            let b = self.nodes[t0 + 1];
            Position3 {
                x: lerp(a.x, b.x, frac),
                y: lerp(a.y, b.y, frac),
                z: lerp(a.z, b.z, frac),
            }
        }
    }

    /// True once the clock has passed the waypoint count.
    pub fn at_end(&self) -> (r: bool)
        ensures
            r == (self.spec_t() > self.spec_nodes().len() * TIME_SCALE),
    {
        (self.t as u128) > (self.nodes.len() as u128) * (TIME_SCALE as u128)
    }
}

/// Executable interpolation matching `spec_lerp`.
fn lerp(a: i64, b: i64, frac: u64) -> (r: i64)
    requires
        -POS_LIMIT <= a <= POS_LIMIT,
        -POS_LIMIT <= b <= POS_LIMIT,
        frac < TIME_SCALE,
    ensures
        r == spec_lerp(a, b, frac as int),
{
    if b >= a {
        proof {
            assert(0 <= (b - a) * frac <= 4000000000int * 1000) by (nonlinear_arith)
                requires
                    0 <= b - a <= 4000000000int,
                    0 <= frac < 1000,
            ;
            vstd::arithmetic::div_mod::lemma_div_pos_is_pos((b - a) * frac, TIME_SCALE as int);
            vstd::arithmetic::div_mod::lemma_div_is_ordered(
                (b - a) * frac,
                4000000000int * 1000,
                TIME_SCALE as int,
            );
        }
        let d: u64 = (b - a) as u64;
        let q: u64 = d * frac / TIME_SCALE;
        a + (q as i64)
    } else {
        proof {
            assert(0 <= (a - b) * frac <= 4000000000int * 1000) by (nonlinear_arith)
                requires
                    0 <= a - b <= 4000000000int,
                    0 <= frac < 1000,
            ;
            vstd::arithmetic::div_mod::lemma_div_pos_is_pos((a - b) * frac, TIME_SCALE as int);
            vstd::arithmetic::div_mod::lemma_div_is_ordered(
                (a - b) * frac,
                4000000000int * 1000,
                TIME_SCALE as int,
            );
        }
        let d: u64 = (a - b) as u64;
        let q: u64 = d * frac / TIME_SCALE;
        a - (q as i64)
    }
}

} // verus!
