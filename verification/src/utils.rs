use vstd::prelude::*;
use crate::node::{COORD_LIMIT, Node};
use crate::graph::Graph;

verus! {

/// The square of an integer, as a mathematical value.
pub open spec fn sq(x: int) -> int {
    x * x
}

/// Floor of the non-negative square root of `n`.
pub open spec fn sqrt_floor(n: int) -> int {
    choose|r: int| 0 <= r && #[trigger] sq(r) <= n && n < sq(r + 1)
}

/// Squaring is monotone on non-negative integers.
pub proof fn lemma_sq_monotone(a: int, b: int)
    requires
        0 <= a <= b,
    ensures
        sq(a) <= sq(b),
{
    assert(a * a <= b * b) by (nonlinear_arith)
        requires
            0 <= a <= b,
    ;
}

/// A square-root floor exists for every non-negative integer.
pub proof fn lemma_sqrt_floor_exists(n: int)
    requires
        0 <= n,
    ensures
        0 <= sqrt_floor(n),
        sq(sqrt_floor(n)) <= n < sq(sqrt_floor(n) + 1),
    decreases n,
{
    if n == 0 {
        assert(0 <= 0 && sq(0) <= 0 && 0 < sq(1));
    } else {
        lemma_sqrt_floor_exists(n - 1);
        let r = sqrt_floor(n - 1);
        if sq(r + 1) <= n {
            assert(sq(r + 1) < sq(r + 2)) by (nonlinear_arith)
                requires
                    0 <= r,
            ;
            assert(0 <= r + 1 && sq(r + 1) <= n && n < sq(r + 2));
        } else {
            assert(0 <= r && sq(r) <= n && n < sq(r + 1));
        }
    }
}

/// The square-root floor is the unique value with its defining bounds.
pub proof fn lemma_sqrt_floor_unique(n: int, r: int)
    requires
        0 <= r,
        sq(r) <= n,
        n < sq(r + 1),
    ensures
        r == sqrt_floor(n),
{
    lemma_sqrt_floor_exists(n);
    let s = sqrt_floor(n);
    if r < s {
        lemma_sq_monotone(r + 1, s);
        assert(false);
    }
    if s < r {
        lemma_sq_monotone(s + 1, r);
        assert(false);
    }
}

/// True when every coordinate of `p` lies within the fixed-point range.
pub open spec fn in_coord_range(p: (i64, i64, i64)) -> bool {
    &&& -COORD_LIMIT <= p.0 <= COORD_LIMIT
    &&& -COORD_LIMIT <= p.1 <= COORD_LIMIT
    &&& -COORD_LIMIT <= p.2 <= COORD_LIMIT
}

/// Squared Euclidean distance between two positions, as a mathematical value.
pub open spec fn dist2(p1: (i64, i64, i64), p2: (i64, i64, i64)) -> int {
    sq(p1.0 - p2.0) + sq(p1.1 - p2.1) + sq(p1.2 - p2.2)
}

/// A squared difference of in-range coordinates is non-negative and bounded.
proof fn lemma_sq_diff_bound(a: i64, b: i64)
    requires
        -COORD_LIMIT <= a <= COORD_LIMIT,
        -COORD_LIMIT <= b <= COORD_LIMIT,
    ensures
        0 <= sq(a - b) <= 4_000_000_000_000_000_000,
{
    let d = a - b;
    assert(0 <= d * d <= 4_000_000_000_000_000_000) by (nonlinear_arith)
        requires
            -2_000_000_000 <= d <= 2_000_000_000,
    ;
}

/// Squared distances between in-range positions fit comfortably in `u64`.
pub proof fn lemma_dist2_bound(p1: (i64, i64, i64), p2: (i64, i64, i64))
    requires
        in_coord_range(p1),
        in_coord_range(p2),
    ensures
        0 <= dist2(p1, p2) <= 12_000_000_000_000_000_000,
{
    lemma_sq_diff_bound(p1.0, p2.0);
    lemma_sq_diff_bound(p1.1, p2.1);
    lemma_sq_diff_bound(p1.2, p2.2);
}

/// The squared distance does not depend on the order of its endpoints, and
/// vanishes exactly on equal positions.
pub proof fn lemma_dist2_symmetric(p1: (i64, i64, i64), p2: (i64, i64, i64))
    ensures
        dist2(p1, p2) == dist2(p2, p1),
        dist2(p1, p1) == 0,
{
    assert forall|a: int, b: int| #[trigger] sq(a - b) == sq(b - a) by {
        assert((a - b) * (a - b) == (b - a) * (b - a)) by (nonlinear_arith);
    }
}

/// Floor of the square root of `n`, by bisection.
pub fn isqrt(n: u64) -> (r: u64)
    ensures
        r == sqrt_floor(n as int),
{
    let mut lo: u64 = 0;
    let mut hi: u64 = 0x1_0000_0000;
    proof {
        assert(sq(0x1_0000_0000) == 0x1_0000_0000_0000_0000) by (nonlinear_arith);
    }
    while hi - lo > 1
        invariant
            lo < hi <= 0x1_0000_0000,
            sq(lo as int) <= n as int,
            (n as int) < sq(hi as int),
        decreases hi - lo,
    {
        let mid = lo + (hi - lo) / 2;
        proof {
            assert((mid as u128) * (mid as u128) <= 0x1_0000_0000_0000_0000) by (nonlinear_arith)
                requires
                    mid <= 0x1_0000_0000,
            ;
        }
        if (mid as u128) * (mid as u128) <= n as u128 {
            lo = mid;
        } else {
            hi = mid;
        }
    }
    proof {
        lemma_sqrt_floor_unique(n as int, lo as int);
    }
    lo
}

/// Executable squared Euclidean distance; shared by the distance function,
/// the heuristic, and the nearest-node scan.
pub fn squared_distance(p1: &(i64, i64, i64), p2: &(i64, i64, i64)) -> (r: u64)
    requires
        in_coord_range(*p1),
        in_coord_range(*p2),
    ensures
        r == dist2(*p1, *p2),
{
    proof {
        lemma_sq_diff_bound(p1.0, p2.0);
        lemma_sq_diff_bound(p1.1, p2.1);
        lemma_sq_diff_bound(p1.2, p2.2);
    }
    let dx: i64 = p1.0 - p2.0;
    let dy: i64 = p1.1 - p2.1;
    let dz: i64 = p1.2 - p2.2;
    let dx2: u64 = (dx * dx) as u64;
    let dy2: u64 = (dy * dy) as u64;
    let dz2: u64 = (dz * dz) as u64;
    dx2 + dy2 + dz2
}

/// Euclidean distance between two in-range positions: the floor of the square
/// root of the squared distance, in the same fixed-point units.
pub fn distance(p1: &(i64, i64, i64), p2: &(i64, i64, i64)) -> (d: u64)
    requires
        in_coord_range(*p1),
        in_coord_range(*p2),
    ensures
        d == sqrt_floor(dist2(*p1, *p2)),
{
    let d2 = squared_distance(p1, p2);
    isqrt(d2)
}

/// Euclidean distance between two in-range positions rounded up: the least
/// integer whose square dominates the squared distance. Edge weights built
/// with it are never undercut by the rounded-down heuristic, which keeps
/// that heuristic admissible and consistent on mesh-derived graphs.
pub fn distance_ceil(p1: &(i64, i64, i64), p2: &(i64, i64, i64)) -> (d: u64)
    requires
        in_coord_range(*p1),
        in_coord_range(*p2),
    ensures
        sq(d as int) >= dist2(*p1, *p2),
        d as int == sqrt_floor(dist2(*p1, *p2)) || d as int == sqrt_floor(dist2(*p1, *p2)) + 1,
        d > 0 ==> sq(d as int - 1) < dist2(*p1, *p2),
{
    let d2 = squared_distance(p1, p2);
    let s = isqrt(d2);
    proof {
        lemma_sqrt_floor_exists(d2 as int);
        assert(sq(0x1_0000_0000) == 0x1_0000_0000_0000_0000) by (nonlinear_arith);
        if s >= 0x1_0000_0000 {
            lemma_sq_monotone(0x1_0000_0000, s as int);
            assert(false);
        }
        assert((s as int) * (s as int) == sq(s as int));
        if s > 0 {
            assert(sq(s as int - 1) < sq(s as int)) by (nonlinear_arith)
                requires
                    s >= 1,
            ;
        }
    }
    if s * s == d2 {
        s
    } else {
        s + 1
    }
}

/// Relies on rand's thread-local generator: `gen_range(0..n)` returns a value
/// in `[0, n)`. The draw depends on generator state, so only the bound is
/// stated.
#[verifier::external_body]
pub(crate) fn rand_below(n: usize) -> (r: usize)
    requires
        n >= 1,
    ensures
        r < n,
{
    rand::Rng::gen_range(&mut rand::thread_rng(), 0..n)
}

/// Ids of all nodes whose Euclidean distance to `node`'s position is at most
/// `radius`, in increasing id order: exactly those ids `i` with
/// `dist2(node, nodes[i]) <= radius * radius`.
pub fn nodes_within_radius(graph: &Graph, node: &Node, radius: u64) -> (r: Vec<usize>)
    requires
        graph.wf(),
        node.in_range(),
    ensures
        forall|k: int| 0 <= k < r@.len() ==> (#[trigger] r@[k]) < graph.nodes@.len(),
        forall|k: int| 0 <= k < r@.len() - 1 ==> (#[trigger] r@[k]) < r@[k + 1],
        forall|i: int|
            0 <= i < graph.nodes@.len() ==> (r@.contains(i as usize) <==> dist2(
                node.pos_spec(),
                #[trigger] graph.pos_of(i),
            ) <= sq(radius as int)),
{
    let n = graph.nodes.len();
    let p = node.pos();
    let mut r: Vec<usize> = Vec::new();
    let mut i: usize = 0;
    while i < n
        invariant
            graph.wf(),
            node.in_range(),
            p == node.pos_spec(),
            n == graph.nodes@.len(),
            i <= n,
            forall|k: int| 0 <= k < r@.len() ==> (#[trigger] r@[k]) < i,
            forall|k: int| 0 <= k < r@.len() - 1 ==> (#[trigger] r@[k]) < r@[k + 1],
            forall|ii: int|
                0 <= ii < i ==> (r@.contains(ii as usize) <==> dist2(
                    node.pos_spec(),
                    #[trigger] graph.pos_of(ii),
                ) <= sq(radius as int)),
        decreases n - i,
    {
        let ghost r_old = r@;
        let q = graph.nodes[i].pos();
        let d2 = squared_distance(&p, &q);
        proof {
            assert((radius as u128) * (radius as u128) < 0x1_0000_0000_0000_0000_0000_0000_0000_0000)
                by (nonlinear_arith)
                requires
                    radius <= 0xffff_ffff_ffff_ffff,
            ;
        }
        let inside = (d2 as u128) <= (radius as u128) * (radius as u128);
        if inside {
            r.push(i);
        }
        proof {
            assert((radius as u128) * (radius as u128) == sq(radius as int)) by (nonlinear_arith);
            assert forall|ii: int|
                0 <= ii < i + 1 implies (r@.contains(ii as usize) <==> dist2(
                node.pos_spec(),
                #[trigger] graph.pos_of(ii),
            ) <= sq(radius as int)) by {
                if ii < i {
                    if r_old.contains(ii as usize) {
                        let w = choose|w: int| 0 <= w < r_old.len() && r_old[w] == ii as usize;
                        assert(r@[w] == ii as usize);
                        assert(r@.contains(ii as usize));
                    }
                    if r@.contains(ii as usize) {
                        let w = choose|w: int| 0 <= w < r@.len() && r@[w] == ii as usize;
                        if w < r_old.len() {
                            assert(r_old.contains(ii as usize));
                        } else {
                            assert(r@[w] == i);
                            assert(false);
                        }
                    }
                } else {
                    if inside {
                        assert(r@[r@.len() - 1] == i);
                        assert(r@.contains(ii as usize));
                    } else {
                        if r@.contains(ii as usize) {
                            let w = choose|w: int| 0 <= w < r@.len() && r@[w] == ii as usize;
                            assert(r@[w] < i);
                            assert(false);
                        }
                    }
                }
            }
        }
        i = i + 1;
    }
    r
}

} // verus!
