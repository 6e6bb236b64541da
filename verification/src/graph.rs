use vstd::prelude::*;
use crate::edge::Edge;
use crate::node::Node;
use crate::utils::{dist2, in_coord_range, sq, sqrt_floor, distance, squared_distance, rand_below};
use crate::utils::{lemma_dist2_symmetric, lemma_sqrt_floor_unique};
use crate::path::{Path, sat_add, sat_add_exec, opt_path_view, step_ok, valid_path};
use crate::path::{is_walk, no_route, lemma_sat_add_monotone, clone_path, append_segment, nodes_distinct};
use crate::cache::{QueryCache, cache_view, cache_get, cache_insert};
use vstd::set_lib::{lemma_len_subset, set_int_range, lemma_int_range};
use vstd::arithmetic::mul::lemma_mul_inequality;
use vstd::arithmetic::div_mod::lemma_div_is_ordered;

verus! {

/// The navigation graph: a node store and, for each node, the ordered list
/// of directed edges leaving it. Built once, then read-only during search.
pub struct Graph {
    pub nodes: Vec<Node>,
    pub edges: Vec<Vec<Edge>>,
}

/// An entry of the A* open set: the f-score under which the node was queued
/// and the node itself. Stale duplicates are tolerated and skipped on pop.
#[derive(Debug, Clone, Copy, PartialEq, Eq, Structural)]
pub struct State {
    pub cost: u64,
    pub position: usize,
}

impl Graph {
    /// Well-formed: one adjacency list per node, every edge target names an
    /// existing node, and every position is within the fixed-point range.
    pub open spec fn wf(self) -> bool {
        &&& self.edges@.len() == self.nodes@.len()
        &&& forall|i: int, j: int|
            0 <= i < self.edges@.len() && 0 <= j < self.edges@[i]@.len()
                ==> (#[trigger] self.edges@[i]@[j]).to < self.nodes@.len()
        &&& forall|i: int|
            0 <= i < self.nodes@.len() ==> (#[trigger] self.nodes@[i]).in_range()
    }

    /// Position of the node with id `i`.
    pub open spec fn pos_of(self, i: int) -> (i64, i64, i64) {
        self.nodes@[i].pos_spec()
    }

    /// The heuristic value between nodes `a` and `b`: the Euclidean distance
    /// between their positions, rounded down to fixed-point units.
    pub open spec fn h_spec(self, a: int, b: int) -> int {
        sqrt_floor(dist2(self.pos_of(a), self.pos_of(b)))
    }

    /// Index of the node nearest to `p` among the first `k` nodes, earliest
    /// index winning ties.
    pub open spec fn nearest_in_prefix(self, p: (i64, i64, i64), k: int) -> int
        decreases k,
    {
        if k <= 1 {
            0
        } else {
            let b = self.nearest_in_prefix(p, k - 1);
            if dist2(self.pos_of(k - 1), p) < dist2(self.pos_of(b), p) {
                k - 1
            } else {
                b
            }
        }
    }

    /// Index of the node nearest to `p`, earliest index winning ties.
    /// Meaningful only on a non-empty graph.
    pub open spec fn nearest_spec(self, p: (i64, i64, i64)) -> int {
        self.nearest_in_prefix(p, self.nodes@.len() as int)
    }

    pub fn new() -> (g: Graph)
        ensures
            g.nodes@.len() == 0,
            g.edges@.len() == 0,
            g.wf(),
    {
        Graph { nodes: Vec::new(), edges: Vec::new() }
    }

    /// Appends a node together with its empty adjacency list.
    pub fn add_node(&mut self, node: Node)
        requires
            node.in_range(),
        ensures
            final(self).nodes@ == old(self).nodes@.push(node),
            final(self).edges@.len() == old(self).edges@.len() + 1,
            forall|i: int|
                0 <= i < old(self).edges@.len()
                    ==> final(self).edges@[i] == old(self).edges@[i],
            final(self).edges@[old(self).edges@.len() as int]@.len() == 0,
            old(self).wf() ==> final(self).wf(),
    {
        self.nodes.push(node);
        self.edges.push(Vec::new());
    }

    /// Appends a directed weighted edge. The target is not checked against
    /// the node store; referencing an existing node is the caller's charge
    /// and a precondition of search.
    pub fn add_edge(&mut self, from: usize, to: usize, cost: u64)
        requires
            from < old(self).edges@.len(),
        ensures
            final(self).nodes == old(self).nodes,
            final(self).edges@.len() == old(self).edges@.len(),
            final(self).edges@[from as int]@
                == old(self).edges@[from as int]@.push(Edge { to, cost }),
            forall|i: int|
                0 <= i < old(self).edges@.len() && i != from
                    ==> final(self).edges@[i] == old(self).edges@[i],
            old(self).wf() && to < old(self).nodes@.len() ==> final(self).wf(),
    {
        let mut row = self.edges.remove(from);
        row.push(Edge { to, cost });
        self.edges.insert(from, row);
        proof {
            assert(final(self).edges@[from as int]@
                == old(self).edges@[from as int]@.push(Edge { to, cost }));
            assert forall|i: int|
                0 <= i < old(self).edges@.len() && i != from
                implies final(self).edges@[i] == old(self).edges@[i] by {
            }
        }
    }

    /// Euclidean-distance heuristic between two nodes. Symmetric, zero on
    /// equal nodes, and admissible wherever edge costs are the Euclidean
    /// distances between their endpoints.
    pub fn heuristic(&self, start: usize, goal: usize) -> (h: u64)
        requires
            self.wf(),
            start < self.nodes@.len(),
            goal < self.nodes@.len(),
        ensures
            h == self.h_spec(start as int, goal as int),
    {
        let p1 = self.nodes[start].pos();
        let p2 = self.nodes[goal].pos();
        distance(&p1, &p2)
    }

    /// Id of a node whose position minimizes the Euclidean distance to the
    /// query point, the earliest such node winning ties; nothing exactly when
    /// the graph holds no nodes.
    pub fn nearest_node(&self, x: i64, y: i64, z: i64) -> (r: Option<usize>)
        requires
            self.wf(),
            in_coord_range((x, y, z)),
        ensures
            r.is_some() <==> self.nodes@.len() > 0,
            r.is_some() ==> r.unwrap() < self.nodes@.len(),
            r.is_some() ==> r.unwrap() as int == self.nearest_spec((x, y, z)),
            r.is_some() ==> forall|j: int|
                0 <= j < self.nodes@.len() ==> dist2(self.pos_of(r.unwrap() as int), (x, y, z))
                    <= dist2(#[trigger] self.pos_of(j), (x, y, z)),
    {
        let n = self.nodes.len();
        if n == 0 {
            return None;
        }
        proof {
            lemma_nearest_in_prefix_props(*self, (x, y, z), n as int);
        }
        let p = (x, y, z);
        let mut best: usize = 0;
        let mut best_d2: u64 = squared_distance(&self.nodes[0].pos(), &p);
        let mut k: usize = 1;
        while k < n
            invariant
                self.wf(),
                in_coord_range(p),
                n == self.nodes@.len(),
                1 <= k <= n,
                best < k,
                best as int == self.nearest_in_prefix(p, k as int),
                best_d2 == dist2(self.pos_of(best as int), p),
            decreases n - k,
    {
            let d2 = squared_distance(&self.nodes[k].pos(), &p);
            if d2 < best_d2 {
                best = k;
                best_d2 = d2;
            }
            k = k + 1;
        }
        Some(best)
    }

    /// A uniformly random existing node id, or nothing on an empty graph —
    /// never undefined behaviour.
    pub fn random_node(&self) -> (r: Option<usize>)
        ensures
            r.is_some() <==> self.nodes@.len() > 0,
            r.is_some() ==> r.unwrap() < self.nodes@.len(),
    {
        let n = self.nodes.len();
        if n == 0 {
            None
        } else {
            Some(rand_below(n))
        }
    }

    /// Runtime check of `wf`, for callers that assemble a graph from
    /// unchecked input.
    pub fn is_valid(&self) -> (r: bool)
        ensures
            r == self.wf(),
    {
        let n = self.nodes.len();
        if self.edges.len() != n {
            return false;
        }
        let mut i: usize = 0;
        while i < n
            invariant
                n == self.nodes@.len(),
                n == self.edges@.len(),
                i <= n,
                forall|a: int, j: int|
                    0 <= a < i && 0 <= j < self.edges@[a]@.len()
                        ==> (#[trigger] self.edges@[a]@[j]).to < n,
                forall|a: int| 0 <= a < i ==> (#[trigger] self.nodes@[a]).in_range(),
            decreases n - i,
        {
            let node = self.nodes[i];
            if node.x < -crate::node::COORD_LIMIT || node.x > crate::node::COORD_LIMIT
                || node.y < -crate::node::COORD_LIMIT || node.y > crate::node::COORD_LIMIT
                || node.z < -crate::node::COORD_LIMIT || node.z > crate::node::COORD_LIMIT {
                return false;
            }
            let deg = self.edges[i].len();
            let mut j: usize = 0;
            while j < deg
                invariant
                    n == self.nodes@.len(),
                    n == self.edges@.len(),
                    i < n,
                    deg == self.edges@[i as int]@.len(),
                    j <= deg,
                    forall|jj: int|
                        0 <= jj < j ==> (#[trigger] self.edges@[i as int]@[jj]).to < n,
                decreases deg - j,
            {
                if self.edges[i][j].to >= n {
                    return false;
                }
                j = j + 1;
            }
            i = i + 1;
        }
        true
    }
}

/// The heuristic is symmetric in its endpoints and vanishes on equal ones.
pub proof fn lemma_heuristic_symmetric(g: Graph, a: int, b: int)
    requires
        g.wf(),
        0 <= a < g.nodes@.len(),
        0 <= b < g.nodes@.len(),
    ensures
        g.h_spec(a, b) == g.h_spec(b, a),
        g.h_spec(a, a) == 0,
{
    lemma_dist2_symmetric(g.pos_of(a), g.pos_of(b));
    lemma_sqrt_floor_unique(0, 0);
    assert(sq(0) == 0 && sq(1) == 1);
}

/// Two first-minimizer indices for the same query coincide; together with
/// `nearest_node`'s contract this makes coordinate resolution deterministic.
pub proof fn lemma_nearest_in_prefix_props(g: Graph, p: (i64, i64, i64), k: int)
    requires
        1 <= k <= g.nodes@.len(),
    ensures
        0 <= g.nearest_in_prefix(p, k) < k,
        forall|j: int|
            0 <= j < k ==> dist2(g.pos_of(g.nearest_in_prefix(p, k)), p) <= dist2(
                #[trigger] g.pos_of(j),
                p,
            ),
    decreases k,
{
    if k > 1 {
        lemma_nearest_in_prefix_props(g, p, k - 1);
    }
}


/// Improving one unclosed node's g-score and pushing its fresh open entry
/// preserves the open-set invariants.
proof fn lemma_relax_open(
    g: Graph,
    gs_b4: Seq<u64>,
    gs_a: Seq<u64>,
    closed: Seq<bool>,
    open_b4: Seq<State>,
    open_a: Seq<State>,
    nb: usize,
    tentative: u64,
    f: u64,
    hn: u64,
    goal: usize,
)
    requires
        0 <= nb < gs_b4.len(),
        closed.len() == gs_b4.len(),
        !closed[nb as int],
        tentative < gs_b4[nb as int],
        gs_a == gs_b4.update(nb as int, tentative),
        hn as int == g.h_spec(nb as int, goal as int),
        f == sat_add(tentative, hn),
        open_a == open_b4.push(State { cost: f, position: nb }),
        forall|k: int| 0 <= k < open_b4.len() ==> (#[trigger] open_b4[k]).position < gs_b4.len(),
        inv_unclosed_in_open(g, gs_b4, closed, open_b4, goal),
        inv_open_costs(g, gs_b4, open_b4, goal),
    ensures
        inv_unclosed_in_open(g, gs_a, closed, open_a, goal),
        inv_open_costs(g, gs_a, open_a, goal),
{
    reveal(inv_unclosed_in_open);
    reveal(inv_open_costs);
    assert(g.h_spec(nb as int, goal as int) as u64 == hn);
    assert forall|tt: int|
        0 <= tt < gs_a.len() && gs_a[tt] < u64::MAX && !(#[trigger] closed[tt]) implies exists|
        kk: int,
    |
        0 <= kk < open_a.len() && (#[trigger] open_a[kk]).position == tt && open_a[kk].cost
            == sat_add(gs_a[tt], g.h_spec(tt, goal as int) as u64) by {
        if tt == nb as int {
            let kk = open_a.len() - 1;
            assert(open_a[kk].position == tt);
            assert(open_a[kk].cost == sat_add(gs_a[tt], g.h_spec(tt, goal as int) as u64));
            assert(0 <= kk < open_a.len() && (open_a[kk]).position == tt && open_a[kk].cost
                == sat_add(gs_a[tt], g.h_spec(tt, goal as int) as u64));
        } else {
            assert(gs_b4[tt] == gs_a[tt]);
            assert(gs_b4[tt] < u64::MAX && !closed[tt]);
            let kw = choose|kk: int|
                0 <= kk < open_b4.len() && (#[trigger] open_b4[kk]).position == tt
                    && open_b4[kk].cost == sat_add(gs_b4[tt], g.h_spec(tt, goal as int) as u64);
            assert(open_a[kw] == open_b4[kw]);
            assert(0 <= kw < open_a.len() && (open_a[kw]).position == tt && open_a[kw].cost
                == sat_add(gs_a[tt], g.h_spec(tt, goal as int) as u64));
        }
    }
    assert forall|kk: int| 0 <= kk < open_a.len() implies (#[trigger] open_a[kk]).cost >= sat_add(
        gs_a[open_a[kk].position as int],
        g.h_spec(open_a[kk].position as int, goal as int) as u64,
    ) by {
        if kk < open_b4.len() {
            assert(open_a[kk] == open_b4[kk]);
            let pos = open_b4[kk].position as int;
            assert(open_b4[kk].cost >= sat_add(gs_b4[pos], g.h_spec(pos, goal as int) as u64));
            assert(gs_a[pos] <= gs_b4[pos]);
            lemma_sat_add_monotone(
                gs_a[pos],
                g.h_spec(pos, goal as int) as u64,
                gs_b4[pos],
                g.h_spec(pos, goal as int) as u64,
            );
        } else {
            assert(open_a[kk] == State { cost: f, position: nb });
        }
    }
}

/// A full relaxation step: refreshing one unclosed neighbor's parent link,
/// g-score and open entry preserves every search invariant.
proof fn lemma_relax_full(
    g: Graph,
    start: usize,
    goal: usize,
    current: usize,
    j: int,
    nb: usize,
    c: u64,
    cf_b4: Seq<Option<usize>>,
    cf_a: Seq<Option<usize>>,
    gs_b4: Seq<u64>,
    gs_a: Seq<u64>,
    closed: Seq<bool>,
    open_b4: Seq<State>,
    open_a: Seq<State>,
    rank: Map<int, nat>,
    stamp: nat,
    gc: u64,
    tentative: u64,
    f: u64,
    hn: u64,
)
    requires
        g.wf(),
        gs_b4.len() == g.nodes@.len(),
        gs_a.len() == g.nodes@.len(),
        cf_b4.len() == g.nodes@.len(),
        cf_a.len() == g.nodes@.len(),
        closed.len() == g.nodes@.len(),
        start < g.nodes@.len(),
        goal < g.nodes@.len(),
        current < g.nodes@.len(),
        nb < g.nodes@.len(),
        gs_b4[start as int] == 0,
        closed[current as int],
        gs_b4[current as int] == gc,
        gc < u64::MAX,
        0 <= j < g.edges@[current as int]@.len(),
        g.edges@[current as int]@[j] == (Edge { to: nb, cost: c }),
        !closed[nb as int],
        tentative == sat_add(gc, c),
        tentative < gs_b4[nb as int],
        cf_a == cf_b4.update(nb as int, Some(current)),
        gs_a == gs_b4.update(nb as int, tentative),
        hn as int == g.h_spec(nb as int, goal as int),
        f == sat_add(tentative, hn),
        open_a == open_b4.push(State { cost: f, position: nb }),
        inv_parents(g, cf_b4, gs_b4, closed),
        inv_reached(cf_b4, gs_b4, closed, start),
        inv_open_entries(cf_b4, open_b4, g.nodes@.len() as nat, start),
        inv_unclosed_in_open(g, gs_b4, closed, open_b4, goal),
        inv_open_costs(g, gs_b4, open_b4, goal),
        inv_rank(cf_b4, closed, rank, stamp),
        inv_g_bounded(g, gs_b4, closed, rank, stamp),
        rank.dom().contains(current as int),
        rank[current as int] + 1 == stamp,
    ensures
        inv_parents(g, cf_a, gs_a, closed),
        inv_reached(cf_a, gs_a, closed, start),
        inv_open_entries(cf_a, open_a, g.nodes@.len() as nat, start),
        inv_unclosed_in_open(g, gs_a, closed, open_a, goal),
        inv_open_costs(g, gs_a, open_a, goal),
        inv_rank(cf_a, closed, rank, stamp),
        inv_g_bounded(g, gs_a, closed, rank, stamp),
        gs_a[start as int] == 0,
        gs_a[current as int] == gc,
        forall|t: int| 0 <= t < closed.len() && closed[t] ==> gs_a[t] == (#[trigger] gs_b4[t]),
        forall|t: int| 0 <= t < gs_b4.len() ==> gs_a[t] <= (#[trigger] gs_b4[t]),
{
    lemma_sat_add_monotone(gc, c, gc, c);
    assert(tentative < u64::MAX);
    assert(nb != current);
    assert(g.edges@[current as int]@[j].to == nb && g.edges@[current as int]@[j].cost == c
        && tentative == sat_add(gc, g.edges@[current as int]@[j].cost));
    assert(step_ok(g, (current, gc), (nb, tentative)));
    // parent links
    assert(inv_parents(g, cf_a, gs_a, closed)) by {
        reveal(inv_parents);
        assert forall|t: int|
            0 <= t < cf_a.len() && (#[trigger] cf_a[t]).is_some() implies {
            let p = cf_a[t].unwrap() as int;
            &&& 0 <= p < cf_a.len()
            &&& closed[p]
            &&& gs_a[t] < u64::MAX
            &&& step_ok(g, ((p as usize), gs_a[p]), ((t as usize), gs_a[t]))
        } by {
            let p = cf_a[t].unwrap() as int;
            if t == nb as int {
                assert(p == current as int);
                assert(step_ok(g, (current, gc), (nb, tentative)));
            } else {
                assert(gs_b4[t] == gs_a[t]);
                assert(p != nb as int);
                assert(gs_b4[p] == gs_a[p]);
                assert(step_ok(g, ((p as usize), gs_b4[p]), ((t as usize), gs_b4[t])));
            }
        }
    }
    // reached nodes have parents; closed nodes stay reached
    assert(inv_reached(cf_a, gs_a, closed, start)) by {
        reveal(inv_reached);
    }
    // open entries still name reachable-through-parents nodes
    assert(inv_open_entries(cf_a, open_a, g.nodes@.len() as nat, start)) by {
        reveal(inv_open_entries);
        assert forall|k: int|
            0 <= k < open_a.len() implies ((#[trigger] open_a[k]).position < g.nodes@.len()
            && (open_a[k].position == start || cf_a[open_a[k].position as int].is_some())) by {
            if k < open_b4.len() {
                assert(open_a[k] == open_b4[k]);
            } else {
                assert(open_a[k] == State { cost: f, position: nb });
            }
        }
    }
    // the rank bookkeeping never mentions unclosed nodes' parent links
    assert(inv_rank(cf_a, closed, rank, stamp)) by {
        reveal(inv_rank);
        assert forall|t: int|
            0 <= t < cf_a.len() && closed[t] && (#[trigger] cf_a[t]).is_some() implies rank.dom()
            .contains(cf_a[t].unwrap() as int) && rank[cf_a[t].unwrap() as int] < rank[t] by {
            assert(t != nb as int);
            assert(cf_a[t] == cf_b4[t]);
        }
    }
    // the refreshed g-score stays under the stamp bound
    assert(inv_g_bounded(g, gs_a, closed, rank, stamp)) by {
        reveal(inv_g_bounded);
        if moderate_costs(g) {
            assert(gc as int <= rank[current as int] as int * cost_cap(g));
            assert(c as int <= cost_cap(g));
            assert((rank[current as int] as int) * cost_cap(g) + cost_cap(g) == (stamp as int)
                * cost_cap(g)) by (nonlinear_arith)
                requires
                    rank[current as int] as int + 1 == stamp as int,
            ;
            assert(tentative as int <= (stamp as int) * cost_cap(g));
            assert forall|tt: int|
                #![trigger gs_a[tt]]
                0 <= tt < gs_a.len() && gs_a[tt] < u64::MAX implies gs_a[tt] as int <= (if closed[tt] {
                rank[tt] as int
            } else {
                stamp as int
            }) * cost_cap(g) by {
                if tt != nb as int {
                    assert(gs_a[tt] == gs_b4[tt]);
                }
            }
        }
    }
    assert forall|k: int| 0 <= k < open_b4.len() implies (#[trigger] open_b4[k]).position
        < gs_b4.len() by {
        reveal(inv_open_entries);
    }
    lemma_relax_open(g, gs_b4, gs_a, closed, open_b4, open_a, nb, tentative, f, hn, goal);
}

impl Graph {
    /// Relaxes every edge out of a freshly closed node: an unclosed neighbor
    /// whose g-score improves gets a refreshed parent link, score, and a new
    /// open entry under its f-score (g-score plus heuristic to the goal).
    #[verifier::rlimit(100)]
    fn expand_node(
        &self,
        current: usize,
        start: usize,
        goal: usize,
        came_from: &mut Vec<Option<usize>>,
        g_score: &mut Vec<u64>,
        closed: &Vec<bool>,
        open: &mut Vec<State>,
        Ghost(rank): Ghost<Map<int, nat>>,
        Ghost(stamp): Ghost<nat>,
    )
        requires
            self.wf(),
            start < self.nodes@.len(),
            goal < self.nodes@.len(),
            current < self.nodes@.len(),
            current != goal,
            old(came_from)@.len() == self.nodes@.len(),
            old(g_score)@.len() == self.nodes@.len(),
            closed@.len() == self.nodes@.len(),
            old(g_score)@[start as int] == 0,
            closed@[goal as int] == false,
            closed@[current as int],
            old(g_score)@[current as int] < u64::MAX,
            inv_parents(*self, old(came_from)@, old(g_score)@, closed@),
            inv_reached(old(came_from)@, old(g_score)@, closed@, start),
            inv_open_entries(old(came_from)@, old(open)@, self.nodes@.len() as nat, start),
            inv_unclosed_in_open(*self, old(g_score)@, closed@, old(open)@, goal),
            inv_open_costs(*self, old(g_score)@, old(open)@, goal),
            inv_closed_edges_except(*self, old(g_score)@, closed@, current as int),
            inv_rank(old(came_from)@, closed@, rank, stamp),
            inv_g_bounded(*self, old(g_score)@, closed@, rank, stamp),
            rank.dom().contains(current as int),
            rank[current as int] + 1 == stamp,
        ensures
            final(came_from)@.len() == old(came_from)@.len(),
            final(g_score)@.len() == old(g_score)@.len(),
            final(g_score)@[start as int] == 0,
            inv_parents(*self, final(came_from)@, final(g_score)@, closed@),
            inv_reached(final(came_from)@, final(g_score)@, closed@, start),
            inv_open_entries(final(came_from)@, final(open)@, self.nodes@.len() as nat, start),
            inv_unclosed_in_open(*self, final(g_score)@, closed@, final(open)@, goal),
            inv_open_costs(*self, final(g_score)@, final(open)@, goal),
            inv_closed_edges(*self, final(g_score)@, closed@),
            inv_rank(final(came_from)@, closed@, rank, stamp),
            inv_g_bounded(*self, final(g_score)@, closed@, rank, stamp),
            forall|t: int|
                0 <= t < closed@.len() && closed@[t] ==> final(g_score)@[t] == (#[trigger] old(
                    g_score,
                )@[t]),
            forall|t: int|
                0 <= t < old(g_score)@.len() ==> final(g_score)@[t] <= (#[trigger] old(g_score)@[t]),
    {
        let n = self.nodes.len();
        let gc = g_score[current];
        let deg = self.edges[current].len();
        let mut j: usize = 0;
        while j < deg
            invariant
                self.wf(),
                start < n,
                goal < n,
                n == self.nodes@.len(),
                came_from@.len() == n,
                g_score@.len() == n,
                closed@.len() == n,
                old(g_score)@.len() == n,
                current < n,
                current != goal,
                deg == self.edges@[current as int]@.len(),
                j <= deg,
                g_score@[start as int] == 0,
                closed@[goal as int] == false,
                closed@[current as int],
                g_score@[current as int] == gc,
                gc < u64::MAX,
                inv_parents(*self, came_from@, g_score@, closed@),
                inv_reached(came_from@, g_score@, closed@, start),
                inv_open_entries(came_from@, open@, n as nat, start),
                inv_unclosed_in_open(*self, g_score@, closed@, open@, goal),
                inv_open_costs(*self, g_score@, open@, goal),
                inv_closed_edges_except(*self, g_score@, closed@, current as int),
                inv_rank(came_from@, closed@, rank, stamp),
                inv_g_bounded(*self, g_score@, closed@, rank, stamp),
                rank.dom().contains(current as int),
                rank[current as int] + 1 == stamp,
                forall|t: int|
                    0 <= t < closed@.len() && closed@[t] ==> g_score@[t] == (#[trigger] old(
                        g_score,
                    )@[t]),
                forall|t: int|
                    0 <= t < old(g_score)@.len() ==> g_score@[t] <= (#[trigger] old(g_score)@[t]),
                forall|jj: int|
                    #![trigger self.edges@[current as int]@[jj]]
                    0 <= jj < j ==> (closed@[self.edges@[current as int]@[jj].to as int]
                        || g_score@[self.edges@[current as int]@[jj].to as int] <= sat_add(
                        gc,
                        self.edges@[current as int]@[jj].cost,
                    )),
            decreases deg - j,
        {
            let e = self.edges[current][j];
            let nb = e.to;
            if !closed[nb] {
                let ghost gs_before = g_score@;
                let ghost cf_before = came_from@;
                let ghost open_pre = open@;
                let tentative = sat_add_exec(gc, e.cost);
                if tentative < g_score[nb] {
                    came_from.set(nb, Some(current));
                    g_score.set(nb, tentative);
                    let hn = self.heuristic(nb, goal);
                    let f = sat_add_exec(tentative, hn);
                    open.push(State { cost: f, position: nb });
                    proof {
                        lemma_relax_full(
                            *self,
                            start,
                            goal,
                            current,
                            j as int,
                            nb,
                            e.cost,
                            cf_before,
                            came_from@,
                            gs_before,
                            g_score@,
                            closed@,
                            open_pre,
                            open@,
                            rank,
                            stamp,
                            gc,
                            tentative,
                            f,
                            hn,
                        );
                        // except-invariant: the only changed score shrank
                        assert forall|t: int, jj: int|
                            #![trigger self.edges@[t]@[jj]]
                            0 <= t < closed@.len() && closed@[t] && t != current as int && 0 <= jj
                                < self.edges@[t]@.len() implies (closed@[self.edges@[t]@[jj].to
                            as int] || g_score@[self.edges@[t]@[jj].to as int] <= sat_add(
                            g_score@[t],
                            self.edges@[t]@[jj].cost,
                        )) by {
                            reveal(inv_closed_edges_except);
                            assert(t != nb as int);
                            assert(g_score@[t] == gs_before[t]);
                            if !closed@[self.edges@[t]@[jj].to as int] {
                                assert(gs_before[self.edges@[t]@[jj].to as int] <= sat_add(
                                    gs_before[t],
                                    self.edges@[t]@[jj].cost,
                                ));
                            }
                        }
                        assert(inv_closed_edges_except(
                            *self,
                            g_score@,
                            closed@,
                            current as int,
                        )) by {
                            reveal(inv_closed_edges_except);
                        }
                        assert forall|t: int|
                            0 <= t < old(g_score)@.len() implies g_score@[t] <= (#[trigger] old(
                            g_score,
                        )@[t]) by {
                            assert(g_score@[t] <= gs_before[t]);
                        }
                    }
                }
            }
            j = j + 1;
        }
        proof {
            reveal(inv_closed_edges);
            reveal(inv_closed_edges_except);
            assert(inv_closed_edges(*self, g_score@, closed@));
        }
    }

    /// Rebuilds the route from the parent links laid down by the search:
    /// walk back from the goal, then reverse into start-to-goal order, with
    /// each node carrying its g-score as the cumulative time offset.
    fn reconstruct_path(
        &self,
        came_from: &Vec<Option<usize>>,
        g_score: &Vec<u64>,
        start: usize,
        goal: usize,
        Ghost(closed): Ghost<Seq<bool>>,
        Ghost(rank): Ghost<Map<int, nat>>,
        Ghost(stamp): Ghost<nat>,
    ) -> (p: Path)
        requires
            self.wf(),
            came_from@.len() == self.nodes@.len(),
            g_score@.len() == self.nodes@.len(),
            closed.len() == self.nodes@.len(),
            start < self.nodes@.len(),
            goal < self.nodes@.len(),
            g_score@[start as int] == 0,
            inv_parents(*self, came_from@, g_score@, closed),
            inv_reached(came_from@, g_score@, closed, start),
            inv_rank(came_from@, closed, rank, stamp),
            goal == start || came_from@[goal as int].is_some(),
        ensures
            valid_path(*self, p@, start, goal),
            p@[p@.len() - 1] == (goal, g_score@[goal as int]),
            nodes_distinct(p@),
    {
        proof {
            reveal(inv_parents);
            reveal(inv_reached);
            reveal(inv_rank);
        }
        let n = self.nodes.len();
        let mut rev: Path = Vec::new();
        let g_goal = g_score[goal];
        rev.push((goal, g_goal));
        let mut cur: usize = goal;
        while came_from[cur].is_some()
            invariant
                self.wf(),
                n == self.nodes@.len(),
                came_from@.len() == n,
                g_score@.len() == n,
                closed.len() == n,
                start < n,
                goal < n,
                cur < n,
                g_score@[start as int] == 0,
                inv_parents(*self, came_from@, g_score@, closed),
                inv_reached(came_from@, g_score@, closed, start),
                inv_rank(came_from@, closed, rank, stamp),
                g_score@[cur as int] < u64::MAX || cur == start,
                rev@.len() >= 1,
                rev@[rev@.len() - 1] == (cur, g_score@[cur as int]),
                rev@[0] == (goal, g_score@[goal as int]),
                forall|t: int|
                    0 <= t < rev@.len() - 1 ==> step_ok(*self, #[trigger] rev@[t + 1], rev@[t]),
                forall|i: int, j: int|
                    0 <= i < j < rev@.len() ==> rank_of(rank, stamp, (#[trigger] rev@[j]).0 as int)
                        < rank_of(rank, stamp, (#[trigger] rev@[i]).0 as int),
            decreases (if rank.dom().contains(cur as int) {
                rank[cur as int]
            } else {
                stamp
            }),
        {
            let p = came_from[cur].unwrap();
            proof {
                reveal(inv_parents);
                reveal(inv_reached);
                reveal(inv_rank);
                assert(came_from@[cur as int].is_some());
                assert(step_ok(
                    *self,
                    ((p as usize), g_score@[p as int]),
                    (cur, g_score@[cur as int]),
                ));
                assert(closed[p as int]);
                assert(rank.dom().contains(p as int));
                if rank.dom().contains(cur as int) {
                    assert(closed[cur as int]);
                    assert(rank[p as int] < rank[cur as int]);
                } else {
                    assert(rank[p as int] < stamp);
                }
                assert(rank_of(rank, stamp, p as int) < rank_of(rank, stamp, cur as int));
            }
            let ghost rev_pre = rev@;
            cur = p;
            rev.push((cur, g_score[cur]));
            proof {
                assert forall|i: int, j: int|
                    0 <= i < j < rev@.len() implies rank_of(
                    rank,
                    stamp,
                    (#[trigger] rev@[j]).0 as int,
                ) < rank_of(rank, stamp, (#[trigger] rev@[i]).0 as int) by {
                    if j < rev_pre.len() {
                        assert(rev@[i] == rev_pre[i] && rev@[j] == rev_pre[j]);
                    } else {
                        assert(rev@[j].0 == cur);
                        assert(rev@[i] == rev_pre[i]);
                        assert(rank_of(rank, stamp, cur as int) < rank_of(
                            rank,
                            stamp,
                            rev_pre[rev_pre.len() - 1].0 as int,
                        ));
                        if i < rev_pre.len() - 1 {
                            assert(rank_of(rank, stamp, rev_pre[rev_pre.len() - 1].0 as int)
                                < rank_of(rank, stamp, rev_pre[i].0 as int));
                        }
                    }
                }
            }
        }
        // The walk stopped at a node without a parent link: the start.
        proof {
            if cur != start {
                assert(g_score@[cur as int] < u64::MAX);
                assert(came_from@[cur as int].is_some());
                assert(false);
            }
            assert(rev@[rev@.len() - 1] == (start, 0u64));
        }
        let mut path: Path = Vec::new();
        let rl = rev.len();
        let mut t: usize = rl;
        while t > 0
            invariant
                t <= rl,
                rl == rev@.len(),
                path@.len() == rl - t,
                forall|q: int| 0 <= q < path@.len() ==> #[trigger] path@[q] == rev@[rl - 1 - q],
            decreases t,
        {
            t = t - 1;
            let e = rev[t];
            path.push(e);
        }
        proof {
            assert(path@[0] == rev@[rl - 1]);
            assert(path@[path@.len() - 1] == rev@[0]);
            assert forall|q: int| 0 <= q < path@.len() - 1 implies step_ok(
                *self,
                #[trigger] path@[q],
                path@[q + 1],
            ) by {
                assert(path@[q] == rev@[rl - 1 - q]);
                assert(path@[q + 1] == rev@[rl - 2 - q]);
                assert(step_ok(*self, rev@[(rl - 2 - q) + 1], rev@[rl - 2 - q]));
            }
            assert(valid_path(*self, path@, start, goal));
            assert forall|i: int, j: int|
                0 <= i < j < path@.len() implies (#[trigger] path@[i]).0 != (
            #[trigger] path@[j]).0 by {
                assert(path@[i] == rev@[rl - 1 - i]);
                assert(path@[j] == rev@[rl - 1 - j]);
                assert(rank_of(rank, stamp, rev@[rl - 1 - i].0 as int) < rank_of(
                    rank,
                    stamp,
                    rev@[rl - 1 - j].0 as int,
                ));
            }
            assert(nodes_distinct(path@));
        }
        path
    }

    /// A* search from `start` to `goal` through the shared query cache.
    ///
    /// The cache is consulted first and any hit — a route or a recorded
    /// "no path" — is returned as-is. Otherwise the search runs to natural
    /// termination and its outcome is written into the cache under
    /// `(start, goal)` before returning: a returned route is a real route of
    /// the graph whose offsets accumulate exactly the traversed edge costs,
    /// and a `None` means the goal is unreachable (under `moderate_costs`).
    #[verifier::rlimit(100)]
    pub fn a_star(&self, start: usize, goal: usize, cache: &mut QueryCache) -> (r: Option<Path>)
        requires
            self.wf(),
            start < self.nodes@.len(),
            goal < self.nodes@.len(),
            cache_ok(cache_view(*old(cache)), *self),
        ensures
            cache_ok(cache_view(*final(cache)), *self),
            route_ok(*self, start, goal, opt_path_view(r)),
            cache_view(*final(cache)).contains_key((start, goal)),
            cache_view(*final(cache))[(start, goal)] == opt_path_view(r),
            cache_view(*old(cache)).contains_key((start, goal)) ==> cache_view(*final(cache))
                == cache_view(*old(cache)),
            !cache_view(*old(cache)).contains_key((start, goal)) ==> cache_view(*final(cache))
                == cache_view(*old(cache)).insert((start, goal), opt_path_view(r)),
            (opt_conditions(*self, goal) && !cache_view(*old(cache)).contains_key((start, goal))
                && r.is_some()) ==> optimal_route(*self, r.unwrap()@, start, goal),
            (!cache_view(*old(cache)).contains_key((start, goal)) && r.is_some())
                ==> nodes_distinct(r.unwrap()@),
    {
        let key = (start, goal);
        let cached = cache_get(cache, key);
        if let Some(hit) = cached {
            proof {
                assert(cache_view(*old(cache)).contains_key(key));
                assert(route_ok(*self, start, goal, cache_view(*old(cache))[key]));
            }
            return hit;
        }

        let n = self.nodes.len();
        let mut came_from: Vec<Option<usize>> = Vec::new();
        let mut g_score: Vec<u64> = Vec::new();
        let mut closed: Vec<bool> = Vec::new();
        let mut i: usize = 0;
        while i < n
            invariant
                i <= n,
                came_from@.len() == i,
                g_score@.len() == i,
                closed@.len() == i,
                forall|t: int| 0 <= t < i ==> (#[trigger] came_from@[t]).is_none(),
                forall|t: int| 0 <= t < i ==> (#[trigger] g_score@[t]) == u64::MAX,
                forall|t: int| 0 <= t < i ==> (#[trigger] closed@[t]) == false,
            decreases n - i,
        {
            came_from.push(None);
            g_score.push(u64::MAX);
            closed.push(false);
            i = i + 1;
        }
        g_score.set(start, 0);
        let h0 = self.heuristic(start, goal);
        let mut open: Vec<State> = Vec::new();
        open.push(State { cost: h0, position: start });

        let ghost mut rank: Map<int, nat> = Map::empty();
        let ghost mut stamp: nat = 0;
        proof {
            assert(rank.dom() =~= Set::<int>::empty());
            lemma_int_range(0, n as int);
            assert(rank.dom().subset_of(set_int_range(0, n as int)));
            lemma_len_subset(rank.dom(), set_int_range(0, n as int));
            assert(open@[0].position == start);
            reveal(inv_parents);
            reveal(inv_reached);
            reveal(inv_open_entries);
            reveal(inv_unclosed_in_open);
            reveal(inv_open_costs);
            reveal(inv_closed_edges);
            reveal(inv_rank);
            reveal(inv_g_bounded);
            assert(inv_g_bounded(*self, g_score@, closed@, rank, stamp));
            lemma_h_bound(*self, start as int, goal as int);
            assert(h0 == self.h_spec(start as int, goal as int) as u64);
            assert(open@[0].cost == sat_add(g_score@[start as int], h0));
            reveal(inv_frontier);
            reveal(inv_closed_opt);
            if opt_conditions(*self, goal) {
                assert forall|q: Seq<(usize, u64)>, i: int|
                    costed_from(*self, q, start) && 0 <= i < q.len() && !closed@[(#[trigger] q[i]).0
                        as int] && (forall|jq: int|
                        0 <= jq < i ==> closed@[(#[trigger] q[jq]).0 as int]) implies g_score@[q[i].0
                    as int] <= q[i].1 by {
                    if i > 0 {
                        lemma_walk_in_range(*self, q, start, 0);
                        assert(!closed@[q[0].0 as int]);
                        assert(false);
                    }
                    assert(q[0] == (start, 0u64));
                }
                assert forall|q: Seq<(usize, u64)>|
                    costed_from(*self, q, start) && closed@[(#[trigger] q[q.len() - 1]).0 as int]
                    implies g_score@[q[q.len() - 1].0 as int] <= q[q.len() - 1].1 by {
                    lemma_walk_in_range(*self, q, start, q.len() - 1);
                    assert(false);
                }
            }
            assert(inv_frontier(*self, g_score@, closed@, start, goal));
            assert(inv_closed_opt(*self, g_score@, closed@, start, goal));
        }

        while open.len() != 0
            invariant
                self.wf(),
                start < n,
                goal < n,
                n == self.nodes@.len(),
                came_from@.len() == n,
                g_score@.len() == n,
                closed@.len() == n,
                g_score@[start as int] == 0,
                closed@[goal as int] == false,
                inv_parents(*self, came_from@, g_score@, closed@),
                inv_reached(came_from@, g_score@, closed@, start),
                inv_open_entries(came_from@, open@, n as nat, start),
                inv_unclosed_in_open(*self, g_score@, closed@, open@, goal),
                inv_open_costs(*self, g_score@, open@, goal),
                inv_closed_edges(*self, g_score@, closed@),
                inv_rank(came_from@, closed@, rank, stamp),
                inv_g_bounded(*self, g_score@, closed@, rank, stamp),
                inv_frontier(*self, g_score@, closed@, start, goal),
                inv_closed_opt(*self, g_score@, closed@, start, goal),
                key == (start, goal),
                cache_view(*cache) == cache_view(*old(cache)),
                !cache_view(*old(cache)).contains_key((start, goal)),
                cache_ok(cache_view(*old(cache)), *self),
            decreases n - rank.dom().len(), open@.len(),
        {
            // Pop the open entry with the least f-score; duplicates of a node
            // are tolerated, so no in-place key decrease is needed.
            let ghost open_before = open@;
            let (st, Ghost(best)) = pop_min(&mut open);
            proof {
                lemma_popped_reached(
                    *self,
                    came_from@,
                    g_score@,
                    closed@,
                    open_before,
                    best,
                    n as nat,
                    start,
                );
            }
            let current = st.position;

            if current == goal {
                proof {
                    lemma_pop_optimal(
                        *self,
                        came_from@,
                        g_score@,
                        closed@,
                        open_before,
                        st,
                        best,
                        rank,
                        stamp,
                        start,
                        goal,
                    );
                }
                let path = self.reconstruct_path(
                    &came_from,
                    &g_score,
                    start,
                    goal,
                    Ghost(closed@),
                    Ghost(rank),
                    Ghost(stamp),
                );
                let stored = clone_path(&path);
                cache_insert(cache, key, Some(stored));
                proof {
                    lemma_cache_extend(
                        *self,
                        cache_view(*old(cache)),
                        cache_view(*cache),
                        key,
                        Some(path@),
                    );
                    if opt_conditions(*self, goal) {
                        assert forall|q: Seq<(usize, u64)>|
                            costed_from(*self, q, start) && (#[trigger] q[q.len() - 1]).0 == goal
                            implies path@[path@.len() - 1].1 <= q[q.len() - 1].1 by {
                            assert(g_score@[goal as int] <= q[q.len() - 1].1);
                        }
                        assert(optimal_route(*self, path@, start, goal));
                    }
                }
                return Some(path);
            }

            if closed[current] {
                // A stale duplicate of an already-expanded node: skip it.
                proof {
                    lemma_skip_stale(
                        *self,
                        came_from@,
                        g_score@,
                        closed@,
                        open_before,
                        open@,
                        best,
                        n as nat,
                        start,
                        goal,
                    );
                }
                continue;
            }
            let ghost closed_before = closed@;
            let ghost rank_before = rank;
            let ghost stamp_before = stamp;
            let ghost gs_at_pop = g_score@;
            proof {
                lemma_pop_optimal(
                    *self,
                    came_from@,
                    g_score@,
                    closed_before,
                    open_before,
                    st,
                    best,
                    rank_before,
                    stamp_before,
                    start,
                    goal,
                );
            }
            closed.set(current, true);
            proof {
                rank = rank.insert(current as int, stamp);
                stamp = stamp + 1;
                lemma_close_node(
                    *self,
                    came_from@,
                    g_score@,
                    closed_before,
                    closed@,
                    open_before,
                    open@,
                    best,
                    rank_before,
                    rank,
                    stamp_before,
                    current as int,
                    start,
                    goal,
                );
            }
            self.expand_node(
                current,
                start,
                goal,
                &mut came_from,
                &mut g_score,
                &closed,
                &mut open,
                Ghost(rank),
                Ghost(stamp),
            );
            proof {
                lemma_close_opt(
                    *self,
                    gs_at_pop,
                    g_score@,
                    closed_before,
                    closed@,
                    current as int,
                    start,
                    goal,
                );
                lemma_restore_frontier(
                    *self,
                    gs_at_pop,
                    g_score@,
                    closed_before,
                    closed@,
                    current as int,
                    start,
                    goal,
                );
            }
        }

        // Open set exhausted without reaching the goal: the goal is
        // unreachable, and that is a valid, cacheable outcome.
        proof {
            reveal(inv_reached);
            reveal(inv_unclosed_in_open);
            reveal(inv_closed_edges);
            reveal(inv_rank);
            assert forall|t: int|
                #![trigger g_score@[t]]
                0 <= t < g_score@.len() && g_score@[t] < u64::MAX implies closed@[t] by {
                if !closed@[t] {
                    assert(exists|kk: int|
                        0 <= kk < open@.len() && (#[trigger] open@[kk]).position == t);
                }
            }
            reveal(inv_g_bounded);
            if moderate_costs(*self) {
                assert forall|t: int|
                    #![trigger closed@[t]]
                    0 <= t < g_score@.len() && closed@[t] implies g_score@[t] as int <= (
                g_score@.len() - 1) * cost_cap(*self) by {
                    assert(rank.dom().contains(t));
                    assert(rank[t] < stamp);
                    assert(stamp <= n);
                    lemma_mul_inequality(rank[t] as int, n as int - 1, cost_cap(*self));
                }
                assert forall|s: Seq<usize>| !is_walk(*self, s, start, goal) by {
                    if is_walk(*self, s, start, goal) {
                        lemma_exhausted_unreachable(
                            *self,
                            g_score@,
                            closed@,
                            start,
                            goal,
                            s,
                            s.len() - 1,
                        );
                        assert(closed@[goal as int]);
                        assert(false);
                    }
                }
                assert(no_route(*self, start, goal));
            }
        }
        cache_insert(cache, key, None);
        proof {
            lemma_cache_extend(*self, cache_view(*old(cache)), cache_view(*cache), key, None);
        }
        None
    }
}

impl Graph {
    /// Bidirectional A* between `start` and `goal`: two independent
    /// frontiers, forward from the start and backward from the goal along
    /// the symmetric edges, each iteration popping one node from each. As
    /// soon as a node popped from one frontier is already settled in the
    /// other, the two half-routes are joined — a common stopping rule that
    /// returns a real route, though not necessarily a shortest one. Both the
    /// `(start, goal)` and the mirrored `(goal, start)` outcomes are written
    /// into the cache.
    #[verifier::rlimit(100)]
    pub fn a_star_bidirectional(
        &self,
        start: usize,
        goal: usize,
        cache: &mut QueryCache,
    ) -> (r: Option<Path>)
        requires
            self.wf(),
            symmetric_edges(*self),
            start < self.nodes@.len(),
            goal < self.nodes@.len(),
            cache_ok(cache_view(*old(cache)), *self),
        ensures
            cache_ok(cache_view(*final(cache)), *self),
            route_ok(*self, start, goal, opt_path_view(r)),
            cache_view(*final(cache)).contains_key((start, goal)),
            cache_view(*final(cache))[(start, goal)] == opt_path_view(r),
            cache_view(*old(cache)).contains_key((start, goal)) ==> cache_view(*final(cache))
                == cache_view(*old(cache)),
            (!cache_view(*old(cache)).contains_key((start, goal)) && r.is_none())
                ==> cache_view(*final(cache)) == cache_view(*old(cache)).insert(
                (start, goal),
                opt_path_view(r),
            ).insert((goal, start), opt_path_view(r)),
            (!cache_view(*old(cache)).contains_key((start, goal)) && r.is_some()) ==> exists|
                v2: Seq<(usize, u64)>,
            |
                {
                    &&& cache_view(*final(cache)) == cache_view(*old(cache)).insert(
                        (start, goal),
                        opt_path_view(r),
                    ).insert((goal, start), Some(v2))
                    &&& valid_path(*self, v2, goal, start)
                    &&& v2.len() == r.unwrap()@.len()
                    &&& forall|i: int|
                        0 <= i < v2.len() ==> (#[trigger] v2[i]).0 == r.unwrap()@[r.unwrap()@.len()
                            - 1 - i].0
                },
    {
        let key = (start, goal);
        let cached = cache_get(cache, key);
        if let Some(hit) = cached {
            proof {
                assert(cache_view(*old(cache)).contains_key(key));
                assert(route_ok(*self, start, goal, cache_view(*old(cache))[key]));
            }
            return hit;
        }
        if start == goal {
            let mut trivial: Path = Vec::new();
            trivial.push((start, 0));
            let stored = clone_path(&trivial);
            cache_insert(cache, key, Some(stored));
            proof {
                assert(valid_path(*self, trivial@, start, goal));
                lemma_cache_extend(
                    *self,
                    cache_view(*old(cache)),
                    cache_view(*cache),
                    key,
                    Some(trivial@),
                );
                assert(cache_view(*cache) == cache_view(*old(cache)).insert(
                    key,
                    Some(trivial@),
                ).insert((goal, start), Some(trivial@))) by {
                    assert(cache_view(*cache) =~= cache_view(*old(cache)).insert(
                        key,
                        Some(trivial@),
                    ).insert((goal, start), Some(trivial@)));
                }
                assert({
                    &&& cache_view(*cache) == cache_view(*old(cache)).insert(
                        key,
                        Some(trivial@),
                    ).insert((goal, start), Some(trivial@))
                    &&& valid_path(*self, trivial@, goal, start)
                    &&& trivial@.len() == trivial@.len()
                    &&& forall|i: int|
                        0 <= i < trivial@.len() ==> (#[trigger] trivial@[i]).0 == trivial@[trivial@.len()
                            - 1 - i].0
                });
            }
            return Some(trivial);
        }

        let n = self.nodes.len();
        let mut came_from_f: Vec<Option<usize>> = Vec::new();
        let mut g_f: Vec<u64> = Vec::new();
        let mut closed_f: Vec<bool> = Vec::new();
        let mut came_from_b: Vec<Option<usize>> = Vec::new();
        let mut g_b: Vec<u64> = Vec::new();
        let mut closed_b: Vec<bool> = Vec::new();
        let mut i: usize = 0;
        while i < n
            invariant
                i <= n,
                came_from_f@.len() == i,
                g_f@.len() == i,
                closed_f@.len() == i,
                came_from_b@.len() == i,
                g_b@.len() == i,
                closed_b@.len() == i,
                forall|t: int| 0 <= t < i ==> (#[trigger] came_from_f@[t]).is_none(),
                forall|t: int| 0 <= t < i ==> (#[trigger] g_f@[t]) == u64::MAX,
                forall|t: int| 0 <= t < i ==> (#[trigger] closed_f@[t]) == false,
                forall|t: int| 0 <= t < i ==> (#[trigger] came_from_b@[t]).is_none(),
                forall|t: int| 0 <= t < i ==> (#[trigger] g_b@[t]) == u64::MAX,
                forall|t: int| 0 <= t < i ==> (#[trigger] closed_b@[t]) == false,
            decreases n - i,
        {
            came_from_f.push(None);
            g_f.push(u64::MAX);
            closed_f.push(false);
            came_from_b.push(None);
            g_b.push(u64::MAX);
            closed_b.push(false);
            i = i + 1;
        }
        g_f.set(start, 0);
        g_b.set(goal, 0);
        let h0 = self.heuristic(start, goal);
        let mut open_f: Vec<State> = Vec::new();
        open_f.push(State { cost: h0, position: start });
        let mut open_b: Vec<State> = Vec::new();
        open_b.push(State { cost: h0, position: goal });

        let ghost mut rank_f: Map<int, nat> = Map::empty();
        let ghost mut stamp_f: nat = 0;
        let ghost mut rank_b: Map<int, nat> = Map::empty();
        let ghost mut stamp_b: nat = 0;
        proof {
            assert(rank_f.dom() =~= Set::<int>::empty());
            assert(rank_b.dom() =~= Set::<int>::empty());
            lemma_int_range(0, n as int);
            lemma_len_subset(rank_f.dom(), set_int_range(0, n as int));
            lemma_len_subset(rank_b.dom(), set_int_range(0, n as int));
            assert(open_f@[0].position == start);
            assert(open_b@[0].position == goal);
            reveal(inv_parents);
            reveal(inv_reached);
            reveal(inv_open_entries);
            reveal(inv_unclosed_in_open);
            reveal(inv_open_costs);
            reveal(inv_closed_edges);
            reveal(inv_rank);
            reveal(inv_g_bounded);
            assert(inv_g_bounded(*self, g_f@, closed_f@, rank_f, stamp_f));
            assert(inv_g_bounded(*self, g_b@, closed_b@, rank_b, stamp_b));
            lemma_h_bound(*self, start as int, goal as int);
            lemma_heuristic_symmetric(*self, start as int, goal as int);
            lemma_h_bound(*self, goal as int, start as int);
            assert(h0 == self.h_spec(start as int, goal as int) as u64);
            assert(open_f@[0].cost == sat_add(g_f@[start as int], h0));
            assert(open_b@[0].cost == sat_add(
                g_b@[goal as int],
                self.h_spec(goal as int, start as int) as u64,
            ));
        }

        while open_f.len() != 0
            invariant
                self.wf(),
                symmetric_edges(*self),
                start < n,
                goal < n,
                start != goal,
                n == self.nodes@.len(),
                came_from_f@.len() == n,
                g_f@.len() == n,
                closed_f@.len() == n,
                came_from_b@.len() == n,
                g_b@.len() == n,
                closed_b@.len() == n,
                g_f@[start as int] == 0,
                g_b@[goal as int] == 0,
                closed_f@[goal as int] == false,
                closed_b@[start as int] == false,
                inv_parents(*self, came_from_f@, g_f@, closed_f@),
                inv_reached(came_from_f@, g_f@, closed_f@, start),
                inv_open_entries(came_from_f@, open_f@, n as nat, start),
                inv_unclosed_in_open(*self, g_f@, closed_f@, open_f@, goal),
                inv_open_costs(*self, g_f@, open_f@, goal),
                inv_closed_edges(*self, g_f@, closed_f@),
                inv_rank(came_from_f@, closed_f@, rank_f, stamp_f),
                inv_g_bounded(*self, g_f@, closed_f@, rank_f, stamp_f),
                inv_parents(*self, came_from_b@, g_b@, closed_b@),
                inv_reached(came_from_b@, g_b@, closed_b@, goal),
                inv_open_entries(came_from_b@, open_b@, n as nat, goal),
                inv_unclosed_in_open(*self, g_b@, closed_b@, open_b@, start),
                inv_open_costs(*self, g_b@, open_b@, start),
                inv_closed_edges(*self, g_b@, closed_b@),
                inv_rank(came_from_b@, closed_b@, rank_b, stamp_b),
                inv_g_bounded(*self, g_b@, closed_b@, rank_b, stamp_b),
                key == (start, goal),
                cache_view(*cache) == cache_view(*old(cache)),
                !cache_view(*old(cache)).contains_key((start, goal)),
                cache_ok(cache_view(*old(cache)), *self),
            decreases n - rank_f.dom().len(), open_f@.len(),
        {
            let ghost openf_before = open_f@;
            let (st, Ghost(bi)) = pop_min(&mut open_f);
            proof {
                lemma_popped_reached(
                    *self,
                    came_from_f@,
                    g_f@,
                    closed_f@,
                    openf_before,
                    bi,
                    n as nat,
                    start,
                );
            }
            let m = st.position;
            if m == goal || closed_b[m] {
                proof {
                    if m != goal {
                        reveal(inv_reached);
                        assert(g_b@[m as int] < u64::MAX);
                    }
                }
                let (full, mirrored) = self.join_routes(
                    start,
                    goal,
                    m,
                    &came_from_f,
                    &g_f,
                    &came_from_b,
                    &g_b,
                    Ghost(closed_f@),
                    Ghost(rank_f),
                    Ghost(stamp_f),
                    Ghost(closed_b@),
                    Ghost(rank_b),
                    Ghost(stamp_b),
                );
                let stored = clone_path(&full);
                cache_insert(cache, key, Some(stored));
                proof {
                    lemma_cache_extend(
                        *self,
                        cache_view(*old(cache)),
                        cache_view(*cache),
                        key,
                        Some(full@),
                    );
                }
                let ghost mid_view = cache_view(*cache);
                let ghost mirrored_view = mirrored@;
                cache_insert(cache, (goal, start), Some(mirrored));
                proof {
                    lemma_cache_extend(
                        *self,
                        mid_view,
                        cache_view(*cache),
                        (goal, start),
                        Some(mirrored_view),
                    );
                    assert(cache_view(*cache)[(start, goal)] == Some(full@));
                    assert({
                        &&& cache_view(*cache) == cache_view(*old(cache)).insert(
                            key,
                            Some(full@),
                        ).insert((goal, start), Some(mirrored_view))
                        &&& valid_path(*self, mirrored_view, goal, start)
                        &&& mirrored_view.len() == full@.len()
                        &&& forall|i: int|
                            0 <= i < mirrored_view.len() ==> (#[trigger] mirrored_view[i]).0
                                == full@[full@.len() - 1 - i].0
                    });
                }
                return Some(full);
            }
            if closed_f[m] {
                proof {
                    lemma_skip_stale(
                        *self,
                        came_from_f@,
                        g_f@,
                        closed_f@,
                        openf_before,
                        open_f@,
                        bi,
                        n as nat,
                        start,
                        goal,
                    );
                }
                continue;
            }
            let ghost closedf_before = closed_f@;
            let ghost rankf_before = rank_f;
            let ghost stampf_before = stamp_f;
            closed_f.set(m, true);
            proof {
                rank_f = rank_f.insert(m as int, stamp_f);
                stamp_f = stamp_f + 1;
                lemma_close_node(
                    *self,
                    came_from_f@,
                    g_f@,
                    closedf_before,
                    closed_f@,
                    openf_before,
                    open_f@,
                    bi,
                    rankf_before,
                    rank_f,
                    stampf_before,
                    m as int,
                    start,
                    goal,
                );
            }
            self.expand_node(
                m,
                start,
                goal,
                &mut came_from_f,
                &mut g_f,
                &closed_f,
                &mut open_f,
                Ghost(rank_f),
                Ghost(stamp_f),
            );
            if open_b.len() != 0 {
                let ghost openb_before = open_b@;
                let (stb, Ghost(bj)) = pop_min(&mut open_b);
                proof {
                    lemma_popped_reached(
                        *self,
                        came_from_b@,
                        g_b@,
                        closed_b@,
                        openb_before,
                        bj,
                        n as nat,
                        goal,
                    );
                }
                let mb = stb.position;
                if mb == start || closed_f[mb] {
                    proof {
                        if mb != start {
                            reveal(inv_reached);
                            assert(g_f@[mb as int] < u64::MAX);
                        }
                    }
                    let (full, mirrored) = self.join_routes(
                        start,
                        goal,
                        mb,
                        &came_from_f,
                        &g_f,
                        &came_from_b,
                        &g_b,
                        Ghost(closed_f@),
                        Ghost(rank_f),
                        Ghost(stamp_f),
                        Ghost(closed_b@),
                        Ghost(rank_b),
                        Ghost(stamp_b),
                    );
                    let stored = clone_path(&full);
                    cache_insert(cache, key, Some(stored));
                    proof {
                        lemma_cache_extend(
                            *self,
                            cache_view(*old(cache)),
                            cache_view(*cache),
                            key,
                            Some(full@),
                        );
                    }
                    let ghost mid_view = cache_view(*cache);
                    let ghost mirrored_view = mirrored@;
                    cache_insert(cache, (goal, start), Some(mirrored));
                    proof {
                        lemma_cache_extend(
                            *self,
                            mid_view,
                            cache_view(*cache),
                            (goal, start),
                            Some(mirrored_view),
                        );
                        assert(cache_view(*cache)[(start, goal)] == Some(full@));
                        assert({
                            &&& cache_view(*cache) == cache_view(*old(cache)).insert(
                                key,
                                Some(full@),
                            ).insert((goal, start), Some(mirrored_view))
                            &&& valid_path(*self, mirrored_view, goal, start)
                            &&& mirrored_view.len() == full@.len()
                            &&& forall|i: int|
                                0 <= i < mirrored_view.len() ==> (#[trigger] mirrored_view[i]).0
                                    == full@[full@.len() - 1 - i].0
                        });
                    }
                    return Some(full);
                }
                if closed_b[mb] {
                    proof {
                        lemma_skip_stale(
                            *self,
                            came_from_b@,
                            g_b@,
                            closed_b@,
                            openb_before,
                            open_b@,
                            bj,
                            n as nat,
                            goal,
                            start,
                        );
                    }
                } else {
                    let ghost closedb_before = closed_b@;
                    let ghost rankb_before = rank_b;
                    let ghost stampb_before = stamp_b;
                    closed_b.set(mb, true);
                    proof {
                        rank_b = rank_b.insert(mb as int, stamp_b);
                        stamp_b = stamp_b + 1;
                        lemma_close_node(
                            *self,
                            came_from_b@,
                            g_b@,
                            closedb_before,
                            closed_b@,
                            openb_before,
                            open_b@,
                            bj,
                            rankb_before,
                            rank_b,
                            stampb_before,
                            mb as int,
                            goal,
                            start,
                        );
                    }
                    self.expand_node(
                        mb,
                        goal,
                        start,
                        &mut came_from_b,
                        &mut g_b,
                        &closed_b,
                        &mut open_b,
                        Ghost(rank_b),
                        Ghost(stamp_b),
                    );
                }
            }
        }

        // The forward frontier is exhausted without meeting the backward
        // one: the goal is unreachable, in both directions.
        proof {
            reveal(inv_reached);
            reveal(inv_unclosed_in_open);
            reveal(inv_closed_edges);
            reveal(inv_rank);
            reveal(inv_g_bounded);
            assert forall|t: int|
                #![trigger g_f@[t]]
                0 <= t < g_f@.len() && g_f@[t] < u64::MAX implies closed_f@[t] by {
                if !closed_f@[t] {
                    assert(exists|kk: int|
                        0 <= kk < open_f@.len() && (#[trigger] open_f@[kk]).position == t);
                }
            }
            if moderate_costs(*self) {
                assert forall|t: int|
                    #![trigger closed_f@[t]]
                    0 <= t < g_f@.len() && closed_f@[t] implies g_f@[t] as int <= (g_f@.len() - 1)
                    * cost_cap(*self) by {
                    assert(rank_f.dom().contains(t));
                    assert(rank_f[t] < stamp_f);
                    assert(stamp_f <= n);
                    lemma_mul_inequality(rank_f[t] as int, n as int - 1, cost_cap(*self));
                }
                assert forall|s: Seq<usize>| !is_walk(*self, s, start, goal) by {
                    if is_walk(*self, s, start, goal) {
                        lemma_exhausted_unreachable(
                            *self,
                            g_f@,
                            closed_f@,
                            start,
                            goal,
                            s,
                            s.len() - 1,
                        );
                        assert(closed_f@[goal as int]);
                        assert(false);
                    }
                }
                assert(no_route(*self, start, goal));
                lemma_no_route_symmetric(*self, start, goal);
            }
        }
        cache_insert(cache, key, None);
        proof {
            lemma_cache_extend(*self, cache_view(*old(cache)), cache_view(*cache), key, None);
        }
        let ghost mid_view = cache_view(*cache);
        cache_insert(cache, (goal, start), None);
        proof {
            lemma_cache_extend(*self, mid_view, cache_view(*cache), (goal, start), None);
            assert(cache_view(*cache)[(start, goal)] == None::<Seq<(usize, u64)>>);
        }
        None
    }
}

impl Graph {
    /// Joins the two half-routes that meet at node `m`: the forward tree's
    /// route from `start` to `m`, then the backward tree's route from `goal`
    /// to `m` walked in reverse over the symmetric edges. Also hands back the
    /// whole route reversed, for the mirrored cache entry.
    fn join_routes(
        &self,
        start: usize,
        goal: usize,
        m: usize,
        came_from_f: &Vec<Option<usize>>,
        g_f: &Vec<u64>,
        came_from_b: &Vec<Option<usize>>,
        g_b: &Vec<u64>,
        Ghost(closed_f): Ghost<Seq<bool>>,
        Ghost(rank_f): Ghost<Map<int, nat>>,
        Ghost(stamp_f): Ghost<nat>,
        Ghost(closed_b): Ghost<Seq<bool>>,
        Ghost(rank_b): Ghost<Map<int, nat>>,
        Ghost(stamp_b): Ghost<nat>,
    ) -> (r: (Path, Path))
        requires
            self.wf(),
            symmetric_edges(*self),
            start < self.nodes@.len(),
            goal < self.nodes@.len(),
            m < self.nodes@.len(),
            came_from_f@.len() == self.nodes@.len(),
            g_f@.len() == self.nodes@.len(),
            closed_f.len() == self.nodes@.len(),
            came_from_b@.len() == self.nodes@.len(),
            g_b@.len() == self.nodes@.len(),
            closed_b.len() == self.nodes@.len(),
            g_f@[start as int] == 0,
            g_b@[goal as int] == 0,
            inv_parents(*self, came_from_f@, g_f@, closed_f),
            inv_reached(came_from_f@, g_f@, closed_f, start),
            inv_rank(came_from_f@, closed_f, rank_f, stamp_f),
            inv_parents(*self, came_from_b@, g_b@, closed_b),
            inv_reached(came_from_b@, g_b@, closed_b, goal),
            inv_rank(came_from_b@, closed_b, rank_b, stamp_b),
            m == start || came_from_f@[m as int].is_some(),
            m == goal || came_from_b@[m as int].is_some(),
        ensures
            valid_path(*self, r.0@, start, goal),
            valid_path(*self, r.1@, goal, start),
            r.1@.len() == r.0@.len(),
            forall|i: int|
                0 <= i < r.1@.len() ==> (#[trigger] r.1@[i]).0 == r.0@[r.0@.len() - 1 - i].0,
    {
        let fwd = self.reconstruct_path(
            came_from_f,
            g_f,
            start,
            m,
            Ghost(closed_f),
            Ghost(rank_f),
            Ghost(stamp_f),
        );
        let bwd = self.reconstruct_path(
            came_from_b,
            g_b,
            goal,
            m,
            Ghost(closed_b),
            Ghost(rank_b),
            Ghost(stamp_b),
        );
        let back_half = reverse_route(self, &bwd, Ghost(goal), Ghost(m));
        let mut full = fwd;
        append_segment(&mut full, &back_half, self, Ghost(start), Ghost(m), Ghost(goal));
        let mirrored = reverse_route(self, &full, Ghost(start), Ghost(goal));
        (full, mirrored)
    }
}

/// A cap on edge costs under which search bookkeeping can never saturate:
/// any simple path's cost stays strictly below `u64::MAX`.
pub open spec fn cost_cap(g: Graph) -> int {
    u64::MAX as int / (g.nodes@.len() as int + 2)
}

/// Every edge cost lies within `cost_cap`. Under this condition a "no path"
/// outcome of the search means plain unreachability.
pub open spec fn moderate_costs(g: Graph) -> bool {
    forall|i: int, j: int|
        #![trigger g.edges@[i]@[j]]
        0 <= i < g.edges@.len() && 0 <= j < g.edges@[i]@.len() ==> g.edges@[i]@[j].cost as int
            <= cost_cap(g)
}

/// Every directed edge has a reverse counterpart of equal cost, as
/// triangular-face meshes give in practice. The bidirectional engine is
/// valid only under this assumption.
#[verifier::opaque]
pub open spec fn symmetric_edges(g: Graph) -> bool {
    forall|i: int, j: int|
        #![trigger g.edges@[i]@[j]]
        0 <= i < g.edges@.len() && 0 <= j < g.edges@[i]@.len() ==> exists|j2: int|
            0 <= j2 < g.edges@[g.edges@[i]@[j].to as int]@.len() && (#[trigger] g.edges@[g.edges@[i]@[j].to
                as int]@[j2]) == (Edge { to: i as usize, cost: g.edges@[i]@[j].cost })
}

/// Reversing every hop of a walk gives a walk in the opposite direction,
/// so unreachability is symmetric on a symmetric graph.
pub proof fn lemma_no_route_symmetric(g: Graph, a: usize, b: usize)
    requires
        g.wf(),
        symmetric_edges(g),
        no_route(g, a, b),
    ensures
        no_route(g, b, a),
{
    reveal(symmetric_edges);
    assert forall|s: Seq<usize>| !is_walk(g, s, b, a) by {
        if is_walk(g, s, b, a) {
            let rev = s.reverse();
            assert(rev.len() == s.len());
            assert(rev[0] == s[s.len() - 1]);
            assert(rev[rev.len() - 1] == s[0]);
            assert forall|i: int|
                0 <= i < rev.len() - 1 implies (#[trigger] rev[i]) < g.nodes@.len() && rev[i + 1]
                < g.nodes@.len() && exists|j: int|
                0 <= j < g.edges@[rev[i] as int]@.len() && (#[trigger] g.edges@[rev[i]
                    as int]@[j]).to == rev[i + 1] by {
                let k = s.len() - 2 - i;
                assert(rev[i] == s[k + 1] && rev[i + 1] == s[k]);
                assert((#[trigger] s[k]) < g.nodes@.len() && s[k + 1] < g.nodes@.len()
                    && exists|j: int|
                    0 <= j < g.edges@[s[k] as int]@.len() && (#[trigger] g.edges@[s[k]
                        as int]@[j]).to == s[k + 1]);
                let j = choose|j: int|
                    0 <= j < g.edges@[s[k] as int]@.len() && (#[trigger] g.edges@[s[k]
                        as int]@[j]).to == s[k + 1];
                assert(exists|j2: int|
                    0 <= j2 < g.edges@[g.edges@[s[k] as int]@[j].to as int]@.len() && (
                    #[trigger] g.edges@[g.edges@[s[k] as int]@[j].to as int]@[j2]) == (Edge {
                        to: s[k] as int as usize,
                        cost: g.edges@[s[k] as int]@[j].cost,
                    }));
            }
            assert(is_walk(g, rev, a, b));
            assert(false);
        }
    }
}

/// One hop of an arbitrary costed walk: some edge joins the nodes and the
/// offset grows by exactly that edge's cost (self-loops admitted).
pub open spec fn costed_step(g: Graph, a: (usize, u64), b: (usize, u64)) -> bool {
    &&& a.0 < g.nodes@.len()
    &&& b.0 < g.nodes@.len()
    &&& exists|j: int|
        0 <= j < g.edges@[a.0 as int]@.len() && (#[trigger] g.edges@[a.0 as int]@[j]).to == b.0
            && b.1 == sat_add(a.1, g.edges@[a.0 as int]@[j].cost)
}

/// Any walk out of `start` whose offsets track edge costs; used to quantify
/// over every conceivable competitor when stating optimality.
pub open spec fn costed_from(g: Graph, q: Seq<(usize, u64)>, start: usize) -> bool {
    &&& q.len() >= 1
    &&& q[0] == (start, 0u64)
    &&& forall|i: int| 0 <= i < q.len() - 1 ==> costed_step(g, #[trigger] q[i], q[i + 1])
}

/// The heuristic toward `goal` never overestimates across an edge: a
/// consistent heuristic in the A* sense. It holds in particular when every
/// edge cost is at least the Euclidean distance between its endpoints.
pub open spec fn consistent_heuristic(g: Graph, goal: usize) -> bool {
    forall|i: int, j: int|
        #![trigger g.edges@[i]@[j]]
        0 <= i < g.edges@.len() && 0 <= j < g.edges@[i]@.len() ==> g.h_spec(i, goal as int) <= g.edges@[i]@[j].cost
            + g.h_spec(g.edges@[i]@[j].to as int, goal as int)
}

/// Under these conditions a freshly computed unidirectional search result is
/// optimal: costs leave saturation headroom, the heuristic is consistent
/// toward the goal, and the node count leaves room for the heuristic in an
/// f-score.
pub open spec fn opt_conditions(g: Graph, goal: usize) -> bool {
    &&& moderate_costs(g)
    &&& consistent_heuristic(g, goal)
    &&& g.nodes@.len() <= 1_000_000_000
}

/// The route is at least as cheap as every costed walk joining its
/// endpoints.
pub open spec fn optimal_route(g: Graph, p: Seq<(usize, u64)>, start: usize, goal: usize) -> bool {
    forall|q: Seq<(usize, u64)>|
        costed_from(g, q, start) && (#[trigger] q[q.len() - 1]).0 == goal ==> p[p.len() - 1].1
            <= q[q.len() - 1].1
}

/// Offsets never decrease along a costed walk.
proof fn lemma_walk_offsets_mono(g: Graph, q: Seq<(usize, u64)>, start: usize, i: int, k: int)
    requires
        costed_from(g, q, start),
        0 <= i <= k < q.len(),
    ensures
        q[i].1 <= q[k].1,
    decreases k - i,
{
    if i < k {
        lemma_walk_offsets_mono(g, q, start, i + 1, k);
        assert(costed_step(g, q[i], q[i + 1]));
        let j = choose|j: int|
            0 <= j < g.edges@[q[i].0 as int]@.len() && (#[trigger] g.edges@[q[i].0 as int]@[j]).to
                == q[i + 1].0 && q[i + 1].1 == sat_add(q[i].1, g.edges@[q[i].0 as int]@[j].cost);
        lemma_sat_add_monotone(q[i].1, g.edges@[q[i].0 as int]@[j].cost, q[i].1, g.edges@[q[i]
            .0 as int]@[j].cost);
    }
}

/// Consistency telescopes along an unsaturated walk: the heuristic at any
/// node of the walk is at most the remaining walk cost plus the heuristic at
/// its end.
proof fn lemma_h_telescope(g: Graph, goal: usize, q: Seq<(usize, u64)>, start: usize, i: int)
    requires
        g.wf(),
        consistent_heuristic(g, goal),
        costed_from(g, q, start),
        0 <= i < q.len(),
        q[q.len() - 1].1 < u64::MAX,
    ensures
        g.h_spec(q[i].0 as int, goal as int) <= (q[q.len() - 1].1 - q[i].1) + g.h_spec(
            q[q.len() - 1].0 as int,
            goal as int,
        ),
    decreases q.len() - i,
{
    if i < q.len() - 1 {
        lemma_h_telescope(g, goal, q, start, i + 1);
        assert(costed_step(g, q[i], q[i + 1]));
        let j = choose|j: int|
            0 <= j < g.edges@[q[i].0 as int]@.len() && (#[trigger] g.edges@[q[i].0 as int]@[j]).to
                == q[i + 1].0 && q[i + 1].1 == sat_add(q[i].1, g.edges@[q[i].0 as int]@[j].cost);
        let c = g.edges@[q[i].0 as int]@[j].cost;
        lemma_walk_offsets_mono(g, q, start, i + 1, q.len() - 1);
        // the hop is unsaturated, so the offset grows by exactly `c`
        assert(q[i + 1].1 < u64::MAX);
        assert(q[i + 1].1 == q[i].1 + c);
        assert(g.h_spec(q[i].0 as int, goal as int) <= c + g.h_spec(q[i + 1].0 as int, goal as int));
    }
}

/// The heuristic between in-range positions is bounded: squared distances
/// are at most 12 * 10^18, whose square root rounds down to 3464101615.
proof fn lemma_h_bound(g: Graph, a: int, b: int)
    requires
        g.wf(),
        0 <= a < g.nodes@.len(),
        0 <= b < g.nodes@.len(),
    ensures
        0 <= g.h_spec(a, b) <= 3_464_101_615,
{
    crate::utils::lemma_dist2_bound(g.pos_of(a), g.pos_of(b));
    let d = dist2(g.pos_of(a), g.pos_of(b));
    crate::utils::lemma_sqrt_floor_exists(d);
    let s = sqrt_floor(d);
    if s > 3_464_101_615 {
        crate::utils::lemma_sq_monotone(3_464_101_616, s);
        assert(sq(3_464_101_616) > 12_000_000_000_000_000_000) by (nonlinear_arith);
        assert(false);
    }
}

/// The smallest index of a walk that is not yet closed, given that some
/// index from `k` on is unclosed.
proof fn first_unclosed_from(q: Seq<(usize, u64)>, closed: Seq<bool>, k: int, w: int) -> (i: int)
    requires
        0 <= k <= w < q.len(),
        !closed[q[w].0 as int],
        forall|j: int| 0 <= j < k ==> closed[(#[trigger] q[j]).0 as int],
        forall|j: int| 0 <= j < q.len() ==> (#[trigger] q[j]).0 < closed.len(),
    ensures
        k <= i < q.len(),
        !closed[q[i].0 as int],
        forall|j: int| 0 <= j < i ==> closed[(#[trigger] q[j]).0 as int],
    decreases q.len() - k,
{
    if !closed[q[k].0 as int] {
        k
    } else {
        first_unclosed_from(q, closed, k + 1, w)
    }
}

/// What a correct cache entry for the directed pair `(s, t)` may hold: a
/// stored route must be a valid route; a stored "no path" must mean that the
/// goal is unreachable, whenever edge costs leave the search headroom.
pub open spec fn route_ok(g: Graph, s: usize, t: usize, v: Option<Seq<(usize, u64)>>) -> bool {
    match v {
        Some(p) => valid_path(g, p, s, t),
        None => moderate_costs(g) ==> no_route(g, s, t),
    }
}

/// Every entry of a cache is a correct answer for its key.
pub open spec fn cache_ok(m: Map<(usize, usize), Option<Seq<(usize, u64)>>>, g: Graph) -> bool {
    forall|k: (usize, usize)|
        #![trigger m.contains_key(k)]
        m.contains_key(k) ==> k.0 < g.nodes@.len() && k.1 < g.nodes@.len() && route_ok(
            g,
            k.0,
            k.1,
            m[k],
        )
}

/// Search invariant: a node with a parent link was reached through a real
/// edge from an already-closed node, and its g-score is exactly the parent's
/// g-score plus that edge's cost.
#[verifier::opaque]
spec fn inv_parents(g: Graph, cf: Seq<Option<usize>>, gs: Seq<u64>, closed: Seq<bool>) -> bool {
    forall|t: int|
        0 <= t < cf.len() && (#[trigger] cf[t]).is_some() ==> {
            let p = cf[t].unwrap() as int;
            &&& 0 <= p < cf.len()
            &&& closed[p]
            &&& gs[t] < u64::MAX
            &&& step_ok(g, ((p as usize), gs[p]), ((t as usize), gs[t]))
        }
}

/// Search invariant: every reached node other than the start has a parent,
/// and every closed node has been reached.
#[verifier::opaque]
spec fn inv_reached(cf: Seq<Option<usize>>, gs: Seq<u64>, closed: Seq<bool>, start: usize) -> bool {
    &&& forall|t: int|
        #![trigger gs[t]]
        0 <= t < gs.len() && gs[t] < u64::MAX ==> (t == start || cf[t].is_some())
    &&& forall|t: int| #![trigger closed[t]] 0 <= t < gs.len() && closed[t] ==> gs[t] < u64::MAX
}

/// Search invariant: open-set entries name existing nodes that are the start
/// or carry a parent link.
#[verifier::opaque]
spec fn inv_open_entries(cf: Seq<Option<usize>>, open: Seq<State>, n: nat, start: usize) -> bool {
    forall|k: int|
        0 <= k < open.len() ==> ((#[trigger] open[k]).position < n && (open[k].position == start
            || cf[open[k].position as int].is_some()))
}

/// Search invariant: every reached, still-unclosed node has an open entry
/// carrying its current f-score (g-score plus heuristic to the target).
#[verifier::opaque]
spec fn inv_unclosed_in_open(
    g: Graph,
    gs: Seq<u64>,
    closed: Seq<bool>,
    open: Seq<State>,
    goal: usize,
) -> bool {
    forall|t: int|
        #![trigger closed[t]]
        0 <= t < gs.len() && gs[t] < u64::MAX && !closed[t] ==> exists|k: int|
            0 <= k < open.len() && (#[trigger] open[k]).position == t && open[k].cost == sat_add(
                gs[t],
                g.h_spec(t, goal as int) as u64,
            )
}

/// Search invariant: no open entry undercuts the f-score its node currently
/// has; stale entries only ever overestimate.
#[verifier::opaque]
spec fn inv_open_costs(g: Graph, gs: Seq<u64>, open: Seq<State>, goal: usize) -> bool {
    forall|k: int|
        0 <= k < open.len() ==> (#[trigger] open[k]).cost >= sat_add(
            gs[open[k].position as int],
            g.h_spec(open[k].position as int, goal as int) as u64,
        )
}

/// Search invariant: an edge out of a closed node can no longer improve its
/// target, unless the target is itself closed.
#[verifier::opaque]
spec fn inv_closed_edges(g: Graph, gs: Seq<u64>, closed: Seq<bool>) -> bool {
    forall|t: int, j: int|
        #![trigger g.edges@[t]@[j]]
        0 <= t < closed.len() && closed[t] && 0 <= j < g.edges@[t]@.len() ==> (closed[g.edges@[t]@[j].to
            as int] || gs[g.edges@[t]@[j].to as int] <= sat_add(gs[t], g.edges@[t]@[j].cost))
}

/// `inv_closed_edges` for every closed node but one — the node whose edges
/// are being relaxed right now.
#[verifier::opaque]
spec fn inv_closed_edges_except(g: Graph, gs: Seq<u64>, closed: Seq<bool>, ex: int) -> bool {
    forall|t: int, j: int|
        #![trigger g.edges@[t]@[j]]
        0 <= t < closed.len() && closed[t] && t != ex && 0 <= j < g.edges@[t]@.len() ==> (closed[g.edges@[t]@[j].to
            as int] || gs[g.edges@[t]@[j].to as int] <= sat_add(gs[t], g.edges@[t]@[j].cost))
}

/// Removes and returns the open entry with the least f-score.
fn pop_min(open: &mut Vec<State>) -> (r: (State, Ghost<int>))
    requires
        old(open)@.len() > 0,
    ensures
        0 <= r.1@ < old(open)@.len(),
        r.0 == old(open)@[r.1@],
        final(open)@ == old(open)@.remove(r.1@),
        forall|k: int| 0 <= k < old(open)@.len() ==> r.0.cost <= (#[trigger] old(open)@[k]).cost,
{
    let mut best: usize = 0;
    let mut k: usize = 1;
    while k < open.len()
        invariant
            open@.len() > 0,
            best < open@.len(),
            k <= open@.len(),
            forall|j: int| 0 <= j < k ==> open@[best as int].cost <= (#[trigger] open@[j]).cost,
        decreases open@.len() - k,
    {
        if open[k].cost < open[best].cost {
            best = k;
        }
        k = k + 1;
    }
    let st = open.remove(best);
    (st, Ghost(best as int))
}

/// Removing one open entry keeps an open entry for every other reached,
/// unclosed node.
proof fn lemma_open_shift(
    g: Graph,
    gs: Seq<u64>,
    closed: Seq<bool>,
    open_b: Seq<State>,
    open_a: Seq<State>,
    bi: int,
    goal: usize,
)
    requires
        inv_unclosed_in_open(g, gs, closed, open_b, goal),
        0 <= bi < open_b.len(),
        open_a == open_b.remove(bi),
    ensures
        forall|tt: int|
            #![trigger closed[tt]]
            0 <= tt < gs.len() && gs[tt] < u64::MAX && !closed[tt] && tt != open_b[bi].position
                ==> exists|kk: int|
                0 <= kk < open_a.len() && (#[trigger] open_a[kk]).position == tt && open_a[kk].cost
                    == sat_add(gs[tt], g.h_spec(tt, goal as int) as u64),
{
    reveal(inv_unclosed_in_open);
    assert forall|tt: int|
        0 <= tt < gs.len() && gs[tt] < u64::MAX && !(#[trigger] closed[tt]) && tt
        != open_b[bi].position implies exists|kk: int|
        0 <= kk < open_a.len() && (#[trigger] open_a[kk]).position == tt && open_a[kk].cost
            == sat_add(gs[tt], g.h_spec(tt, goal as int) as u64) by {
        let kw = choose|kk: int|
            0 <= kk < open_b.len() && (#[trigger] open_b[kk]).position == tt && open_b[kk].cost
                == sat_add(gs[tt], g.h_spec(tt, goal as int) as u64);
        if kw < bi {
            assert(open_a[kw] == open_b[kw]);
            assert(open_a[kw].position == tt);
        } else {
            assert(open_b[kw] == open_a[kw - 1]);
            assert(open_a[kw - 1].position == tt);
        }
    }
}

/// Dropping one open entry preserves the f-score lower bound of the rest.
proof fn lemma_open_costs_shift(
    g: Graph,
    gs: Seq<u64>,
    open_b: Seq<State>,
    open_a: Seq<State>,
    bi: int,
    goal: usize,
)
    requires
        inv_open_costs(g, gs, open_b, goal),
        0 <= bi < open_b.len(),
        open_a == open_b.remove(bi),
    ensures
        inv_open_costs(g, gs, open_a, goal),
{
    reveal(inv_open_costs);
    assert forall|k: int| 0 <= k < open_a.len() implies (#[trigger] open_a[k]).cost >= sat_add(
        gs[open_a[k].position as int],
        g.h_spec(open_a[k].position as int, goal as int) as u64,
    ) by {
        if k < bi {
            assert(open_a[k] == open_b[k]);
        } else {
            assert(open_a[k] == open_b[k + 1]);
        }
    }
}

/// A stale pop — the node is already closed — leaves every open-set
/// invariant intact.
proof fn lemma_skip_stale(
    g: Graph,
    cf: Seq<Option<usize>>,
    gs: Seq<u64>,
    closed: Seq<bool>,
    open_b: Seq<State>,
    open_a: Seq<State>,
    bi: int,
    n: nat,
    start: usize,
    goal: usize,
)
    requires
        inv_unclosed_in_open(g, gs, closed, open_b, goal),
        inv_open_entries(cf, open_b, n, start),
        inv_open_costs(g, gs, open_b, goal),
        0 <= bi < open_b.len(),
        closed[open_b[bi].position as int],
        open_a == open_b.remove(bi),
        gs.len() == closed.len(),
    ensures
        inv_unclosed_in_open(g, gs, closed, open_a, goal),
        inv_open_entries(cf, open_a, n, start),
        inv_open_costs(g, gs, open_a, goal),
{
    reveal(inv_unclosed_in_open);
    reveal(inv_open_entries);
    lemma_open_shift(g, gs, closed, open_b, open_a, bi, goal);
    lemma_open_costs_shift(g, gs, open_b, open_a, bi, goal);
    assert forall|tt: int|
        0 <= tt < gs.len() && gs[tt] < u64::MAX && !(#[trigger] closed[tt]) implies exists|kk: int|
        0 <= kk < open_a.len() && (#[trigger] open_a[kk]).position == tt && open_a[kk].cost
            == sat_add(gs[tt], g.h_spec(tt, goal as int) as u64) by {
        assert(tt != open_b[bi].position as int);
    }
}

/// Whatever the open set hands out names a reached node: the start itself,
/// or one with a parent link and hence a finite g-score.
proof fn lemma_popped_reached(
    g: Graph,
    cf: Seq<Option<usize>>,
    gs: Seq<u64>,
    closed: Seq<bool>,
    open_b: Seq<State>,
    bi: int,
    n: nat,
    start: usize,
)
    requires
        inv_parents(g, cf, gs, closed),
        inv_open_entries(cf, open_b, n, start),
        0 <= bi < open_b.len(),
        gs.len() == n,
        cf.len() == n,
        gs[start as int] == 0,
        start < n,
    ensures
        open_b[bi].position < n,
        gs[open_b[bi].position as int] < u64::MAX,
        open_b[bi].position == start || cf[open_b[bi].position as int].is_some(),
{
    reveal(inv_parents);
    reveal(inv_open_entries);
}

/// Closing a node advances the rank bookkeeping consistently.
proof fn lemma_close_rank(
    cf: Seq<Option<usize>>,
    closed_b: Seq<bool>,
    closed_a: Seq<bool>,
    rank_o: Map<int, nat>,
    rank_n: Map<int, nat>,
    stamp_o: nat,
    current: int,
)
    requires
        cf.len() == closed_b.len(),
        0 <= current < closed_b.len(),
        !closed_b[current],
        closed_a == closed_b.update(current, true),
        rank_n == rank_o.insert(current, stamp_o),
        cf[current].is_some() ==> 0 <= cf[current].unwrap() < closed_b.len()
            && closed_b[cf[current].unwrap() as int],
        inv_rank(cf, closed_b, rank_o, stamp_o),
    ensures
        inv_rank(cf, closed_a, rank_n, stamp_o + 1),
        rank_n.dom().len() == rank_o.dom().len() + 1,
        rank_n.dom().len() <= closed_a.len(),
        rank_n.dom().contains(current),
        rank_n[current] + 1 == stamp_o + 1,
{
    reveal(inv_rank);
    assert(!rank_o.dom().contains(current));
    assert(rank_n.dom() =~= rank_o.dom().insert(current));
    lemma_int_range(0, closed_a.len() as int);
    assert(rank_n.dom().subset_of(set_int_range(0, closed_a.len() as int)));
    lemma_len_subset(rank_n.dom(), set_int_range(0, closed_a.len() as int));
    assert forall|t: int|
        0 <= t < cf.len() && closed_a[t] && (#[trigger] cf[t]).is_some() implies rank_n.dom()
        .contains(cf[t].unwrap() as int) && rank_n[cf[t].unwrap() as int] < rank_n[t] by {
        let pp = cf[t].unwrap() as int;
        if t == current {
            assert(closed_b[pp]);
            assert(rank_o.dom().contains(pp));
            assert(pp != current);
            assert(rank_n[pp] == rank_o[pp]);
            assert(rank_o[pp] < stamp_o);
            assert(rank_n[current] == stamp_o);
        } else {
            assert(closed_b[t]);
            assert(rank_o.dom().contains(pp));
            assert(rank_o[pp] < rank_o[t]);
            assert(pp != current && t != current);
            assert(rank_n[pp] == rank_o[pp] && rank_n[t] == rank_o[t]);
        }
    }
}

/// Closing the popped node keeps the open-set invariants for what remains.
proof fn lemma_close_open(
    g: Graph,
    cf: Seq<Option<usize>>,
    gs: Seq<u64>,
    closed_b: Seq<bool>,
    closed_a: Seq<bool>,
    open_b: Seq<State>,
    open_a: Seq<State>,
    bi: int,
    current: int,
    start: usize,
    goal: usize,
)
    requires
        gs.len() == closed_b.len(),
        cf.len() == closed_b.len(),
        0 <= current < closed_b.len(),
        closed_a == closed_b.update(current, true),
        0 <= bi < open_b.len(),
        open_b[bi].position == current,
        open_a == open_b.remove(bi),
        inv_open_entries(cf, open_b, closed_b.len() as nat, start),
        inv_unclosed_in_open(g, gs, closed_b, open_b, goal),
        inv_open_costs(g, gs, open_b, goal),
    ensures
        inv_open_entries(cf, open_a, closed_b.len() as nat, start),
        inv_unclosed_in_open(g, gs, closed_a, open_a, goal),
        inv_open_costs(g, gs, open_a, goal),
{
    reveal(inv_open_entries);
    reveal(inv_unclosed_in_open);
    lemma_open_shift(g, gs, closed_b, open_b, open_a, bi, goal);
    lemma_open_costs_shift(g, gs, open_b, open_a, bi, goal);
    assert forall|tt: int|
        0 <= tt < gs.len() && gs[tt] < u64::MAX && !(#[trigger] closed_a[tt]) implies exists|kk: int|
        0 <= kk < open_a.len() && (#[trigger] open_a[kk]).position == tt && open_a[kk].cost
            == sat_add(gs[tt], g.h_spec(tt, goal as int) as u64) by {
        assert(tt != current);
        assert(closed_b[tt] == closed_a[tt]);
    }
}

/// Closing a freshly popped node preserves every search invariant, with the
/// node's own edge relaxation still owed.
proof fn lemma_close_node(
    g: Graph,
    cf: Seq<Option<usize>>,
    gs: Seq<u64>,
    closed_b: Seq<bool>,
    closed_a: Seq<bool>,
    open_b: Seq<State>,
    open_a: Seq<State>,
    bi: int,
    rank_o: Map<int, nat>,
    rank_n: Map<int, nat>,
    stamp_o: nat,
    current: int,
    start: usize,
    goal: usize,
)
    requires
        g.wf(),
        closed_b.len() == g.nodes@.len(),
        cf.len() == closed_b.len(),
        gs.len() == closed_b.len(),
        0 <= current < closed_b.len(),
        !closed_b[current],
        gs[current] < u64::MAX,
        closed_a == closed_b.update(current, true),
        rank_n == rank_o.insert(current, stamp_o),
        0 <= bi < open_b.len(),
        open_b[bi].position == current,
        open_a == open_b.remove(bi),
        inv_parents(g, cf, gs, closed_b),
        inv_reached(cf, gs, closed_b, start),
        inv_open_entries(cf, open_b, closed_b.len() as nat, start),
        inv_unclosed_in_open(g, gs, closed_b, open_b, goal),
        inv_open_costs(g, gs, open_b, goal),
        inv_closed_edges(g, gs, closed_b),
        inv_rank(cf, closed_b, rank_o, stamp_o),
        inv_g_bounded(g, gs, closed_b, rank_o, stamp_o),
    ensures
        inv_parents(g, cf, gs, closed_a),
        inv_reached(cf, gs, closed_a, start),
        inv_open_entries(cf, open_a, closed_b.len() as nat, start),
        inv_unclosed_in_open(g, gs, closed_a, open_a, goal),
        inv_open_costs(g, gs, open_a, goal),
        inv_closed_edges_except(g, gs, closed_a, current),
        inv_rank(cf, closed_a, rank_n, stamp_o + 1),
        inv_g_bounded(g, gs, closed_a, rank_n, stamp_o + 1),
        rank_n.dom().len() == rank_o.dom().len() + 1,
        rank_n.dom().len() <= closed_a.len(),
        rank_n.dom().contains(current),
        rank_n[current] + 1 == stamp_o + 1,
{
    lemma_close_open(g, cf, gs, closed_b, closed_a, open_b, open_a, bi, current, start, goal);
    lemma_close_keeps_bound(g, gs, closed_b, closed_a, rank_o, rank_n, stamp_o, current);
    assert(inv_parents(g, cf, gs, closed_a)) by {
        reveal(inv_parents);
        assert forall|t: int|
            0 <= t < cf.len() && (#[trigger] cf[t]).is_some() implies {
            let p = cf[t].unwrap() as int;
            &&& 0 <= p < cf.len()
            &&& closed_a[p]
            &&& gs[t] < u64::MAX
            &&& step_ok(g, ((p as usize), gs[p]), ((t as usize), gs[t]))
        } by {
            let p = cf[t].unwrap() as int;
            assert(closed_b[p]);
        }
    }
    assert(inv_reached(cf, gs, closed_a, start)) by {
        reveal(inv_reached);
        assert forall|t: int|
            0 <= t < gs.len() && (#[trigger] closed_a[t]) implies gs[t] < u64::MAX by {
            if t != current {
                assert(closed_b[t]);
            }
        }
    }
    assert(inv_closed_edges_except(g, gs, closed_a, current)) by {
        reveal(inv_closed_edges);
        reveal(inv_closed_edges_except);
        assert forall|t: int, j: int|
            #![trigger g.edges@[t]@[j]]
            0 <= t < closed_a.len() && closed_a[t] && t != current && 0 <= j
                < g.edges@[t]@.len() implies (closed_a[g.edges@[t]@[j].to as int]
                || gs[g.edges@[t]@[j].to as int] <= sat_add(gs[t], g.edges@[t]@[j].cost)) by {
            assert(closed_b[t]);
            assert(closed_b[g.edges@[t]@[j].to as int] || gs[g.edges@[t]@[j].to as int] <= sat_add(
                gs[t],
                g.edges@[t]@[j].cost,
            ));
        }
    }
    assert(cf[current].is_some() ==> 0 <= cf[current].unwrap() < closed_b.len()
        && closed_b[cf[current].unwrap() as int]) by {
        reveal(inv_parents);
    }
    lemma_close_rank(cf, closed_b, closed_a, rank_o, rank_n, stamp_o, current);
}

/// The g-score bound survives closing a node: the stamp only grows, and the
/// closed node trades the old stamp for an equal rank.
proof fn lemma_close_keeps_bound(
    g: Graph,
    gs: Seq<u64>,
    closed_b: Seq<bool>,
    closed_a: Seq<bool>,
    rank_o: Map<int, nat>,
    rank_n: Map<int, nat>,
    stamp_o: nat,
    current: int,
)
    requires
        gs.len() == closed_b.len(),
        0 <= current < closed_b.len(),
        !closed_b[current],
        closed_a == closed_b.update(current, true),
        rank_n == rank_o.insert(current, stamp_o),
        inv_g_bounded(g, gs, closed_b, rank_o, stamp_o),
    ensures
        inv_g_bounded(g, gs, closed_a, rank_n, stamp_o + 1),
{
    reveal(inv_g_bounded);
    if moderate_costs(g) {
        assert forall|tt: int|
            #![trigger gs[tt]]
            0 <= tt < gs.len() && gs[tt] < u64::MAX implies gs[tt] as int <= (if closed_a[tt] {
            rank_n[tt] as int
        } else {
            (stamp_o + 1) as int
        }) * cost_cap(g) by {
            lemma_mul_inequality(stamp_o as int, stamp_o as int + 1, cost_cap(g));
            if closed_a[tt] && tt != current {
                assert(closed_b[tt]);
                assert(rank_n[tt] == rank_o[tt]);
            }
        }
    }
}

/// Adding a correct entry to a correct cache keeps it correct.
proof fn lemma_cache_extend(
    g: Graph,
    m_old: Map<(usize, usize), Option<Seq<(usize, u64)>>>,
    m_new: Map<(usize, usize), Option<Seq<(usize, u64)>>>,
    key: (usize, usize),
    v: Option<Seq<(usize, u64)>>,
)
    requires
        cache_ok(m_old, g),
        m_new == m_old.insert(key, v),
        key.0 < g.nodes@.len(),
        key.1 < g.nodes@.len(),
        route_ok(g, key.0, key.1, v),
    ensures
        cache_ok(m_new, g),
{
    assert forall|kk: (usize, usize)| #[trigger] m_new.contains_key(kk) implies kk.0
        < g.nodes@.len() && kk.1 < g.nodes@.len() && route_ok(g, kk.0, kk.1, m_new[kk]) by {
        if kk != key {
            assert(m_old.contains_key(kk));
            assert(route_ok(g, kk.0, kk.1, m_old[kk]));
            assert(m_new[kk] == m_old[kk]);
        }
    }
    assert(cache_ok(m_new, g));
}

/// A node's place in the closing order, unexpanded nodes counting as newest
/// of all; strictly decreasing along a parent-link walk, so the walk visits
/// pairwise distinct nodes.
spec fn rank_of(rank: Map<int, nat>, stamp: nat, x: int) -> int {
    if rank.dom().contains(x) {
        rank[x] as int
    } else {
        stamp as int
    }
}

/// Ghost bookkeeping: `rank` stamps nodes in closing order, so that parent
/// links always point to strictly earlier stamps; this is what makes the
/// back-pointer walk terminate.
#[verifier::opaque]
spec fn inv_rank(
    cf: Seq<Option<usize>>,
    closed: Seq<bool>,
    rank: Map<int, nat>,
    stamp: nat,
) -> bool {
    &&& rank.dom().finite()
    &&& stamp == rank.dom().len()
    &&& rank.dom().len() <= closed.len()
    &&& forall|t: int| #[trigger] rank.dom().contains(t) ==> 0 <= t < closed.len()
    &&& forall|t: int| 0 <= t < closed.len() ==> (#[trigger] closed[t] <==> rank.dom().contains(t))
    &&& forall|t: int| #[trigger] rank.dom().contains(t) ==> rank[t] < stamp
    &&& forall|t: int|
        0 <= t < cf.len() && closed[t] && (#[trigger] cf[t]).is_some() ==> rank.dom().contains(
            cf[t].unwrap() as int,
        ) && rank[cf[t].unwrap() as int] < rank[t]
}

/// Ghost bookkeeping: under `moderate_costs`, every reached g-score is
/// bounded by its closing stamp (or the current stamp while open) times the
/// cost cap, so no saturating addition ever clamps.
#[verifier::opaque]
spec fn inv_g_bounded(
    g: Graph,
    gs: Seq<u64>,
    closed: Seq<bool>,
    rank: Map<int, nat>,
    stamp: nat,
) -> bool {
    moderate_costs(g) ==> forall|t: int|
        #![trigger gs[t]]
        0 <= t < gs.len() && gs[t] < u64::MAX ==> gs[t] as int <= (if closed[t] {
            rank[t] as int
        } else {
            stamp as int
        }) * cost_cap(g)
}

/// Optimality invariant: whenever the heuristic is consistent, the first
/// not-yet-expanded node along any costed walk from the start has a g-score
/// no worse than the walk's offset there.
#[verifier::opaque]
spec fn inv_frontier(g: Graph, gs: Seq<u64>, closed: Seq<bool>, start: usize, goal: usize) -> bool {
    opt_conditions(g, goal) ==> forall|q: Seq<(usize, u64)>, i: int|
        #![trigger costed_from(g, q, start), q[i]]
        costed_from(g, q, start) && 0 <= i < q.len() && !closed[q[i].0 as int] && (forall|j: int|
            0 <= j < i ==> closed[(#[trigger] q[j]).0 as int]) ==> gs[q[i].0 as int] <= q[i].1
}

/// Optimality invariant: whenever the heuristic is consistent, every
/// expanded node's g-score undercuts every costed walk that reaches it.
#[verifier::opaque]
spec fn inv_closed_opt(
    g: Graph,
    gs: Seq<u64>,
    closed: Seq<bool>,
    start: usize,
    goal: usize,
) -> bool {
    opt_conditions(g, goal) ==> forall|q: Seq<(usize, u64)>|
        #![trigger costed_from(g, q, start)]
        costed_from(g, q, start) && closed[q[q.len() - 1].0 as int] ==> gs[q[q.len() - 1].0
            as int] <= q[q.len() - 1].1
}

/// Every node of a costed walk names an existing node.
proof fn lemma_walk_in_range(g: Graph, q: Seq<(usize, u64)>, start: usize, j: int)
    requires
        costed_from(g, q, start),
        start < g.nodes@.len(),
        0 <= j < q.len(),
    ensures
        q[j].0 < g.nodes@.len(),
{
    if j == 0 {
    } else {
        assert(costed_step(g, q[j - 1], q[j]));
    }
}

/// A prefix of a costed walk is a costed walk.
proof fn lemma_costed_prefix(g: Graph, q: Seq<(usize, u64)>, start: usize, i: int)
    requires
        costed_from(g, q, start),
        1 <= i <= q.len(),
    ensures
        costed_from(g, q.subrange(0, i), start),
{
    let qq = q.subrange(0, i);
    assert forall|j: int| 0 <= j < qq.len() - 1 implies costed_step(g, #[trigger] qq[j], qq[j + 1]) by {
        assert(qq[j] == q[j] && qq[j + 1] == q[j + 1]);
        assert(costed_step(g, q[j], q[j + 1]));
    }
}

/// When the open set's cheapest entry is popped under a consistent
/// heuristic, its node's g-score already undercuts every costed walk that
/// reaches that node: stale entries only overestimate, some entry on any
/// competing walk is at least as expensive as the popped one, and the
/// heuristic difference telescopes along the walk.
#[verifier::rlimit(100)]
proof fn lemma_pop_optimal(
    g: Graph,
    cf: Seq<Option<usize>>,
    gs: Seq<u64>,
    closed: Seq<bool>,
    open_b: Seq<State>,
    popped: State,
    bi: int,
    rank: Map<int, nat>,
    stamp: nat,
    start: usize,
    goal: usize,
)
    requires
        g.wf(),
        gs.len() == g.nodes@.len(),
        closed.len() == g.nodes@.len(),
        cf.len() == g.nodes@.len(),
        start < g.nodes@.len(),
        goal < g.nodes@.len(),
        gs[start as int] == 0,
        0 <= bi < open_b.len(),
        open_b[bi] == popped,
        forall|k: int| 0 <= k < open_b.len() ==> popped.cost <= (#[trigger] open_b[k]).cost,
        popped.position < g.nodes@.len(),
        !closed[popped.position as int],
        gs[popped.position as int] < u64::MAX,
        inv_frontier(g, gs, closed, start, goal),
        inv_unclosed_in_open(g, gs, closed, open_b, goal),
        inv_open_costs(g, gs, open_b, goal),
        inv_rank(cf, closed, rank, stamp),
        inv_g_bounded(g, gs, closed, rank, stamp),
    ensures
        opt_conditions(g, goal) ==> forall|q: Seq<(usize, u64)>|
            costed_from(g, q, start) && (#[trigger] q[q.len() - 1]).0 == popped.position
                ==> gs[popped.position as int] <= q[q.len() - 1].1,
{
    if opt_conditions(g, goal) {
        let u = popped.position;
        let n = g.nodes@.len() as int;
        let cap = cost_cap(g);
        // the popped node's f-score does not saturate
        reveal(inv_rank);
        reveal(inv_g_bounded);
        assert(gs[u as int] as int <= stamp as int * cap);
        assert(stamp <= n);
        lemma_mul_inequality(stamp as int, n, cap);
        vstd::arithmetic::div_mod::lemma_fundamental_div_mod(u64::MAX as int, n + 2);
        vstd::arithmetic::div_mod::lemma_mod_bound(u64::MAX as int, n + 2);
        assert((n + 2) * cap <= u64::MAX as int);
        assert(2_000_000_000 * (n + 2) <= u64::MAX as int) by (nonlinear_arith)
            requires
                n <= 1_000_000_000,
        ;
        lemma_div_is_ordered(2_000_000_000 * (n + 2), u64::MAX as int, n + 2);
        vstd::arithmetic::div_mod::lemma_div_multiples_vanish(2_000_000_000, n + 2);
        assert(cap >= 2_000_000_000);
        assert(n * cap <= u64::MAX as int - 2 * cap) by (nonlinear_arith)
            requires
                (n + 2) * cap <= u64::MAX as int,
        ;
        lemma_h_bound(g, u as int, goal as int);
        let hu = g.h_spec(u as int, goal as int);
        assert(gs[u as int] as int + hu < u64::MAX as int);
        reveal(inv_open_costs);
        assert(popped.cost >= sat_add(gs[u as int], hu as u64));
        assert(sat_add(gs[u as int], hu as u64) as int == gs[u as int] as int + hu);
        assert forall|q: Seq<(usize, u64)>|
            costed_from(g, q, start) && (#[trigger] q[q.len() - 1]).0 == u implies gs[u as int]
            <= q[q.len() - 1].1 by {
            let last = q.len() - 1;
            if q[last].1 < u64::MAX && last > 0 {
                assert forall|j: int| 0 <= j < q.len() implies (#[trigger] q[j]).0
                    < closed.len() by {
                    lemma_walk_in_range(g, q, start, j);
                }
                let i = first_unclosed_from(q, closed, 0, last);
                reveal(inv_frontier);
                assert(gs[q[i].0 as int] <= q[i].1);
                let v = q[i].0;
                if v == u {
                    lemma_walk_offsets_mono(g, q, start, i, last);
                } else {
                    lemma_walk_offsets_mono(g, q, start, i, last);
                    assert(q[i].1 < u64::MAX);
                    assert(gs[v as int] < u64::MAX);
                    reveal(inv_unclosed_in_open);
                    let kw = choose|kk: int|
                        0 <= kk < open_b.len() && (#[trigger] open_b[kk]).position == v
                            && open_b[kk].cost == sat_add(
                            gs[v as int],
                            g.h_spec(v as int, goal as int) as u64,
                        );
                    lemma_h_bound(g, v as int, goal as int);
                    let hv = g.h_spec(v as int, goal as int);
                    assert(popped.cost <= open_b[kw].cost);
                    lemma_sat_add_monotone(gs[v as int], hv as u64, gs[v as int], hv as u64);
                    assert(open_b[kw].cost as int <= gs[v as int] as int + hv);
                    lemma_h_telescope(g, goal, q, start, i);
                    assert(hv <= (q[last].1 - q[i].1) + hu);
                    assert(gs[u as int] as int + hu <= q[i].1 as int + hv);
                    assert(gs[u as int] as int <= q[last].1 as int);
                }
            }
            if last == 0 {
                assert(q[0] == (start, 0u64));
            }
        }
    }
}

/// Expanding a node whose g-score undercuts every walk to it preserves the
/// closed-set optimality invariant.
proof fn lemma_close_opt(
    g: Graph,
    gs_old: Seq<u64>,
    gs_new: Seq<u64>,
    closed_b: Seq<bool>,
    closed_a: Seq<bool>,
    current: int,
    start: usize,
    goal: usize,
)
    requires
        g.wf(),
        start < g.nodes@.len(),
        gs_old.len() == g.nodes@.len(),
        gs_new.len() == g.nodes@.len(),
        closed_b.len() == g.nodes@.len(),
        0 <= current < closed_b.len(),
        closed_a == closed_b.update(current, true),
        forall|t: int| 0 <= t < closed_a.len() && closed_a[t] ==> gs_new[t] == gs_old[t],
        inv_closed_opt(g, gs_old, closed_b, start, goal),
        opt_conditions(g, goal) ==> forall|q: Seq<(usize, u64)>|
            costed_from(g, q, start) && (#[trigger] q[q.len() - 1]).0 == current ==> gs_old[current]
                <= q[q.len() - 1].1,
    ensures
        inv_closed_opt(g, gs_new, closed_a, start, goal),
{
    reveal(inv_closed_opt);
    if opt_conditions(g, goal) {
        assert forall|q: Seq<(usize, u64)>|
            costed_from(g, q, start) && closed_a[(#[trigger] q[q.len() - 1]).0 as int] implies gs_new[q[q.len()
            - 1].0 as int] <= q[q.len() - 1].1 by {
            let w = q[q.len() - 1].0 as int;
            lemma_walk_in_range(g, q, start, q.len() - 1);
            if w == current {
                assert(q[q.len() - 1].0 == current);
            } else {
                assert(closed_b[w]);
            }
        }
    }
}

/// After a node is expanded, the frontier invariant is restored: the node
/// right before any first-unexpanded node is expanded, its g-score undercuts
/// the walk, and its relaxed edge bounds the next node's score.
proof fn lemma_restore_frontier(
    g: Graph,
    gs_old: Seq<u64>,
    gs_new: Seq<u64>,
    closed_b: Seq<bool>,
    closed_a: Seq<bool>,
    current: int,
    start: usize,
    goal: usize,
)
    requires
        g.wf(),
        start < g.nodes@.len(),
        gs_old.len() == g.nodes@.len(),
        gs_new.len() == g.nodes@.len(),
        closed_b.len() == g.nodes@.len(),
        gs_old[start as int] == 0,
        gs_new[start as int] == 0,
        0 <= current < closed_b.len(),
        closed_a == closed_b.update(current, true),
        forall|t: int| 0 <= t < gs_new.len() ==> gs_new[t] <= (#[trigger] gs_old[t]),
        inv_frontier(g, gs_old, closed_b, start, goal),
        inv_closed_opt(g, gs_new, closed_a, start, goal),
        inv_closed_edges(g, gs_new, closed_a),
    ensures
        inv_frontier(g, gs_new, closed_a, start, goal),
{
    reveal(inv_frontier);
    reveal(inv_closed_opt);
    reveal(inv_closed_edges);
    if opt_conditions(g, goal) {
        assert forall|q: Seq<(usize, u64)>, i: int|
            costed_from(g, q, start) && 0 <= i < q.len() && !closed_a[(#[trigger] q[i]).0 as int]
                && (forall|j: int| 0 <= j < i ==> closed_a[(#[trigger] q[j]).0 as int]) implies gs_new[q[i].0
            as int] <= q[i].1 by {
            assert(costed_from(g, q, start));
            if i == 0 {
                assert(q[0] == (start, 0u64));
            } else {
                lemma_walk_in_range(g, q, start, i);
                lemma_walk_in_range(g, q, start, i - 1);
                lemma_costed_prefix(g, q, start, i);
                let qq = q.subrange(0, i);
                assert(qq[qq.len() - 1] == q[i - 1]);
                assert(closed_a[q[i - 1].0 as int]);
                assert(costed_from(g, qq, start));
                assert(gs_new[q[i - 1].0 as int] <= q[i - 1].1);
                assert(costed_step(g, q[i - 1], q[i]));
                let j = choose|j: int|
                    0 <= j < g.edges@[q[i - 1].0 as int]@.len() && (#[trigger] g.edges@[q[i - 1].0
                        as int]@[j]).to == q[i].0 && q[i].1 == sat_add(
                        q[i - 1].1,
                        g.edges@[q[i - 1].0 as int]@[j].cost,
                    );
                let c = g.edges@[q[i - 1].0 as int]@[j].cost;
                assert(closed_a[g.edges@[q[i - 1].0 as int]@[j].to as int] == false);
                assert(gs_new[q[i].0 as int] <= sat_add(gs_new[q[i - 1].0 as int], c));
                lemma_sat_add_monotone(gs_new[q[i - 1].0 as int], c, q[i - 1].1, c);
            }
        }
    }
}

/// After open-set exhaustion every node on a walk from the start is closed,
/// provided edge costs leave headroom; since the goal is never closed, no
/// walk can end at it.
proof fn lemma_exhausted_unreachable(
    g: Graph,
    gs: Seq<u64>,
    closed: Seq<bool>,
    start: usize,
    goal: usize,
    s: Seq<usize>,
    i: int,
)
    requires
        g.wf(),
        moderate_costs(g),
        gs.len() == g.nodes@.len(),
        closed.len() == g.nodes@.len(),
        start < g.nodes@.len(),
        gs[start as int] == 0,
        forall|t: int| #![trigger gs[t]] 0 <= t < gs.len() && gs[t] < u64::MAX ==> closed[t],
        forall|t: int| #![trigger closed[t]] 0 <= t < gs.len() && closed[t] ==> gs[t] < u64::MAX,
        forall|t: int|
            #![trigger closed[t]]
            0 <= t < gs.len() && closed[t] ==> gs[t] as int <= (gs.len() - 1) * cost_cap(g),
        inv_closed_edges(g, gs, closed),
        is_walk(g, s, start, goal),
        0 <= i < s.len(),
    ensures
        closed[s[i] as int],
    decreases i,
{
    reveal(inv_closed_edges);
    if i == 0 {
        assert(gs[start as int] < u64::MAX);
    } else {
        lemma_exhausted_unreachable(g, gs, closed, start, goal, s, i - 1);
        let u = s[i - 1] as int;
        let v = s[i] as int;
        let j = choose|j: int|
            0 <= j < g.edges@[u]@.len() && (#[trigger] g.edges@[u]@[j]).to == s[i];
        if !closed[v] {
            let c = g.edges@[u]@[j].cost;
            let q = cost_cap(g);
            assert(gs[v] <= sat_add(gs[u] as u64, c));
            assert((gs[u] as int) + (c as int) <= (gs.len() - 1) * q + q);
            assert((gs.len() - 1) * q + q == gs.len() as int * q) by (nonlinear_arith);
            assert((gs.len() as int + 2) * q <= u64::MAX as int) by {
                vstd::arithmetic::div_mod::lemma_fundamental_div_mod(
                    u64::MAX as int,
                    gs.len() as int + 2,
                );
                vstd::arithmetic::div_mod::lemma_mod_bound(
                    u64::MAX as int,
                    gs.len() as int + 2,
                );
            }
            assert(gs.len() as int * q < (u64::MAX as int) || q == 0) by (nonlinear_arith)
                requires
                    (gs.len() as int + 2) * q <= u64::MAX as int,
                    q >= 0,
                    gs.len() >= 1,
            ;
            if q == 0 {
                assert(gs[u] as int <= 0);
                assert(c as int <= 0);
                assert(sat_add(gs[u], c) == 0);
            } else {
                assert((gs[u] as int) + (c as int) < (u64::MAX as int));
                assert(sat_add(gs[u], c) < u64::MAX);
            }
            assert(gs[v] < u64::MAX);
        }
    }
}

impl Graph {
    /// The cost of the first edge from `a` to `b`, if any edge joins them.
    pub fn find_edge(&self, a: usize, b: usize) -> (r: Option<u64>)
        requires
            self.wf(),
            a < self.nodes@.len(),
        ensures
            r.is_some() <==> exists|j: int|
                0 <= j < self.edges@[a as int]@.len() && (#[trigger] self.edges@[a as int]@[j]).to
                    == b,
            r.is_some() ==> exists|j: int|
                0 <= j < self.edges@[a as int]@.len() && (#[trigger] self.edges@[a as int]@[j]).to
                    == b && self.edges@[a as int]@[j].cost == r.unwrap(),
    {
        let deg = self.edges[a].len();
        let mut j: usize = 0;
        while j < deg
            invariant
                self.wf(),
                a < self.nodes@.len(),
                deg == self.edges@[a as int]@.len(),
                j <= deg,
                forall|jj: int|
                    0 <= jj < j ==> (#[trigger] self.edges@[a as int]@[jj]).to != b,
            decreases deg - j,
        {
            let e = self.edges[a][j];
            if e.to == b {
                return Some(e.cost);
            }
            j = j + 1;
        }
        None
    }
}

/// One hop of a route, looked at backwards: the reverse edge exists.
proof fn lemma_reverse_hop(g: Graph, p: Seq<(usize, u64)>, s: usize, t: usize, k: int)
    requires
        g.wf(),
        symmetric_edges(g),
        valid_path(g, p, s, t),
        1 <= k < p.len(),
    ensures
        p[k].0 != p[k - 1].0,
        p[k].0 < g.nodes@.len(),
        exists|j: int|
            0 <= j < g.edges@[p[k].0 as int]@.len() && (#[trigger] g.edges@[p[k].0 as int]@[j]).to
                == p[k - 1].0,
{
    reveal(symmetric_edges);
    assert(step_ok(g, p[k - 1], p[k]));
    let b = p[k - 1].0 as int;
    let j = choose|j: int|
        0 <= j < g.edges@[b]@.len() && (#[trigger] g.edges@[b]@[j]).to == p[k].0 && p[k].1
            == sat_add(p[k - 1].1, g.edges@[b]@[j].cost);
    assert(exists|j2: int|
        0 <= j2 < g.edges@[g.edges@[b]@[j].to as int]@.len() && (#[trigger] g.edges@[g.edges@[b]@[j].to
            as int]@[j2]) == (Edge { to: p[k - 1].0, cost: g.edges@[b]@[j].cost }));
    let j2 = choose|j2: int|
        0 <= j2 < g.edges@[g.edges@[b]@[j].to as int]@.len() && (#[trigger] g.edges@[g.edges@[b]@[j].to
            as int]@[j2]) == (Edge { to: p[k - 1].0, cost: g.edges@[b]@[j].cost });
    assert(g.edges@[p[k].0 as int]@[j2].to == p[k - 1].0);
}

/// Walks a route backwards, re-deriving each hop through the reverse edge
/// that `symmetric_edges` guarantees; offsets restart at zero and accumulate
/// the reverse hops' costs.
#[verifier::rlimit(100)]
pub fn reverse_route(
    g: &Graph,
    p: &Path,
    Ghost(s): Ghost<usize>,
    Ghost(t): Ghost<usize>,
) -> (r: Path)
    requires
        g.wf(),
        symmetric_edges(*g),
        valid_path(*g, p@, s, t),
    ensures
        valid_path(*g, r@, t, s),
        r@.len() == p@.len(),
        forall|i: int| 0 <= i < r@.len() ==> (#[trigger] r@[i]).0 == p@[p@.len() - 1 - i].0,
{
    let mut out: Path = Vec::new();
    let last = p.len() - 1;
    out.push((p[last].0, 0));
    let mut k: usize = last;
    while k > 0
        invariant
            g.wf(),
            symmetric_edges(*g),
            valid_path(*g, p@, s, t),
            k <= last,
            last == p@.len() - 1,
            out@.len() == p@.len() - k,
            out@[0] == (t, 0u64),
            out@[out@.len() - 1].0 == p@[k as int].0,
            forall|q: int| 0 <= q < out@.len() ==> (#[trigger] out@[q]).0 == p@[last - q].0,
            forall|q: int| 0 <= q < out@.len() - 1 ==> step_ok(*g, #[trigger] out@[q], out@[q + 1]),
        decreases k,
    {
        let a = p[k].0;
        let b = p[k - 1].0;
        proof {
            lemma_reverse_hop(*g, p@, s, t, k as int);
        }
        let c = match g.find_edge(a, b) {
            Some(c) => c,
            None => {
                proof {
                    assert(false);
                }
                0
            },
        };
        let ghost out_pre = out@;
        let prev = out[out.len() - 1].1;
        out.push((b, sat_add_exec(prev, c)));
        proof {
            assert(step_ok(*g, p@[k - 1], p@[k as int]));
            assert(b < g.nodes@.len());
            assert(step_ok(*g, out@[out@.len() - 2], out@[out@.len() - 1]));
            assert forall|q: int|
                0 <= q < out@.len() - 1 implies step_ok(*g, #[trigger] out@[q], out@[q + 1]) by {
                if q < out_pre.len() - 1 {
                    assert(out@[q] == out_pre[q] && out@[q + 1] == out_pre[q + 1]);
                    assert(step_ok(*g, out_pre[q], out_pre[q + 1]));
                }
            }
        }
        k = k - 1;
    }
    out
}

} // verus!
