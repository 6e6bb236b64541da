use vstd::prelude::*;
use crate::edge::Edge;
use crate::graph::Graph;

verus! {

/// A route through the graph: (node id, cumulative time offset) pairs from
/// start to goal inclusive. The offset at each node is the saturating sum of
/// the traversed edge costs up to that node; the cache stores and returns
/// copies of such routes.
pub type Path = Vec<(usize, u64)>;

/// Addition on `u64` that clamps at the largest representable value, the
/// sentinel for "unreached" during search.
pub open spec fn sat_add(a: u64, b: u64) -> u64 {
    if a + b <= u64::MAX {
        (a + b) as u64
    } else {
        u64::MAX
    }
}

/// Executable counterpart of `sat_add`.
pub fn sat_add_exec(a: u64, b: u64) -> (r: u64)
    ensures
        r == sat_add(a, b),
{
    if a <= u64::MAX - b {
        a + b
    } else {
        u64::MAX
    }
}

/// Saturating addition never falls below either operand and is monotone in
/// both operands.
pub proof fn lemma_sat_add_monotone(a1: u64, b1: u64, a2: u64, b2: u64)
    requires
        a1 <= a2,
        b1 <= b2,
    ensures
        sat_add(a1, b1) <= sat_add(a2, b2),
        a1 <= sat_add(a1, b1),
        b1 <= sat_add(a1, b1),
{
}

/// Saturating addition is associative.
pub proof fn lemma_sat_add_assoc(a: u64, b: u64, c: u64)
    ensures
        sat_add(sat_add(a, b), c) == sat_add(a, sat_add(b, c)),
{
}

/// The view of an optional route, for stating cache contents.
pub open spec fn opt_path_view(r: Option<Path>) -> Option<Seq<(usize, u64)>> {
    match r {
        Some(p) => Some(p@),
        None => None,
    }
}

/// One hop of a route: some edge of the graph leads from `a`'s node to `b`'s
/// node, `b`'s offset is `a`'s plus that edge's cost, and the hop moves to a
/// different node.
pub open spec fn step_ok(g: Graph, a: (usize, u64), b: (usize, u64)) -> bool {
    &&& a.0 != b.0
    &&& a.0 < g.nodes@.len()
    &&& b.0 < g.nodes@.len()
    &&& exists|j: int|
        0 <= j < g.edges@[a.0 as int]@.len() && (#[trigger] g.edges@[a.0 as int]@[j]).to == b.0
            && b.1 == sat_add(a.1, g.edges@[a.0 as int]@[j].cost)
}

/// A route from `start` to `goal`: non-empty, starting at `(start, 0)`,
/// ending at `goal`, with every consecutive pair a real hop whose offset
/// grows by exactly that hop's edge cost.
pub open spec fn valid_path(g: Graph, p: Seq<(usize, u64)>, start: usize, goal: usize) -> bool {
    &&& p.len() >= 1
    &&& p[0] == (start, 0u64)
    &&& p[p.len() - 1].0 == goal
    &&& forall|i: int| 0 <= i < p.len() - 1 ==> step_ok(g, #[trigger] p[i], p[i + 1])
}

/// A walk through the graph: a non-empty node sequence from `start` to
/// `goal` each of whose consecutive pairs is joined by some edge.
pub open spec fn is_walk(g: Graph, s: Seq<usize>, start: usize, goal: usize) -> bool {
    &&& s.len() >= 1
    &&& s[0] == start
    &&& s[s.len() - 1] == goal
    &&& forall|i: int|
        0 <= i < s.len() - 1 ==> (#[trigger] s[i]) < g.nodes@.len() && s[i + 1] < g.nodes@.len()
            && exists|j: int|
            0 <= j < g.edges@[s[i] as int]@.len() && (#[trigger] g.edges@[s[i] as int]@[j]).to == s[i
                + 1]
}

/// `goal` cannot be reached from `start` along the graph's edges at all.
pub open spec fn no_route(g: Graph, start: usize, goal: usize) -> bool {
    forall|s: Seq<usize>| !is_walk(g, s, start, goal)
}

/// The node sequence of a valid route is a walk; in particular a cached
/// route and a cached "no path" can never coexist for one pair.
pub proof fn lemma_valid_path_gives_walk(
    g: Graph,
    p: Seq<(usize, u64)>,
    start: usize,
    goal: usize,
)
    requires
        valid_path(g, p, start, goal),
    ensures
        is_walk(g, p.map_values(|e: (usize, u64)| e.0), start, goal),
        !no_route(g, start, goal),
{
    let s = p.map_values(|e: (usize, u64)| e.0);
    assert forall|i: int|
        0 <= i < s.len() - 1 implies (#[trigger] s[i]) < g.nodes@.len() && s[i + 1]
        < g.nodes@.len() && exists|j: int|
        0 <= j < g.edges@[s[i] as int]@.len() && (#[trigger] g.edges@[s[i] as int]@[j]).to == s[i
            + 1] by {
        assert(step_ok(g, p[i], p[i + 1]));
        assert(s[i] == p[i].0 && s[i + 1] == p[i + 1].0);
    }
    assert(is_walk(g, s, start, goal));
}

/// No node appears twice in the route.
pub open spec fn nodes_distinct(p: Seq<(usize, u64)>) -> bool {
    forall|i: int, j: int| 0 <= i < j < p.len() ==> (#[trigger] p[i]).0 != (#[trigger] p[j]).0
}

/// A stitched or searched route never repeats a node across a hop: adjacent
/// entries always name distinct nodes.
pub proof fn lemma_no_adjacent_duplicates(g: Graph, p: Seq<(usize, u64)>, start: usize, goal: usize)
    requires
        valid_path(g, p, start, goal),
    ensures
        forall|i: int| 0 <= i < p.len() - 1 ==> (#[trigger] p[i]).0 != p[i + 1].0,
{
    assert forall|i: int| 0 <= i < p.len() - 1 implies (#[trigger] p[i]).0 != p[i + 1].0 by {
        assert(step_ok(g, p[i], p[i + 1]));
    }
}

/// The cost a route reports is the exact sum of its constituent edge costs:
/// the first offset is zero, and the returned cost sequence names one real
/// edge per hop whose cost is exactly that hop's offset increment.
pub proof fn lemma_path_cost_is_edge_sum(g: Graph, p: Seq<(usize, u64)>, s: usize, t: usize) -> (costs: Seq<u64>)
    requires
        valid_path(g, p, s, t),
    ensures
        p[0].1 == 0,
        costs.len() == p.len() - 1,
        forall|i: int| 0 <= i < costs.len() ==> p[i + 1].1 == sat_add(p[i].1, #[trigger] costs[i]),
        forall|i: int|
            #![trigger costs[i]]
            0 <= i < costs.len() ==> exists|j: int|
                0 <= j < g.edges@[p[i].0 as int]@.len() && (#[trigger] g.edges@[p[i].0
                    as int]@[j]) == (Edge { to: p[i + 1].0, cost: costs[i] }),
{
    let costs = Seq::new(
        (p.len() - 1) as nat,
        |i: int|
            choose|c: u64|
                (#[trigger] sat_add(p[i].1, c)) == p[i + 1].1 && exists|j: int|
                    0 <= j < g.edges@[p[i].0 as int]@.len() && (#[trigger] g.edges@[p[i].0
                        as int]@[j]) == (Edge { to: p[i + 1].0, cost: c }),
    );
    assert forall|i: int| 0 <= i < costs.len() implies (p[i + 1].1 == sat_add(
        p[i].1,
        #[trigger] costs[i],
    ) && exists|j: int|
        0 <= j < g.edges@[p[i].0 as int]@.len() && (#[trigger] g.edges@[p[i].0 as int]@[j]) == (Edge {
            to: p[i + 1].0,
            cost: costs[i],
        })) by {
        assert(step_ok(g, p[i], p[i + 1]));
        let j0 = choose|j: int|
            0 <= j < g.edges@[p[i].0 as int]@.len() && (#[trigger] g.edges@[p[i].0 as int]@[j]).to
                == p[i + 1].0 && p[i + 1].1 == sat_add(p[i].1, g.edges@[p[i].0 as int]@[j].cost);
        let c0 = g.edges@[p[i].0 as int]@[j0].cost;
        assert(g.edges@[p[i].0 as int]@[j0] == (Edge { to: p[i + 1].0, cost: c0 }));
        assert((#[trigger] sat_add(p[i].1, c0)) == p[i + 1].1 && exists|j: int|
            0 <= j < g.edges@[p[i].0 as int]@.len() && (#[trigger] g.edges@[p[i].0 as int]@[j])
                == (Edge { to: p[i + 1].0, cost: c0 }));
    }
    costs
}

/// An element-for-element copy of a route; what the cache stores and what
/// callers receive are independent vectors.
pub fn clone_path(p: &Path) -> (r: Path)
    ensures
        r@ == p@,
{
    let mut r: Path = Vec::new();
    let n = p.len();
    let mut i: usize = 0;
    while i < n
        invariant
            n == p@.len(),
            i <= n,
            r@ == p@.subrange(0, i as int),
        decreases n - i,
    {
        let e = p[i];
        r.push(e);
        proof {
            assert(r@ =~= p@.subrange(0, i + 1));
        }
        i = i + 1;
    }
    proof {
        assert(r@ =~= p@);
    }
    r
}

/// A route with every cumulative offset re-based onto `base`.
pub open spec fn shift_offsets(base: u64, q: Seq<(usize, u64)>) -> Seq<(usize, u64)> {
    q.map_values(|e: (usize, u64)| (e.0, sat_add(base, e.1)))
}

/// Two routes joined at their shared junction: the first keeps its offsets,
/// the junction node is dropped once, and the second continues from the
/// junction's offset.
pub open spec fn stitch2(a: Seq<(usize, u64)>, b: Seq<(usize, u64)>) -> Seq<(usize, u64)> {
    a.drop_last() + shift_offsets(a[a.len() - 1].1, b)
}

/// All segment routes joined in waypoint order.
pub open spec fn stitch_all(segs: Seq<Seq<(usize, u64)>>) -> Seq<(usize, u64)>
    decreases segs.len(),
{
    if segs.len() == 0 {
        Seq::empty()
    } else if segs.len() == 1 {
        segs[0]
    } else {
        stitch2(stitch_all(segs.drop_last()), segs[segs.len() - 1])
    }
}

/// The total node count of a sequence of segment routes.
pub open spec fn sum_lens(segs: Seq<Seq<(usize, u64)>>) -> int
    decreases segs.len(),
{
    if segs.len() == 0 {
        0
    } else {
        sum_lens(segs.drop_last()) + segs[segs.len() - 1].len()
    }
}

/// Appends one solved segment onto an accumulated route, dropping the
/// duplicated junction node and re-basing the segment's cumulative offsets
/// onto the junction's offset. The stitched sequence is one node shorter
/// than the two inputs together.
pub(crate) fn append_segment(
    acc: &mut Path,
    seg: &Path,
    g: &Graph,
    Ghost(s): Ghost<usize>,
    Ghost(m): Ghost<usize>,
    Ghost(t): Ghost<usize>,
)
    requires
        valid_path(*g, old(acc)@, s, m),
        valid_path(*g, seg@, m, t),
    ensures
        valid_path(*g, final(acc)@, s, t),
        final(acc)@.len() == old(acc)@.len() + seg@.len() - 1,
        final(acc)@ == stitch2(old(acc)@, seg@),
{
    let ghost acc0 = old(acc)@;
    let offset = acc[acc.len() - 1].1;
    let _junction = acc.pop();
    let mut k: usize = 0;
    while k < seg.len()
        invariant
            valid_path(*g, acc0, s, m),
            valid_path(*g, seg@, m, t),
            offset == acc0[acc0.len() - 1].1,
            acc0[acc0.len() - 1].0 == m,
            k <= seg@.len(),
            acc@.len() == acc0.len() - 1 + k,
            forall|q: int| 0 <= q < acc0.len() - 1 ==> #[trigger] acc@[q] == acc0[q],
            forall|q: int|
                0 <= q < k ==> #[trigger] acc@[acc0.len() - 1 + q] == (
                    seg@[q].0,
                    sat_add(offset, seg@[q].1),
                ),
        decreases seg@.len() - k,
    {
        let e = seg[k];
        acc.push((e.0, sat_add_exec(offset, e.1)));
        k = k + 1;
    }
    proof {
        assert(seg@[0] == (m, 0u64));
        assert(sat_add(offset, 0) == offset);
        let al = acc0.len() as int;
        assert forall|q: int| 0 <= q < acc@.len() - 1 implies step_ok(
            *g,
            #[trigger] acc@[q],
            acc@[q + 1],
        ) by {
            if q + 1 < al - 1 {
                assert(acc@[q] == acc0[q] && acc@[q + 1] == acc0[q + 1]);
                assert(step_ok(*g, acc0[q], acc0[q + 1]));
            } else if q + 1 == al - 1 {
                assert(acc@[q] == acc0[q]);
                assert(acc@[al - 1 + 0] == (seg@[0].0, sat_add(offset, seg@[0].1)));
                assert(acc@[q + 1] == acc0[al - 1]);
                assert(step_ok(*g, acc0[q], acc0[q + 1]));
            } else {
                let qq = q - (al - 1);
                assert(acc@[al - 1 + qq] == (seg@[qq].0, sat_add(offset, seg@[qq].1)));
                assert(acc@[al - 1 + (qq + 1)] == (seg@[qq + 1].0, sat_add(offset, seg@[qq + 1].1)));
                assert(step_ok(*g, seg@[qq], seg@[qq + 1]));
                let j = choose|j: int|
                    0 <= j < g.edges@[seg@[qq].0 as int]@.len() && (#[trigger] g.edges@[seg@[qq].0
                        as int]@[j]).to == seg@[qq + 1].0 && seg@[qq + 1].1 == sat_add(
                        seg@[qq].1,
                        g.edges@[seg@[qq].0 as int]@[j].cost,
                    );
                lemma_sat_add_assoc(offset, seg@[qq].1, g.edges@[seg@[qq].0 as int]@[j].cost);
                assert(g.edges@[acc@[q].0 as int]@[j].to == acc@[q + 1].0 && acc@[q + 1].1
                    == sat_add(acc@[q].1, g.edges@[acc@[q].0 as int]@[j].cost));
            }
        }
        if al == 1 {
            assert(m == s && offset == 0);
            assert(acc@[0] == (seg@[0].0, sat_add(0, seg@[0].1)));
            assert(acc@[0] == (s, 0u64));
        } else {
            assert(acc@[0] == acc0[0]);
        }
        let sl = seg@.len() as int;
        assert(acc@.len() - 1 == al - 1 + (sl - 1));
        assert(acc@[al - 1 + (sl - 1)] == (seg@[sl - 1].0, sat_add(offset, seg@[sl - 1].1)));
        assert(acc@[acc@.len() - 1].0 == t);
        assert(valid_path(*g, acc@, s, t));
        assert(acc@ =~= stitch2(acc0, seg@)) by {
            assert forall|q: int| 0 <= q < acc@.len() implies acc@[q] == stitch2(acc0, seg@)[q] by {
                if q < al - 1 {
                    assert(acc@[q] == acc0[q]);
                    assert(stitch2(acc0, seg@)[q] == acc0[q]);
                } else {
                    let qq = q - (al - 1);
                    assert(acc@[al - 1 + qq] == (seg@[qq].0, sat_add(offset, seg@[qq].1)));
                    assert(stitch2(acc0, seg@)[q] == shift_offsets(offset, seg@)[qq]);
                    assert(shift_offsets(offset, seg@)[qq] == (seg@[qq].0, sat_add(
                        offset,
                        seg@[qq].1,
                    )));
                }
            }
        }
    }
}

} // verus!
