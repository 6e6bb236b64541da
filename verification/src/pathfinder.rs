use vstd::prelude::*;
use crate::cache::{QueryCache, cache_view, cache_new, cache_get, empty_cache_view};
use crate::graph::{Graph, cache_ok, route_ok, moderate_costs, opt_conditions, optimal_route};
use crate::path::{Path, opt_path_view, valid_path, no_route, append_segment, nodes_distinct};
use crate::path::{stitch2, stitch_all, sum_lens};
use crate::settings::RePathSettings;
use crate::utils::{in_coord_range, nodes_within_radius, rand_below, dist2, sq};
use crate::node::COORD_LIMIT;
use vstd::arithmetic::div_mod::{lemma_div_is_ordered, lemma_div_by_multiple};

verus! {

/// The path service: a navigation graph together with the shared query
/// cache that every search consults and populates, a call-count hook on the
/// search engine, and the tally of successfully precomputed routes.
pub struct RePathfinder {
    pub graph: Graph,
    pub cache: QueryCache,
    /// How many times a query actually ran the search engine rather than
    /// being served from the cache.
    pub search_count: usize,
    /// How many warm-up searches found a route at construction time.
    pub precomputed_paths: usize,
}

/// A saturating step of the search call counter.
pub open spec fn bump(c: usize) -> usize {
    if c < usize::MAX {
        (c + 1) as usize
    } else {
        c
    }
}

impl RePathfinder {
    /// The cache contents, as a mathematical map; the contracts below
    /// relate values of it across calls.
    pub open spec fn cache_of(self) -> Map<(usize, usize), Option<Seq<(usize, u64)>>> {
        cache_view(self.cache)
    }

    /// The service invariant: a well-formed graph, and a cache every entry
    /// of which is a correct answer for its key.
    pub open spec fn wf(self) -> bool {
        &&& self.graph.wf()
        &&& cache_ok(cache_view(self.cache), self.graph)
    }

    /// What one coordinate query does: both endpoints resolve to their
    /// nearest nodes; the result is a correct route answer for that node
    /// pair, is stored in the cache, and a repeated query is served from the
    /// cache without running the search engine again.
    pub open spec fn find_path_post(
        pre: RePathfinder,
        post: RePathfinder,
        sc: (i64, i64, i64),
        ec: (i64, i64, i64),
        v: Option<Seq<(usize, u64)>>,
    ) -> bool {
        let g = pre.graph;
        if g.nodes@.len() == 0 {
            &&& v is None
            &&& post.cache_of() == pre.cache_of()
            &&& post.search_count == pre.search_count
        } else {
            let s = g.nearest_spec(sc) as usize;
            let t = g.nearest_spec(ec) as usize;
            &&& route_ok(g, s, t, v)
            &&& post.cache_of().contains_key((s, t))
            &&& post.cache_of()[(s, t)] == v
            &&& if pre.cache_of().contains_key((s, t)) {
                &&& v == pre.cache_of()[(s, t)]
                &&& post.cache_of() == pre.cache_of()
                &&& post.search_count == pre.search_count
            } else {
                &&& post.cache_of() == pre.cache_of().insert((s, t), v)
                &&& post.search_count == bump(pre.search_count)
                &&& match v {
                    Some(p) => {
                        &&& nodes_distinct(p)
                        &&& opt_conditions(g, t as usize) ==> optimal_route(g, p, s, t as usize)
                    },
                    None => true,
                }
            }
        }
    }

    /// What every warm-up cache entry looks like, whatever the random draws
    /// were: a pair of distinct existing nodes whose positions lie within
    /// the precompute radius of each other.
    pub open spec fn precompute_key_ok(graph: Graph, radius: u64, k: (usize, usize)) -> bool {
        &&& k.0 != k.1
        &&& k.0 < graph.nodes@.len()
        &&& k.1 < graph.nodes@.len()
        &&& dist2(graph.pos_of(k.0 as int), graph.pos_of(k.1 as int)) <= sq(radius as int)
    }

    /// Builds the service around a ready graph and, when enabled, warms the
    /// cache by searching between randomly sampled nearby node pairs: a
    /// uniformly random start, then a random goal among the other nodes
    /// within the precompute radius; a draw with no such goal is skipped. A
    /// failed warm-up search is itself cached, never an error. With the flag
    /// off, or on an empty graph, no search runs and the cache starts empty.
    pub fn new(graph: Graph, settings: RePathSettings) -> (r: RePathfinder)
        requires
            graph.wf(),
        ensures
            r.wf(),
            r.graph == graph,
            r.search_count == 0,
            r.precomputed_paths <= settings.total_precompute_pairs,
            (!settings.use_precomputed_cache || graph.nodes@.len() == 0) ==> (r.cache_of()
                == empty_cache_view() && r.precomputed_paths == 0),
            forall|k: (usize, usize)|
                #[trigger] r.cache_of().contains_key(k) ==> RePathfinder::precompute_key_ok(
                    graph,
                    settings.precompute_radius,
                    k,
                ),
    {
        let mut cache = cache_new();
        let mut precomputed: usize = 0;
        if settings.use_precomputed_cache && graph.nodes.len() > 0 {
            let total = settings.total_precompute_pairs;
            let radius = settings.precompute_radius;
            let mut it: usize = 0;
            while it < total
                invariant
                    graph.wf(),
                    graph.nodes@.len() > 0,
                    cache_ok(cache_view(cache), graph),
                    it <= total,
                    precomputed <= it,
                    forall|k: (usize, usize)|
                        #[trigger] cache_view(cache).contains_key(k)
                            ==> RePathfinder::precompute_key_ok(graph, radius, k),
                decreases total - it,
            {
                let sid = rand_below(graph.nodes.len());
                let nearby = nodes_within_radius(&graph, &graph.nodes[sid], radius);
                let mut cands: Vec<usize> = Vec::new();
                let mut q: usize = 0;
                while q < nearby.len()
                    invariant
                        graph.wf(),
                        sid < graph.nodes@.len(),
                        q <= nearby@.len(),
                        forall|k: int|
                            0 <= k < nearby@.len() ==> (#[trigger] nearby@[k])
                                < graph.nodes@.len(),
                        forall|i: int|
                            0 <= i < graph.nodes@.len() ==> (nearby@.contains(i as usize)
                                <==> dist2(
                                graph.nodes@[sid as int].pos_spec(),
                                #[trigger] graph.pos_of(i),
                            ) <= sq(radius as int)),
                        forall|k: int|
                            0 <= k < cands@.len() ==> (#[trigger] cands@[k])
                                < graph.nodes@.len() && cands@[k] != sid && dist2(
                                graph.pos_of(sid as int),
                                graph.pos_of(cands@[k] as int),
                            ) <= sq(radius as int),
                    decreases nearby@.len() - q,
                {
                    let cand = nearby[q];
                    if cand != sid {
                        proof {
                            assert(nearby@[q as int] == cand);
                            assert(nearby@.contains(cand));
                        }
                        cands.push(cand);
                    }
                    q = q + 1;
                }
                if cands.len() > 0 {
                    let gid = cands[rand_below(cands.len())];
                    let ghost view_before = cache_view(cache);
                    let found = graph.a_star(sid, gid, &mut cache);
                    proof {
                        assert forall|k: (usize, usize)|
                            #[trigger] cache_view(cache).contains_key(k)
                            implies RePathfinder::precompute_key_ok(graph, radius, k) by {
                            if k != (sid, gid) {
                                assert(view_before.contains_key(k));
                            }
                        }
                    }
                    if found.is_some() {
                        precomputed = precomputed + 1;
                    }
                }
                it = it + 1;
            }
        }
        RePathfinder { graph, cache, search_count: 0, precomputed_paths: precomputed }
    }

    /// Resolves both coordinates to their nearest graph nodes and answers
    /// through the shared cache; on a cache hit the stored answer is
    /// returned and the search engine does not run.
    pub fn find_path(&mut self, start_coords: (i64, i64, i64), end_coords: (i64, i64, i64)) -> (r:
        Option<Path>)
        requires
            old(self).wf(),
            in_coord_range(start_coords),
            in_coord_range(end_coords),
        ensures
            final(self).wf(),
            final(self).graph == old(self).graph,
            final(self).precomputed_paths == old(self).precomputed_paths,
            RePathfinder::find_path_post(
                *old(self),
                *final(self),
                start_coords,
                end_coords,
                opt_path_view(r),
            ),
    {
        let sid = match self.graph.nearest_node(start_coords.0, start_coords.1, start_coords.2) {
            Some(s) => s,
            None => {
                return None;
            },
        };
        let tid = match self.graph.nearest_node(end_coords.0, end_coords.1, end_coords.2) {
            Some(t) => t,
            None => {
                proof {
                    assert(false);
                }
                return None;
            },
        };
        if let Some(hit) = cache_get(&self.cache, (sid, tid)) {
            proof {
                assert(cache_view(self.cache).contains_key((sid, tid)));
            }
            return hit;
        }
        let r = self.graph.a_star(sid, tid, &mut self.cache);
        if self.search_count < usize::MAX {
            self.search_count = self.search_count + 1;
        }
        r
    }

    /// Resolves one consecutive-waypoint leg of a segmented query and solves
    /// it through the shared cache.
    fn solve_leg(
        &mut self,
        start_coords: (i64, i64, i64),
        end_coords: (i64, i64, i64),
        i: usize,
        n_seg: usize,
    ) -> (res: Option<Path>)
        requires
            old(self).wf(),
            in_coord_range(start_coords),
            in_coord_range(end_coords),
            2 <= n_seg <= 255,
            i < n_seg,
            old(self).graph.nodes@.len() > 0,
        ensures
            final(self).wf(),
            final(self).graph == old(self).graph,
            final(self).search_count == old(self).search_count,
            final(self).precomputed_paths == old(self).precomputed_paths,
            ({
                let g = old(self).graph;
                let s = seg_node(g, start_coords, end_coords, i as int, n_seg as int);
                let t = seg_node(g, start_coords, end_coords, i as int + 1, n_seg as int);
                &&& final(self).cache_of().contains_key((s, t))
                &&& old(self).cache_of().contains_key((s, t)) ==> final(self).cache_of() == old(
                    self,
                ).cache_of()
                &&& !old(self).cache_of().contains_key((s, t)) ==> final(self).cache_of() == old(
                    self,
                ).cache_of().insert((s, t), opt_path_view(res))
                &&& match res {
                    Some(p) => valid_path(g, p@, s, t),
                    None => moderate_costs(g) ==> no_route(g, s, t),
                }
            }),
    {
        let ghost nn = n_seg as int;
        let p_start = if i == 0 {
            start_coords
        } else {
            lerp_point(start_coords, end_coords, i, n_seg)
        };
        let p_end = if i + 1 == n_seg {
            end_coords
        } else {
            lerp_point(start_coords, end_coords, i + 1, n_seg)
        };
        proof {
            assert(p_start == waypoint(start_coords, end_coords, i as int, nn));
            assert(p_end == waypoint(start_coords, end_coords, i as int + 1, nn));
        }
        let sid = match self.graph.nearest_node(p_start.0, p_start.1, p_start.2) {
            Some(s) => s,
            None => {
                proof {
                    assert(false);
                }
                return None;
            },
        };
        let tid = match self.graph.nearest_node(p_end.0, p_end.1, p_end.2) {
            Some(t) => t,
            None => {
                proof {
                    assert(false);
                }
                return None;
            },
        };
        proof {
            assert(sid as int == self.graph.nearest_spec(p_start));
            assert(sid == seg_node(self.graph, start_coords, end_coords, i as int, nn));
            assert(tid == seg_node(self.graph, start_coords, end_coords, i as int + 1, nn));
        }
        self.graph.a_star(sid, tid, &mut self.cache)
    }

    /// Splits a long query into `segment_count` consecutive sub-queries
    /// between interpolated waypoints, solves every one of them against the
    /// shared graph and cache — all legs are computed and cached before the
    /// failure check, with no early cancellation — and stitches the results
    /// in waypoint order, dropping the duplicated junction node between
    /// consecutive segments. A count of one or less degrades to `find_path`;
    /// if any segment fails, the whole query fails with no partial result.
    /// The stitched route is a real route between the resolved endpoints,
    /// not a shortest-path guarantee.
    #[verifier::rlimit(100)]
    pub fn find_path_multithreaded(
        &mut self,
        start_coords: (i64, i64, i64),
        end_coords: (i64, i64, i64),
        segment_count: u8,
    ) -> (r: Option<Path>)
        requires
            old(self).wf(),
            in_coord_range(start_coords),
            in_coord_range(end_coords),
        ensures
            final(self).wf(),
            final(self).graph == old(self).graph,
            final(self).precomputed_paths == old(self).precomputed_paths,
            segment_count <= 1 ==> RePathfinder::find_path_post(
                *old(self),
                *final(self),
                start_coords,
                end_coords,
                opt_path_view(r),
            ),
            segment_count >= 2 ==> final(self).search_count == old(self).search_count,
            segment_count >= 2 ==> segmented_post(
                *old(self),
                *final(self),
                start_coords,
                end_coords,
                segment_count as int,
                opt_path_view(r),
            ),
    {
        if segment_count <= 1 {
            return self.find_path(start_coords, end_coords);
        }
        if self.graph.nodes.len() == 0 {
            return None;
        }
        let n_seg = segment_count as usize;
        let ghost nn = n_seg as int;
        let ghost g0 = self.graph;
        let mut acc: Path = Vec::new();
        let mut failed = false;
        let ghost mut segs: Seq<Seq<(usize, u64)>> = Seq::empty();
        let mut i: usize = 0;
        while i < n_seg
            invariant
                self.wf(),
                self.graph == old(self).graph,
                self.search_count == old(self).search_count,
                self.precomputed_paths == old(self).precomputed_paths,
                g0 == self.graph,
                in_coord_range(start_coords),
                in_coord_range(end_coords),
                2 <= n_seg <= 255,
                nn == n_seg as int,
                nn == segment_count as int,
                self.graph.nodes@.len() > 0,
                i <= n_seg,
                forall|ii: int|
                    0 <= ii < i ==> self.cache_of().contains_key(
                        (
                            #[trigger] seg_node(g0, start_coords, end_coords, ii, nn),
                            seg_node(g0, start_coords, end_coords, ii + 1, nn),
                        ),
                    ),
                !failed ==> segs.len() == i as int,
                !failed ==> forall|ii: int|
                    0 <= ii < i ==> valid_path(
                        g0,
                        #[trigger] segs[ii],
                        seg_node(g0, start_coords, end_coords, ii, nn),
                        seg_node(g0, start_coords, end_coords, ii + 1, nn),
                    ),
                (!failed && i > 0) ==> (acc@ == stitch_all(segs) && acc@.len() + i as int - 1
                    == sum_lens(segs) && acc@.len() >= 1 && valid_path(
                    g0,
                    acc@,
                    seg_node(g0, start_coords, end_coords, 0, nn),
                    seg_node(g0, start_coords, end_coords, i as int, nn),
                )),
                failed ==> (moderate_costs(g0) ==> exists|ii: int|
                    0 <= ii < nn && no_route(
                        g0,
                        seg_node(g0, start_coords, end_coords, ii, nn),
                        #[trigger] seg_node(g0, start_coords, end_coords, ii + 1, nn),
                    )),
            decreases n_seg - i,
        {
            let ghost view_b4 = self.cache_of();
            let ghost sid = seg_node(g0, start_coords, end_coords, i as int, nn);
            let ghost tid = seg_node(g0, start_coords, end_coords, i as int + 1, nn);
            let res = self.solve_leg(start_coords, end_coords, i, n_seg);
            proof {
                // the legs already solved stay cached
                assert forall|ii: int| 0 <= ii < i implies self.cache_of().contains_key(
                    (
                        #[trigger] seg_node(g0, start_coords, end_coords, ii, nn),
                        seg_node(g0, start_coords, end_coords, ii + 1, nn),
                    ),
                ) by {
                    let kk = (
                        seg_node(g0, start_coords, end_coords, ii, nn),
                        seg_node(g0, start_coords, end_coords, ii + 1, nn),
                    );
                    assert(view_b4.contains_key(kk));
                    if !view_b4.contains_key((sid, tid)) {
                        assert(kk != (sid, tid));
                    }
                }
            }
            match res {
                Some(seg) => {
                    if !failed {
                        let ghost segv = seg@;
                        if i == 0 {
                            acc = seg;
                            proof {
                                segs = segs.push(segv);
                                assert(segs.len() == 1 && segs[0] == segv);
                                assert(stitch_all(segs) == segv);
                                assert(segs.drop_last() =~= Seq::<Seq<(usize, u64)>>::empty());
                                assert(sum_lens(Seq::<Seq<(usize, u64)>>::empty()) == 0);
                                assert(sum_lens(segs) == segv.len());
                            }
                        } else {
                            let ghost segs_b4 = segs;
                            append_segment(
                                &mut acc,
                                &seg,
                                &self.graph,
                                Ghost(seg_node(g0, start_coords, end_coords, 0, nn)),
                                Ghost(seg_node(g0, start_coords, end_coords, i as int, nn)
                                    as usize),
                                Ghost(seg_node(g0, start_coords, end_coords, i as int + 1, nn)
                                    as usize),
                            );
                            proof {
                                segs = segs.push(segv);
                                assert(segs.drop_last() =~= segs_b4);
                                assert(segs[segs.len() - 1] == segv);
                                assert(stitch_all(segs) == stitch2(stitch_all(segs_b4), segv));
                                assert(acc@ == stitch_all(segs));
                                assert(sum_lens(segs) == sum_lens(segs_b4) + segv.len());
                            }
                        }
                    }
                },
                None => {
                    failed = true;
                },
            }
            i = i + 1;
        }
        if failed {
            return None;
        }
        proof {
            assert(segmented_legs(g0, *self, start_coords, end_coords, nn, acc@, segs));
        }
        Some(acc)
    }
}


/// One coordinate of the linear interpolation between `a` and `b` at
/// parameter `i / n`, computed on non-negative magnitudes so that division
/// truncates toward `a`.
pub open spec fn lerp_coord(a: i64, b: i64, i: int, n: int) -> i64 {
    if b >= a {
        (a + ((b - a) * i) / n) as i64
    } else {
        (a - ((a - b) * i) / n) as i64
    }
}

/// The `i`-th of `n + 1` waypoints of a segmented query: the start itself,
/// the end itself, or a linearly interpolated point in between.
pub open spec fn waypoint(sc: (i64, i64, i64), ec: (i64, i64, i64), i: int, n: int) -> (
    i64,
    i64,
    i64,
) {
    if i <= 0 {
        sc
    } else if i >= n {
        ec
    } else {
        (lerp_coord(sc.0, ec.0, i, n), lerp_coord(sc.1, ec.1, i, n), lerp_coord(sc.2, ec.2, i, n))
    }
}

/// The graph node that the `i`-th waypoint of a segmented query resolves to.
pub open spec fn seg_node(g: Graph, sc: (i64, i64, i64), ec: (i64, i64, i64), i: int, n: int) -> usize {
    g.nearest_spec(waypoint(sc, ec, i, n)) as usize
}

/// What a segmented query does: every consecutive-waypoint leg is solved
/// through the shared cache — all of them, with no early cancellation, so
/// the cache afterwards holds an answer for every leg's resolved pair. On
/// full success the result is exactly the per-leg routes stitched in
/// waypoint order; on any failing leg the whole query fails with no partial
/// result.
pub open spec fn segmented_post(
    pre: RePathfinder,
    post: RePathfinder,
    sc: (i64, i64, i64),
    ec: (i64, i64, i64),
    n: int,
    v: Option<Seq<(usize, u64)>>,
) -> bool {
    let g = pre.graph;
    if g.nodes@.len() == 0 {
        &&& v is None
        &&& post.cache_of() == pre.cache_of()
    } else {
        &&& forall|i: int|
            0 <= i < n ==> post.cache_of().contains_key(
                (
                    #[trigger] seg_node(g, sc, ec, i, n),
                    seg_node(g, sc, ec, i + 1, n),
                ),
            )
        &&& match v {
            Some(p) => {
                &&& valid_path(g, p, seg_node(g, sc, ec, 0, n), seg_node(g, sc, ec, n, n))
                &&& exists|segs: Seq<Seq<(usize, u64)>>|
                    segmented_legs(g, post, sc, ec, n, p, segs)
            },
            None => moderate_costs(g) ==> exists|i: int|
                0 <= i < n && no_route(
                    g,
                    seg_node(g, sc, ec, i, n),
                    #[trigger] seg_node(g, sc, ec, i + 1, n),
                ),
        }
    }
}

/// The witness of a successful segmented query: the solved per-leg routes,
/// whose stitching in waypoint order is exactly the returned route; one
/// junction node dropped per seam makes the route n - 1 nodes shorter than
/// the legs counted together.
pub open spec fn segmented_legs(
    g: Graph,
    post: RePathfinder,
    sc: (i64, i64, i64),
    ec: (i64, i64, i64),
    n: int,
    p: Seq<(usize, u64)>,
    segs: Seq<Seq<(usize, u64)>>,
) -> bool {
    &&& segs.len() == n
    &&& forall|i: int|
        0 <= i < n ==> valid_path(
            g,
            #[trigger] segs[i],
            seg_node(g, sc, ec, i, n),
            seg_node(g, sc, ec, i + 1, n),
        )
    &&& p == stitch_all(segs)
    &&& p.len() + n - 1 == sum_lens(segs)
}

/// Executable interpolation of one coordinate; stays within the endpoints.
fn lerp_coord_exec(a: i64, b: i64, i: usize, n: usize) -> (c: i64)
    requires
        -COORD_LIMIT <= a <= COORD_LIMIT,
        -COORD_LIMIT <= b <= COORD_LIMIT,
        1 <= i < n,
        n <= 255,
    ensures
        c == lerp_coord(a, b, i as int, n as int),
        -COORD_LIMIT <= c <= COORD_LIMIT,
{
    if b >= a {
        let d: u64 = (b - a) as u64;
        proof {
            assert(d * (i as u64) <= 2_000_000_000 * 255) by (nonlinear_arith)
                requires
                    d <= 2_000_000_000 && i <= 255,
            ;
            assert((d as int) * (i as int) <= (d as int) * (n as int)) by (nonlinear_arith)
                requires
                    0 <= d && 0 < i <= n,
            ;
            lemma_div_is_ordered((d as int) * (i as int), (d as int) * (n as int), n as int);
            lemma_div_by_multiple(d as int, n as int);
        }
        let off = (d * (i as u64)) / (n as u64);
        a + (off as i64)
    } else {
        let d: u64 = (a - b) as u64;
        proof {
            assert(d * (i as u64) <= 2_000_000_000 * 255) by (nonlinear_arith)
                requires
                    d <= 2_000_000_000 && i <= 255,
            ;
            assert((d as int) * (i as int) <= (d as int) * (n as int)) by (nonlinear_arith)
                requires
                    0 <= d && 0 < i <= n,
            ;
            lemma_div_is_ordered((d as int) * (i as int), (d as int) * (n as int), n as int);
            lemma_div_by_multiple(d as int, n as int);
        }
        let off = (d * (i as u64)) / (n as u64);
        a - (off as i64)
    }
}

/// Executable interpolation of a whole waypoint.
fn lerp_point(sc: (i64, i64, i64), ec: (i64, i64, i64), i: usize, n: usize) -> (p: (i64, i64, i64))
    requires
        in_coord_range(sc),
        in_coord_range(ec),
        1 <= i < n,
        n <= 255,
    ensures
        p == waypoint(sc, ec, i as int, n as int),
        in_coord_range(p),
{
    (
        lerp_coord_exec(sc.0, ec.0, i, n),
        lerp_coord_exec(sc.1, ec.1, i, n),
        lerp_coord_exec(sc.2, ec.2, i, n),
    )
}

} // verus!
