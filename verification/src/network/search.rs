//! The search for a cheapest path from the source to the sink.
//!
//! Arcs may cost less than nothing once flow has been pushed, so the search
//! relaxes arcs round by round in the manner of Bellman and Ford: each round
//! looks again at the arcs that leave the nodes whose distance the round
//! before improved.
use crate::network::counting::{count_true, lemma_count_true_bound, lemma_count_true_update, lemma_count_true_zero};
use crate::network::feasibility_error::{message_of, FeasibilityError, FeasibilityKind};
use crate::network::graph::{Graph, SINK, SOURCE};
use crate::network::Network;
use crate::network::walk::{
    all_relaxed, carried, carried_all, cost_span, covers, lemma_covers_step, lemma_late_improvement,
    lemma_linked_from_member, lemma_settled_bounds_walk, lemma_too_cheap, lemma_traced_is_cheapest,
    lemma_unreached_is_unreachable, lemma_walk_push, no_worse, reached, relaxed, relaxed_all,
    settled, tight_step, traced, Distances,
};
use vstd::prelude::*;

verus! {

/// What a search holds while it runs: for each node the best distance found
/// so far, the node and the arc it was reached over, and a walk from the
/// source that has that distance as its cost.
pub struct SearchState {
    pub dist: Distances,
    pub pred: Seq<Option<usize>>,
    pub pred_arc: Seq<int>,
    pub walks: Seq<Seq<int>>,
    /// For each node the tick at which its distance last improved.
    pub stamps: Seq<nat>,
    /// The number of improvements so far, plus one.
    pub clock: nat,
}

impl SearchState {
    /// What holds of node `v` throughout a search.
    pub open spec fn node_ok(self, g: Graph, v: int) -> bool {
        &&& self.dist[v] is Some ==> {
            &&& g.is_walk(self.walks[v], SOURCE as int, v)
            &&& g.walk_cost(self.walks[v]) == self.dist[v].unwrap()
            &&& -cost_span(g.nodes.len() - 1) <= self.dist[v].unwrap() <= cost_span(
                count_true(reached(self.dist)) - 1,
            )
            &&& v != SOURCE ==> self.pred[v] is Some
        }
        &&& self.pred[v] is Some ==> {
            let u = self.pred[v].unwrap() as int;
            let a = self.pred_arc[v];
            &&& self.dist[v] is Some
            &&& u < g.nodes.len()
            &&& self.dist[u] is Some
            &&& g.followable(a)
            &&& g.arcs[a].start == u
            &&& g.arcs[a].end == v
            &&& self.dist[u].unwrap() + g.arcs[a].cost <= self.dist[v].unwrap()
            &&& self.stamps[u] >= self.stamps[v] ==> self.dist[u].unwrap() + g.arcs[a].cost
                < self.dist[v].unwrap()
        }
        &&& self.stamps[v] < self.clock
    }

    /// What holds throughout a search: every distance is the cost of a walk
    /// from the source, and every reached node but the source knows an arc
    /// over which it was reached.
    pub open spec fn inv(self, g: Graph) -> bool {
        &&& self.dist.len() == g.nodes.len()
        &&& self.pred.len() == g.nodes.len()
        &&& self.pred_arc.len() == g.nodes.len()
        &&& self.walks.len() == g.nodes.len()
        &&& self.stamps.len() == g.nodes.len()
        &&& self.dist[SOURCE as int] is Some
        &&& self.dist[SOURCE as int].unwrap() <= 0
        &&& self.pred[SOURCE as int] is None ==> self.dist[SOURCE as int] == Some(0i128)
        &&& forall|v: int| 0 <= v < g.nodes.len() ==> #[trigger] self.node_ok(g, v)
    }

    /// The state after arc `a`, which leaves node `u`, improved the distance
    /// of its end to `cand`.
    pub open spec fn improved(self, g: Graph, a: int, u: usize, cand: i128) -> SearchState {
        let v = g.arcs[a].end as int;
        SearchState {
            dist: self.dist.update(v, Some(cand)),
            pred: self.pred.update(v, Some(u)),
            pred_arc: self.pred_arc.update(v, a),
            walks: self.walks.update(v, self.walks[u as int].push(a)),
            stamps: self.stamps.update(v, self.clock),
            clock: self.clock + 1,
        }
    }
}

/// Nodes that are not waiting to be looked at again have all their arcs
/// relaxed. A node waits if it is marked in `pending`, or if it is marked in
/// `current` and the round has not come to it yet (`upto`).
pub open spec fn clean(g: Graph, dist: Distances, pending: Seq<bool>, current: Seq<bool>, upto: int) -> bool {
    forall|x: int|
        0 <= x < g.nodes.len() && x != SINK && dist[x] is Some && !pending[x] && (x < upto
            || !current[x]) ==> #[trigger] relaxed_all(g, dist, x)
}

/// Node `x` has come nearer under `dist` than it was under `base`, or was
/// not reached under `base`.
pub open spec fn gained(base: Distances, dist: Distances, x: int) -> bool {
    base[x] is None || (dist[x] is Some && dist[x].unwrap() < base[x].unwrap())
}

/// What holds in the middle of a round that began with the distances `base`:
/// no node is further than it was; the arcs of the nodes that the round has
/// dealt with, or need not deal with, carry the distances of `base` on; and
/// every node marked for the next round has come nearer.
pub open spec fn round_ok(
    g: Graph,
    base: Distances,
    dist: Distances,
    pending: Seq<bool>,
    current: Seq<bool>,
    upto: int,
) -> bool {
    &&& base.len() == g.nodes.len()
    &&& forall|x: int| 0 <= x < g.nodes.len() ==> #[trigger] no_worse(base, dist, x)
    &&& forall|x: int|
        0 <= x < g.nodes.len() && x != SINK && (x < upto || !current[x]) ==> #[trigger] carried_all(
            g,
            base,
            dist,
            x,
        )
    &&& forall|x: int| 0 <= x < g.nodes.len() && pending[x] ==> #[trigger] gained(base, dist, x)
}

/// An improvement that marks the improved node keeps what holds in the
/// middle of a round.
pub proof fn lemma_improved_round(
    g: Graph,
    base: Distances,
    dist: Distances,
    pending: Seq<bool>,
    current: Seq<bool>,
    upto: int,
    v: int,
    cand: i128,
)
    requires
        g.wf(),
        dist.len() == g.nodes.len(),
        pending.len() == g.nodes.len(),
        0 <= v < g.nodes.len(),
        round_ok(g, base, dist, pending, current, upto),
        dist[v] is Some ==> cand < dist[v].unwrap(),
    ensures
        round_ok(
            g,
            base,
            dist.update(v, Some(cand)),
            if v != SINK {
                pending.update(v, true)
            } else {
                pending
            },
            current,
            upto,
        ),
{
    let dist2 = dist.update(v, Some(cand));
    let pending2 = if v != SINK {
        pending.update(v, true)
    } else {
        pending
    };
    assert forall|x: int| 0 <= x < g.nodes.len() implies #[trigger] no_worse(base, dist2, x) by {
        assert(no_worse(base, dist, x));
    }
    assert forall|x: int|
        0 <= x < g.nodes.len() && x != SINK && (x < upto || !current[x]) implies #[trigger] carried_all(
        g,
        base,
        dist2,
        x,
    ) by {
        assert(carried_all(g, base, dist, x));
        assert(g.list_ok(x));
        assert forall|j: int| 0 <= j < g.nodes[x].len() implies carried(
            g,
            base,
            dist2,
            (#[trigger] g.nodes[x][j]) as int,
        ) by {
            let b = g.nodes[x][j] as int;
            assert(carried(g, base, dist, b));
            assert(g.arc_ok(b));
        }
    }
    assert forall|x: int| 0 <= x < g.nodes.len() && pending2[x] implies #[trigger] gained(base, dist2, x) by {
        assert(no_worse(base, dist, x));
        if x != v {
            assert(gained(base, dist, x));
        }
    }
}

/// Marks are set only for reached nodes other than the sink.
pub open spec fn marks_ok(g: Graph, dist: Distances, marks: Seq<bool>) -> bool {
    &&& marks.len() == g.nodes.len()
    &&& !marks[SINK as int]
    &&& forall|x: int| 0 <= x < marks.len() && #[trigger] marks[x] ==> dist[x] is Some
}

/// An improvement keeps what holds throughout a search.
pub proof fn lemma_improved_inv(g: Graph, st: SearchState, a: int, start: usize, cand: i128)
    requires
        g.wf(),
        st.inv(g),
        g.followable(a),
        g.arcs[a].start == start,
        st.dist[start as int] is Some,
        cand == st.dist[start as int].unwrap() + g.arcs[a].cost,
        -cost_span(g.nodes.len() - 1) <= cand,
        st.dist[g.arcs[a].end as int] is Some ==> cand < st.dist[g.arcs[a].end as int].unwrap(),
    ensures
        st.improved(g, a, start, cand).inv(g),
{
    let u = start as int;
    let v = g.arcs[a].end as int;
    let st2 = st.improved(g, a, start, cand);
    assert(g.arc_ok(a));
    assert(st.node_ok(g, u));
    assert(st.node_ok(g, v));
    lemma_walk_push(g, st.walks[u], SOURCE as int, a);
    let marks = reached(st.dist);
    assert(reached(st2.dist) =~= marks.update(v, true));
    lemma_count_true_update(marks, v, true);
    let c1 = count_true(marks) as int;
    let c2 = count_true(reached(st2.dist)) as int;
    assert(cost_span(c2 - 1) >= cost_span(c1 - 1));
    assert(st.dist[v] is None ==> cost_span(c2 - 1) == cost_span(c1 - 1) + 0x4000_0000_0000_0000);
    assert forall|x: int| 0 <= x < g.nodes.len() implies #[trigger] st2.node_ok(g, x) by {
        assert(st.node_ok(g, x));
        if x == v {
            assert(st2.walks[x] == st.walks[u].push(a));
            assert(st2.pred[x] == Some(start));
            assert(st2.pred_arc[x] == a);
            assert(st2.dist[x] == Some(cand));
            assert(st2.stamps[x] == st.clock);
            if u == v {
                assert(g.arcs[a].cost < 0);
            } else {
                assert(st2.dist[u] == st.dist[u]);
                assert(st2.stamps[u] == st.stamps[u]);
            }
        } else {
            assert(st2.dist[x] == st.dist[x]);
            assert(st2.pred[x] == st.pred[x]);
            assert(st2.stamps[x] == st.stamps[x]);
            if st.pred[x] is Some {
                let p = st.pred[x].unwrap() as int;
                assert(st.node_ok(g, p));
                if p == v {
                    assert(st2.dist[p].unwrap() < st.dist[p].unwrap());
                } else {
                    assert(st2.dist[p] == st.dist[p]);
                    assert(st2.stamps[p] == st.stamps[p]);
                }
            }
        }
    }
}

/// An improvement that marks the improved node (unless it is the sink) keeps
/// the other nodes clean.
pub proof fn lemma_improved_clean(
    g: Graph,
    dist: Distances,
    pending: Seq<bool>,
    current: Seq<bool>,
    upto: int,
    v: int,
    cand: i128,
)
    requires
        g.wf(),
        dist.len() == g.nodes.len(),
        pending.len() == g.nodes.len(),
        0 <= v < g.nodes.len(),
        clean(g, dist, pending, current, upto),
        dist[v] is Some ==> cand < dist[v].unwrap(),
    ensures
        clean(
            g,
            dist.update(v, Some(cand)),
            if v != SINK {
                pending.update(v, true)
            } else {
                pending
            },
            current,
            upto,
        ),
{
    let dist2 = dist.update(v, Some(cand));
    let pending2 = if v != SINK {
        pending.update(v, true)
    } else {
        pending
    };
    assert forall|x: int|
        0 <= x < g.nodes.len() && x != SINK && dist2[x] is Some && !pending2[x] && (x < upto
            || !current[x]) implies #[trigger] relaxed_all(g, dist2, x) by {
        assert(x != v);
        assert(relaxed_all(g, dist, x));
        assert(g.list_ok(x));
        assert forall|j: int| 0 <= j < g.nodes[x].len() implies relaxed(
            g,
            dist2,
            (#[trigger] g.nodes[x][j]) as int,
        ) by {
            let b = g.nodes[x][j] as int;
            assert(relaxed(g, dist, b));
            assert(g.arcs[b].start == x);
            assert(g.arc_ok(b));
        }
    }
}

/// A vector of `n` copies of `value`.
pub fn filled<T: Copy>(value: T, n: usize) -> (v: Vec<T>)
    ensures
        v@.len() == n,
        forall|i: int| 0 <= i < n ==> v@[i] == value,
{
    let mut v: Vec<T> = Vec::with_capacity(n);
    let mut i: usize = 0;
    while i < n
        invariant
            i <= n,
            v@.len() == i,
            forall|j: int| 0 <= j < i ==> v@[j] == value,
        decreases n - i,
    {
        v.push(value);
        i += 1;
    }
    v
}

impl Network {
    /// Relaxes arcs round by round until no distance improves any more.
    /// Returns the distances and, for each reached node, the node it was
    /// last reached from. Without a cycle of negative cost in reach, fewer
    /// rounds than there are nodes settle every distance.
    pub(crate) fn settle_distances(&self) -> (res: (Vec<Option<i128>>, Vec<Option<usize>>, Ghost<SearchState>))
        requires
            self.graph().wf(),
            !self.graph().has_negative_cycle(),
        ensures
            res.2@.inv(self.graph()),
            res.2@.dist == res.0@,
            res.2@.pred == res.1@,
            settled(self.graph(), res.0@),
    {
        let ghost g = self.graph();
        let n = self.nodes.len();
        assert(cost_span(n - 1) <= 0x4000_0000_0000_0000_0000_0000_0000_0000) by {
            assert(n - 1 <= 0xffff_ffff_ffff_ffff);
        }
        let ghost limit: int = cost_span(n - 1);
        let mut dist: Vec<Option<i128>> = filled(None, n);
        dist.set(SOURCE, Some(0));
        let mut pred: Vec<Option<usize>> = filled(None, n);
        let mut pending: Vec<bool> = filled(false, n);
        pending.set(SOURCE, true);
        let mut any_pending = true;
        let mut rounds: usize = 0;
        let ghost mut st = SearchState {
            dist: dist@,
            pred: pred@,
            pred_arc: Seq::new(n as nat, |i: int| 0int),
            walks: Seq::new(n as nat, |i: int| Seq::<int>::empty()),
            stamps: Seq::new(n as nat, |i: int| 0nat),
            clock: 1,
        };
        proof {
            let none = Seq::new(n as nat, |i: int| false);
            lemma_count_true_zero(none);
            lemma_count_true_update(none, SOURCE as int, true);
            assert(reached(st.dist) =~= none.update(SOURCE as int, true));
            assert(cost_span(0) == 0);
            assert forall|v: int| 0 <= v < g.nodes.len() implies #[trigger] st.node_ok(g, v) by {
                if v == SOURCE {
                    assert(g.is_walk(st.walks[v], SOURCE as int, v));
                }
            }
            assert(st.inv(g));
            assert(clean(g, dist@, pending@, Seq::new(n as nat, |i: int| false), 0));
            assert(covers(g, dist@, 0)) by {
                assert forall|w: Seq<int>, to: int| #[trigger]
                    g.is_walk(w, SOURCE as int, to) && w.len() <= 0 implies dist@[to] is Some
                    && dist@[to].unwrap() <= g.walk_cost(w) by {}
            }
        }
        let ghost mut last_base: Distances = dist@;
        let ghost mut marked: int = SOURCE as int;
        while any_pending && rounds < n
            invariant
                g == self.graph(),
                g.wf(),
                n == g.nodes.len(),
                limit == cost_span(n - 1),
                limit <= 0x4000_0000_0000_0000_0000_0000_0000_0000,
                st.inv(g),
                st.dist == dist@,
                st.pred == pred@,
                marks_ok(g, dist@, pending@),
                !any_pending ==> forall|x: int| 0 <= x < n ==> !pending@[x],
                any_pending ==> 0 <= marked < n && pending@[marked],
                clean(g, dist@, pending@, Seq::new(n as nat, |i: int| false), 0),
                !g.has_negative_cycle(),
                rounds < n,
                covers(g, dist@, rounds as int),
                rounds > 0 ==> covers(g, last_base, rounds - 1),
                rounds > 0 ==> forall|x: int| 0 <= x < n && pending@[x] ==> #[trigger] gained(last_base, dist@, x),
            decreases n - rounds,
        {
            proof {
                if rounds == n - 1 {
                    assert(st.node_ok(g, marked));
                    assert(gained(last_base, dist@, marked));
                    lemma_late_improvement(g, last_base, st.walks[marked], marked);
                }
            }
            let ghost base = dist@;
            let current = pending;
            pending = filled(false, n);
            any_pending = false;
            let mut u: usize = 0;
            proof {
                assert(round_ok(g, base, dist@, pending@, current@, 0)) by {
                    assert forall|x: int| 0 <= x < g.nodes.len() implies #[trigger] no_worse(base, dist@, x) by {}
                    assert forall|x: int|
                        0 <= x < g.nodes.len() && x != SINK && (x < 0 || !current@[x]) implies #[trigger] carried_all(
                        g,
                        base,
                        dist@,
                        x,
                    ) by {
                        if base[x] is Some {
                            assert(!Seq::new(n as nat, |i: int| false)[x]);
                            assert(relaxed_all(g, dist@, x));
                            assert forall|j: int| 0 <= j < g.nodes[x].len() implies carried(
                                g,
                                base,
                                dist@,
                                (#[trigger] g.nodes[x][j]) as int,
                            ) by {
                                assert(relaxed(g, dist@, g.nodes[x][j] as int));
                                assert(g.list_ok(x));
                            }
                        } else {
                            assert(g.list_ok(x));
                        }
                    }
                }
            }
            proof {
                assert(clean(g, dist@, pending@, current@, 0)) by {
                    assert forall|x: int|
                        0 <= x < g.nodes.len() && x != SINK && dist@[x] is Some && !pending@[x] && (x
                            < 0 || !current@[x]) implies #[trigger] relaxed_all(g, dist@, x) by {
                        assert(!Seq::new(n as nat, |i: int| false)[x]);
                    }
                }
            }
            while u < n
                invariant
                    g == self.graph(),
                    g.wf(),
                    n == g.nodes.len(),
                    limit == cost_span(n - 1),
                    limit <= 0x4000_0000_0000_0000_0000_0000_0000_0000,
                    st.inv(g),
                    st.dist == dist@,
                    st.pred == pred@,
                    marks_ok(g, dist@, pending@),
                    marks_ok(g, dist@, current@),
                    marks_ok(g, base, current@),
                    !any_pending ==> forall|x: int| 0 <= x < n ==> !pending@[x],
                    any_pending ==> 0 <= marked < n && pending@[marked],
                    clean(g, dist@, pending@, current@, u as int),
                    round_ok(g, base, dist@, pending@, current@, u as int),
                    !g.has_negative_cycle(),
                    u <= n,
                decreases n - u,
            {
                if current[u] {
                    let connections = self.nodes[u].get_connections();
                    let mut k: usize = 0;
                    proof {
                        assert(g.list_ok(u as int));
                    }
                    while k < connections.len()
                        invariant
                            g == self.graph(),
                            g.wf(),
                            n == g.nodes.len(),
                            limit == cost_span(n - 1),
                            limit <= 0x4000_0000_0000_0000_0000_0000_0000_0000,
                            st.inv(g),
                            st.dist == dist@,
                            st.pred == pred@,
                            marks_ok(g, dist@, pending@),
                            marks_ok(g, dist@, current@),
                            marks_ok(g, base, current@),
                            !any_pending ==> forall|x: int| 0 <= x < n ==> !pending@[x],
                            any_pending ==> 0 <= marked < n && pending@[marked],
                            clean(g, dist@, pending@, current@, u as int),
                            round_ok(g, base, dist@, pending@, current@, u as int),
                            forall|j: int|
                                0 <= j < k ==> carried(g, base, dist@, (#[trigger] connections@[j]) as int),
                            !g.has_negative_cycle(),
                            u < n,
                            current@[u as int],
                            connections@ == g.nodes[u as int],
                            g.list_ok(u as int),
                            k <= connections.len(),
                            !pending@[u as int] ==> forall|j: int|
                                0 <= j < k ==> relaxed(g, dist@, (#[trigger] connections@[j]) as int),
                        decreases connections.len() - k,
                    {
                        let arc_id = connections[k];
                        proof {
                            assert(arc_id < g.arcs.len());
                            assert(g.arc_ok(arc_id as int));
                            assert(g.arcs[arc_id as int].start == u);
                            assert(st.node_ok(g, u as int));
                        }
                        let v = self.arcs[arc_id].get_end_node_id();
                        let cost = self.arcs[arc_id].get_cost();
                        let here = dist[u].unwrap();
                        proof {
                            lemma_count_true_bound(reached(st.dist));
                            assert(cost_span(count_true(reached(st.dist)) - 1) <= cost_span(n - 1));
                            assert(st.node_ok(g, v as int));
                        }
                        let cand: i128 = here + (cost as i128);
                        let better = match dist[v] {
                            None => true,
                            Some(there) => cand < there,
                        };
                        proof {
                            assert(no_worse(base, dist@, u as int));
                        }
                        if better {
                            proof {
                                if cand < -limit {
                                    lemma_walk_push(g, st.walks[u as int], SOURCE as int, arc_id as int);
                                    lemma_too_cheap(g, st.walks[u as int].push(arc_id as int), v as int);
                                }
                                lemma_improved_round(
                                    g,
                                    base,
                                    dist@,
                                    pending@,
                                    current@,
                                    u as int,
                                    v as int,
                                    cand,
                                );
                                lemma_improved_inv(g, st, arc_id as int, u, cand);
                                lemma_improved_clean(
                                    g,
                                    dist@,
                                    pending@,
                                    current@,
                                    u as int,
                                    v as int,
                                    cand,
                                );
                                st = st.improved(g, arc_id as int, u, cand);
                            }
                            let ghost dist_before = dist@;
                            let ghost pending_before = pending@;
                            dist.set(v, Some(cand));
                            pred.set(v, Some(u));
                            if v != SINK {
                                pending.set(v, true);
                                any_pending = true;
                                proof {
                                    marked = v as int;
                                }
                            }
                            proof {
                                assert forall|j: int| 0 <= j <= k implies carried(
                                    g,
                                    base,
                                    dist@,
                                    (#[trigger] connections@[j]) as int,
                                ) by {
                                    let b = connections@[j] as int;
                                    assert(connections@[j] < g.arcs.len());
                                    assert(g.arc_ok(b));
                                    assert(g.arcs[b].start == u);
                                    if j < k {
                                        assert(carried(g, base, dist_before, b));
                                    }
                                }
                                assert(!pending@[u as int] ==> forall|j: int|
                                    0 <= j <= k ==> relaxed(g, dist@, (#[trigger] connections@[j]) as int))
                                    by {
                                    if !pending@[u as int] {
                                        assert(u != v || v == SINK);
                                        assert forall|j: int| 0 <= j <= k implies relaxed(
                                            g,
                                            dist@,
                                            (#[trigger] connections@[j]) as int,
                                        ) by {
                                            let b = connections@[j] as int;
                                            assert(connections@[j] < g.arcs.len());
                                            assert(g.arcs[b].start == u);
                                            assert(g.arc_ok(b));
                                            assert(dist@[u as int] == dist_before[u as int]);
                                            assert(!pending_before[u as int]);
                                            if j < k {
                                                assert(relaxed(g, dist_before, b));
                                            }
                                        }
                                    }
                                }
                            }
                        } else {
                            proof {
                                assert(relaxed(g, dist@, arc_id as int));
                                assert(carried(g, base, dist@, arc_id as int));
                            }
                        }
                        k += 1;
                    }
                    proof {
                        if !pending@[u as int] {
                            assert(relaxed_all(g, dist@, u as int));
                        }
                        assert(carried_all(g, base, dist@, u as int));
                    }
                }
                proof {
                    assert(clean(g, dist@, pending@, current@, u + 1));
                    assert(round_ok(g, base, dist@, pending@, current@, u + 1));
                }
                u += 1;
            }
            proof {
                assert(clean(g, dist@, pending@, Seq::new(n as nat, |i: int| false), 0));
                assert forall|a: int| g.followable(a) implies #[trigger] carried(g, base, dist@, a) by {
                    assert(g.arc_ok(a));
                    let x = g.arcs[a].start as int;
                    assert(carried_all(g, base, dist@, x));
                    let j = choose|j: int| 0 <= j < g.nodes[x].len() && g.nodes[x][j] == a as usize;
                    assert(carried(g, base, dist@, g.nodes[x][j] as int));
                }
                lemma_covers_step(g, base, dist@, rounds as int);
                last_base = base;
            }
            rounds += 1;
        }
        proof {
            assert forall|a: int| g.followable(a) implies #[trigger] relaxed(g, dist@, a) by {
                assert(g.arc_ok(a));
                let x = g.arcs[a].start as int;
                if dist@[x] is Some {
                    assert(!Seq::new(n as nat, |i: int| false)[x]);
                    assert(relaxed_all(g, dist@, x));
                    let j = choose|j: int| 0 <= j < g.nodes[x].len() && g.nodes[x][j] == a as usize;
                    assert(relaxed(g, dist@, g.nodes[x][j] as int));
                }
            }
            assert(all_relaxed(g, dist@));
            assert(st.node_ok(g, SOURCE as int));
            lemma_settled_bounds_walk(g, dist@, st.walks[SOURCE as int], SOURCE as int, SOURCE as int);
        }
        (dist, pred, Ghost(st))
    }

    /// Follows the nodes that the sink was reached over back to the source
    /// and returns them from the source to the sink.
    pub(crate) fn trace_path(
        &self,
        dist: &Vec<Option<i128>>,
        pred: &Vec<Option<usize>>,
        Ghost(st): Ghost<SearchState>,
    ) -> (res: (Vec<usize>, Ghost<Seq<int>>))
        requires
            self.graph().wf(),
            st.inv(self.graph()),
            st.dist == dist@,
            st.pred == pred@,
            settled(self.graph(), dist@),
            dist@[SINK as int] is Some,
        ensures
            traced(self.graph(), dist@, res.0@, res.1@),
    {
        let ghost g = self.graph();
        let n = self.nodes.len();
        let mut rev: Vec<usize> = Vec::new();
        rev.push(SINK);
        let mut cur: usize = SINK;
        let mut next = pred[cur];
        let ghost mut back: Seq<int> = Seq::empty();
        while next.is_some()
            invariant
                g == self.graph(),
                g.wf(),
                n == g.nodes.len(),
                st.inv(g),
                st.dist == dist@,
                st.pred == pred@,
                settled(g, dist@),
                rev@.len() >= 1,
                rev@[0] == SINK,
                cur == rev@[rev@.len() - 1],
                cur < n,
                next == pred@[cur as int],
                forall|i: int| 0 <= i < rev@.len() ==> (#[trigger] rev@[i]) < n && dist@[rev@[i] as int] is Some,
                forall|i: int| 0 <= i < rev@.len() - 1 ==> st.stamps[(#[trigger] rev@[i]) as int] > st.stamps[cur as int],
                rev@.no_duplicates(),
                back.len() == rev@.len() - 1,
                forall|i: int|
                    0 <= i < back.len() ==> tight_step(
                        g,
                        dist@,
                        #[trigger] back[i],
                        rev@[i + 1] as int,
                        rev@[i] as int,
                    ),
            decreases st.stamps[cur as int],
        {
            let u = next.unwrap();
            let ghost a = st.pred_arc[cur as int];
            proof {
                assert(st.node_ok(g, cur as int));
                assert(relaxed(g, dist@, a));
                assert(tight_step(g, dist@, a, u as int, cur as int));
                assert(st.stamps[u as int] < st.stamps[cur as int]);
            }
            let ghost rev_before = rev@;
            rev.push(u);
            proof {
                assert forall|i: int, j: int|
                    0 <= i < rev@.len() && 0 <= j < rev@.len() && i != j implies rev@[i] != rev@[j] by {
                    if i < rev_before.len() && j < rev_before.len() {
                        assert(rev_before[i] != rev_before[j]);
                    } else if i < rev_before.len() {
                        assert(st.stamps[rev_before[i] as int] >= st.stamps[cur as int]);
                    } else {
                        assert(st.stamps[rev_before[j] as int] >= st.stamps[cur as int]);
                    }
                }
                assert forall|i: int| 0 <= i < rev@.len() - 1 implies st.stamps[(#[trigger] rev@[i]) as int]
                    > st.stamps[u as int] by {
                    assert(rev@[i] == rev_before[i]);
                    assert(st.stamps[rev_before[i] as int] >= st.stamps[cur as int]);
                }
                let back_before = back;
                back = back.push(a);
                assert forall|i: int| 0 <= i < back.len() implies tight_step(
                    g,
                    dist@,
                    #[trigger] back[i],
                    rev@[i + 1] as int,
                    rev@[i] as int,
                ) by {
                    if i < back_before.len() {
                        assert(tight_step(g, dist@, back_before[i], rev_before[i + 1] as int, rev_before[i] as int));
                    }
                }
            }
            cur = u;
            next = pred[cur];
        }
        proof {
            assert(st.node_ok(g, cur as int));
            assert(cur == SOURCE);
        }
        let len = rev.len();
        let mut path: Vec<usize> = Vec::with_capacity(len);
        let mut i: usize = len;
        while i > 0
            invariant
                len == rev@.len(),
                i <= len,
                path@.len() == len - i,
                forall|j: int| 0 <= j < path@.len() ==> path@[j] == rev@[len - 1 - j],
            decreases i,
        {
            i -= 1;
            path.push(rev[i]);
        }
        let ghost w = Seq::new(back.len(), |j: int| back[back.len() - 1 - j]);
        proof {
            let p = path@;
            assert forall|j: int| 0 <= j < w.len() implies tight_step(
                g,
                dist@,
                #[trigger] w[j],
                p[j] as int,
                p[j + 1] as int,
            ) by {
                let i = back.len() - 1 - j;
                assert(tight_step(g, dist@, back[i], rev@[i + 1] as int, rev@[i] as int));
            }
            assert(p.no_duplicates()) by {
                assert forall|i: int, j: int| 0 <= i < p.len() && 0 <= j < p.len() && i != j implies p[i]
                    != p[j] by {
                    assert(rev@[len - 1 - i] != rev@[len - 1 - j]);
                }
            }
            assert forall|j: int| 0 <= j < p.len() - 1 implies (#[trigger] p[j]) != SINK && g.linked(
                p[j] as int,
                p[j + 1] as int,
            ) by {
                assert(tight_step(g, dist@, w[j], p[j] as int, p[j + 1] as int));
                assert(g.arc_ok(w[j]));
                let list = g.nodes[p[j] as int];
                let k = choose|k: int| 0 <= k < list.len() && list[k] == w[j] as usize;
                lemma_linked_from_member(g, p[j] as int, p[j + 1] as int, k);
            }
            assert forall|j: int| 0 <= j < p.len() implies (#[trigger] p[j]) < g.nodes.len() by {
                assert(rev@[len - 1 - j] < n);
            }
            assert(SOURCE != SINK);
            assert(p.len() >= 2) by {
                if p.len() < 2 {
                    assert(rev@[0] == SINK);
                }
            }
        }
        (path, Ghost(w))
    }

    /// Searches a cheapest path and returns it together with the distances
    /// that the search settled on.
    pub(crate) fn search(&self) -> (res: (
        Result<Vec<usize>, FeasibilityError>,
        Ghost<Distances>,
        Ghost<Seq<int>>,
    ))
        requires
            self.graph().wf(),
            !self.graph().has_negative_cycle(),
        ensures
            settled(self.graph(), res.1@),
            match res.0 {
                Ok(path) => traced(self.graph(), res.1@, path@, res.2@),
                Err(error) => {
                    &&& error.kind == FeasibilityKind::Infeasible
                    &&& error.message@ == message_of(error.kind)
                    &&& res.1@[SINK as int] is None
                },
            },
    {
        let (dist, pred, Ghost(st)) = self.settle_distances();
        if dist[SINK].is_none() {
            return (Err(FeasibilityError::new(FeasibilityKind::Infeasible)), Ghost(dist@), Ghost(Seq::empty()));
        }
        let (path, Ghost(w)) = self.trace_path(&dist, &pred, Ghost(st));
        (Ok(path), Ghost(dist@), Ghost(w))
    }

    /// Finds a cheapest path from the source to the sink over the arcs that
    /// do not leave the sink, and returns its nodes from the source to the
    /// sink. Fails as `Infeasible` just if no walk leads from the source to
    /// the sink.
    ///
    /// No walk from the source may reach a cycle of negative cost: then no
    /// path is cheapest, and distances would improve for ever. Networks that
    /// are built from tasks and workers never hold such a cycle, as
    /// `lemma_no_negative_cycle` shows.
    pub fn find_shortest_path(&self) -> (res: Result<Vec<usize>, FeasibilityError>)
        requires
            self.graph().wf(),
            !self.graph().has_negative_cycle(),
        ensures
            match res {
                Ok(path) => {
                    &&& self.graph().is_path(path@)
                    &&& path@.len() >= 2
                    &&& path@[0] == SOURCE
                    &&& path@[path@.len() - 1] == SINK
                    &&& self.graph().is_cheapest(path@)
                },
                Err(error) => error.kind == FeasibilityKind::Infeasible && error.message@ == message_of(
                    error.kind,
                ),
            },
            res is Ok <==> self.graph().reachable(SOURCE as int, SINK as int),
    {
        let (res, Ghost(dist), Ghost(w)) = self.search();
        proof {
            let g = self.graph();
            if res is Ok {
                lemma_traced_is_cheapest(g, dist, res->Ok_0@, w);
            } else {
                lemma_unreached_is_unreachable(g, dist);
            }
        }
        res
    }
}

} // verus!
