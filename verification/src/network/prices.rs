//! Prices: node potentials that also account for the workers a task could
//! give back. Under prices, no valid plan costs less than the assignment the
//! network follows.
//!
//! A potential keeps every arc that may be followed. Prices are a potential
//! under which, besides, no task that holds more workers than its minimum has
//! a number above that of the sink: giving one of its workers back would pay
//! nothing. Adding tasks and workers, pushing flow down a cheapest path and
//! changing phase all leave the network with prices.
use crate::network::balance::{lemma_task_below_minimum, lemma_push_task};
use crate::network::graph::{lemma_push_along_done, lemma_push_along_frame, Graph, SINK, SOURCE};
use crate::network::model::NetworkView;
use crate::network::potential::lemma_potential_bounds_walk;
use crate::network::walk::{
    Distances, lemma_tight_walk, lemma_walk_concat, lemma_walk_part, node_at, relaxed, settled,
    tight_step, traced,
};
use vstd::prelude::*;

verus! {

impl NetworkView {
    /// `pot` is a potential under which no task that holds more workers
    /// than its minimum has a number above that of the sink.
    pub open spec fn priced(self, pot: Seq<int>) -> bool {
        &&& self.graph.feasible(pot)
        &&& forall|t: int|
            self.is_task(t) && self.task_flow(t) > self.task_min(t) ==> #[trigger] pot[t] <= pot[SINK as int]
    }

    /// The network has prices.
    pub open spec fn has_prices(self) -> bool {
        exists|pot: Seq<int>| self.priced(pot)
    }
}

/// While minima are being met, every potential gives prices: no task holds
/// more workers than its minimum.
pub proof fn lemma_potential_prices(v: NetworkView, pot: Seq<int>)
    requires
        v.graph.wf(),
        v.book_ok(),
        !v.graph.min_flow_satisfied,
        v.graph.feasible(pot),
    ensures
        v.priced(pot),
{
    assert forall|t: int| v.is_task(t) && v.task_flow(t) > v.task_min(t) implies #[trigger] pot[t]
        <= pot[SINK as int] by {
        lemma_task_below_minimum(v, t);
    }
}

/// The number that a node gets after flow went down a path: its distance, or
/// its old number raised by as much as the sink's distance exceeds the
/// sink's old number, whichever is less.
pub open spec fn repriced(pot: Seq<int>, dist: Distances, x: int) -> int {
    let raised = pot[x] + dist[SINK as int].unwrap() - pot[SINK as int];
    if dist[x] is Some && dist[x].unwrap() < raised {
        dist[x].unwrap() as int
    } else {
        raised
    }
}

/// On a traced path every node gets its distance as its new number.
pub proof fn lemma_path_node_price(g: Graph, pot: Seq<int>, dist: Distances, path: Seq<usize>, w: Seq<int>, m: int)
    requires
        g.wf(),
        g.feasible(pot),
        settled(g, dist),
        traced(g, dist, path, w),
        0 <= m < path.len(),
    ensures
        dist[path[m] as int] is Some,
        repriced(pot, dist, path[m] as int) == dist[path[m] as int].unwrap(),
{
    let len = w.len() as int;
    lemma_tight_walk(g, dist, path, w, len);
    lemma_tight_walk(g, dist, path, w, m);
    assert(w.take(len) =~= w);
    let head = w.take(m);
    let tail = w.subrange(m, len);
    lemma_walk_part(g, w, SOURCE as int, SINK as int, m, len);
    if m > 0 {
        assert(tight_step(g, dist, w[m - 1], path[m - 1] as int, path[m] as int));
    }
    assert(node_at(g, w, SOURCE as int, m) == path[m]);
    assert(head =~= w.subrange(0, m));
    lemma_walk_concat(g, head, tail, SOURCE as int, path[m] as int, SINK as int);
    assert(head + tail =~= w);
    lemma_potential_bounds_walk(g, pot, tail, path[m] as int, SINK as int);
}

/// After flow went down a path that a settled search traced, the network
/// has prices again.
pub proof fn lemma_push_keeps_prices(v: NetworkView, pot: Seq<int>, dist: Distances, path: Seq<usize>, w: Seq<int>)
    requires
        v.wf(),
        v.priced(pot),
        settled(v.graph, dist),
        traced(v.graph, dist, path, w),
        forall|j: int| 0 <= j < w.len() ==> v.graph.step_arc(path, j) == #[trigger] w[j],
        v.with_graph(v.graph.push_along(path)).structured(),
    ensures
        v.with_graph(v.graph.push_along(path)).has_prices(),
{
    let g = v.graph;
    let last = path.len() - 1;
    let h = g.push_along(path);
    let after = v.with_graph(h);
    assert(path.take(last + 1) =~= path);
    lemma_push_along_frame(g, path, last);
    lemma_push_along_done(g, path, last);
    let new_pot = Seq::new(g.nodes.len(), |x: int| repriced(pot, dist, x));
    lemma_path_node_price(g, pot, dist, path, w, last);
    assert forall|a: int| h.followable(a) implies #[trigger] h.kept(new_pot, a) by {
        assert(g.arc_ok(a));
        assert(h.arc_ok(a));
        if g.takes(path, last, a) {
            let j = choose|j: int| 0 <= j < last && #[trigger] g.step_arc(path, j) == a;
            assert(h.arcs[g.step_arc(path, j) as int] == g.arcs[a].pushed(g.min_flow_satisfied));
            assert(w[j] == a);
            assert(tight_step(g, dist, w[j], path[j] as int, path[j + 1] as int));
            lemma_path_node_price(g, pot, dist, path, w, j);
            lemma_path_node_price(g, pot, dist, path, w, j + 1);
        } else {
            assert(h.arcs[a] == g.arcs[a]);
            assert(g.followable(a));
            assert(g.kept(pot, a));
            assert(relaxed(g, dist, a));
        }
    }
    assert(h.feasible(new_pot));
    let bumped = path[last - 1] as int;
    assert forall|t: int| after.is_task(t) && after.task_flow(t) > after.task_min(t) implies #[trigger] new_pot[t]
        <= new_pot[SINK as int] by {
        lemma_push_task(v, path, t);
        assert(after.task_min(t) == v.task_min(t)) by {
            crate::network::balance::lemma_stable_totals_one(v, h, t);
        }
        if t == bumped {
            lemma_path_node_price(g, pot, dist, path, w, last - 1);
            assert(tight_step(g, dist, w[last - 1], path[last - 1] as int, path[last] as int));
            crate::network::balance::lemma_path_shape(v, path, last - 1);
            assert(v.node_shape(t));
            crate::network::balance::lemma_owner(v, v.first_arc[t] as int, t);
        } else {
            assert(pot[t] <= pot[SINK as int]);
        }
    }
    assert(after.priced(new_pot));
}

} // verus!
