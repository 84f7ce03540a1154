//! What holds of an assignment network at every moment: how many workers
//! each task has taken on, and that every node the flow passes through keeps
//! as many arcs as it had.
use crate::network::arc::ArcView;
use crate::network::feasibility_error::FeasibilityKind;
use crate::network::graph::{
    Graph, lemma_flag_keeps_wf, lemma_phase_change_over, lemma_push_along_done,
    lemma_push_along_frame, lemma_step_arc_start, phase_done, SINK, SOURCE,
};
use crate::network::model::{
    is_unit, lemma_empty_structured, lemma_ranges_ordered, lemma_totals_frame, NetworkView,
    NodeKind,
};
use crate::network::plan::lemma_kept_same_problem;
use crate::network::potential::lemma_phase_keeps_potential;
use crate::network::prices::{lemma_potential_prices, lemma_push_keeps_prices};
use crate::network::walk::{settled, tight_step, traced, Distances};
use vstd::prelude::*;

verus! {

impl NetworkView {
    /// The arc between task `t` and the sink starts at the task: the task
    /// can still take a worker in the current phase.
    pub open spec fn is_open(self, t: int) -> bool {
        self.sink_arc(t).start == t
    }

    /// How many workers task `t` has taken on. While its arc leads to the
    /// sink, that is the arc's flow; once the arc has turned round, the task
    /// is at its minimum (while minima are being met) or at its maximum
    /// (afterwards).
    pub open spec fn task_flow(self, t: int) -> nat {
        let arc = self.sink_arc(t);
        if arc.start == t {
            arc.current_flow
        } else if self.graph.min_flow_satisfied {
            arc.max_flow
        } else {
            arc.min_flow
        }
    }

    /// How many workers the tasks among the first `upto` nodes have taken on.
    pub open spec fn flow_upto(self, upto: int) -> nat
        decreases upto,
    {
        if upto <= 0 {
            0
        } else {
            self.flow_upto(upto - 1) + if self.is_task(upto - 1) {
                self.task_flow(upto - 1)
            } else {
                0
            }
        }
    }

    /// How many workers have been assigned.
    pub open spec fn total_flow(self) -> nat {
        self.flow_upto(self.graph.nodes.len() as int)
    }

    /// Task `t` has as many arcs leaving it as it has taken on workers, and
    /// one more while its arc to the sink is open. Once minima count as met,
    /// an open task is at its minimum at least.
    pub open spec fn task_balanced(self, t: int) -> bool {
        &&& self.graph.nodes[t].len() == self.task_flow(t) + if self.is_open(t) {
            1nat
        } else {
            0nat
        }
        &&& self.graph.min_flow_satisfied && self.is_open(t) ==> self.sink_arc(t).current_flow
            >= self.sink_arc(t).min_flow
    }

    /// Worker `w` has as many arcs leaving it as it accepts tasks.
    pub open spec fn worker_balanced(self, w: int) -> bool {
        self.graph.nodes[w].len() == self.degree(w)
    }

    /// Every task and every worker is balanced, and every worker is either
    /// still connected from the source or counted by a task.
    pub open spec fn balanced(self) -> bool {
        &&& forall|t: int| self.is_task(t) ==> #[trigger] self.task_balanced(t)
        &&& forall|w: int| self.is_worker(w) ==> #[trigger] self.worker_balanced(w)
        &&& self.total_flow() + self.graph.nodes[SOURCE as int].len() == self.num_workers()
    }

    /// The network encodes an assignment problem and is balanced. This holds
    /// of every network that was built from tasks and workers, before,
    /// while and after workers are assigned.
    pub open spec fn wf(self) -> bool {
        &&& self.structured()
        &&& self.balanced()
        &&& self.has_prices()
    }

    /// No worker is assigned and minima are still being met: assigning has
    /// not begun, or has failed and left the network as it was.
    pub open spec fn unsolved(self) -> bool {
        &&& !self.graph.min_flow_satisfied
        &&& forall|w: int| self.is_worker(w) ==> (#[trigger] self.source_arc(w)).start == SOURCE
    }

    /// Every worker is assigned: no arc leaves the source any more, and the
    /// network has passed on to filling tasks up to their maxima.
    pub open spec fn solved(self) -> bool {
        &&& self.graph.nodes[SOURCE as int].len() == 0
        &&& self.graph.min_flow_satisfied
    }

    /// What is wrong with the number of workers, if anything: there are
    /// fewer than the minima of the tasks add up to, or more than their
    /// maxima add up to.
    pub open spec fn count_error(self) -> Option<FeasibilityKind> {
        if self.num_workers() < self.sum_of_minima {
            Some(FeasibilityKind::InsufficientWorkers)
        } else if self.num_workers() > self.sum_of_maxima {
            Some(FeasibilityKind::InsufficientCapacity)
        } else {
            None
        }
    }

    /// Minima are still being met, and the tasks together have taken on as
    /// many workers as their minima add up to.
    pub open spec fn phase_change_due(self) -> bool {
        !self.graph.min_flow_satisfied && self.total_flow() == self.sum_of_minima
    }

    /// The network after one more worker was assigned along `path`: a unit
    /// of flow went down the path, and the phase changed if with that unit
    /// every task reached its minimum.
    pub open spec fn augmented_along(self, path: Seq<usize>) -> NetworkView {
        let pushed = self.with_graph(self.graph.push_along(path));
        if pushed.phase_change_due() {
            pushed.with_graph(pushed.graph.phase_changed())
        } else {
            pushed
        }
    }

    /// The same network with another graph.
    pub open spec fn with_graph(self, graph: Graph) -> NetworkView {
        NetworkView { graph, ..self }
    }
}

/// What flow or the change of phase may have done to an arc: nothing, one
/// unit of flow, or the preparation for the second phase.
pub open spec fn arc_kept(before: ArcView, after: ArcView) -> bool {
    ||| after == before
    ||| after == before.pushed(true)
    ||| after == before.pushed(false)
    ||| after == before.phase_changed()
}

/// Flow and the change of phase keep the records consistent.
pub proof fn lemma_stable_book(v: NetworkView, h: Graph)
    requires
        v.book_ok(),
        h.nodes.len() == v.graph.nodes.len(),
        h.arcs.len() == v.graph.arcs.len(),
    ensures
        v.with_graph(h).book_ok(),
        forall|x: int| 0 <= x < v.graph.nodes.len() ==> v.with_graph(h).next_arc(x) == v.next_arc(x),
{
    let w = v.with_graph(h);
    assert(w.task_marks() =~= v.task_marks());
    assert forall|x: int| 2 <= x < h.nodes.len() implies #[trigger] w.node_shape(x) by {
        assert(v.node_shape(x));
    }
    assert forall|nm: Seq<char>| #[trigger] w.task_ids.dom().contains(nm) implies w.is_task(
        w.task_ids[nm] as int,
    ) && w.names[w.task_ids[nm] as int] == nm by {
        assert(v.task_ids.dom().contains(nm));
    }
}

/// Flow and the change of phase keep an arc one of the three kinds.
pub proof fn lemma_stable_shape(v: NetworkView, h: Graph, b: int)
    requires
        v.book_ok(),
        h.nodes.len() == v.graph.nodes.len(),
        h.arcs.len() == v.graph.arcs.len(),
        0 <= b < h.arcs.len(),
        v.arc_shape(b),
        arc_kept(v.graph.arcs[b], h.arcs[b]),
    ensures
        v.with_graph(h).arc_shape(b),
{
    let w = v.with_graph(h);
    let old_arc = v.graph.arcs[b];
    let p = old_arc.start as int;
    let q = old_arc.end as int;
    lemma_stable_book(v, h);
    if v.shape_between(b, p, q) {
        assert(w.shape_between(b, p, q));
    } else {
        assert(w.shape_between(b, q, p));
    }
}

/// Flow and the change of phase leave no two arcs between the same two
/// nodes.
pub proof fn lemma_stable_simple(v: NetworkView, h: Graph)
    requires
        v.simple(),
        h.arcs.len() == v.graph.arcs.len(),
        forall|a: int| 0 <= a < h.arcs.len() ==> arc_kept(v.graph.arcs[a], #[trigger] h.arcs[a]),
    ensures
        v.with_graph(h).simple(),
{
    let g = v.graph;
    let w = v.with_graph(h);
    assert forall|b: int, c: int|
        0 <= b < h.arcs.len() && 0 <= c < h.arcs.len() && b != c implies #[trigger] w.apart(b, c) by {
        assert(arc_kept(g.arcs[b], h.arcs[b]));
        assert(arc_kept(g.arcs[c], h.arcs[c]));
        assert(v.apart(b, c));
    }
}

/// Flow and the change of phase leave the bounds of every task, and so the
/// totals, as they are.
pub proof fn lemma_stable_totals(v: NetworkView, h: Graph)
    requires
        v.book_ok(),
        h.nodes.len() == v.graph.nodes.len(),
        h.arcs.len() == v.graph.arcs.len(),
        forall|a: int| 0 <= a < h.arcs.len() ==> arc_kept(v.graph.arcs[a], #[trigger] h.arcs[a]),
    ensures
        forall|t: int|
            v.is_task(t) ==> (#[trigger] v.with_graph(h).sink_arc(t)).min_flow == v.sink_arc(t).min_flow
                && v.with_graph(h).sink_arc(t).max_flow == v.sink_arc(t).max_flow,
        v.with_graph(h).minima_upto(h.nodes.len() as int) == v.minima_upto(h.nodes.len() as int),
        v.with_graph(h).maxima_upto(h.nodes.len() as int) == v.maxima_upto(h.nodes.len() as int),
{
    let w = v.with_graph(h);
    let g = v.graph;
    assert forall|t: int| v.is_task(t) implies (#[trigger] w.sink_arc(t)).min_flow == v.sink_arc(t).min_flow
        && w.sink_arc(t).max_flow == v.sink_arc(t).max_flow by {
        assert(v.node_shape(t));
        lemma_ranges_ordered(v, t, t);
        assert(arc_kept(g.arcs[v.first_arc[t] as int], h.arcs[v.first_arc[t] as int]));
    }
    assert forall|x: int| 0 <= x < h.nodes.len() && v.kinds[x] == NodeKind::Task implies {
        &&& (#[trigger] v.sink_arc(x)).min_flow == w.sink_arc(x).min_flow
        &&& v.sink_arc(x).max_flow == w.sink_arc(x).max_flow
    } by {
        assert(v.is_task(x));
        assert(w.sink_arc(x).min_flow == v.sink_arc(x).min_flow);
    }
    lemma_totals_frame(v, w, h.nodes.len() as int);
}

/// Flow and the change of phase leave the bounds of a task as they are.
pub proof fn lemma_stable_totals_one(v: NetworkView, h: Graph, t: int)
    requires
        v.book_ok(),
        h.nodes.len() == v.graph.nodes.len(),
        h.arcs.len() == v.graph.arcs.len(),
        forall|a: int| 0 <= a < h.arcs.len() ==> arc_kept(v.graph.arcs[a], #[trigger] h.arcs[a]),
        v.is_task(t),
    ensures
        v.with_graph(h).task_min(t) == v.task_min(t),
        v.with_graph(h).task_max(t) == v.task_max(t),
{
    lemma_stable_totals(v, h);
    assert(v.with_graph(h).sink_arc(t).min_flow == v.sink_arc(t).min_flow);
}

/// Flow and the change of phase keep the network an encoding of an
/// assignment problem.
pub proof fn lemma_structured_stable(v: NetworkView, h: Graph)
    requires
        v.structured(),
        h.wf(),
        h.nodes.len() == v.graph.nodes.len(),
        h.arcs.len() == v.graph.arcs.len(),
        forall|a: int| 0 <= a < h.arcs.len() ==> arc_kept(v.graph.arcs[a], #[trigger] h.arcs[a]),
    ensures
        v.with_graph(h).structured(),
{
    let w = v.with_graph(h);
    lemma_stable_book(v, h);
    assert forall|b: int| 0 <= b < h.arcs.len() implies #[trigger] w.arc_shape(b) by {
        assert(arc_kept(v.graph.arcs[b], h.arcs[b]));
        lemma_stable_shape(v, h, b);
    }
    lemma_stable_simple(v, h);
    lemma_stable_totals(v, h);
}

/// If every task has taken on the same number of workers in two networks,
/// except that task `bumped` has taken on one more in the second, then so
/// have the tasks together.
pub proof fn lemma_flow_bump(v: NetworkView, w: NetworkView, upto: int, bumped: int)
    requires
        v.kinds == w.kinds,
        upto <= v.kinds.len(),
        forall|x: int| 0 <= x < upto && v.is_task(x) && x != bumped ==> #[trigger] w.task_flow(x) == v.task_flow(x),
        0 <= bumped < upto ==> v.is_task(bumped) && w.task_flow(bumped) == v.task_flow(bumped) + 1,
    ensures
        w.flow_upto(upto) == v.flow_upto(upto) + if 0 <= bumped < upto {
            1nat
        } else {
            0nat
        },
    decreases upto,
{
    if upto > 0 {
        lemma_flow_bump(v, w, upto - 1, bumped);
    }
}

/// If no task has taken on more workers than its minimum, and open tasks
/// fewer, then the tasks together have taken on no more than their minima
/// add up to; and if they have taken on as many, no task is open.
pub proof fn lemma_minima_met(v: NetworkView, upto: int)
    requires
        forall|t: int|
            v.is_task(t) ==> (#[trigger] v.task_flow(t)) <= v.task_min(t) && (v.is_open(t)
                ==> v.task_flow(t) < v.task_min(t)),
    ensures
        v.flow_upto(upto) <= v.minima_upto(upto),
        v.flow_upto(upto) == v.minima_upto(upto) ==> forall|t: int|
            0 <= t < upto && v.is_task(t) ==> !#[trigger] v.is_open(t),
    decreases upto,
{
    if upto > 0 {
        lemma_minima_met(v, upto - 1);
        let t = upto - 1;
        if v.is_task(t) {
            assert(v.task_flow(t) <= v.task_min(t));
        }
        if v.flow_upto(upto) == v.minima_upto(upto) {
            assert(v.flow_upto(upto - 1) == v.minima_upto(upto - 1));
            assert forall|x: int| 0 <= x < upto && v.is_task(x) implies !#[trigger] v.is_open(x) by {
                if x == t {
                    assert(v.task_flow(t) <= v.task_min(t));
                }
            }
        }
    }
}

/// While minima are being met, no task has taken on more workers than its
/// minimum, and an open task has taken on fewer.
pub proof fn lemma_task_below_minimum(v: NetworkView, t: int)
    requires
        v.graph.wf(),
        v.book_ok(),
        !v.graph.min_flow_satisfied,
        v.is_task(t),
    ensures
        v.task_flow(t) <= v.task_min(t),
        v.is_open(t) ==> v.task_flow(t) < v.task_min(t),
{
    assert(v.node_shape(t));
    lemma_ranges_ordered(v, t, t);
    assert(v.graph.arc_ok(v.first_arc[t] as int));
}

/// While minima are being met, the tasks together have taken on no more
/// workers than their minima add up to; and if they have taken on as many,
/// no task is open any more.
pub proof fn lemma_flow_below_minima(v: NetworkView)
    requires
        v.structured(),
        !v.graph.min_flow_satisfied,
    ensures
        v.total_flow() <= v.sum_of_minima,
        v.total_flow() == v.sum_of_minima ==> forall|t: int| v.is_task(t) ==> !#[trigger] v.is_open(t),
{
    assert forall|t: int| v.is_task(t) implies (#[trigger] v.task_flow(t)) <= v.task_min(t) && (v.is_open(
        t,
    ) ==> v.task_flow(t) < v.task_min(t)) by {
        lemma_task_below_minimum(v, t);
    }
    lemma_minima_met(v, v.graph.nodes.len() as int);
}

/// On a path from the source to the sink, every arc but the last carries a
/// single unit and inverts when flow goes down it; the last is the open arc
/// of a task to the sink.
pub proof fn lemma_path_shape(v: NetworkView, path: Seq<usize>, j: int)
    requires
        v.structured(),
        v.graph.is_path(path),
        path.len() >= 2,
        path[0] == SOURCE,
        path[path.len() - 1] == SINK,
        0 <= j < path.len() - 1,
    ensures
        j < path.len() - 2 ==> is_unit(v.graph.arcs[v.graph.step_arc(path, j) as int]) && v.graph.inverts(
            v.graph.step_arc(path, j) as int,
        ),
        j < path.len() - 2 ==> v.graph.step_arc(path, j) != v.first_arc[path[j] as int]
            || !v.is_task(path[j] as int),
        j == path.len() - 2 ==> v.is_task(path[j] as int) && v.graph.step_arc(path, j)
            == v.first_arc[path[j] as int] && v.is_open(path[j] as int),
        j == 0 ==> path.len() >= 3,
        j > 0 ==> v.is_task(path[j] as int) || v.is_worker(path[j] as int),
        v.is_worker(path[j] as int) ==> j < path.len() - 2,
{
    let g = v.graph;
    lemma_step_arc_start(g, path, j);
    let a = g.step_arc(path, j) as int;
    let p = path[j] as int;
    let q = path[j + 1] as int;
    assert(v.arc_shape(a));
    assert(path[j] != SINK);
    if j + 1 < path.len() - 1 {
        assert(path[j + 1] != path[path.len() - 1]);
    }
    if j > 0 {
        assert(path[j] != path[0]);
    }
    assert(path[j + 1] != path[0]);
    assert(path[j] != path[j + 1]);
    if j < path.len() - 2 && v.is_task(p) {
        assert(v.node_shape(p));
        if p < q {
            lemma_ranges_ordered(v, p, q);
        } else {
            lemma_ranges_ordered(v, q, p);
        }
    }
}

/// The arcs that were added with a node join it to the nodes they were made
/// for: a task's arc joins it to the sink; a worker's first arc joins it to
/// the source, and its other arcs join it to tasks.
pub proof fn lemma_owner(v: NetworkView, a: int, x: int)
    requires
        v.structured(),
        2 <= x < v.graph.nodes.len(),
        v.first_arc[x] <= a < v.next_arc(x),
    ensures
        0 <= a < v.graph.arcs.len(),
        v.is_task(x) ==> v.graph.arcs[a].joins(x as nat, SINK as nat) && v.graph.arcs[a].cost == 0 && a
            == v.first_arc[x],
        v.is_worker(x) && a == v.first_arc[x] ==> v.graph.arcs[a].joins(SOURCE as nat, x as nat) && is_unit(
            v.graph.arcs[a],
        ),
        v.is_worker(x) && a > v.first_arc[x] ==> is_unit(v.graph.arcs[a]) && ((v.graph.arcs[a].start == x
            && v.is_task(v.graph.arcs[a].end as int)) || (v.graph.arcs[a].end == x && v.is_task(
            v.graph.arcs[a].start as int,
        ))),
{
    lemma_ranges_ordered(v, x, x);
    assert(v.arc_shape(a));
    assert(v.graph.arc_ok(a));
    assert(v.node_shape(x));
    let arc = v.graph.arcs[a];
    let p = arc.start as int;
    let q = arc.end as int;
    // The node that the arc was added with, as its shape tells.
    let y = if v.shape_between(a, p, q) {
        if p == SOURCE {
            q
        } else {
            p
        }
    } else {
        if q == SOURCE {
            p
        } else {
            q
        }
    };
    assert(2 <= y < v.graph.nodes.len());
    assert(v.node_shape(y));
    assert(v.first_arc[y] <= a < v.next_arc(y));
    if x < y {
        lemma_ranges_ordered(v, x, y);
    } else if y < x {
        lemma_ranges_ordered(v, y, x);
    }
    assert(x == y);
}

/// Flow down a path from the source to the sink keeps every task balanced,
/// and the task before the sink takes on one worker more.
pub proof fn lemma_push_task(v: NetworkView, path: Seq<usize>, t: int)
    requires
        v.wf(),
        v.graph.is_path(path),
        path.len() >= 2,
        path[0] == SOURCE,
        path[path.len() - 1] == SINK,
        v.is_task(t),
    ensures
        v.with_graph(v.graph.push_along(path)).task_balanced(t),
        v.with_graph(v.graph.push_along(path)).task_flow(t) == v.task_flow(t) + if t == path[path.len()
            - 2] {
            1nat
        } else {
            0nat
        },
{
    let g = v.graph;
    let last = path.len() - 1;
    let h = g.push_along(path);
    let w = v.with_graph(h);
    assert(path.take(last + 1) =~= path);
    lemma_push_along_frame(g, path, last);
    lemma_push_along_done(g, path, last);
    lemma_path_shape(v, path, 0);
    assert(v.node_shape(t));
    lemma_owner(v, v.first_arc[t] as int, t);
    let sa = v.first_arc[t] as int;
    assert(v.task_balanced(t));
    assert(t != SOURCE && t != SINK);
    if path.contains(t as usize) {
        let j = choose|j: int| 0 <= j < path.len() && path[j] == t as usize;
        assert(0 < j < last);
        lemma_path_shape(v, path, j);
        lemma_path_shape(v, path, j - 1);
        lemma_step_arc_start(g, path, j);
        lemma_step_arc_start(g, path, j - 1);
        assert(h.nodes[path[j] as int].len() == g.nodes[path[j] as int].len() + g.list_change(path, j));
        if j < last - 1 {
            assert(g.list_change(path, j) == 0);
            assert(!g.takes(path, last, sa)) by {
                if g.takes(path, last, sa) {
                    let i = choose|i: int| 0 <= i < last && #[trigger] g.step_arc(path, i) == sa;
                    lemma_step_arc_start(g, path, i);
                    assert(path[i] != SINK);
                    assert(path[i] == path[j]);
                }
            }
            assert(h.arcs[sa] == g.arcs[sa]);
        } else {
            assert(g.step_arc(path, j) == sa);
            assert(h.arcs[g.step_arc(path, j) as int] == g.arcs[sa].pushed(g.min_flow_satisfied));
            assert(g.arc_ok(sa));
        }
    } else {
        assert(h.nodes[t] == g.nodes[t]);
        assert(!g.takes(path, last, sa)) by {
            if g.takes(path, last, sa) {
                let i = choose|i: int| 0 <= i < last && #[trigger] g.step_arc(path, i) == sa;
                lemma_step_arc_start(g, path, i);
                assert(path[i] != SINK);
                assert(path.contains(path[i]));
            }
        }
        assert(h.arcs[sa] == g.arcs[sa]);
        assert(path[last - 1] != t as usize) by {
            assert(path.contains(path[last - 1]));
        }
    }
}

/// Flow down a path from the source to the sink keeps every worker
/// balanced.
pub proof fn lemma_push_worker(v: NetworkView, path: Seq<usize>, x: int)
    requires
        v.wf(),
        v.graph.is_path(path),
        path.len() >= 2,
        path[0] == SOURCE,
        path[path.len() - 1] == SINK,
        v.is_worker(x),
    ensures
        v.graph.push_along(path).nodes[x].len() == v.graph.nodes[x].len(),
{
    let g = v.graph;
    let last = path.len() - 1;
    let h = g.push_along(path);
    assert(path.take(last + 1) =~= path);
    lemma_push_along_done(g, path, last);
    assert(v.worker_balanced(x));
    if path.contains(x as usize) {
        let j = choose|j: int| 0 <= j < path.len() && path[j] == x as usize;
        assert(0 < j < last);
        lemma_path_shape(v, path, j);
        lemma_path_shape(v, path, j - 1);
        assert(h.nodes[path[j] as int].len() == g.nodes[path[j] as int].len() + g.list_change(path, j));
    } else {
        assert(h.nodes[x] == g.nodes[x]);
    }
}

/// Flow down a path from the source to the sink keeps the network a balanced
/// encoding of an assignment problem; one worker more is assigned and one
/// arc fewer leaves the source.
pub proof fn lemma_push_keeps_wf(v: NetworkView, path: Seq<usize>, dist: Distances, w: Seq<int>)
    requires
        v.wf(),
        settled(v.graph, dist),
        traced(v.graph, dist, path, w),
    ensures
        v.with_graph(v.graph.push_along(path)).wf(),
        v.with_graph(v.graph.push_along(path)).total_flow() == v.total_flow() + 1,
        v.graph.push_along(path).nodes[SOURCE as int].len() == v.graph.nodes[SOURCE as int].len() - 1,
        v.graph.push_along(path).min_flow_satisfied == v.graph.min_flow_satisfied,
        v.graph.push_along(path).arcs.len() == v.graph.arcs.len(),
        v.same_problem(v.with_graph(v.graph.push_along(path))),
{
    let g = v.graph;
    let last = path.len() - 1;
    let h = g.push_along(path);
    let after = v.with_graph(h);
    assert(path.take(last + 1) =~= path);
    lemma_push_along_frame(g, path, last);
    lemma_push_along_done(g, path, last);
    assert forall|a: int| 0 <= a < h.arcs.len() implies arc_kept(g.arcs[a], #[trigger] h.arcs[a]) by {
        if g.takes(path, last, a) {
            let j = choose|j: int| 0 <= j < last && #[trigger] g.step_arc(path, j) == a;
            assert(h.arcs[g.step_arc(path, j) as int] == g.arcs[a].pushed(g.min_flow_satisfied));
        }
    }
    lemma_structured_stable(v, h);
    lemma_stable_book(v, h);
    lemma_kept_same_problem(v, h);
    lemma_path_shape(v, path, 0);
    lemma_path_shape(v, path, last - 1);
    let bumped = path[last - 1] as int;
    assert forall|t: int| after.is_task(t) implies #[trigger] after.task_balanced(t) by {
        lemma_push_task(v, path, t);
    }
    assert forall|x: int| after.is_worker(x) implies #[trigger] after.worker_balanced(x) by {
        lemma_push_worker(v, path, x);
        assert(v.worker_balanced(x));
    }
    assert forall|x: int| 0 <= x < h.nodes.len() && v.is_task(x) && x != bumped implies #[trigger] after.task_flow(
        x,
    ) == v.task_flow(x) by {
        lemma_push_task(v, path, x);
    }
    lemma_push_task(v, path, bumped);
    lemma_flow_bump(v, after, h.nodes.len() as int, bumped);
    assert(h.nodes[path[0] as int].len() == g.nodes[path[0] as int].len() + g.list_change(path, 0));
    let pot = choose|pot: Seq<int>| v.priced(pot);
    assert forall|j: int| 0 <= j < w.len() implies g.step_arc(path, j) == #[trigger] w[j] by {
        lemma_step_arc_start(g, path, j);
        assert(tight_step(g, dist, w[j], path[j] as int, path[j + 1] as int));
        if g.step_arc(path, j) != w[j] {
            assert(v.apart(g.step_arc(path, j) as int, w[j]));
        }
    }
    lemma_push_keeps_prices(v, pot, dist, path, w);
}

/// An arc that starts at the sink is the arc of the task it ends at.
pub proof fn lemma_sink_list(v: NetworkView, a: int)
    requires
        v.structured(),
        0 <= a < v.graph.arcs.len(),
        v.graph.arcs[a].start == SINK,
    ensures
        v.is_task(v.graph.arcs[a].end as int),
        a == v.first_arc[v.graph.arcs[a].end as int],
{
    assert(v.arc_shape(a));
}

/// The arc of a task that is not open is listed at the sink.
pub proof fn lemma_closed_task(v: NetworkView, t: int)
    requires
        v.structured(),
        v.is_task(t),
        !v.is_open(t),
    ensures
        v.first_arc[t] < v.graph.arcs.len(),
        v.sink_arc(t).start == SINK,
        v.sink_arc(t).end == t,
        v.graph.nodes[SINK as int].contains(v.first_arc[t]),
{
    assert(v.node_shape(t));
    lemma_owner(v, v.first_arc[t] as int, t);
    assert(v.graph.arc_ok(v.first_arc[t] as int));
}

/// Once every task is at its minimum, the change of phase keeps the network
/// a balanced encoding of an assignment problem, assigns nobody, and leaves
/// the source as it is.
pub proof fn lemma_phase_keeps_wf(v: NetworkView)
    requires
        v.wf(),
        !v.graph.min_flow_satisfied,
        forall|t: int| v.is_task(t) ==> !#[trigger] v.is_open(t),
    ensures
        v.with_graph(v.graph.phase_changed()).wf(),
        v.with_graph(v.graph.phase_changed()).total_flow() == v.total_flow(),
        v.graph.phase_changed().nodes[SOURCE as int] == v.graph.nodes[SOURCE as int],
        v.graph.phase_changed().min_flow_satisfied,
        v.graph.phase_changed().arcs.len() == v.graph.arcs.len(),
        v.same_problem(v.with_graph(v.graph.phase_changed())),
{
    let g = v.graph;
    let g1 = Graph { min_flow_satisfied: true, ..g };
    let list = g.nodes[SINK as int];
    let h = g.phase_changed();
    let w = v.with_graph(h);
    lemma_flag_keeps_wf(g);
    assert(g.list_ok(SINK as int));
    assert(g1.fan_ok(list)) by {
        assert forall|j: int| 0 <= j < list.len() implies (#[trigger] list[j]) < g1.arcs.len()
            && g1.arcs[list[j] as int].start == SINK && g1.arcs[list[j] as int].end != SINK by {
            assert(list[j] < g.arcs.len());
            lemma_sink_list(v, list[j] as int);
        }
        assert forall|i: int, j: int| 0 <= i < list.len() && 0 <= j < list.len() && i != j implies g1.arcs[(
        #[trigger] list[i]) as int].end != g1.arcs[(#[trigger] list[j]) as int].end by {
            assert(list[i] < g.arcs.len());
            assert(list[j] < g.arcs.len());
            lemma_sink_list(v, list[i] as int);
            lemma_sink_list(v, list[j] as int);
        }
    }
    lemma_phase_change_over(g1, list, list.len() as int);
    assert(list.take(list.len() as int) =~= list);
    assert(phase_done(g1, h, list, list.len() as int));
    assert forall|a: int| 0 <= a < h.arcs.len() implies arc_kept(g.arcs[a], #[trigger] h.arcs[a]) by {
        if list.contains(a as usize) {
            let j = choose|j: int| 0 <= j < list.len() && list[j] == a as usize;
            assert(h.arcs[list[j] as int] == g1.arcs[list[j] as int].phase_changed());
        }
    }
    lemma_kept_same_problem(v, h);
    lemma_structured_stable(v, g1);
    let v1 = v.with_graph(g1);
    assert(v1.with_graph(h) == w);
    lemma_structured_stable(v1, h);
    lemma_stable_book(v, h);
    assert forall|t: int| w.is_task(t) implies #[trigger] w.task_balanced(t) && w.task_flow(t)
        == v.task_flow(t) by {
        assert(v.task_balanced(t));
        assert(!v.is_open(t));
        lemma_closed_task(v, t);
        let sa = v.first_arc[t];
        let j = choose|j: int| 0 <= j < list.len() && list[j] == sa;
        assert(h.arcs[list[j] as int] == g1.arcs[list[j] as int].phase_changed());
        assert(g.arc_ok(sa as int));
        if g1.moves(sa as int) {
            assert(h.nodes[g1.arcs[list[j] as int].end as int] == g1.nodes[g1.arcs[list[j] as int].end as int].push(
                list[j],
            ));
        } else {
            assert forall|i: int| 0 <= i < list.len() implies !(g1.moves((#[trigger] list[i]) as int)
                && g1.arcs[list[i] as int].end == t) by {
                assert(list[i] < g.arcs.len());
                lemma_sink_list(v, list[i] as int);
            }
            assert(h.nodes[t] == g1.nodes[t]);
        }
    }
    assert forall|x: int| w.is_worker(x) implies #[trigger] w.worker_balanced(x) by {
        assert(v.worker_balanced(x));
        assert forall|i: int| 0 <= i < list.len() implies !(g1.moves((#[trigger] list[i]) as int)
            && g1.arcs[list[i] as int].end == x) by {
            assert(list[i] < g.arcs.len());
            lemma_sink_list(v, list[i] as int);
        }
        assert(h.nodes[x] == g1.nodes[x]);
    }
    assert(h.nodes[SOURCE as int] == g1.nodes[SOURCE as int]) by {
        assert forall|i: int| 0 <= i < list.len() implies !(g1.moves((#[trigger] list[i]) as int)
            && g1.arcs[list[i] as int].end == SOURCE) by {
            assert(list[i] < g.arcs.len());
            lemma_sink_list(v, list[i] as int);
        }
    }
    assert forall|x: int| 0 <= x < h.nodes.len() && v.is_task(x) implies #[trigger] w.task_flow(x)
        == v.task_flow(x) by {
        assert(w.task_balanced(x));
    }
    lemma_flow_frame(v, w, h.nodes.len() as int);
    let pot = choose|pot: Seq<int>| v.priced(pot);
    assert(g1.feasible(pot)) by {
        assert forall|a: int| g1.followable(a) implies #[trigger] g1.kept(pot, a) by {
            assert(g.followable(a));
            assert(g.kept(pot, a));
        }
    }
    assert forall|a: int| 0 <= a < g1.arcs.len() implies #[trigger] h.arcs[a] == if g1.arcs[a].start
        == SINK {
        g1.arcs[a].phase_changed()
    } else {
        g1.arcs[a]
    } by {
        assert(g.arc_ok(a));
        if g.arcs[a].start == SINK {
            let j = choose|j: int| 0 <= j < list.len() && list[j] == a as usize;
            assert(h.arcs[list[j] as int] == g1.arcs[list[j] as int].phase_changed());
        } else {
            if list.contains(a as usize) {
                let j = choose|j: int| 0 <= j < list.len() && list[j] == a as usize;
                assert(g.arcs[list[j] as int].start == SINK);
            }
        }
    }
    lemma_phase_keeps_potential(g1, h, pot);
    let new_pot = choose|new_pot: Seq<int>| h.feasible(new_pot);
    assert(w.priced(new_pot)) by {
        assert forall|t: int| w.is_task(t) && w.task_flow(t) > w.task_min(t) implies #[trigger] new_pot[t]
            <= new_pot[SINK as int] by {
            assert(w.task_balanced(t));
            assert(!v.is_open(t));
            lemma_stable_totals_one(v, h, t);
        }
    }
}

/// The network of source and sink alone is balanced.
pub proof fn lemma_empty_wf()
    ensures
        NetworkView::empty().wf(),
{
    let e = NetworkView::empty();
    lemma_empty_structured();
    reveal_with_fuel(NetworkView::flow_upto, 3);
    assert(e.flow_upto(2) == 0);
    assert(e.graph.feasible(seq![0int, 0int]));
    lemma_potential_prices(e, seq![0int, 0int]);
}

/// What a new task leaves as it was: the lists of all nodes but the sink,
/// and all arcs.
pub proof fn lemma_with_task_frame(v: NetworkView, name: Seq<char>, min: nat, max: nat)
    requires
        v.graph.nodes.len() >= 2,
    ensures
        v.with_task(name, min, max).graph.nodes.len() == v.graph.nodes.len() + 1,
        v.with_task(name, min, max).graph.arcs.len() == v.graph.arcs.len() + 1,
        v.with_task(name, min, max).graph.min_flow_satisfied == v.graph.min_flow_satisfied,
        v.with_task(name, min, max).graph.arcs[v.graph.arcs.len() as int] == NetworkView::new_sink_arc(
            v.graph.nodes.len(),
            min,
            max,
        ),
        v.with_task(name, min, max).graph.nodes[v.graph.nodes.len() as int].len() == if min > 0 {
            1nat
        } else {
            0nat
        },
        forall|x: int|
            0 <= x < v.graph.nodes.len() && x != SINK ==> #[trigger] v.with_task(name, min, max).graph.nodes[x]
                == v.graph.nodes[x],
        forall|a: int|
            0 <= a < v.graph.arcs.len() ==> #[trigger] v.with_task(name, min, max).graph.arcs[a]
                == v.graph.arcs[a],
{
}

/// A new task keeps the network balanced, while minima are still being met.
pub proof fn lemma_with_task_balanced(v: NetworkView, name: Seq<char>, min: nat, max: nat)
    requires
        v.graph.wf(),
        v.book_ok(),
        v.balanced(),
        !v.graph.min_flow_satisfied,
        v.with_task(name, min, max).book_ok(),
    ensures
        v.with_task(name, min, max).balanced(),
{
    let w = v.with_task(name, min, max);
    let n = v.graph.nodes.len() as int;
    lemma_with_task_frame(v, name, min, max);
    assert(w.first_arc[n] == v.graph.arcs.len());
    assert forall|x: int| 0 <= x < n implies w.next_arc(x) == v.next_arc(x) by {}
    assert forall|t: int| w.is_task(t) implies #[trigger] w.task_balanced(t) by {
        if t < n {
            assert(v.is_task(t));
            assert(v.task_balanced(t));
            assert(v.node_shape(t));
            lemma_ranges_ordered(v, t, t);
            assert(w.graph.nodes[t] == v.graph.nodes[t]);
            assert(w.sink_arc(t) == v.sink_arc(t));
        } else {
            assert(w.sink_arc(t) == NetworkView::new_sink_arc(n as nat, min, max));
        }
    }
    assert forall|x: int| w.is_worker(x) implies #[trigger] w.worker_balanced(x) by {
        assert(v.is_worker(x));
        assert(v.worker_balanced(x));
        assert(w.next_arc(x) == v.next_arc(x));
        assert(w.graph.nodes[x] == v.graph.nodes[x]);
    }
    assert forall|x: int| 0 <= x < n && v.is_task(x) implies #[trigger] w.task_flow(x) == v.task_flow(
        x,
    ) by {
        assert(v.node_shape(x));
        lemma_ranges_ordered(v, x, x);
        assert(w.sink_arc(x) == v.sink_arc(x));
    }
    lemma_flow_frame(v, w, n);
    assert(w.is_task(n));
    assert(w.sink_arc(n) == NetworkView::new_sink_arc(n as nat, min, max));
    assert(w.task_flow(n) == 0);
    assert(w.flow_upto(n + 1) == w.flow_upto(n) + w.task_flow(n));
    assert(w.graph.nodes[SOURCE as int] == v.graph.nodes[SOURCE as int]);
}

/// The number of workers that the first tasks have taken on depends on
/// those tasks and their arcs alone.
pub proof fn lemma_flow_frame(v: NetworkView, w: NetworkView, upto: int)
    requires
        upto <= v.kinds.len(),
        upto <= w.kinds.len(),
        forall|x: int| 0 <= x < upto ==> v.kinds[x] == w.kinds[x],
        forall|x: int| 0 <= x < upto && v.is_task(x) ==> #[trigger] w.task_flow(x) == v.task_flow(x),
    ensures
        w.flow_upto(upto) == v.flow_upto(upto),
    decreases upto,
{
    if upto > 0 {
        lemma_flow_frame(v, w, upto - 1);
    }
}

/// What a new worker leaves as it was: the lists of all nodes but the
/// source, and all arcs.
pub proof fn lemma_with_worker_frame(v: NetworkView, name: Seq<char>, links: Seq<(usize, i64)>)
    requires
        v.graph.nodes.len() >= 2,
    ensures
        v.with_worker(name, links).graph.nodes.len() == v.graph.nodes.len() + 1,
        v.with_worker(name, links).graph.arcs.len() == v.graph.arcs.len() + 1 + links.len(),
        v.with_worker(name, links).graph.min_flow_satisfied == v.graph.min_flow_satisfied,
        v.with_worker(name, links).graph.nodes[SOURCE as int].len() == v.graph.nodes[SOURCE as int].len() + 1,
        v.with_worker(name, links).graph.nodes[v.graph.nodes.len() as int].len() == links.len(),
        forall|x: int|
            0 < x < v.graph.nodes.len() ==> #[trigger] v.with_worker(name, links).graph.nodes[x]
                == v.graph.nodes[x],
        forall|a: int|
            0 <= a < v.graph.arcs.len() ==> #[trigger] v.with_worker(name, links).graph.arcs[a]
                == v.graph.arcs[a],
{
}

/// A new worker keeps the network balanced.
pub proof fn lemma_with_worker_balanced(v: NetworkView, name: Seq<char>, links: Seq<(usize, i64)>)
    requires
        v.graph.wf(),
        v.book_ok(),
        v.balanced(),
        v.with_worker(name, links).book_ok(),
    ensures
        v.with_worker(name, links).balanced(),
{
    let w = v.with_worker(name, links);
    let n = v.graph.nodes.len() as int;
    lemma_with_worker_frame(v, name, links);
    assert(w.first_arc[n] == v.graph.arcs.len());
    assert forall|x: int| 0 <= x < n implies w.next_arc(x) == v.next_arc(x) by {}
    assert forall|t: int| w.is_task(t) implies #[trigger] w.task_balanced(t) && w.task_flow(t)
        == v.task_flow(t) by {
        assert(v.is_task(t));
        assert(v.task_balanced(t));
        assert(v.node_shape(t));
        lemma_ranges_ordered(v, t, t);
        assert(w.graph.nodes[t] == v.graph.nodes[t]);
        assert(w.sink_arc(t) == v.sink_arc(t));
    }
    assert forall|x: int| w.is_worker(x) implies #[trigger] w.worker_balanced(x) by {
        if x < n {
            assert(v.is_worker(x));
            assert(v.worker_balanced(x));
            assert(w.next_arc(x) == v.next_arc(x));
            assert(w.graph.nodes[x] == v.graph.nodes[x]);
        }
    }
    assert forall|x: int| 0 <= x < n && v.is_task(x) implies #[trigger] w.task_flow(x) == v.task_flow(
        x,
    ) by {
        assert(w.task_balanced(x));
    }
    lemma_flow_frame(v, w, n);
    assert(!w.is_task(n));
    assert(w.flow_upto(n + 1) == w.flow_upto(n));
}

/// The greatest of the source's number and what the first `upto` links of a
/// new worker ask of the worker's number: the number of the task less the
/// cost of the link.
pub open spec fn lift_upto(pot: Seq<int>, links: Seq<(usize, i64)>, upto: int) -> int
    decreases upto,
{
    if upto <= 0 {
        pot[SOURCE as int]
    } else {
        let rest = lift_upto(pot, links, upto - 1);
        let here = pot[links[upto - 1].0 as int] - links[upto - 1].1;
        if here > rest {
            here
        } else {
            rest
        }
    }
}

/// `lift_upto` is no less than the source's number and than what any link
/// asks.
pub proof fn lemma_lift(pot: Seq<int>, links: Seq<(usize, i64)>, upto: int, i: int)
    requires
        0 <= upto <= links.len(),
    ensures
        lift_upto(pot, links, upto) >= pot[SOURCE as int],
        0 <= i < upto ==> lift_upto(pot, links, upto) >= pot[links[i].0 as int] - links[i].1,
    decreases upto,
{
    if upto > 0 {
        lemma_lift(pot, links, upto - 1, i);
    }
}

/// A new task leaves the network with a potential.
pub proof fn lemma_with_task_potential(v: NetworkView, name: Seq<char>, min: nat, max: nat)
    requires
        v.graph.wf(),
        v.has_prices(),
        !v.graph.min_flow_satisfied,
        v.with_task(name, min, max).structured(),
    ensures
        v.with_task(name, min, max).has_prices(),
{
    let g = v.graph;
    let h = v.with_task(name, min, max).graph;
    let pot = choose|pot: Seq<int>| v.priced(pot);
    let new_pot = pot.push(pot[SINK as int]);
    lemma_with_task_frame(v, name, min, max);
    assert forall|a: int| h.followable(a) implies #[trigger] h.kept(new_pot, a) by {
        if a < g.arcs.len() {
            assert(h.arcs[a] == g.arcs[a]);
            assert(g.arc_ok(a));
            assert(g.followable(a));
            assert(g.kept(pot, a));
        }
    }
    assert(h.feasible(new_pot));
    lemma_potential_prices(v.with_task(name, min, max), new_pot);
}

/// A new task leaves an unsolved network unsolved.
pub proof fn lemma_with_task_unsolved(v: NetworkView, name: Seq<char>, min: nat, max: nat)
    requires
        v.graph.wf(),
        v.book_ok(),
        v.unsolved(),
    ensures
        v.with_task(name, min, max).unsolved(),
{
    let w = v.with_task(name, min, max);
    lemma_with_task_frame(v, name, min, max);
    assert forall|x: int| w.is_worker(x) implies (#[trigger] w.source_arc(x)).start == SOURCE by {
        assert(v.is_worker(x));
        assert(v.node_shape(x));
        lemma_ranges_ordered(v, x, x);
        assert(w.source_arc(x) == v.source_arc(x));
    }
}

/// A new worker leaves an unsolved network unsolved.
pub proof fn lemma_with_worker_unsolved(v: NetworkView, name: Seq<char>, links: Seq<(usize, i64)>)
    requires
        v.graph.wf(),
        v.book_ok(),
        v.unsolved(),
    ensures
        v.with_worker(name, links).unsolved(),
{
    let w = v.with_worker(name, links);
    let n = v.graph.nodes.len() as int;
    lemma_with_worker_frame(v, name, links);
    assert forall|x: int| w.is_worker(x) implies (#[trigger] w.source_arc(x)).start == SOURCE by {
        if x < n {
            assert(v.is_worker(x));
            assert(v.node_shape(x));
            lemma_ranges_ordered(v, x, x);
            assert(w.source_arc(x) == v.source_arc(x));
        } else {
            assert(w.source_arc(x) == NetworkView::new_source_arc(n as nat));
        }
    }
}

/// A new worker leaves an unsolved network with a potential: no arc leads
/// into the source yet, so the source and the worker can take a number high
/// enough for the worker's links.
pub proof fn lemma_with_worker_potential(v: NetworkView, name: Seq<char>, links: Seq<(usize, i64)>)
    requires
        v.structured(),
        v.unsolved(),
        v.has_prices(),
        v.links_ok(links),
        v.with_worker(name, links).structured(),
    ensures
        v.with_worker(name, links).has_prices(),
{
    let g = v.graph;
    let h = v.with_worker(name, links).graph;
    let n = g.nodes.len() as int;
    let a0 = g.arcs.len() as int;
    let pot = choose|pot: Seq<int>| v.priced(pot);
    let high = lift_upto(pot, links, links.len() as int);
    let new_pot = pot.update(SOURCE as int, high).push(high);
    lemma_with_worker_frame(v, name, links);
    lemma_lift(pot, links, links.len() as int, 0);
    assert forall|a: int| h.followable(a) implies #[trigger] h.kept(new_pot, a) by {
        if a < a0 {
            assert(h.arcs[a] == g.arcs[a]);
            assert(g.arc_ok(a));
            assert(g.followable(a));
            assert(g.kept(pot, a));
            assert(v.arc_shape(a));
            let x = g.arcs[a].start as int;
            let y = g.arcs[a].end as int;
            if y == SOURCE {
                assert(v.is_worker(x));
                assert(v.source_arc(x).start == SOURCE);
            }
        } else if a == a0 {
            assert(h.arcs[a] == NetworkView::new_source_arc(n as nat));
        } else {
            let i = a - a0 - 1;
            assert(h.arcs[a] == NetworkView::new_task_arc(n as nat, links[i]));
            lemma_lift(pot, links, links.len() as int, i);
            assert(v.is_task(links[i].0 as int));
        }
    }
    assert(h.feasible(new_pot));
    lemma_potential_prices(v.with_worker(name, links), new_pot);
}

} // verus!
