//! The assignment that a network follows once all workers are assigned
//! costs no more than any plan.
use crate::network::balance::lemma_owner;
use crate::network::counting::{
    count_true, lemma_sum_add, lemma_sum_le, lemma_weighted_count, lemma_weighted_le, row,
    sum_marked,
};
use crate::network::graph::{SINK, SOURCE};
use crate::network::laws::lemma_task_within_bounds;
use crate::network::model::{lemma_ranges_ordered, NetworkView};
use crate::network::plan::{
    lemma_assigned_is_held, lemma_flow_is_held, lemma_held_once, lemma_solved_follows_a_plan,
};
use vstd::prelude::*;

verus! {

impl NetworkView {
    /// What arc `a` cost when it was added, whichever way it points now.
    pub open spec fn given_cost(self, a: int) -> int {
        if self.is_task(self.graph.arcs[a].start as int) {
            -self.graph.arcs[a].cost
        } else {
            self.graph.arcs[a].cost
        }
    }

    /// What the plan costs for each worker.
    pub open spec fn cost_by(self, plan: Seq<int>) -> spec_fn(int) -> int {
        |w: int| self.given_cost(plan[w])
    }

    /// All workers.
    pub open spec fn all_workers(self) -> Seq<bool> {
        Seq::new(self.graph.nodes.len(), |w: int| self.is_worker(w))
    }

    /// What the plan costs: the costs of the arcs it names, as they were
    /// given, added up over all workers.
    pub open spec fn plan_cost(self, plan: Seq<int>) -> int {
        sum_marked(self.cost_by(plan), self.all_workers(), self.graph.nodes.len() as int)
    }

    /// The task that the plan gives each worker.
    pub open spec fn home_by(self, plan: Seq<int>) -> spec_fn(int) -> int {
        |w: int| self.task_of(plan[w])
    }

    /// One more than the identifier of the last arc of the nodes before
    /// node `x`.
    pub open spec fn arcs_before(self, x: int) -> int {
        if x < self.first_arc.len() {
            self.first_arc[x] as int
        } else {
            self.graph.arcs.len() as int
        }
    }

    /// What arc `a` adds to the score.
    pub open spec fn score_part(self, a: int) -> int {
        let arc = self.graph.arcs[a];
        if self.is_task(arc.start as int) && arc.end != SINK {
            arc.cost
        } else {
            0
        }
    }
}

/// The number of node `t` under `pot`.
pub open spec fn number_of(pot: Seq<int>) -> spec_fn(int) -> int {
    |t: int| pot[t]
}

/// The numbers of `pot` with the number of the sink taken off each.
pub open spec fn levelled(pot: Seq<int>) -> Seq<int> {
    Seq::new(pot.len(), |x: int| pot[x] - pot[SINK as int])
}

/// Prices stay prices when the number of the sink is taken off each.
pub proof fn lemma_levelled(v: NetworkView, pot: Seq<int>)
    requires
        v.graph.wf(),
        v.book_ok(),
        v.priced(pot),
    ensures
        v.priced(levelled(pot)),
        levelled(pot)[SINK as int] == 0,
{
    let low = levelled(pot);
    assert forall|a: int| v.graph.followable(a) implies #[trigger] v.graph.kept(low, a) by {
        assert(v.graph.arc_ok(a));
        assert(v.graph.kept(pot, a));
    }
    assert forall|t: int| v.is_task(t) && v.task_flow(t) > v.task_min(t) implies #[trigger] low[t]
        <= low[SINK as int] by {
        assert(pot[t] <= pot[SINK as int]);
    }
}

/// The arcs from `lo` up to `hi` add to the score what arc `only` adds, if
/// none of the others adds anything.
pub proof fn lemma_score_range(v: NetworkView, lo: int, hi: int, only: int)
    requires
        0 <= lo <= hi <= v.graph.arcs.len(),
        forall|a: int| lo <= a < hi && a != only ==> #[trigger] v.score_part(a) == 0,
    ensures
        v.score_upto(hi) == v.score_upto(lo) + if lo <= only < hi {
            v.score_part(only)
        } else {
            0
        },
    decreases hi - lo,
{
    if lo < hi {
        lemma_score_range(v, lo, hi - 1, only);
        if hi - 1 != only {
            assert(v.score_part(hi - 1) == 0);
        }
    }
}

/// Once all workers are assigned, the arcs of the first nodes add to the
/// score what the assignment costs for the workers among those nodes, with
/// the sign changed.
pub proof fn lemma_score_by_nodes(v: NetworkView, upto: int)
    requires
        v.wf(),
        v.solved(),
        0 <= upto <= v.graph.nodes.len(),
    ensures
        0 <= v.arcs_before(upto) <= v.graph.arcs.len(),
        v.score_upto(v.arcs_before(upto)) == -sum_marked(v.cost_by(v.followed_plan()), v.all_workers(), upto),
    decreases upto,
{
    let g = v.graph;
    let n = g.nodes.len();
    let plan = v.followed_plan();
    if upto == 0 {
    } else {
        let x = upto - 1;
        lemma_score_by_nodes(v, x);
        lemma_ranges_ordered(v, x, x);
        assert(v.arcs_before(upto) == v.next_arc(x));
        lemma_solved_follows_a_plan(v);
        if x >= 2 {
            assert(v.node_shape(x));
        }
        if v.is_worker(x) {
            let m = plan[x];
            assert(v.first_arc[x] < m < v.next_arc(x));
            lemma_owner(v, m, x);
            assert(g.arc_ok(m));
            let lo = v.first_arc[x] as int;
            lemma_owner(v, lo, x);
            assert(g.arc_ok(lo));
            assert(g.list_ok(SOURCE as int));
            if g.arcs[lo].start != x {
                assert(g.nodes[SOURCE as int].contains(lo as usize));
            }
            let t = lemma_assigned_is_held(v, x);
            assert(g.arcs[m].start != x) by {
                let a = choose|a: int| v.first_arc[x] < a < v.next_arc(x) && (#[trigger] g.arcs[a]).start == t;
                assert(v.first_arc[x] < a < v.next_arc(x) && g.arcs[a].start != x);
            }
            let held = g.arcs[m].start as int;
            assert(v.holds(held, x));
            assert forall|a: int| v.first_arc[x] <= a < v.next_arc(x) && a != m implies #[trigger] v.score_part(
                a,
            ) == 0 by {
                lemma_owner(v, a, x);
                assert(g.arc_ok(a));
                if a > v.first_arc[x] && g.arcs[a].start != x {
                    let other = g.arcs[a].start as int;
                    assert(v.holds(other, x));
                    lemma_held_once(v, x, held, other);
                    assert(v.apart(a, m));
                }
            }
            lemma_score_range(v, v.first_arc[x] as int, v.next_arc(x), m);
            assert(v.score_part(m) == -v.given_cost(m));
            assert(v.cost_by(plan)(x) == v.given_cost(m));
        } else if v.is_task(x) {
            let a = v.first_arc[x] as int;
            lemma_owner(v, a, x);
            assert(g.arc_ok(a));
            assert(v.score_part(a) == 0);
            lemma_score_range(v, a, a + 1, -1);
        } else {
            assert(x == SOURCE || x == SINK);
            assert(v.arcs_before(x) == 0);
            assert(v.next_arc(x) == 0) by {
                if x == SOURCE {
                    assert(v.first_arc[SINK as int] == 0);
                }
            }
        }
    }
}

/// Once all workers are assigned, the total score is what the assignment
/// costs.
pub proof fn lemma_score_is_plan_cost(v: NetworkView)
    requires
        v.wf(),
        v.solved(),
    ensures
        v.total_score() == v.plan_cost(v.followed_plan()),
{
    lemma_score_by_nodes(v, v.graph.nodes.len() as int);
}

/// Under prices, a plan pays for each worker at least what the assignment
/// pays, up to the difference of the numbers of the two tasks.
pub proof fn lemma_worker_exchange(v: NetworkView, pot: Seq<int>, plan: Seq<int>, w: int)
    requires
        v.wf(),
        v.solved(),
        v.priced(pot),
        v.valid_plan(plan),
        v.is_worker(w),
    ensures
        v.given_cost(v.followed_plan()[w]) + pot[v.task_of(plan[w])] <= v.given_cost(plan[w]) + pot[v.task_of(
            v.followed_plan()[w],
        )],
        v.is_task(v.task_of(plan[w])),
        v.is_task(v.task_of(v.followed_plan()[w])),
{
    let g = v.graph;
    let followed = v.followed_plan();
    lemma_solved_follows_a_plan(v);
    let a = followed[w];
    let p = plan[w];
    assert(v.first_arc[w] < a < v.next_arc(w));
    assert(v.first_arc[w] < p < v.next_arc(w));
    lemma_owner(v, a, w);
    lemma_owner(v, p, w);
    assert(g.arc_ok(a));
    assert(g.arc_ok(p));
    let lo = v.first_arc[w] as int;
    assert(v.node_shape(w));
    lemma_owner(v, lo, w);
    assert(g.arc_ok(lo));
    assert(g.list_ok(SOURCE as int));
    if g.arcs[lo].start != w {
        assert(g.nodes[SOURCE as int].contains(lo as usize));
    }
    let t = lemma_assigned_is_held(v, w);
    assert(g.arcs[a].start != w) by {
        let b = choose|b: int| v.first_arc[w] < b < v.next_arc(w) && (#[trigger] g.arcs[b]).start == t;
        assert(v.first_arc[w] < b < v.next_arc(w) && g.arcs[b].start != w);
    }
    let held = g.arcs[a].start as int;
    assert(v.holds(held, w));
    assert(g.followable(a));
    assert(g.kept(pot, a));
    if g.arcs[p].start == w {
        assert(g.followable(p));
        assert(g.kept(pot, p));
    } else {
        let other = g.arcs[p].start as int;
        assert(v.holds(other, w));
        lemma_held_once(v, w, held, other);
        if p != a {
            assert(v.apart(p, a));
        }
    }
}

/// Once all workers are assigned, the assignment gives every task as many
/// workers as the task has taken on.
pub proof fn lemma_followed_load(v: NetworkView, t: int)
    requires
        v.wf(),
        v.solved(),
        v.is_task(t),
    ensures
        v.load(v.followed_plan(), t) == v.task_flow(t),
{
    let g = v.graph;
    let n = g.nodes.len();
    let plan = v.followed_plan();
    lemma_solved_follows_a_plan(v);
    lemma_flow_is_held(v, t);
    assert forall|w: int| 0 <= w < n implies #[trigger] v.places(plan, t, w) == v.holds(t, w) by {
        if v.is_worker(w) {
            let a = plan[w];
            assert(v.first_arc[w] < a < v.next_arc(w));
            lemma_owner(v, a, w);
            assert(g.arc_ok(a));
            let lo = v.first_arc[w] as int;
            assert(v.node_shape(w));
            lemma_owner(v, lo, w);
            assert(g.arc_ok(lo));
            assert(g.list_ok(SOURCE as int));
            if g.arcs[lo].start != w {
                assert(g.nodes[SOURCE as int].contains(lo as usize));
            }
            let some = lemma_assigned_is_held(v, w);
            assert(g.arcs[a].start != w) by {
                let b = choose|b: int| v.first_arc[w] < b < v.next_arc(w) && (#[trigger] g.arcs[b]).start == some;
                assert(v.first_arc[w] < b < v.next_arc(w) && g.arcs[b].start != w);
            }
            let held = g.arcs[a].start as int;
            assert(v.holds(held, w));
            lemma_held_once(v, w, held, t);
        }
    }
    assert(row(v.placing(plan), n, t) =~= row(v.holding(), n, t)) by {
        assert forall|w: int| 0 <= w < n implies row(v.placing(plan), n, t)[w] == row(v.holding(), n, t)[w] by {
            assert(v.places(plan, t, w) == v.holds(t, w));
        }
    }
}

/// Once all workers are assigned, no plan costs less than the assignment
/// that the network follows.
pub proof fn lemma_no_plan_is_cheaper(v: NetworkView, plan: Seq<int>)
    requires
        v.wf(),
        v.solved(),
        v.valid_plan(plan),
    ensures
        v.plan_cost(v.followed_plan()) <= v.plan_cost(plan),
        v.total_score() <= v.plan_cost(plan),
{
    let g = v.graph;
    let n = g.nodes.len();
    let followed = v.followed_plan();
    lemma_solved_follows_a_plan(v);
    lemma_score_is_plan_cost(v);
    let some = choose|pot: Seq<int>| v.priced(pot);
    lemma_levelled(v, some);
    let pot = levelled(some);
    let workers = v.all_workers();
    let tasks = v.all_tasks();
    let price = number_of(pot);
    // What the tasks of the plan and of the assignment are worth, worker by
    // worker.
    let plan_worth = |w: int| pot[v.task_of(plan[w])];
    let followed_worth = |w: int| pot[v.task_of(followed[w])];
    let left = |w: int| v.given_cost(followed[w]) + pot[v.task_of(plan[w])];
    let right = |w: int| v.given_cost(plan[w]) + pot[v.task_of(followed[w])];
    assert forall|w: int| 0 <= w < n && workers[w] implies #[trigger] left(w) <= right(w) by {
        lemma_worker_exchange(v, pot, plan, w);
    }
    lemma_sum_le(left, right, workers, n as int);
    lemma_sum_add(v.cost_by(followed), plan_worth, left, workers, n as int);
    lemma_sum_add(v.cost_by(plan), followed_worth, right, workers, n as int);
    // The same worth, task by task.
    assert forall|w: int| 0 <= w < n && workers[w] implies 0 <= #[trigger] v.home_by(plan)(w) < n
        && tasks[v.home_by(plan)(w)] by {
        lemma_worker_exchange(v, pot, plan, w);
    }
    assert forall|w: int| 0 <= w < n && workers[w] implies 0 <= #[trigger] v.home_by(followed)(w) < n
        && tasks[v.home_by(followed)(w)] by {
        lemma_worker_exchange(v, pot, plan, w);
    }
    assert forall|w: int, t: int| 0 <= w < n implies (#[trigger] v.placing(plan)(t, w) <==> workers[w]
        && v.home_by(plan)(w) == t) by {}
    assert forall|w: int, t: int| 0 <= w < n implies (#[trigger] v.placing(followed)(t, w) <==> workers[w]
        && v.home_by(followed)(w) == t) by {}
    assert forall|w: int| 0 <= w < n && workers[w] implies #[trigger] plan_worth(w) == price(v.home_by(plan)(w)) by {}
    assert forall|w: int| 0 <= w < n && workers[w] implies #[trigger] followed_worth(w) == price(
        v.home_by(followed)(w),
    ) by {}
    lemma_weighted_count(v.placing(plan), price, plan_worth, v.home_by(plan), workers, n, tasks, n as int);
    lemma_weighted_count(
        v.placing(followed),
        price,
        followed_worth,
        v.home_by(followed),
        workers,
        n,
        tasks,
        n as int,
    );
    // A task above the sink is at its minimum and a task below it at its
    // maximum, so the assignment is worth no more than the plan.
    assert forall|t: int| 0 <= t < n && tasks[t] implies #[trigger] price(t) * count_true(
        row(v.placing(followed), n, t),
    ) <= price(t) * count_true(row(v.placing(plan), n, t)) by {
        lemma_followed_load(v, t);
        lemma_task_within_bounds(v, t);
        crate::network::laws::lemma_assigned_is_flow(v, t);
        let has = v.load(followed, t) as int;
        let gets = v.load(plan, t) as int;
        assert(v.task_min(t) <= gets <= v.task_max(t));
        assert(v.node_shape(t));
        lemma_owner(v, v.first_arc[t] as int, t);
        assert(g.arc_ok(v.first_arc[t] as int));
        if pot[t] > 0 {
            assert(has <= gets);
            assert(pot[t] * has <= pot[t] * gets) by (nonlinear_arith)
                requires
                    pot[t] > 0,
                    has <= gets,
            ;
        } else if pot[t] < 0 {
            if v.is_open(t) {
                assert(g.followable(v.first_arc[t] as int));
                assert(g.kept(pot, v.first_arc[t] as int));
            }
            assert(has >= gets);
            assert(pot[t] * has <= pot[t] * gets) by (nonlinear_arith)
                requires
                    pot[t] < 0,
                    has >= gets,
            ;
        } else {
            assert(pot[t] * has == pot[t] * gets) by (nonlinear_arith)
                requires
                    pot[t] == 0,
            ;
        }
    }
    lemma_weighted_le(v.placing(followed), v.placing(plan), price, n, tasks, n as int);
}

} // verus!
