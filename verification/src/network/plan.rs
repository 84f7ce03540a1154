//! Plans: ways to give every worker one of the tasks it accepts so that
//! every task has a number of workers within its bounds. A network whose
//! search for a path fails while a worker is unassigned has no plan.
use crate::network::balance::{arc_kept, lemma_owner};
use crate::network::counting::{
    count_true, lemma_count_mono, lemma_count_strict, lemma_double_count, lemma_len_is_count,
    lemma_sum_le, lemma_sum_rows_is_sum, lemma_sum_split, row, rows_upto, sum_marked,
};
use crate::network::graph::{Graph, SINK, SOURCE};
use crate::network::laws::{
    lemma_assigned_contains, lemma_assigned_is_flow, lemma_one_missing, lemma_task_list_entry,
    lemma_task_within_bounds, lemma_worker_list_entry, only_missing,
};
use crate::network::model::{lemma_ranges_ordered, NetworkView};
use crate::network::walk::{lemma_walk_drop_last, lemma_walk_push};
use vstd::prelude::*;
use vstd::set_lib::{lemma_int_range, lemma_len_subset, lemma_set_difference_len, set_int_range};

verus! {

impl NetworkView {
    /// The task that arc `a` joins to a worker.
    pub open spec fn task_of(self, a: int) -> int {
        if self.is_task(self.graph.arcs[a].start as int) {
            self.graph.arcs[a].start as int
        } else {
            self.graph.arcs[a].end as int
        }
    }

    /// The plan gives worker `w` task `t`: the arc that the plan names for
    /// the worker joins it to that task.
    pub open spec fn places(self, plan: Seq<int>, t: int, w: int) -> bool {
        self.is_worker(w) && self.task_of(plan[w]) == t
    }

    /// Which task the plan gives to which worker.
    pub open spec fn placing(self, plan: Seq<int>) -> spec_fn(int, int) -> bool {
        |t: int, w: int| self.places(plan, t, w)
    }

    /// How many workers the plan gives task `t`.
    pub open spec fn load(self, plan: Seq<int>, t: int) -> nat {
        count_true(row(self.placing(plan), self.graph.nodes.len(), t))
    }

    /// `plan` names for every worker one of the arcs to the tasks that the
    /// worker accepts, and gives every task a number of workers within the
    /// task's bounds.
    pub open spec fn valid_plan(self, plan: Seq<int>) -> bool {
        &&& plan.len() == self.graph.nodes.len()
        &&& forall|w: int| self.is_worker(w) ==> self.first_arc[w] < #[trigger] plan[w] < self.next_arc(w)
        &&& forall|t: int| self.is_task(t) ==> self.task_min(t) <= #[trigger] self.load(plan, t) <= self.task_max(t)
    }

    /// The workers can be assigned: there is a plan.
    pub open spec fn has_plan(self) -> bool {
        exists|plan: Seq<int>| self.valid_plan(plan)
    }

    /// Worker `w` is assigned to task `t`: one of the worker's arcs has
    /// turned round and starts at the task.
    pub open spec fn holds(self, t: int, w: int) -> bool {
        &&& self.is_worker(w)
        &&& self.is_task(t)
        &&& exists|a: int| self.first_arc[w] < a < self.next_arc(w) && (#[trigger] self.graph.arcs[a]).start == t
    }

    /// Which worker is assigned to which task.
    pub open spec fn holding(self) -> spec_fn(int, int) -> bool {
        |t: int, w: int| self.holds(t, w)
    }

    /// Worker `w` is assigned: its arc from the source has turned round.
    pub open spec fn is_assigned(self, w: int) -> bool {
        self.is_worker(w) && self.source_arc(w).start == w
    }
}

impl NetworkView {
    /// The two networks pose the same problem: they have the same tasks and
    /// workers with the same bounds, and their arcs join the same nodes,
    /// whichever way they point.
    pub open spec fn same_problem(self, other: NetworkView) -> bool {
        &&& self.kinds == other.kinds
        &&& self.first_arc == other.first_arc
        &&& self.graph.nodes.len() == other.graph.nodes.len()
        &&& self.graph.arcs.len() == other.graph.arcs.len()
        &&& forall|a: int|
            0 <= a < self.graph.arcs.len() ==> {
                &&& (#[trigger] other.graph.arcs[a]).joins(self.graph.arcs[a].start, self.graph.arcs[a].end)
                &&& other.graph.arcs[a].min_flow == self.graph.arcs[a].min_flow
                &&& other.graph.arcs[a].max_flow == self.graph.arcs[a].max_flow
                &&& other.given_cost(a) == self.given_cost(a)
            }
    }

    /// The plan that a network follows once all its workers are assigned:
    /// for each worker the arc that has turned round.
    pub open spec fn followed_plan(self) -> Seq<int> {
        Seq::new(
            self.graph.nodes.len(),
            |w: int|
                choose|a: int|
                    self.first_arc[w] < a < self.next_arc(w) && (#[trigger] self.graph.arcs[a]).start != w,
        )
    }
}

/// Every network poses the problem it poses.
pub proof fn lemma_same_problem_self(v: NetworkView)
    requires
        v.graph.wf(),
    ensures
        v.same_problem(v),
{
    assert forall|a: int| 0 <= a < v.graph.arcs.len() implies (#[trigger] v.graph.arcs[a]).joins(
        v.graph.arcs[a].start,
        v.graph.arcs[a].end,
    ) by {}
}

/// Networks that pose the same problem as a third pose the same problem.
pub proof fn lemma_same_problem_chain(a: NetworkView, b: NetworkView, c: NetworkView)
    requires
        a.same_problem(b),
        b.same_problem(c),
    ensures
        a.same_problem(c),
{
    assert forall|x: int| 0 <= x < a.graph.arcs.len() implies {
        &&& (#[trigger] c.graph.arcs[x]).joins(a.graph.arcs[x].start, a.graph.arcs[x].end)
        &&& c.graph.arcs[x].min_flow == a.graph.arcs[x].min_flow
        &&& c.graph.arcs[x].max_flow == a.graph.arcs[x].max_flow
        &&& c.given_cost(x) == a.given_cost(x)
    } by {
        assert(b.graph.arcs[x].joins(a.graph.arcs[x].start, a.graph.arcs[x].end));
        assert(c.graph.arcs[x].joins(b.graph.arcs[x].start, b.graph.arcs[x].end));
    }
}

/// Posing the same problem goes both ways.
pub proof fn lemma_same_problem_back(a: NetworkView, b: NetworkView)
    requires
        a.same_problem(b),
    ensures
        b.same_problem(a),
{
    assert forall|x: int| 0 <= x < b.graph.arcs.len() implies {
        &&& (#[trigger] a.graph.arcs[x]).joins(b.graph.arcs[x].start, b.graph.arcs[x].end)
        &&& a.graph.arcs[x].min_flow == b.graph.arcs[x].min_flow
        &&& a.graph.arcs[x].max_flow == b.graph.arcs[x].max_flow
        &&& a.given_cost(x) == b.given_cost(x)
    } by {
        assert(b.graph.arcs[x].joins(a.graph.arcs[x].start, a.graph.arcs[x].end));
    }
}

/// Flow and the change of phase leave the problem as it is.
pub proof fn lemma_kept_same_problem(v: NetworkView, h: Graph)
    requires
        v.structured(),
        h.nodes.len() == v.graph.nodes.len(),
        h.arcs.len() == v.graph.arcs.len(),
        forall|a: int| 0 <= a < h.arcs.len() ==> arc_kept(v.graph.arcs[a], #[trigger] h.arcs[a]),
    ensures
        v.same_problem(v.with_graph(h)),
{
    let after = v.with_graph(h);
    assert forall|a: int| 0 <= a < v.graph.arcs.len() implies {
        &&& (#[trigger] h.arcs[a]).joins(v.graph.arcs[a].start, v.graph.arcs[a].end)
        &&& h.arcs[a].min_flow == v.graph.arcs[a].min_flow
        &&& h.arcs[a].max_flow == v.graph.arcs[a].max_flow
        &&& after.given_cost(a) == v.given_cost(a)
    } by {
        assert(arc_kept(v.graph.arcs[a], h.arcs[a]));
        assert(v.arc_shape(a));
        assert(v.graph.arc_ok(a));
    }
}

/// A plan costs the same in networks that pose the same problem.
pub proof fn lemma_plan_cost_carries_over(v: NetworkView, other: NetworkView, plan: Seq<int>)
    requires
        v.structured(),
        v.same_problem(other),
        v.valid_plan(plan),
    ensures
        other.plan_cost(plan) == v.plan_cost(plan),
{
    let n = v.graph.nodes.len();
    assert(v.all_workers() =~= other.all_workers());
    assert forall|w: int| 0 <= w < n && v.all_workers()[w] implies #[trigger] v.cost_by(plan)(w)
        == other.cost_by(plan)(w) by {
        assert(v.first_arc[w] < plan[w] < v.next_arc(w));
        lemma_ranges_ordered(v, w, w);
        assert(other.graph.arcs[plan[w]].min_flow == v.graph.arcs[plan[w]].min_flow);
    }
    lemma_sum_le(v.cost_by(plan), other.cost_by(plan), v.all_workers(), n as int);
    assert forall|w: int| 0 <= w < n && v.all_workers()[w] implies #[trigger] other.cost_by(plan)(w)
        <= v.cost_by(plan)(w) by {
        assert(v.cost_by(plan)(w) == other.cost_by(plan)(w));
    }
    lemma_sum_le(other.cost_by(plan), v.cost_by(plan), v.all_workers(), n as int);
}

/// A plan for a network is a plan for every network that poses the same
/// problem.
pub proof fn lemma_plan_carries_over(v: NetworkView, other: NetworkView, plan: Seq<int>)
    requires
        v.structured(),
        other.structured(),
        v.same_problem(other),
        v.valid_plan(plan),
    ensures
        other.valid_plan(plan),
{
    let n = v.graph.nodes.len();
    assert forall|w: int| other.is_worker(w) implies other.first_arc[w] < #[trigger] plan[w] < other.next_arc(
        w,
    ) by {
        assert(v.is_worker(w));
        assert(v.first_arc[w] < plan[w] < v.next_arc(w));
    }
    assert forall|w: int| v.is_worker(w) implies v.task_of(plan[w]) == other.task_of(plan[w]) by {
        assert(v.first_arc[w] < plan[w] < v.next_arc(w));
        lemma_owner(v, plan[w], w);
        lemma_owner(other, plan[w], w);
        assert(other.graph.arcs[plan[w]].joins(v.graph.arcs[plan[w]].start, v.graph.arcs[plan[w]].end));
    }
    assert forall|t: int| other.is_task(t) implies other.task_min(t) <= #[trigger] other.load(plan, t)
        <= other.task_max(t) by {
        assert(v.is_task(t));
        assert(v.task_min(t) <= v.load(plan, t) <= v.task_max(t));
        assert(v.node_shape(t));
        lemma_ranges_ordered(v, t, t);
        assert(other.graph.arcs[v.first_arc[t] as int].min_flow == v.graph.arcs[v.first_arc[t] as int].min_flow);
        assert(row(v.placing(plan), n, t) =~= row(other.placing(plan), n, t)) by {
            assert forall|w: int| 0 <= w < n implies #[trigger] v.places(plan, t, w) == other.places(
                plan,
                t,
                w,
            ) by {
                if v.is_worker(w) {
                    assert(v.task_of(plan[w]) == other.task_of(plan[w]));
                }
            }
            assert forall|w: int| 0 <= w < n implies row(v.placing(plan), n, t)[w] == row(
                other.placing(plan),
                n,
                t,
            )[w] by {
                assert(v.places(plan, t, w) == other.places(plan, t, w));
            }
        }
    }
}

/// Networks that pose the same problem have a plan or have none together.
pub proof fn lemma_same_problem_same_plans(v: NetworkView, other: NetworkView)
    requires
        v.structured(),
        other.structured(),
        v.same_problem(other),
    ensures
        v.has_plan() == other.has_plan(),
{
    lemma_same_problem_back(v, other);
    if v.has_plan() {
        let plan = choose|plan: Seq<int>| v.valid_plan(plan);
        lemma_plan_carries_over(v, other, plan);
    }
    if other.has_plan() {
        let plan = choose|plan: Seq<int>| other.valid_plan(plan);
        lemma_plan_carries_over(other, v, plan);
    }
}

/// A list of `k` different numbers from `lo` to `lo + k` misses at most one
/// of those numbers.
pub proof fn lemma_few_missing(list: Seq<usize>, lo: int, k: int, m1: int, m2: int)
    requires
        list.no_duplicates(),
        list.len() == k,
        forall|j: int| 0 <= j < list.len() ==> lo <= #[trigger] list[j] <= lo + k,
        0 <= lo,
        lo + k <= usize::MAX,
        lo <= m1 <= lo + k,
        lo <= m2 <= lo + k,
        !list.contains(m1 as usize),
        !list.contains(m2 as usize),
    ensures
        m1 == m2,
{
    let ints = list.map_values(|a: usize| a as int);
    assert(ints.no_duplicates()) by {
        assert forall|i: int, j: int| 0 <= i < ints.len() && 0 <= j < ints.len() && i != j implies ints[i]
            != ints[j] by {
            assert(list[i] != list[j]);
        }
    }
    ints.unique_seq_to_set();
    let held = ints.to_set();
    let range = set_int_range(lo, lo + k + 1);
    lemma_int_range(lo, lo + k + 1);
    assert(held.subset_of(range)) by {
        assert forall|x: int| held.contains(x) implies range.contains(x) by {
            let i = choose|i: int| 0 <= i < ints.len() && ints[i] == x;
            assert(lo <= list[i] <= lo + k);
        }
    }
    lemma_len_subset(held, range);
    lemma_set_difference_len(range, held);
    assert(range.intersect(held) =~= held);
    let missing = range.difference(held);
    Set::lemma_is_singleton(missing);
    assert forall|x: int| lo <= x <= lo + k && !list.contains(x as usize) implies missing.contains(x) by {
        if held.contains(x) {
            let i = choose|i: int| 0 <= i < ints.len() && ints[i] == x;
            assert(list[i] == x as usize);
        }
    }
    assert(missing.contains(m1) && missing.contains(m2));
}

/// A worker is held by one task at most, and only once it is assigned.
pub proof fn lemma_held_once(v: NetworkView, w: int, t1: int, t2: int)
    requires
        v.wf(),
        v.holds(t1, w),
    ensures
        v.is_assigned(w),
        v.holds(t2, w) ==> t1 == t2,
{
    let g = v.graph;
    let lo = v.first_arc[w] as int;
    let k = v.degree(w);
    let list = g.nodes[w];
    assert(v.worker_balanced(w));
    assert(v.node_shape(w));
    lemma_ranges_ordered(v, w, w);
    assert(g.list_ok(w));
    assert forall|j: int| 0 <= j < list.len() implies lo <= #[trigger] list[j] <= lo + k by {
        lemma_worker_list_entry(v, w, j);
    }
    let a1 = choose|a: int| v.first_arc[w] < a < v.next_arc(w) && (#[trigger] g.arcs[a]).start == t1;
    assert(!list.contains(a1 as usize)) by {
        if list.contains(a1 as usize) {
            let i = choose|i: int| 0 <= i < list.len() && list[i] == a1 as usize;
            assert(g.arcs[list[i] as int].start == w);
        }
    }
    lemma_owner(v, lo, w);
    assert(g.arc_ok(lo));
    if g.arcs[lo].start != w {
        assert(!list.contains(lo as usize)) by {
            if list.contains(lo as usize) {
                let i = choose|i: int| 0 <= i < list.len() && list[i] == lo as usize;
                assert(g.arcs[list[i] as int].start == w);
            }
        }
        lemma_few_missing(list, lo, k, lo, a1);
    }
    if v.holds(t2, w) {
        let a2 = choose|a: int| v.first_arc[w] < a < v.next_arc(w) && (#[trigger] g.arcs[a]).start == t2;
        assert(!list.contains(a2 as usize)) by {
            if list.contains(a2 as usize) {
                let i = choose|i: int| 0 <= i < list.len() && list[i] == a2 as usize;
                assert(g.arcs[list[i] as int].start == w);
            }
        }
        lemma_few_missing(list, lo, k, a1, a2);
    }
}

/// The workers assigned to a task are listed once each.
pub proof fn lemma_workers_listed_once(v: NetworkView, t: int, upto: int)
    requires
        v.structured(),
        v.is_task(t),
        0 <= upto <= v.graph.nodes[t].len(),
    ensures
        v.workers_upto(t, upto).no_duplicates(),
    decreases upto,
{
    let g = v.graph;
    if upto > 0 {
        lemma_workers_listed_once(v, t, upto - 1);
        let before = v.workers_upto(t, upto - 1);
        let now = v.workers_upto(t, upto);
        lemma_task_list_entry(v, t, upto - 1);
        let a = g.nodes[t][upto - 1] as int;
        let end = g.arcs[a].end;
        if end != SINK {
            assert forall|k: int| 0 <= k < g.nodes[t].len() implies g.arcs[(#[trigger] g.nodes[t][k]) as int].end
                <= usize::MAX by {
                lemma_task_list_entry(v, t, k);
                assert(g.arc_ok(g.nodes[t][k] as int));
            }
            lemma_assigned_contains(v, t, upto - 1, end as usize);
            if before.contains(end as usize) {
                let k = choose|k: int| 0 <= k < upto - 1 && g.arcs[(#[trigger] g.nodes[t][k]) as int].end == end;
                let b = g.nodes[t][k] as int;
                lemma_task_list_entry(v, t, k);
                assert(g.list_ok(t));
                assert(g.nodes[t][k] != g.nodes[t][upto - 1]);
                assert(v.apart(a, b));
            }
            assert forall|i: int, j: int| 0 <= i < now.len() && 0 <= j < now.len() && i != j implies now[i]
                != now[j] by {
                if i < before.len() && j < before.len() {
                    assert(before[i] != before[j]);
                } else if i < before.len() {
                    assert(before.contains(before[i]));
                } else {
                    assert(before.contains(before[j]));
                }
            }
        }
    }
}

/// A task has taken on as many workers as it holds.
pub proof fn lemma_flow_is_held(v: NetworkView, t: int)
    requires
        v.wf(),
        v.is_task(t),
    ensures
        v.task_flow(t) == count_true(row(v.holding(), v.graph.nodes.len(), t)),
{
    let g = v.graph;
    let n = g.nodes.len();
    let list = g.nodes[t];
    let workers = v.assigned_workers(t);
    let marks = row(v.holding(), n, t);
    lemma_assigned_is_flow(v, t);
    lemma_workers_listed_once(v, t, list.len() as int);
    assert(g.list_ok(t));
    assert forall|k: int| 0 <= k < list.len() implies g.arcs[(#[trigger] list[k]) as int].end <= usize::MAX by {
        lemma_task_list_entry(v, t, k);
        assert(g.arc_ok(list[k] as int));
    }
    assert forall|i: int| 0 <= i < workers.len() implies (#[trigger] workers[i]) < marks.len()
        && marks[workers[i] as int] by {
        let w = workers[i];
        assert(workers.contains(w));
        lemma_assigned_contains(v, t, list.len() as int, w);
        let k = choose|k: int| 0 <= k < list.len() && g.arcs[(#[trigger] list[k]) as int].end == w;
        lemma_task_list_entry(v, t, k);
        let a = list[k] as int;
        assert(g.arc_ok(a));
        assert(v.arc_shape(a));
        assert(v.is_worker(w as int));
        assert(v.node_shape(w as int));
        assert(v.first_arc[w as int] < a < v.next_arc(w as int) && g.arcs[a].start == t);
        assert(v.holds(t, w as int));
    }
    assert forall|x: int| 0 <= x < marks.len() && marks[x] implies #[trigger] workers.contains(x as usize) by {
        assert(v.holds(t, x));
        let a = choose|a: int| v.first_arc[x] < a < v.next_arc(x) && (#[trigger] g.arcs[a]).start == t;
        lemma_owner(v, a, x);
        assert(g.arc_ok(a));
        assert(g.arcs[a].end == x);
        let k = choose|k: int| 0 <= k < list.len() && list[k] == a as usize;
        assert(g.arcs[list[k] as int].end == x);
        lemma_assigned_contains(v, t, list.len() as int, x as usize);
    }
    lemma_len_is_count(workers, marks);
}

impl NetworkView {
    /// How many workers each task has taken on.
    pub open spec fn flow_of(self) -> spec_fn(int) -> int {
        |t: int| self.task_flow(t) as int
    }

    /// The minimum of each task.
    pub open spec fn min_of(self) -> spec_fn(int) -> int {
        |t: int| self.task_min(t) as int
    }

    /// The maximum of each task.
    pub open spec fn max_of(self) -> spec_fn(int) -> int {
        |t: int| self.task_max(t) as int
    }

    /// How many workers the plan gives each task.
    pub open spec fn load_of(self, plan: Seq<int>) -> spec_fn(int) -> int {
        |t: int| self.load(plan, t) as int
    }

    /// The tasks that a walk from the source reaches.
    pub open spec fn near_tasks(self) -> Seq<bool> {
        Seq::new(self.graph.nodes.len(), |t: int| self.is_task(t) && self.graph.reachable(SOURCE as int, t))
    }

    /// The tasks that no walk from the source reaches.
    pub open spec fn far_tasks(self) -> Seq<bool> {
        Seq::new(self.graph.nodes.len(), |t: int| self.is_task(t) && !self.graph.reachable(SOURCE as int, t))
    }

    /// All tasks.
    pub open spec fn all_tasks(self) -> Seq<bool> {
        Seq::new(self.graph.nodes.len(), |t: int| self.is_task(t))
    }

    /// The workers that a walk from the source reaches.
    pub open spec fn near_workers(self) -> Seq<bool> {
        Seq::new(self.graph.nodes.len(), |w: int| self.is_worker(w) && self.graph.reachable(SOURCE as int, w))
    }
}

/// A walk goes on over any arc that may be followed.
pub proof fn lemma_reach_on(g: Graph, a: int)
    requires
        g.wf(),
        g.followable(a),
        g.reachable(SOURCE as int, g.arcs[a].start as int),
    ensures
        g.reachable(SOURCE as int, g.arcs[a].end as int),
{
    let w = choose|w: Seq<int>| g.is_walk(w, SOURCE as int, g.arcs[a].start as int);
    lemma_walk_push(g, w, SOURCE as int, a);
    assert(g.is_walk(w.push(a), SOURCE as int, g.arcs[a].end as int));
}

/// A node other than the source is reached over an arc from a node that is
/// reached.
pub proof fn lemma_reach_back(g: Graph, x: int) -> (a: int)
    requires
        g.wf(),
        g.reachable(SOURCE as int, x),
        x != SOURCE,
    ensures
        g.followable(a),
        g.arcs[a].end == x,
        g.reachable(SOURCE as int, g.arcs[a].start as int),
{
    let w = choose|w: Seq<int>| g.is_walk(w, SOURCE as int, x);
    lemma_walk_drop_last(g, w, SOURCE as int, x);
    assert(g.is_walk(w.drop_last(), SOURCE as int, g.arcs[w.last()].start as int));
    w.last()
}

/// The source is reached.
pub proof fn lemma_reach_source(g: Graph)
    requires
        g.wf(),
    ensures
        g.reachable(SOURCE as int, SOURCE as int),
{
    assert(g.is_walk(Seq::<int>::empty(), SOURCE as int, SOURCE as int));
}

/// A worker that is not assigned is reached from the source.
pub proof fn lemma_unassigned_is_near(v: NetworkView, w: int)
    requires
        v.wf(),
        v.is_worker(w),
        !v.is_assigned(w),
    ensures
        v.graph.reachable(SOURCE as int, w),
{
    let g = v.graph;
    let lo = v.first_arc[w] as int;
    assert(v.node_shape(w));
    lemma_ranges_ordered(v, w, w);
    lemma_owner(v, lo, w);
    lemma_reach_source(g);
    lemma_reach_on(g, lo);
}

/// A worker that is assigned is held by a task.
pub proof fn lemma_assigned_is_held(v: NetworkView, w: int) -> (t: int)
    requires
        v.wf(),
        v.is_assigned(w),
    ensures
        v.holds(t, w),
{
    let g = v.graph;
    let lo = v.first_arc[w] as int;
    let k = v.degree(w);
    let list = g.nodes[w];
    assert(v.worker_balanced(w));
    assert(v.node_shape(w));
    lemma_ranges_ordered(v, w, w);
    lemma_owner(v, lo, w);
    assert(g.arc_ok(lo));
    assert(g.list_ok(w));
    assert forall|j: int| 0 <= j < list.len() implies lo <= #[trigger] list[j] <= lo + k by {
        lemma_worker_list_entry(v, w, j);
    }
    lemma_one_missing(list, lo, k);
    let m = choose|m: int| only_missing(list, lo, k, m);
    lemma_owner(v, m, w);
    assert(g.arc_ok(m));
    assert(g.arcs[m].start != w);
    assert(g.arcs[m].start == g.arcs[m].start);
    g.arcs[m].start as int
}

/// A task that is reached from the source while the sink is not is not open.
pub proof fn lemma_near_task_is_closed(v: NetworkView, t: int)
    requires
        v.wf(),
        v.is_task(t),
        v.graph.reachable(SOURCE as int, t),
        !v.graph.reachable(SOURCE as int, SINK as int),
    ensures
        !v.is_open(t),
{
    let g = v.graph;
    if v.is_open(t) {
        assert(v.node_shape(t));
        lemma_owner(v, v.first_arc[t] as int, t);
        lemma_reach_on(g, v.first_arc[t] as int);
    }
}

/// A worker that a reached task holds is reached.
pub proof fn lemma_held_by_near_is_near(v: NetworkView, t: int, w: int)
    requires
        v.wf(),
        v.holds(t, w),
        v.graph.reachable(SOURCE as int, t),
    ensures
        v.graph.reachable(SOURCE as int, w),
{
    let g = v.graph;
    let a = choose|a: int| v.first_arc[w] < a < v.next_arc(w) && (#[trigger] g.arcs[a]).start == t;
    lemma_owner(v, a, w);
    assert(g.arc_ok(a));
    lemma_reach_on(g, a);
}

/// The task that a plan gives to a reached worker is reached.
pub proof fn lemma_plan_of_near_is_near(v: NetworkView, plan: Seq<int>, w: int)
    requires
        v.wf(),
        v.valid_plan(plan),
        v.is_worker(w),
        v.graph.reachable(SOURCE as int, w),
    ensures
        v.is_task(v.task_of(plan[w])),
        v.graph.reachable(SOURCE as int, v.task_of(plan[w])),
{
    let g = v.graph;
    let a = plan[w];
    lemma_owner(v, a, w);
    assert(g.arc_ok(a));
    if g.arcs[a].start == w {
        lemma_reach_on(g, a);
    } else {
        let t = g.arcs[a].start as int;
        assert(v.holds(t, w));
        lemma_held_once(v, w, t, t);
        let b = lemma_reach_back(g, w);
        assert(v.arc_shape(b));
        assert(g.arc_ok(b));
        assert(v.node_shape(w));
        let u = g.arcs[b].start as int;
        if u == SOURCE {
        } else {
            assert(v.holds(u, w));
            lemma_held_once(v, w, t, u);
        }
    }
}

/// A worker that a plan gives a task that is not reached is held by a task
/// that is not reached.
pub proof fn lemma_plan_of_far_is_held_far(v: NetworkView, plan: Seq<int>, w: int) -> (t: int)
    requires
        v.wf(),
        v.valid_plan(plan),
        v.is_worker(w),
        !v.graph.reachable(SOURCE as int, v.task_of(plan[w])),
    ensures
        v.holds(t, w),
        !v.graph.reachable(SOURCE as int, t),
{
    let g = v.graph;
    let a = plan[w];
    lemma_owner(v, a, w);
    assert(g.arc_ok(a));
    if g.arcs[a].start == w {
        if g.reachable(SOURCE as int, w) {
            lemma_reach_on(g, a);
        }
        if !v.is_assigned(w) {
            lemma_unassigned_is_near(v, w);
        }
        let t = lemma_assigned_is_held(v, w);
        if g.reachable(SOURCE as int, t) {
            lemma_held_by_near_is_near(v, t, w);
        }
        t
    } else {
        let t = g.arcs[a].start as int;
        assert(v.holds(t, w));
        t
    }
}

/// What the tasks have taken on together, and what their minima and maxima
/// add up to, written as sums over all tasks.
pub proof fn lemma_totals_are_sums(v: NetworkView, upto: int)
    requires
        0 <= upto <= v.graph.nodes.len(),
        v.kinds.len() == v.graph.nodes.len(),
    ensures
        sum_marked(v.flow_of(), v.all_tasks(), upto) == v.flow_upto(upto),
        sum_marked(v.min_of(), v.all_tasks(), upto) == v.minima_upto(upto),
        sum_marked(v.max_of(), v.all_tasks(), upto) == v.maxima_upto(upto),
    decreases upto,
{
    if upto > 0 {
        lemma_totals_are_sums(v, upto - 1);
    }
}

/// While tasks are filled up to their maxima: if no path leads from the
/// source to the sink and a worker is still unassigned, no plan is valid.
/// The workers that are reached accept reached tasks only, and those are
/// full.
pub proof fn lemma_stuck_second_phase(v: NetworkView, plan: Seq<int>, idle: int)
    requires
        v.wf(),
        v.graph.min_flow_satisfied,
        !v.graph.reachable(SOURCE as int, SINK as int),
        v.is_worker(idle),
        !v.is_assigned(idle),
    ensures
        !v.valid_plan(plan),
{
    if v.valid_plan(plan) {
        let n = v.graph.nodes.len();
        let near = v.near_tasks();
        let by_plan = rows_upto(v.placing(plan), n, near, n as int);
        let by_hold = rows_upto(v.holding(), n, near, n as int);
        let workers = v.near_workers();
        assert forall|w: int, t1: int, t2: int| #[trigger]
            v.placing(plan)(t1, w) && #[trigger] v.placing(plan)(t2, w) implies t1 == t2 by {}
        assert forall|w: int, t1: int, t2: int| #[trigger]
            v.holding()(t1, w) && #[trigger] v.holding()(t2, w) implies t1 == t2 by {
            lemma_held_once(v, w, t1, t2);
        }
        lemma_double_count(v.placing(plan), n, near, n as int);
        lemma_double_count(v.holding(), n, near, n as int);
        // The reached tasks hold fewer workers than are reached.
        assert forall|w: int| 0 <= w < n && by_hold[w] implies workers[w] by {
            let t = choose|t: int| 0 <= t < n && #[trigger] near[t] && v.holding()(t, w);
            lemma_held_by_near_is_near(v, t, w);
        }
        lemma_unassigned_is_near(v, idle);
        assert(!by_hold[idle]) by {
            if by_hold[idle] {
                let t = choose|t: int| 0 <= t < n && #[trigger] near[t] && v.holding()(t, idle);
                lemma_held_once(v, idle, t, t);
            }
        }
        lemma_count_strict(by_hold, workers, idle);
        // The plan puts every reached worker into a reached task.
        assert forall|w: int| 0 <= w < n && workers[w] implies by_plan[w] by {
            lemma_plan_of_near_is_near(v, plan, w);
            let t = v.task_of(plan[w]);
            assert(near[t] && v.placing(plan)(t, w));
        }
        lemma_count_mono(workers, by_plan);
        // The reached tasks are full, so the plan gives them no more than
        // they hold.
        assert forall|t: int| 0 <= t < n && near[t] implies #[trigger] v.flow_of()(t) == count_true(
            row(v.holding(), n, t),
        ) by {
            lemma_flow_is_held(v, t);
        }
        lemma_sum_rows_is_sum(v.holding(), n, v.flow_of(), near, n as int);
        assert forall|t: int| 0 <= t < n && near[t] implies #[trigger] v.load_of(plan)(t) == count_true(
            row(v.placing(plan), n, t),
        ) by {}
        lemma_sum_rows_is_sum(v.placing(plan), n, v.load_of(plan), near, n as int);
        assert forall|t: int| 0 <= t < n && near[t] implies #[trigger] v.load_of(plan)(t) <= v.flow_of()(
            t,
        ) by {
            lemma_near_task_is_closed(v, t);
            assert(v.load(plan, t) <= v.task_max(t));
        }
        lemma_sum_le(v.load_of(plan), v.flow_of(), near, n as int);
    }
}

/// While minima are being met: if no path leads from the source to the
/// sink, and the tasks have not yet taken on as many workers as their minima
/// add up to, no plan is valid. The tasks that are not reached lack workers,
/// and only the workers they hold already can serve them.
pub proof fn lemma_stuck_first_phase(v: NetworkView, plan: Seq<int>)
    requires
        v.wf(),
        !v.graph.min_flow_satisfied,
        !v.graph.reachable(SOURCE as int, SINK as int),
        v.total_flow() < v.sum_of_minima,
    ensures
        !v.valid_plan(plan),
{
    if v.valid_plan(plan) {
        let n = v.graph.nodes.len();
        let near = v.near_tasks();
        let far = v.far_tasks();
        let by_plan = rows_upto(v.placing(plan), n, far, n as int);
        let by_hold = rows_upto(v.holding(), n, far, n as int);
        assert forall|w: int, t1: int, t2: int| #[trigger]
            v.placing(plan)(t1, w) && #[trigger] v.placing(plan)(t2, w) implies t1 == t2 by {}
        assert forall|w: int, t1: int, t2: int| #[trigger]
            v.holding()(t1, w) && #[trigger] v.holding()(t2, w) implies t1 == t2 by {
            lemma_held_once(v, w, t1, t2);
        }
        lemma_double_count(v.placing(plan), n, far, n as int);
        lemma_double_count(v.holding(), n, far, n as int);
        // Whom the plan gives a task that is not reached, such a task holds.
        assert forall|w: int| 0 <= w < n && by_plan[w] implies by_hold[w] by {
            let p = choose|t: int| 0 <= t < n && #[trigger] far[t] && v.placing(plan)(t, w);
            let t = lemma_plan_of_far_is_held_far(v, plan, w);
            assert(far[t] && v.holding()(t, w));
        }
        lemma_count_mono(by_plan, by_hold);
        assert forall|t: int| 0 <= t < n && far[t] implies #[trigger] v.flow_of()(t) == count_true(
            row(v.holding(), n, t),
        ) by {
            lemma_flow_is_held(v, t);
        }
        lemma_sum_rows_is_sum(v.holding(), n, v.flow_of(), far, n as int);
        assert forall|t: int| 0 <= t < n && far[t] implies #[trigger] v.load_of(plan)(t) == count_true(
            row(v.placing(plan), n, t),
        ) by {}
        lemma_sum_rows_is_sum(v.placing(plan), n, v.load_of(plan), far, n as int);
        // The plan gives the tasks that are not reached their minima.
        assert forall|t: int| 0 <= t < n && far[t] implies #[trigger] v.min_of()(t) <= v.load_of(plan)(t) by {
            assert(v.task_min(t) <= v.load(plan, t));
        }
        lemma_sum_le(v.min_of(), v.load_of(plan), far, n as int);
        // The reached tasks are at their minima, so those that are not
        // reached lack workers.
        let all = v.all_tasks();
        lemma_sum_split(v.flow_of(), all, near, far, n as int);
        lemma_sum_split(v.min_of(), all, near, far, n as int);
        lemma_totals_are_sums(v, n as int);
        assert forall|t: int| 0 <= t < n && near[t] implies #[trigger] v.min_of()(t) <= v.flow_of()(t) by {
            lemma_near_task_is_closed(v, t);
        }
        lemma_sum_le(v.min_of(), v.flow_of(), near, n as int);
    }
}

/// If no path leads from the source to the sink while a worker is still
/// unassigned, and minima count as met or are not all met yet, the workers
/// cannot be assigned at all.
pub proof fn lemma_stuck_means_no_plan(v: NetworkView)
    requires
        v.wf(),
        !v.graph.reachable(SOURCE as int, SINK as int),
        v.graph.nodes[SOURCE as int].len() > 0,
        !v.graph.min_flow_satisfied ==> v.total_flow() < v.sum_of_minima,
    ensures
        !v.has_plan(),
{
    let g = v.graph;
    assert(g.list_ok(SOURCE as int));
    let a = g.nodes[SOURCE as int][0] as int;
    assert(g.arcs[g.nodes[SOURCE as int][0] as int].start == SOURCE);
    assert(v.arc_shape(a));
    assert(g.arc_ok(a));
    let idle = g.arcs[a].end as int;
    assert(v.is_worker(idle));
    assert(v.node_shape(idle));
    assert(!v.is_assigned(idle));
    assert forall|plan: Seq<int>| !v.valid_plan(plan) by {
        if g.min_flow_satisfied {
            lemma_stuck_second_phase(v, plan, idle);
        } else {
            lemma_stuck_first_phase(v, plan);
        }
    }
}

/// Once all workers are assigned, the assignment is a plan.
pub proof fn lemma_solved_follows_a_plan(v: NetworkView)
    requires
        v.wf(),
        v.solved(),
    ensures
        v.valid_plan(v.followed_plan()),
        v.has_plan(),
{
    let g = v.graph;
    let n = g.nodes.len();
    let plan = v.followed_plan();
    assert(g.list_ok(SOURCE as int));
    assert forall|w: int| v.is_worker(w) implies v.first_arc[w] < #[trigger] plan[w] < v.next_arc(w)
        && v.holds(g.arcs[plan[w]].start as int, w) by {
        let lo = v.first_arc[w] as int;
        assert(v.node_shape(w));
        lemma_ranges_ordered(v, w, w);
        lemma_owner(v, lo, w);
        assert(g.arc_ok(lo));
        if g.arcs[lo].start != w {
            assert(g.nodes[SOURCE as int].contains(lo as usize));
        }
        let t = lemma_assigned_is_held(v, w);
        let a = choose|a: int| v.first_arc[w] < a < v.next_arc(w) && (#[trigger] g.arcs[a]).start == t;
        assert(v.first_arc[w] < a < v.next_arc(w) && g.arcs[a].start != w);
        lemma_owner(v, plan[w], w);
        assert(g.arc_ok(plan[w]));
    }
    assert forall|t: int| v.is_task(t) implies v.task_min(t) <= #[trigger] v.load(plan, t) <= v.task_max(t) by {
        lemma_flow_is_held(v, t);
        lemma_task_within_bounds(v, t);
        lemma_assigned_is_flow(v, t);
        assert(row(v.placing(plan), n, t) =~= row(v.holding(), n, t)) by {
            assert forall|w: int| 0 <= w < n implies #[trigger] v.places(plan, t, w) == v.holds(t, w) by {
                if v.is_worker(w) {
                    let held = g.arcs[plan[w]].start as int;
                    assert(v.holds(held, w));
                    lemma_held_once(v, w, held, t);
                    assert(v.task_of(plan[w]) == held);
                }
            }
            assert forall|w: int| 0 <= w < n implies row(v.placing(plan), n, t)[w] == row(v.holding(), n, t)[w] by {
                assert(v.places(plan, t, w) == v.holds(t, w));
            }
        }
    }
    assert(plan.len() == n);
    assert(v.valid_plan(plan));
}

} // verus!
