//! What holds of every network, and of every network whose workers are all
//! assigned.
use crate::network::balance::lemma_owner;
use crate::network::counting::{
    lemma_list_sum_is_marked_sum, lemma_sum_bump, lemma_sum_le, list_sum, sum_marked,
};
use crate::network::graph::{Graph, SINK, SOURCE};
use crate::network::model::{lemma_ranges_ordered, NetworkView};
use crate::network::potential::lemma_potential_no_negative_cycle;
use vstd::prelude::*;
use vstd::set_lib::{
    lemma_int_range, lemma_len_subset, lemma_set_difference_len, set_int_range,
};

verus! {

impl NetworkView {
    /// Worker `w` is assigned to task `t`: an arc leaves the task for the
    /// worker.
    pub open spec fn assigned(self, w: int, t: int) -> bool {
        self.is_task(t) && self.assigned_workers(t).contains(w as usize)
    }

    /// How many workers are assigned to the tasks among the first `upto`
    /// nodes.
    pub open spec fn assigned_upto(self, upto: int) -> nat
        decreases upto,
    {
        if upto <= 0 {
            0
        } else {
            self.assigned_upto(upto - 1) + if self.is_task(upto - 1) {
                self.assigned_workers(upto - 1).len()
            } else {
                0
            }
        }
    }
}

/// A network of tasks and workers holds no cycle of negative cost that a
/// walk from the source reaches, however much flow went through it: a search
/// for a cheapest path settles on it.
pub proof fn lemma_no_negative_cycle(v: NetworkView)
    requires
        v.wf(),
    ensures
        v.graph.wf(),
        !v.graph.has_negative_cycle(),
{
    let pot = choose|pot: Seq<int>| v.priced(pot);
    assert(v.graph.feasible(pot));
    lemma_potential_no_negative_cycle(v.graph);
}

/// The flow of every arc lies between zero and the arc's upper bound, and
/// the bounds are ordered.
pub proof fn lemma_flow_within_bounds(g: Graph, a: int)
    requires
        g.wf(),
        0 <= a < g.arcs.len(),
    ensures
        0 <= g.arcs[a].current_flow <= g.arcs[a].max_flow,
        g.arcs[a].min_flow <= g.arcs[a].max_flow,
{
    assert(g.arc_ok(a));
}

/// No connection list holds an arc twice, and every arc is in the list of
/// the node it starts at and in no other.
pub proof fn lemma_connections_distinct(g: Graph, v: int)
    requires
        g.wf(),
        0 <= v < g.nodes.len(),
    ensures
        g.nodes[v].no_duplicates(),
        forall|a: int| 0 <= a < g.arcs.len() ==> (g.nodes[v].contains(a as usize) <==> (#[trigger] g.arcs[a]).start == v),
{
    assert(g.list_ok(v));
    assert forall|a: int| 0 <= a < g.arcs.len() implies (g.nodes[v].contains(a as usize) <==> (
    #[trigger] g.arcs[a]).start == v) by {
        assert(g.arc_ok(a));
        if g.nodes[v].contains(a as usize) {
            let k = choose|k: int| 0 <= k < g.nodes[v].len() && g.nodes[v][k] == a as usize;
            assert(g.arcs[g.nodes[v][k] as int].start == v);
        }
    }
}

/// An arc that leaves a task ends at the sink just if it is the arc that
/// was added with the task.
pub proof fn lemma_task_list_entry(v: NetworkView, t: int, k: int)
    requires
        v.structured(),
        v.is_task(t),
        0 <= k < v.graph.nodes[t].len(),
    ensures
        v.graph.nodes[t][k] < v.graph.arcs.len(),
        v.graph.arcs[v.graph.nodes[t][k] as int].start == t,
        v.graph.arcs[v.graph.nodes[t][k] as int].end == SINK <==> v.graph.nodes[t][k] == v.first_arc[t],
        v.graph.arcs[v.graph.nodes[t][k] as int].end != SINK ==> v.is_worker(
            v.graph.arcs[v.graph.nodes[t][k] as int].end as int,
        ),
{
    assert(v.graph.list_ok(t));
    let a = v.graph.nodes[t][k] as int;
    assert(v.arc_shape(a));
    assert(v.node_shape(t));
    lemma_owner(v, v.first_arc[t] as int, t);
    assert(v.graph.arc_ok(v.first_arc[t] as int));
}

/// Among the first arcs that leave a task, all but the task's own arc to the
/// sink lead to workers.
pub proof fn lemma_workers_upto_len(v: NetworkView, t: int, upto: int)
    requires
        v.structured(),
        v.is_task(t),
        0 <= upto <= v.graph.nodes[t].len(),
    ensures
        v.workers_upto(t, upto).len() == upto - if v.graph.nodes[t].take(upto).contains(v.first_arc[t]) {
            1int
        } else {
            0int
        },
    decreases upto,
{
    let list = v.graph.nodes[t];
    if upto > 0 {
        lemma_workers_upto_len(v, t, upto - 1);
        lemma_task_list_entry(v, t, upto - 1);
        let shorter = list.take(upto - 1);
        let longer = list.take(upto);
        assert(v.graph.list_ok(t));
        if list[upto - 1] == v.first_arc[t] {
            assert(longer[upto - 1] == v.first_arc[t]);
            if shorter.contains(v.first_arc[t]) {
                let j = choose|j: int| 0 <= j < shorter.len() && shorter[j] == v.first_arc[t];
                assert(list[j] == list[upto - 1]);
            }
        } else {
            if longer.contains(v.first_arc[t]) {
                let j = choose|j: int| 0 <= j < longer.len() && longer[j] == v.first_arc[t];
                assert(shorter[j] == v.first_arc[t]);
            }
            if shorter.contains(v.first_arc[t]) {
                let j = choose|j: int| 0 <= j < shorter.len() && shorter[j] == v.first_arc[t];
                assert(longer[j] == v.first_arc[t]);
            }
        }
    } else {
        assert(list.take(0) =~= Seq::<usize>::empty());
    }
}

/// As many workers are assigned to a task as the task has taken on.
pub proof fn lemma_assigned_is_flow(v: NetworkView, t: int)
    requires
        v.wf(),
        v.is_task(t),
    ensures
        v.assigned_workers(t).len() == v.task_flow(t),
{
    let list = v.graph.nodes[t];
    lemma_workers_upto_len(v, t, list.len() as int);
    assert(list.take(list.len() as int) =~= list);
    assert(v.task_balanced(t));
    assert(v.node_shape(t));
    lemma_owner(v, v.first_arc[t] as int, t);
    assert(v.graph.arc_ok(v.first_arc[t] as int));
    assert(v.graph.list_ok(t));
    if list.contains(v.first_arc[t]) {
        let j = choose|j: int| 0 <= j < list.len() && list[j] == v.first_arc[t];
        assert(v.graph.arcs[list[j] as int].start == t);
    }
}

/// The workers assigned to a task are the nodes, other than the sink, at the
/// ends of the arcs that leave it.
pub proof fn lemma_assigned_contains(v: NetworkView, t: int, upto: int, w: usize)
    requires
        0 <= upto <= v.graph.nodes[t].len(),
        forall|k: int| 0 <= k < v.graph.nodes[t].len() ==> v.graph.arcs[(#[trigger] v.graph.nodes[t][k]) as int].end
            <= usize::MAX,
    ensures
        v.workers_upto(t, upto).contains(w) <==> w != SINK && exists|k: int|
            0 <= k < upto && v.graph.arcs[(#[trigger] v.graph.nodes[t][k]) as int].end == w,
    decreases upto,
{
    if upto > 0 {
        lemma_assigned_contains(v, t, upto - 1, w);
        let before = v.workers_upto(t, upto - 1);
        let now = v.workers_upto(t, upto);
        let end = v.graph.arcs[v.graph.nodes[t][upto - 1] as int].end;
        if now.contains(w) {
            let i = choose|i: int| 0 <= i < now.len() && now[i] == w;
            if end != SINK && i == now.len() - 1 {
                assert(v.graph.arcs[v.graph.nodes[t][upto - 1] as int].end == w);
            } else {
                assert(before[i] == w);
                assert(before.contains(w));
                let k = choose|k: int|
                    0 <= k < upto - 1 && v.graph.arcs[(#[trigger] v.graph.nodes[t][k]) as int].end == w;
                assert(v.graph.arcs[v.graph.nodes[t][k] as int].end == w);
            }
        }
        if w != SINK && exists|k: int|
            0 <= k < upto && v.graph.arcs[(#[trigger] v.graph.nodes[t][k]) as int].end == w {
            let k = choose|k: int|
                0 <= k < upto && v.graph.arcs[(#[trigger] v.graph.nodes[t][k]) as int].end == w;
            if k == upto - 1 {
                assert(now[now.len() - 1] == w);
            } else {
                assert(v.graph.arcs[v.graph.nodes[t][k] as int].end == w);
                assert(before.contains(w));
                let i = choose|i: int| 0 <= i < before.len() && before[i] == w;
                assert(now[i] == w);
            }
        }
    }
}

/// Of the numbers above `lo` up to `lo + k`, `list` misses `m` and no other.
pub open spec fn only_missing(list: Seq<usize>, lo: int, k: int, m: int) -> bool {
    &&& lo < m <= lo + k
    &&& !list.contains(m as usize)
    &&& forall|other: int| lo < other <= lo + k && !#[trigger] list.contains(other as usize) ==> other == m
}

/// A list of `k` different numbers from `lo` to `lo + k` that holds `lo`
/// misses exactly one of the numbers above `lo`.
pub proof fn lemma_one_missing(list: Seq<usize>, lo: int, k: int)
    requires
        list.no_duplicates(),
        list.len() == k,
        forall|j: int| 0 <= j < list.len() ==> lo <= #[trigger] list[j] <= lo + k,
        list.contains(lo as usize),
        0 <= lo,
        lo + k <= usize::MAX,
    ensures
        exists|m: int| only_missing(list, lo, k, m),
{
    let ints = list.map_values(|a: usize| a as int);
    assert(ints.no_duplicates()) by {
        assert forall|i: int, j: int| 0 <= i < ints.len() && 0 <= j < ints.len() && i != j implies ints[i]
            != ints[j] by {
            assert(list[i] != list[j]);
        }
    }
    ints.unique_seq_to_set();
    let held = ints.to_set();
    let range = set_int_range(lo, lo + k + 1);
    lemma_int_range(lo, lo + k + 1);
    assert(held.subset_of(range)) by {
        assert forall|x: int| held.contains(x) implies range.contains(x) by {
            let i = choose|i: int| 0 <= i < ints.len() && ints[i] == x;
            assert(lo <= list[i] <= lo + k);
        }
    }
    lemma_len_subset(held, range);
    lemma_set_difference_len(range, held);
    assert(range.intersect(held) =~= held);
    let missing = range.difference(held);
    assert(missing.len() == 1);
    assert(missing.finite());
    Set::lemma_is_singleton(missing);
    assert(missing.is_singleton());
    let m = missing.choose();
    assert(missing.contains(m));
    assert forall|x: int| lo <= x <= lo + k implies (held.contains(x) <==> list.contains(x as usize)) by {
        if held.contains(x) {
            let i = choose|i: int| 0 <= i < ints.len() && ints[i] == x;
            assert(list[i] == x as usize);
        }
        if list.contains(x as usize) {
            let i = choose|i: int| 0 <= i < list.len() && list[i] == x as usize;
            assert(ints[i] == x);
        }
    }
    assert(held.contains(lo));
    assert(m != lo);
    assert forall|other: int| lo < other <= lo + k && !#[trigger] list.contains(other as usize) implies other
        == m by {
        assert(missing.contains(other));
    }
    assert(only_missing(list, lo, k, m));
}

/// The arcs that leave a worker are arcs that were added with the worker.
pub proof fn lemma_worker_list_entry(v: NetworkView, w: int, k: int)
    requires
        v.structured(),
        v.is_worker(w),
        0 <= k < v.graph.nodes[w].len(),
    ensures
        v.first_arc[w] <= v.graph.nodes[w][k] < v.next_arc(w),
{
    assert(v.graph.list_ok(w));
    let a = v.graph.nodes[w][k] as int;
    assert(v.arc_shape(a));
    assert(v.graph.arc_ok(a));
    let arc = v.graph.arcs[a];
    assert(arc.start == w);
    assert(v.node_shape(w));
}

/// Once all workers are assigned, every worker is assigned to exactly one
/// task.
pub proof fn lemma_worker_assigned_once(v: NetworkView, w: int)
    requires
        v.wf(),
        v.solved(),
        v.is_worker(w),
    ensures
        exists|t: int|
            #![trigger v.assigned(w, t)]
            v.assigned(w, t) && forall|other: int| #[trigger] v.assigned(w, other) ==> other == t,
{
    let g = v.graph;
    let lo = v.first_arc[w] as int;
    let k = v.degree(w);
    let list = g.nodes[w];
    assert(v.worker_balanced(w));
    assert(v.node_shape(w));
    lemma_ranges_ordered(v, w, w);
    lemma_owner(v, lo, w);
    assert(g.arc_ok(lo));
    assert(g.list_ok(w));
    assert(g.list_ok(SOURCE as int));
    // The arc from the source has turned round: it is listed at the worker.
    assert(g.arcs[lo].start == w) by {
        if g.arcs[lo].start != w {
            assert(g.nodes[SOURCE as int].contains(lo as usize));
        }
    }
    assert forall|j: int| 0 <= j < list.len() implies lo <= #[trigger] list[j] <= lo + k by {
        lemma_worker_list_entry(v, w, j);
    }
    lemma_one_missing(list, lo, k);
    let m = choose|m: int| only_missing(list, lo, k, m);
    lemma_owner(v, m, w);
    assert(g.arc_ok(m));
    let t = g.arcs[m].start as int;
    assert(g.arcs[m].end == w && v.is_task(t));
    assert(g.list_ok(t));
    assert forall|x: int, j: int| v.is_task(x) && 0 <= j < g.nodes[x].len() implies g.arcs[(
    #[trigger] g.nodes[x][j]) as int].end <= usize::MAX by {
        assert(g.list_ok(x));
        assert(g.arc_ok(g.nodes[x][j] as int));
    }
    assert(v.assigned(w, t)) by {
        let j = choose|j: int| 0 <= j < g.nodes[t].len() && g.nodes[t][j] == m as usize;
        assert(g.arcs[g.nodes[t][j] as int].end == w);
        lemma_assigned_contains(v, t, g.nodes[t].len() as int, w as usize);
    }
    assert forall|other: int| #[trigger] v.assigned(w, other) implies other == t by {
        lemma_assigned_contains(v, other, g.nodes[other].len() as int, w as usize);
        let j = choose|j: int|
            0 <= j < g.nodes[other].len() && g.arcs[(#[trigger] g.nodes[other][j]) as int].end == w;
        let b = g.nodes[other][j] as int;
        assert(g.list_ok(other));
        assert(g.arcs[b].start == other);
        assert(v.arc_shape(b));
        assert(v.node_shape(w));
        assert(lo < b <= lo + k);
        assert(!list.contains(b as usize)) by {
            if list.contains(b as usize) {
                let i = choose|i: int| 0 <= i < list.len() && list[i] == b as usize;
                assert(g.arcs[list[i] as int].start == w);
            }
        }
        assert(b == m);
    }
}

/// Once all workers are assigned, every worker accepts at least one task.
pub proof fn lemma_assigned_worker_accepts_a_task(v: NetworkView, w: int)
    requires
        v.wf(),
        v.solved(),
        v.is_worker(w),
    ensures
        v.degree(w) >= 1,
{
    let g = v.graph;
    let lo = v.first_arc[w] as int;
    assert(v.worker_balanced(w));
    assert(v.node_shape(w));
    lemma_ranges_ordered(v, w, w);
    lemma_owner(v, lo, w);
    assert(g.arc_ok(lo));
    if g.arcs[lo].start != w {
        assert(g.nodes[SOURCE as int].contains(lo as usize));
    }
    assert(g.nodes[w].contains(lo as usize));
}

/// The tasks together have as many workers assigned as they have taken on.
pub proof fn lemma_assigned_upto_is_flow(v: NetworkView, upto: int)
    requires
        v.wf(),
        0 <= upto <= v.graph.nodes.len(),
    ensures
        v.assigned_upto(upto) == v.flow_upto(upto),
    decreases upto,
{
    if upto > 0 {
        lemma_assigned_upto_is_flow(v, upto - 1);
        if v.is_task(upto - 1) {
            lemma_assigned_is_flow(v, upto - 1);
        }
    }
}

/// Once all workers are assigned, the tasks together have as many workers
/// as there are.
pub proof fn lemma_every_worker_counted(v: NetworkView)
    requires
        v.wf(),
        v.solved(),
    ensures
        v.assigned_upto(v.graph.nodes.len() as int) == v.num_workers(),
{
    lemma_assigned_upto_is_flow(v, v.graph.nodes.len() as int);
}

/// No task ever has more workers than its maximum; and once minima count as
/// met, as they do when all workers are assigned, no task has fewer than its
/// minimum.
pub proof fn lemma_task_within_bounds(v: NetworkView, t: int)
    requires
        v.wf(),
        v.is_task(t),
    ensures
        v.assigned_workers(t).len() <= v.task_max(t),
        v.graph.min_flow_satisfied ==> v.task_min(t) <= v.assigned_workers(t).len(),
{
    lemma_assigned_is_flow(v, t);
    assert(v.task_balanced(t));
    assert(v.node_shape(t));
    lemma_owner(v, v.first_arc[t] as int, t);
    assert(v.graph.arc_ok(v.first_arc[t] as int));
}

/// A task whose maximum is zero never has a worker.
pub proof fn lemma_task_without_capacity_stays_empty(v: NetworkView, t: int)
    requires
        v.wf(),
        v.is_task(t),
        v.task_max(t) == 0,
    ensures
        v.assigned_workers(t).len() == 0,
{
    lemma_task_within_bounds(v, t);
}

/// What each arc costs.
pub open spec fn arc_cost(g: Graph) -> spec_fn(int) -> int {
    |a: int| g.arcs[a].cost
}

/// Which arcs start at node `x`.
pub open spec fn starts_at(g: Graph, x: int) -> Seq<bool> {
    Seq::new(g.arcs.len(), |a: int| g.arcs[a].start == x)
}

/// What the arcs among the first `upto` that start at a node cost together,
/// for each node.
pub open spec fn cost_from(g: Graph, upto: int) -> spec_fn(int) -> int {
    |x: int| sum_marked(arc_cost(g), starts_at(g, x), upto)
}

/// What the arcs that leave a node cost together, for each node.
pub open spec fn cost_of_node(g: Graph) -> spec_fn(int) -> int {
    |x: int| g.node_cost(x)
}

/// The identifiers of a list as numbers.
pub open spec fn as_numbers(list: Seq<usize>) -> Seq<int> {
    Seq::new(list.len(), |j: int| list[j] as int)
}

impl NetworkView {
    /// The tasks that `names` stand for.
    pub open spec fn named_ids(self, names: Seq<Seq<char>>) -> Seq<int> {
        Seq::new(names.len(), |i: int| self.task_ids[names[i]] as int)
    }

    /// `names` holds the name of every task once and nothing else, in any
    /// order, and no two tasks share a name.
    pub open spec fn names_every_task_once(self, names: Seq<Seq<char>>) -> bool {
        &&& names.no_duplicates()
        &&& forall|i: int| 0 <= i < names.len() ==> self.task_ids.dom().contains(#[trigger] names[i])
        &&& forall|t: int| #[trigger] self.is_task(t) ==> self.is_listed(t) && names.contains(self.names[t])
    }
}

/// The arcs in the list of a node cost together what the arcs cost that
/// start at the node.
pub proof fn lemma_node_cost_is_arc_sum(g: Graph, x: int)
    requires
        g.wf(),
        0 <= x < g.nodes.len(),
    ensures
        g.node_cost(x) == cost_from(g, g.arcs.len() as int)(x),
{
    let list = as_numbers(g.nodes[x]);
    let marks = starts_at(g, x);
    assert(g.list_ok(x));
    lemma_cost_upto_is_list_sum(g, x, g.nodes[x].len() as int);
    assert forall|x0: int| 0 <= x0 < marks.len() && marks[x0] implies #[trigger] list.contains(x0) by {
        assert(g.arc_ok(x0));
        let j = choose|j: int| 0 <= j < g.nodes[x].len() && g.nodes[x][j] == x0 as usize;
        assert(list[j] == x0);
    }
    assert forall|i: int, j: int| 0 <= i < list.len() && 0 <= j < list.len() && i != j implies list[i] != list[j] by {
        assert(g.nodes[x][i] != g.nodes[x][j]);
    }
    lemma_list_sum_is_marked_sum(arc_cost(g), list, marks, g.arcs.len() as int);
}

/// The first arcs in the list of a node cost what their costs add up to.
proof fn lemma_cost_upto_is_list_sum(g: Graph, x: int, upto: int)
    requires
        g.wf(),
        0 <= x < g.nodes.len(),
        0 <= upto <= g.nodes[x].len(),
    ensures
        g.cost_upto(x, upto) == list_sum(arc_cost(g), as_numbers(g.nodes[x]), upto, g.arcs.len() as int),
    decreases upto,
{
    if upto > 0 {
        lemma_cost_upto_is_list_sum(g, x, upto - 1);
        assert(g.list_ok(x));
        assert(g.nodes[x][upto - 1] < g.arcs.len());
    }
}

/// What the arcs among the first `upto` cost that start at tasks is what
/// those arcs add to the score: an arc from a task to the sink costs
/// nothing.
proof fn lemma_cost_from_tasks_is_score(v: NetworkView, upto: int)
    requires
        v.structured(),
        0 <= upto <= v.graph.arcs.len(),
    ensures
        sum_marked(cost_from(v.graph, upto), v.task_marks(), v.graph.nodes.len() as int) == v.score_upto(upto),
    decreases upto,
{
    let g = v.graph;
    let n = g.nodes.len() as int;
    if upto == 0 {
        lemma_sum_nothing(cost_from(g, 0), v.task_marks(), n);
    } else {
        lemma_cost_from_tasks_is_score(v, upto - 1);
        let a = upto - 1;
        let arc = g.arcs[a];
        assert(g.arc_ok(a));
        assert(v.arc_shape(a));
        assert forall|t: int| 0 <= t < n implies #[trigger] cost_from(g, upto)(t) == cost_from(g, upto - 1)(t)
            + if t == arc.start as int {
            arc.cost
        } else {
            0
        } by {}
        lemma_sum_bump(cost_from(g, upto - 1), cost_from(g, upto), v.task_marks(), n, arc.start as int, arc.cost);
        if v.is_task(arc.start as int) && arc.end == SINK {
            assert(arc.cost == 0);
        }
    }
}

/// Entries that are all worth nothing add up to nothing.
proof fn lemma_sum_nothing(val: spec_fn(int) -> int, marks: Seq<bool>, upto: int)
    requires
        forall|t: int| 0 <= t < upto ==> #[trigger] val(t) == 0,
    ensures
        sum_marked(val, marks, upto) == 0,
    decreases upto,
{
    if upto > 0 {
        lemma_sum_nothing(val, marks, upto - 1);
        assert(val(upto - 1) == 0);
    }
}

/// The arcs that leave the first named tasks cost what the costs of those
/// tasks add up to.
proof fn lemma_named_cost_is_list_sum(v: NetworkView, names: Seq<Seq<char>>, upto: int)
    requires
        v.structured(),
        0 <= upto <= names.len(),
        forall|i: int| 0 <= i < names.len() ==> v.task_ids.dom().contains(#[trigger] names[i]),
    ensures
        v.named_cost_upto(names, upto) == list_sum(
            cost_of_node(v.graph),
            v.named_ids(names),
            upto,
            v.graph.nodes.len() as int,
        ),
    decreases upto,
{
    if upto > 0 {
        lemma_named_cost_is_list_sum(v, names, upto - 1);
        assert(v.task_ids.dom().contains(names[upto - 1]));
        assert(v.is_task(v.task_ids[names[upto - 1]] as int));
    }
}

/// The total score is what the arcs that leave the tasks cost together,
/// negated, whether the tasks are taken in the order in which they were
/// added or by their names in any order.
pub proof fn lemma_score_is_cost_of_task_arcs(v: NetworkView, names: Seq<Seq<char>>)
    requires
        v.structured(),
        v.names_every_task_once(names),
    ensures
        v.total_score() == -sum_marked(cost_of_node(v.graph), v.task_marks(), v.graph.nodes.len() as int),
        v.total_score() == -v.named_cost_upto(names, names.len() as int),
{
    let g = v.graph;
    let n = g.nodes.len() as int;
    let all = g.arcs.len() as int;
    lemma_cost_from_tasks_is_score(v, all);
    assert forall|t: int| 0 <= t < n && v.task_marks()[t] implies #[trigger] cost_of_node(g)(t) <= cost_from(
        g,
        all,
    )(t) && cost_from(g, all)(t) <= cost_of_node(g)(t) by {
        lemma_node_cost_is_arc_sum(g, t);
    }
    lemma_sum_le(cost_of_node(g), cost_from(g, all), v.task_marks(), n);
    lemma_sum_le(cost_from(g, all), cost_of_node(g), v.task_marks(), n);
    let ids = v.named_ids(names);
    lemma_named_cost_is_list_sum(v, names, names.len() as int);
    assert forall|i: int, j: int| 0 <= i < ids.len() && 0 <= j < ids.len() && i != j implies ids[i] != ids[j] by {
        assert(v.task_ids.dom().contains(names[i]));
        assert(v.task_ids.dom().contains(names[j]));
        assert(names[i] != names[j]);
    }
    assert forall|k: int| 0 <= k < ids.len() implies 0 <= #[trigger] ids[k] < v.task_marks().len()
        && v.task_marks()[ids[k]] by {
        assert(v.task_ids.dom().contains(names[k]));
        assert(v.is_task(v.task_ids[names[k]] as int));
    }
    assert forall|t: int| 0 <= t < v.task_marks().len() && v.task_marks()[t] implies #[trigger] ids.contains(
        t,
    ) by {
        assert(v.is_task(t));
        let i = choose|i: int| 0 <= i < names.len() && names[i] == v.names[t];
        assert(ids[i] == t);
    }
    lemma_list_sum_is_marked_sum(cost_of_node(g), ids, v.task_marks(), n);
}

impl NetworkView {
    /// No two tasks share a name: every task is the one that its name
    /// stands for.
    pub open spec fn every_task_listed(self) -> bool {
        forall|t: int| #[trigger] self.is_task(t) ==> self.is_listed(t)
    }

    /// How many workers the first `upto` tasks of `tasks` have together.
    pub open spec fn workers_of_upto(self, tasks: Seq<usize>, upto: int) -> nat
        decreases upto,
    {
        if upto <= 0 {
            0
        } else {
            self.workers_of_upto(tasks, upto - 1) + self.assigned_workers(tasks[upto - 1] as int).len()
        }
    }

    /// Worker `w` stands in place `i` of the list of workers of the `k`-th
    /// task that is listed.
    pub open spec fn stands_at(self, w: int, k: int, i: int) -> bool {
        &&& 0 <= k < self.listed_tasks().len()
        &&& 0 <= i < self.assigned_workers(self.listed_tasks()[k] as int).len()
        &&& self.assigned_workers(self.listed_tasks()[k] as int)[i] == w
    }
}

/// The listed tasks among the first nodes are just those, each once and in
/// ascending order of their identifiers.
pub proof fn lemma_listed_upto(v: NetworkView, upto: int)
    requires
        0 <= upto <= v.graph.nodes.len(),
        v.graph.nodes.len() <= usize::MAX,
    ensures
        v.listed_upto(upto).no_duplicates(),
        forall|j: int|
            0 <= j < v.listed_upto(upto).len() ==> (#[trigger] v.listed_upto(upto)[j]) < upto && v.is_listed(
                v.listed_upto(upto)[j] as int,
            ),
        forall|t: int| 0 <= t < upto && v.is_listed(t) ==> #[trigger] v.listed_upto(upto).contains(t as usize),
    decreases upto,
{
    if upto > 0 {
        lemma_listed_upto(v, upto - 1);
        let shorter = v.listed_upto(upto - 1);
        let list = v.listed_upto(upto);
        if v.is_listed(upto - 1) {
            assert(list == shorter.push((upto - 1) as usize));
            assert forall|t: int| 0 <= t < upto && v.is_listed(t) implies #[trigger] list.contains(t as usize) by {
                if t < upto - 1 {
                    assert(shorter.contains(t as usize));
                    let j = choose|j: int| 0 <= j < shorter.len() && shorter[j] == t as usize;
                    assert(list[j] == t as usize);
                } else {
                    assert(list[list.len() - 1] == t as usize);
                }
            }
        }
    }
}

/// How many workers the first tasks of a list have does not depend on what
/// follows them in the list.
proof fn lemma_workers_of_prefix(v: NetworkView, tasks: Seq<usize>, x: usize, upto: int)
    requires
        0 <= upto <= tasks.len(),
    ensures
        v.workers_of_upto(tasks.push(x), upto) == v.workers_of_upto(tasks, upto),
    decreases upto,
{
    if upto > 0 {
        lemma_workers_of_prefix(v, tasks, x, upto - 1);
        assert(tasks.push(x)[upto - 1] == tasks[upto - 1]);
    }
}

/// Where no two tasks share a name, the listed tasks among the first nodes
/// have together as many workers as the tasks among those nodes.
proof fn lemma_listed_workers(v: NetworkView, upto: int)
    requires
        v.every_task_listed(),
        0 <= upto <= v.graph.nodes.len(),
    ensures
        v.workers_of_upto(v.listed_upto(upto), v.listed_upto(upto).len() as int) == v.assigned_upto(upto),
    decreases upto,
{
    if upto > 0 {
        lemma_listed_workers(v, upto - 1);
        let shorter = v.listed_upto(upto - 1);
        if v.is_listed(upto - 1) {
            lemma_workers_of_prefix(v, shorter, (upto - 1) as usize, shorter.len() as int);
            assert(shorter.push((upto - 1) as usize)[shorter.len() as int] == (upto - 1) as usize);
        } else {
            assert(!v.is_task(upto - 1));
        }
    }
}

/// No worker stands twice in the list of workers of a task: no two arcs
/// join the same two nodes.
pub proof fn lemma_assigned_workers_distinct(v: NetworkView, t: int, upto: int)
    requires
        v.structured(),
        0 <= t < v.graph.nodes.len(),
        0 <= upto <= v.graph.nodes[t].len(),
    ensures
        v.workers_upto(t, upto).no_duplicates(),
    decreases upto,
{
    let g = v.graph;
    assert(g.list_ok(t));
    assert forall|k: int| 0 <= k < g.nodes[t].len() implies g.arcs[(#[trigger] g.nodes[t][k]) as int].end
        <= usize::MAX by {
        assert(g.arc_ok(g.nodes[t][k] as int));
    }
    if upto > 0 {
        lemma_assigned_workers_distinct(v, t, upto - 1);
        let a = g.nodes[t][upto - 1] as int;
        let end = g.arcs[a].end;
        if end != SINK {
            let shorter = v.workers_upto(t, upto - 1);
            lemma_assigned_contains(v, t, upto - 1, end as usize);
            if shorter.contains(end as usize) {
                let k = choose|k: int| 0 <= k < upto - 1 && g.arcs[(#[trigger] g.nodes[t][k]) as int].end == end;
                let b = g.nodes[t][k] as int;
                assert(a != b);
                assert(v.apart(a, b));
            }
            let longer = shorter.push(end as usize);
            assert forall|i: int, j: int| 0 <= i < longer.len() && 0 <= j < longer.len() && i != j implies longer[i]
                != longer[j] by {
                if i < shorter.len() && j < shorter.len() {
                    assert(shorter[i] != shorter[j]);
                } else if i < shorter.len() {
                    assert(shorter.contains(shorter[i]));
                } else {
                    assert(shorter.contains(shorter[j]));
                }
            }
        }
    }
}

/// Once all workers are assigned, the lists of workers of the listed tasks
/// hold as many workers together as there are, where no two tasks share a
/// name.
pub proof fn lemma_lists_hold_all_workers(v: NetworkView)
    requires
        v.wf(),
        v.solved(),
        v.every_task_listed(),
    ensures
        v.workers_of_upto(v.listed_tasks(), v.listed_tasks().len() as int) == v.num_workers(),
{
    lemma_listed_workers(v, v.graph.nodes.len() as int);
    lemma_every_worker_counted(v);
}

/// Once all workers are assigned, every worker stands in the lists of
/// workers of the listed tasks exactly once, where no two tasks share a
/// name: in one place of the list of one task.
pub proof fn lemma_worker_listed_once(v: NetworkView, w: int)
    requires
        v.wf(),
        v.solved(),
        v.every_task_listed(),
        v.is_worker(w),
    ensures
        exists|k: int, i: int|
            #![trigger v.stands_at(w, k, i)]
            v.stands_at(w, k, i) && forall|k2: int, i2: int| #[trigger]
                v.stands_at(w, k2, i2) ==> k2 == k && i2 == i,
{
    let n = v.graph.nodes.len() as int;
    let listing = v.listed_tasks();
    lemma_listed_upto(v, n);
    lemma_worker_assigned_once(v, w);
    let t = choose|t: int|
        #![trigger v.assigned(w, t)]
        v.assigned(w, t) && forall|other: int| #[trigger] v.assigned(w, other) ==> other == t;
    assert(v.is_listed(t));
    assert(listing.contains(t as usize));
    let k = choose|k: int| 0 <= k < listing.len() && listing[k] == t as usize;
    let workers = v.assigned_workers(t);
    let i = choose|i: int| 0 <= i < workers.len() && workers[i] == w as usize;
    assert(v.stands_at(w, k, i));
    assert forall|k2: int, i2: int| #[trigger] v.stands_at(w, k2, i2) implies k2 == k && i2 == i by {
        let t2 = listing[k2] as int;
        assert(v.is_listed(t2));
        assert(v.assigned_workers(t2).contains(w as usize));
        assert(v.assigned(w, t2));
        assert(t2 == t);
        assert(listing[k2] == listing[k]);
        lemma_assigned_workers_distinct(v, t, v.graph.nodes[t].len() as int);
        assert(workers[i2] == workers[i]);
    }
}

} // verus!
