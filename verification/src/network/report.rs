//! What is read off a network: who was assigned to which task, and at what
//! cost.

use crate::network::graph::{Graph, SINK};
use crate::network::balance::lemma_owner;
use crate::network::laws::{lemma_lists_hold_all_workers, lemma_score_is_cost_of_task_arcs};
use crate::network::model::{lemma_ranges_ordered, NetworkView, NodeKind};
use crate::network::Network;
use crate::network::walk::cost_span;
use vstd::prelude::*;

verus! {

impl Graph {
    /// What the first `upto` arcs that leave node `v` cost together.
    pub open spec fn cost_upto(self, v: int, upto: int) -> int
        decreases upto,
    {
        if upto <= 0 {
            0
        } else {
            self.cost_upto(v, upto - 1) + self.arcs[self.nodes[v][upto - 1] as int].cost
        }
    }

    /// What the arcs that leave node `v` cost together.
    pub open spec fn node_cost(self, v: int) -> int {
        self.cost_upto(v, self.nodes[v].len() as int)
    }

    /// What flow costs on the first `steps` steps of `path`, where between
    /// two nodes it takes the first arc that joins them.
    pub open spec fn path_cost_upto(self, path: Seq<usize>, steps: int) -> int
        decreases steps,
    {
        if steps <= 0 {
            0
        } else {
            self.path_cost_upto(path, steps - 1) + self.arcs[self.link(
                path[steps - 1] as int,
                path[steps] as int,
            ) as int].cost
        }
    }

    /// What flow costs down `path`.
    pub open spec fn path_cost(self, path: Seq<usize>) -> int {
        self.path_cost_upto(path, path.len() - 1)
    }

    /// Every two consecutive nodes of `path` are nodes of the graph that an
    /// arc joins, from the first to the second.
    pub open spec fn is_chain(self, path: Seq<usize>) -> bool {
        &&& forall|i: int| 0 <= i < path.len() ==> (#[trigger] path[i]) < self.nodes.len()
        &&& forall|i: int| 0 <= i < path.len() - 1 ==> #[trigger] self.linked(path[i] as int, path[i + 1] as int)
    }
}

impl NetworkView {
    /// The nodes at the ends of the first `upto` arcs that leave task `t`,
    /// the sink left out.
    pub open spec fn workers_upto(self, t: int, upto: int) -> Seq<usize>
        decreases upto,
    {
        if upto <= 0 {
            Seq::empty()
        } else {
            let end = self.graph.arcs[self.graph.nodes[t][upto - 1] as int].end;
            if end != SINK {
                self.workers_upto(t, upto - 1).push(end as usize)
            } else {
                self.workers_upto(t, upto - 1)
            }
        }
    }

    /// The workers that are assigned to task `t`: the nodes at the ends of
    /// the arcs that leave the task, the sink left out. They come in the
    /// order of the task's connection list.
    pub open spec fn assigned_workers(self, t: int) -> Seq<usize> {
        self.workers_upto(t, self.graph.nodes[t].len() as int)
    }

    /// Node `t` is a task that its name currently stands for.
    pub open spec fn is_listed(self, t: int) -> bool {
        &&& self.is_task(t)
        &&& self.task_ids.dom().contains(self.names[t])
        &&& self.task_ids[self.names[t]] == t
    }

    /// The tasks among the first `upto` nodes that their names stand for, in
    /// the order in which they were added.
    pub open spec fn listed_upto(self, upto: int) -> Seq<usize>
        decreases upto,
    {
        if upto <= 0 {
            Seq::empty()
        } else if self.is_listed(upto - 1) {
            self.listed_upto(upto - 1).push((upto - 1) as usize)
        } else {
            self.listed_upto(upto - 1)
        }
    }

    /// The tasks that their names stand for.
    pub open spec fn listed_tasks(self) -> Seq<usize> {
        self.listed_upto(self.graph.nodes.len() as int)
    }

    /// The names of the nodes `ids`.
    pub open spec fn names_of(self, ids: Seq<usize>) -> Seq<Seq<char>> {
        Seq::new(ids.len(), |i: int| self.names[ids[i] as int])
    }

    /// The names of the workers that are assigned to task `t`.
    pub open spec fn assigned_names(self, t: int) -> Seq<Seq<char>> {
        self.names_of(self.assigned_workers(t))
    }

    /// What the first `upto` arcs contribute to the score: the cost of each
    /// arc that leaves a task for a worker.
    pub open spec fn score_upto(self, upto: int) -> int
        decreases upto,
    {
        if upto <= 0 {
            0
        } else {
            let arc = self.graph.arcs[upto - 1];
            self.score_upto(upto - 1) + if self.is_task(arc.start as int) && arc.end != SINK {
                arc.cost
            } else {
                0
            }
        }
    }

    /// The total score of the assignment: what the assigned workers cost
    /// their tasks together. An arc that leaves a task for a worker carries
    /// the cost of that assignment with its sign changed, so the score is
    /// the sum over those arcs, negated.
    pub open spec fn total_score(self) -> int {
        -self.score_upto(self.graph.arcs.len() as int)
    }

    /// What the arcs cost together that leave the nodes that the first `upto`
    /// names stand for.
    pub open spec fn named_cost_upto(self, names: Seq<Seq<char>>, upto: int) -> int
        decreases upto,
    {
        if upto <= 0 {
            0
        } else {
            self.named_cost_upto(names, upto - 1) + self.graph.node_cost(
                self.task_ids[names[upto - 1]] as int,
            )
        }
    }
}

/// How many names the first `upto` lists hold together.
pub open spec fn lists_len(lists: Seq<(String, Vec<String>)>, upto: int) -> nat
    decreases upto,
{
    if upto <= 0 {
        0
    } else {
        lists_len(lists, upto - 1) + lists[upto - 1].1@.len()
    }
}

/// Lists that hold the names of the workers of the listed tasks hold as
/// many names as those tasks have workers.
pub proof fn lemma_lists_len(v: NetworkView, lists: Seq<(String, Vec<String>)>, upto: int)
    requires
        0 <= upto <= lists.len(),
        lists.len() == v.listed_tasks().len(),
        forall|k: int|
            0 <= k < lists.len() ==> names_view((#[trigger] lists[k]).1@) == v.assigned_names(
                v.listed_tasks()[k] as int,
            ),
    ensures
        lists_len(lists, upto) == v.workers_of_upto(v.listed_tasks(), upto),
    decreases upto,
{
    if upto > 0 {
        lemma_lists_len(v, lists, upto - 1);
        let k = upto - 1;
        assert(names_view(lists[k].1@).len() == lists[k].1@.len());
        assert(v.assigned_names(v.listed_tasks()[k] as int).len() == v.assigned_workers(
            v.listed_tasks()[k] as int,
        ).len());
    }
}

/// The names of a list of strings.
pub open spec fn names_view(list: Seq<String>) -> Seq<Seq<char>> {
    list.map_values(|s: String| s@)
}

/// The score of the first arcs lies within what so many arcs can cost.
pub proof fn lemma_score_bound(v: NetworkView, upto: int)
    requires
        v.graph.wf(),
        0 <= upto <= v.graph.arcs.len(),
    ensures
        -cost_span(upto) <= v.score_upto(upto) <= cost_span(upto),
    decreases upto,
{
    if upto > 0 {
        lemma_score_bound(v, upto - 1);
        assert(v.graph.arc_ok(upto - 1));
    }
}

/// The cost of the first arcs of a node lies within what so many arcs can
/// cost.
pub proof fn lemma_cost_bound(g: Graph, v: int, upto: int)
    requires
        g.wf(),
        0 <= v < g.nodes.len(),
        0 <= upto <= g.nodes[v].len(),
    ensures
        -cost_span(upto) <= g.cost_upto(v, upto) <= cost_span(upto),
    decreases upto,
{
    if upto > 0 {
        lemma_cost_bound(g, v, upto - 1);
        assert(g.list_ok(v));
        assert(g.nodes[v][upto - 1] < g.arcs.len());
        assert(g.arc_ok(g.nodes[v][upto - 1] as int));
    }
}

impl Network {
    /// The total score of the assignment: the costs of all assignments made
    /// so far, added up. An arc that leaves a task for a worker stands for
    /// an assignment and carries its cost with the sign changed.
    pub fn total_score(&self) -> (score: i128)
        requires
            self@.graph.wf(),
        ensures
            score == self@.total_score(),
    {
        let mut sum: i128 = 0;
        let mut a: usize = 0;
        while a < self.arcs.len()
            invariant
                self@.graph.wf(),
                a <= self.arcs.len(),
                self.arcs@.len() == self@.graph.arcs.len(),
                self.kinds@ == self@.kinds,
                forall|i: int| 0 <= i < self.arcs@.len() ==> (#[trigger] self.arcs@[i])@ == self@.graph.arcs[i],
                sum == self@.score_upto(a as int),
                -cost_span(a as int) <= sum <= cost_span(a as int),
            decreases self.arcs.len() - a,
        {
            let arc = &self.arcs[a];
            let start = arc.get_start_node_id();
            proof {
                assert(self@.graph.arc_ok(a as int));
                lemma_score_bound(self@, a + 1);
            }
            if start < self.kinds.len() && self.kinds[start] == NodeKind::Task && arc.get_end_node_id()
                != SINK {
                sum = sum + (arc.get_cost() as i128);
            }
            a += 1;
        }
        -sum
    }

    /// What the arcs cost together that leave node `node_id`.
    pub fn get_cost_of_flow_from_node(&self, node_id: usize) -> (cost: i128)
        requires
            self@.graph.wf(),
            node_id < self@.graph.nodes.len(),
        ensures
            cost == self@.graph.node_cost(node_id as int),
            -cost_span(self@.graph.nodes[node_id as int].len() as int) <= cost <= cost_span(
                self@.graph.nodes[node_id as int].len() as int,
            ),
    {
        let ghost g = self@.graph;
        let connections = self.nodes[node_id].get_connections();
        let mut sum: i128 = 0;
        let mut k: usize = 0;
        proof {
            assert(g.list_ok(node_id as int));
        }
        while k < connections.len()
            invariant
                g == self@.graph,
                g.wf(),
                node_id < g.nodes.len(),
                connections@ == g.nodes[node_id as int],
                k <= connections.len(),
                sum == g.cost_upto(node_id as int, k as int),
                -cost_span(k as int) <= sum <= cost_span(k as int),
            decreases connections.len() - k,
        {
            proof {
                assert(g.list_ok(node_id as int));
                assert(connections@[k as int] < g.arcs.len());
                assert(g.arc_ok(connections@[k as int] as int));
                lemma_cost_bound(g, node_id as int, k + 1);
            }
            sum = sum + (self.arcs[connections[k]].get_cost() as i128);
            k += 1;
        }
        sum
    }

    /// The names of the workers that are assigned to task `task_id`, in the
    /// order of the task's connection list.
    pub fn workers_of_task(&self, task_id: usize) -> (workers: Vec<String>)
        requires
            self@.wf(),
            self@.is_task(task_id as int),
        ensures
            names_view(workers@) == self@.assigned_names(task_id as int),
    {
        let ghost v = self@;
        let connections = self.nodes[task_id].get_connections();
        let mut workers: Vec<String> = Vec::new();
        let mut k: usize = 0;
        proof {
            assert(v.graph.list_ok(task_id as int));
        }
        while k < connections.len()
            invariant
                v == self@,
                v.wf(),
                task_id < v.graph.nodes.len(),
                connections@ == v.graph.nodes[task_id as int],
                v.graph.list_ok(task_id as int),
                k <= connections.len(),
                names_view(workers@) == v.names_of(v.workers_upto(task_id as int, k as int)),
            decreases connections.len() - k,
        {
            let arc_id = connections[k];
            proof {
                assert(arc_id < v.graph.arcs.len());
                assert(v.graph.arc_ok(arc_id as int));
            }
            let end = self.arcs[arc_id].get_end_node_id();
            if end != SINK {
                let ghost before = workers@;
                workers.push(self.names[end].clone());
                proof {
                    let so_far = v.workers_upto(task_id as int, k as int);
                    assert(v.workers_upto(task_id as int, k + 1) == so_far.push(end));
                    assert(v.names[end as int] == self.names@[end as int]@);
                    assert(workers@[workers@.len() - 1]@ == v.names[end as int]);
                    let target = v.names_of(so_far.push(end));
                    assert(names_view(before).len() == before.len());
                    assert(v.names_of(so_far).len() == so_far.len());
                    assert(workers@ == before.push(workers@[workers@.len() - 1]));
                    assert(names_view(workers@).len() == target.len());
                    assert forall|j: int| 0 <= j < target.len() implies names_view(workers@)[j]
                        == target[j] by {
                        if j < before.len() {
                            assert(workers@[j] == before[j]);
                            assert(names_view(before)[j] == before[j]@);
                            assert(v.names_of(so_far)[j] == v.names[so_far[j] as int]);
                            assert(so_far.push(end)[j] == so_far[j]);
                        } else {
                            assert(so_far.push(end)[j] == end);
                        }
                    }
                    assert(names_view(workers@) =~= target);
                }
            }
            k += 1;
        }
        workers
    }

    /// The task that worker `worker_id` is assigned to, if it is assigned:
    /// the task at which one of the worker's arcs now starts.
    pub fn task_of_worker(&self, worker_id: usize) -> (task: Option<usize>)
        requires
            self@.wf(),
            self@.is_worker(worker_id as int),
        ensures
            match task {
                Some(task_id) => self@.holds(task_id as int, worker_id as int),
                None => forall|t: int| !self@.holds(t, worker_id as int),
            },
    {
        let ghost v = self@;
        let first = self.first_arc[worker_id];
        let end = if worker_id + 1 < self.first_arc.len() {
            self.first_arc[worker_id + 1]
        } else {
            self.arcs.len()
        };
        proof {
            assert(v.node_shape(worker_id as int));
            lemma_ranges_ordered(v, worker_id as int, worker_id as int);
            assert(end == v.next_arc(worker_id as int));
        }
        let mut a: usize = first + 1;
        while a < end
            invariant
                v == self@,
                v.wf(),
                v.is_worker(worker_id as int),
                first == v.first_arc[worker_id as int],
                end == v.next_arc(worker_id as int),
                end <= v.graph.arcs.len(),
                first < a <= end,
                forall|b: int| first < b < a ==> (#[trigger] v.graph.arcs[b]).start == worker_id,
            decreases end - a,
        {
            let start = self.arcs[a].get_start_node_id();
            if start != worker_id {
                proof {
                    lemma_owner(v, a as int, worker_id as int);
                    assert(v.holds(start as int, worker_id as int));
                }
                return Some(start);
            }
            a += 1;
        }
        proof {
            assert forall|t: int| !v.holds(t, worker_id as int) by {
                if v.holds(t, worker_id as int) {
                    let b = choose|b: int|
                        v.first_arc[worker_id as int] < b < v.next_arc(worker_id as int) && (
                        #[trigger] v.graph.arcs[b]).start == t;
                    assert(v.graph.arcs[b].start == worker_id);
                }
            }
        }
        None
    }

    /// For each task, by name, the names of the workers assigned to it.
    ///
    /// Tasks come in the order in which they were added, and the workers of
    /// a task in the order of its connection list. A task whose name a later
    /// task has taken over is left out. Once all workers are assigned and
    /// where no two tasks share a name, the lists hold as many names
    /// together as there are workers, and every worker stands in one place
    /// of one list, as `lemma_worker_listed_once` shows.
    pub fn get_worker_assignments(&self) -> (assignments: Vec<(String, Vec<String>)>)
        requires
            self@.wf(),
        ensures
            assignments@.len() == self@.listed_tasks().len(),
            forall|k: int|
                0 <= k < assignments@.len() ==> {
                    &&& (#[trigger] assignments@[k]).0@ == self@.names[self@.listed_tasks()[k] as int]
                    &&& names_view(assignments@[k].1@) == self@.assigned_names(
                        self@.listed_tasks()[k] as int,
                    )
                },
            self@.solved() && self@.every_task_listed() ==> lists_len(assignments@, assignments@.len() as int)
                == self@.num_workers(),
    {
        let ghost v = self@;
        let n = self.nodes.len();
        let mut assignments: Vec<(String, Vec<String>)> = Vec::new();
        let mut t: usize = 0;
        while t < n
            invariant
                v == self@,
                v.wf(),
                n == v.graph.nodes.len(),
                t <= n,
                assignments@.len() == v.listed_upto(t as int).len(),
                forall|k: int|
                    0 <= k < assignments@.len() ==> {
                        &&& (#[trigger] assignments@[k]).0@ == v.names[v.listed_upto(t as int)[k] as int]
                        &&& names_view(assignments@[k].1@) == v.assigned_names(
                            v.listed_upto(t as int)[k] as int,
                        )
                    },
            decreases n - t,
        {
            let mut listed = false;
            if self.kinds[t] == NodeKind::Task {
                match self.task_names.get(self.names[t].as_str()) {
                    Some(id) => {
                        listed = *id == t;
                    },
                    None => {},
                }
            }
            proof {
                assert(v.names[t as int] == self.names@[t as int]@);
                assert(listed == v.is_listed(t as int));
            }
            if listed {
                let workers = self.workers_of_task(t);
                let ghost before = assignments@;
                assignments.push((self.names[t].clone(), workers));
                proof {
                    let listing = v.listed_upto(t + 1);
                    assert(listing == v.listed_upto(t as int).push(t));
                    assert forall|k: int| 0 <= k < assignments@.len() implies {
                        &&& (#[trigger] assignments@[k]).0@ == v.names[listing[k] as int]
                        &&& names_view(assignments@[k].1@) == v.assigned_names(listing[k] as int)
                    } by {
                        if k < before.len() {
                            assert(assignments@[k] == before[k]);
                        }
                    }
                }
            }
            t += 1;
        }
        proof {
            if v.solved() && v.every_task_listed() {
                lemma_lists_len(v, assignments@, assignments@.len() as int);
                lemma_lists_hold_all_workers(v);
            }
        }
        assignments
    }

    /// The task that `name` stands for, if it stands for one.
    pub fn task_id_of(&self, name: &str) -> (id: Option<usize>)
        requires
            self@.wf(),
        ensures
            match id {
                Some(task_id) => self@.task_ids.dom().contains(name@) && task_id == self@.task_ids[name@]
                    && self@.is_task(task_id as int),
                None => !self@.task_ids.dom().contains(name@),
            },
    {
        match self.task_names.get(name) {
            Some(id) => Some(*id),
            None => None,
        }
    }

    /// Whether `name` stands for a task.
    pub fn has_task(&self, name: &str) -> (known: bool)
        ensures
            known == self@.task_ids.dom().contains(name@),
    {
        self.task_names.contains_key(name)
    }

    /// What the arcs cost together that leave the tasks named in `nodes`. A
    /// task that is named twice counts twice. Where `nodes` names every task
    /// once, that is the total score negated.
    ///
    /// After all workers are assigned these arcs are those of the
    /// assignments, each with the cost of its assignment negated; the arc
    /// that may still lead to the sink costs nothing.
    pub fn get_cost_of_arcs_from_nodes(&self, nodes: &Vec<String>) -> (cost: i128)
        requires
            self@.wf(),
            forall|i: int| 0 <= i < nodes@.len() ==> self@.task_ids.dom().contains(#[trigger] nodes@[i]@),
            nodes@.len() * self@.graph.arcs.len() <= 0xffff_ffff_ffff_ffff,
        ensures
            cost == self@.named_cost_upto(names_view(nodes@), nodes@.len() as int),
            self@.names_every_task_once(names_view(nodes@)) ==> cost == -self@.total_score(),
    {
        let ghost names = names_view(nodes@);
        let ghost m = self@.graph.arcs.len() as int;
        let mut sum: i128 = 0;
        let mut i: usize = 0;
        while i < nodes.len()
            invariant
                self@.wf(),
                names == names_view(nodes@),
                m == self@.graph.arcs.len(),
                forall|j: int| 0 <= j < nodes@.len() ==> self@.task_ids.dom().contains(#[trigger] nodes@[j]@),
                nodes@.len() * m <= 0xffff_ffff_ffff_ffff,
                i <= nodes.len(),
                sum == self@.named_cost_upto(names, i as int),
                -cost_span(i * m) <= sum <= cost_span(i * m),
            decreases nodes.len() - i,
        {
            let found = self.task_names.get(nodes[i].as_str());
            proof {
                assert(self@.task_ids.dom().contains(nodes@[i as int]@));
                assert(names[i as int] == nodes@[i as int]@);
            }
            let node_id = *found.unwrap();
            proof {
                assert(self@.is_task(node_id as int));
                lemma_list_len_bound(self@.graph, node_id as int);
                assert((i + 1) * m == i * m + m) by (nonlinear_arith);
                assert((i + 1) * m <= nodes@.len() * m) by (nonlinear_arith)
                    requires
                        i + 1 <= nodes@.len(),
                        m >= 0,
                ;
            }
            let part = self.get_cost_of_flow_from_node(node_id);
            sum = sum + part;
            i += 1;
        }
        proof {
            if self@.names_every_task_once(names) {
                lemma_score_is_cost_of_task_arcs(self@, names);
            }
        }
        sum
    }

    /// What flow costs down `path`, where between two nodes it takes the
    /// first arc that joins them.
    pub fn get_path_cost(&self, path: &Vec<usize>) -> (cost: i128)
        requires
            self@.graph.wf(),
            self@.graph.is_chain(path@),
        ensures
            cost == self@.graph.path_cost(path@),
    {
        let ghost g = self@.graph;
        if path.len() < 2 {
            return 0;
        }
        let mut sum: i128 = 0;
        let mut i: usize = 0;
        while i + 1 < path.len()
            invariant
                g == self@.graph,
                g.wf(),
                g.is_chain(path@),
                i < path.len(),
                sum == g.path_cost_upto(path@, i as int),
                -cost_span(i as int) <= sum <= cost_span(i as int),
            decreases path.len() - i,
        {
            proof {
                assert(g.linked(path@[i as int] as int, path@[i + 1] as int));
            }
            let found = self.find_connecting_arc_id(path[i], path[i + 1]);
            let arc_id = found.unwrap();
            proof {
                let u = path@[i as int] as int;
                let v = path@[i + 1] as int;
                assert(g.is_link(u, v, g.link_position(u, v)));
                assert(g.list_ok(u));
                assert(g.arc_ok(arc_id as int));
            }
            sum = sum + (self.arcs[arc_id].get_cost() as i128);
            i += 1;
        }
        sum
    }
}

/// A node has no more arcs leaving it than there are arcs.
pub proof fn lemma_list_len_bound(g: Graph, v: int)
    requires
        g.wf(),
        0 <= v < g.nodes.len(),
    ensures
        g.nodes[v].len() <= g.arcs.len(),
{
    let list = g.nodes[v];
    assert(g.list_ok(v));
    let ints = list.map_values(|a: usize| a as int);
    assert(ints.no_duplicates()) by {
        assert forall|i: int, j: int| 0 <= i < ints.len() && 0 <= j < ints.len() && i != j implies ints[i]
            != ints[j] by {
            assert(list[i] != list[j]);
        }
    }
    ints.unique_seq_to_set();
    vstd::set_lib::lemma_int_range(0, g.arcs.len() as int);
    assert(ints.to_set().subset_of(vstd::set_lib::set_int_range(0, g.arcs.len() as int))) by {
        assert forall|x: int| ints.to_set().contains(x) implies vstd::set_lib::set_int_range(
            0,
            g.arcs.len() as int,
        ).contains(x) by {
            let i = choose|i: int| 0 <= i < ints.len() && ints[i] == x;
            assert(list[i] < g.arcs.len());
        }
    }
    vstd::set_lib::lemma_len_subset(ints.to_set(), vstd::set_lib::set_int_range(0, g.arcs.len() as int));
}

} // verus!
