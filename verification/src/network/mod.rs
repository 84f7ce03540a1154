//! The flow network and its parts.
//!
//! A network stores its nodes and arcs in two vectors and refers to them by
//! index everywhere else, so that arcs and connection lists can change in
//! place while flow is pushed.
pub mod arc;
pub mod balance;
pub mod counting;
pub mod feasibility_error;
pub mod graph;
pub mod laws;
pub mod model;
pub mod node;
pub mod optimal;
pub mod order;
pub mod plan;
pub mod potential;
pub mod prices;
pub mod rename;
pub mod report;
pub mod search;
pub mod walk;

use crate::network::arc::{Arc, ArcView, COST_LIMIT};
use crate::network::balance::{
    lemma_empty_wf, lemma_flow_below_minima, lemma_phase_keeps_wf, lemma_push_keeps_wf,
    lemma_with_task_balanced, lemma_with_task_potential, lemma_with_task_unsolved,
    lemma_with_worker_balanced, lemma_with_worker_potential, lemma_with_worker_unsolved,
};
use crate::network::feasibility_error::{message_of, FeasibilityError, FeasibilityKind};
use crate::network::graph::{
    Graph, lemma_flag_keeps_wf, lemma_frame_keeps_link, lemma_link_unique, lemma_listed_once,
    lemma_new_node_keeps_wf, lemma_phase_change_arc_wf, lemma_pushed_from,
    lemma_push_between_wf, SINK, SOURCE,
};
use crate::network::laws::lemma_assigned_worker_accepts_a_task;
use crate::network::model::{
    InputError, lemma_with_task_book, lemma_with_task_structured, lemma_with_worker_book,
    lemma_with_worker_structured, NetworkView, NodeKind,
};
use crate::network::node::{Node, MAX_RESERVED};
use crate::network::optimal::{lemma_no_plan_is_cheaper, lemma_score_is_plan_cost};
use crate::network::plan::{
    lemma_plan_carries_over, lemma_plan_cost_carries_over, lemma_same_problem_back,
    lemma_same_problem_chain, lemma_same_problem_same_plans, lemma_same_problem_self,
    lemma_solved_follows_a_plan, lemma_stuck_means_no_plan,
};
use crate::network::potential::lemma_potential_no_negative_cycle;
use crate::network::search::filled;
use crate::network::walk::{lemma_traced_is_cheapest, lemma_unreached_is_unreachable};
use vstd::hash_map::StringHashMap;
use vstd::prelude::*;

verus! {

/// A list of task names and costs as plain values.
pub open spec fn affinities_view(list: Seq<(String, i64)>) -> Seq<(Seq<char>, i64)> {
    list.map_values(|entry: (String, i64)| (entry.0@, entry.1))
}

/// A network of nodes and of the arcs that connect them.
///
/// Node 0 is the source and node 1 the sink. Tasks and workers follow in the
/// order in which they were added, and so do their arcs.
pub struct Network {
    min_flow_satisfied: bool,
    min_flow_amount: usize,
    max_flow_amount: usize,
    num_tasks: usize,
    nodes: Vec<Node>,
    arcs: Vec<Arc>,
    kinds: Vec<NodeKind>,
    names: Vec<String>,
    first_arc: Vec<usize>,
    task_names: StringHashMap<usize>,
}

impl View for Network {
    type V = NetworkView;

    closed spec fn view(&self) -> NetworkView {
        NetworkView {
            graph: Graph {
                nodes: self.nodes@.map_values(|n: Node| n@),
                arcs: self.arcs@.map_values(|a: Arc| a@),
                min_flow_satisfied: self.min_flow_satisfied,
            },
            kinds: self.kinds@,
            names: self.names@.map_values(|s: String| s@),
            first_arc: self.first_arc@,
            task_ids: self.task_names@,
            sum_of_minima: self.min_flow_amount as nat,
            sum_of_maxima: self.max_flow_amount as nat,
            num_tasks: self.num_tasks as nat,
        }
    }
}

impl Network {
    /// The network as a graph.
    pub open spec fn graph(&self) -> Graph {
        self@.graph
    }

    /// A network that holds the source and the sink and nothing else.
    pub fn new() -> (network: Network)
        ensures
            network@ == NetworkView::empty(),
            network@.wf(),
            network@.unsolved(),
    {
        let mut network = Network {
            min_flow_satisfied: false,
            min_flow_amount: 0,
            max_flow_amount: 0,
            num_tasks: 0,
            nodes: Vec::new(),
            arcs: Vec::new(),
            kinds: Vec::new(),
            names: Vec::new(),
            first_arc: Vec::new(),
            task_names: StringHashMap::new(),
        };
        network.add_node(Node::new(), NodeKind::Source, String::new());
        network.add_node(Node::new(), NodeKind::Sink, String::new());
        proof {
            let v = network@;
            let e = NetworkView::empty();
            assert(network.nodes@.len() == network.nodes.len());
            assert(v.graph.nodes =~= e.graph.nodes);
            assert(v.graph.arcs =~= e.graph.arcs);
            assert(v.kinds =~= e.kinds);
            assert(v.names =~= e.names);
            assert(v.first_arc =~= e.first_arc);
            assert(v.task_ids =~= e.task_ids);
            lemma_empty_wf();
        }
        network
    }

    /// Adds a node with its records and returns its identifier. The arcs
    /// that are added next are the node's.
    fn add_node(&mut self, new_node: Node, kind: NodeKind, name: String) -> (node_id: usize)
        ensures
            node_id == old(self)@.graph.nodes.len(),
            final(self)@ == (NetworkView {
                graph: Graph { nodes: old(self)@.graph.nodes.push(new_node@), ..old(self)@.graph },
                kinds: old(self)@.kinds.push(kind),
                names: old(self)@.names.push(name@),
                first_arc: old(self)@.first_arc.push(old(self)@.graph.arcs.len() as usize),
                ..old(self)@
            }),
    {
        let node_id = self.nodes.len();
        self.nodes.push(new_node);
        self.kinds.push(kind);
        self.names.push(name);
        self.first_arc.push(self.arcs.len());
        proof {
            let v = self@;
            let o = old(self)@;
            assert(v.graph.nodes =~= o.graph.nodes.push(new_node@));
            assert(v.graph.arcs =~= o.graph.arcs);
            assert(v.names =~= o.names.push(name@));
        }
        node_id
    }

    /// How many nodes the network has, source and sink included.
    pub fn num_nodes(&self) -> (count: usize)
        ensures
            count == self@.graph.nodes.len(),
    {
        self.nodes.len()
    }

    /// How many arcs the network has.
    pub fn num_arcs(&self) -> (count: usize)
        ensures
            count == self@.graph.arcs.len(),
    {
        self.arcs.len()
    }

    /// The node with the given identifier.
    pub fn node(&self, node_id: usize) -> (node: &Node)
        requires
            node_id < self@.graph.nodes.len(),
        ensures
            node@ == self@.graph.nodes[node_id as int],
    {
        &self.nodes[node_id]
    }

    /// The arc with the given identifier.
    pub fn arc(&self, arc_id: usize) -> (arc: &Arc)
        requires
            arc_id < self@.graph.arcs.len(),
        ensures
            arc@ == self@.graph.arcs[arc_id as int],
    {
        &self.arcs[arc_id]
    }

    /// Whether every task has met its minimum, so that tasks are now filled
    /// up to their maxima.
    pub fn is_min_flow_satisfied(&self) -> (flag: bool)
        ensures
            flag == self@.graph.min_flow_satisfied,
    {
        self.min_flow_satisfied
    }

    /// Adds a task that needs at least `min_workers` workers and takes at most
    /// `max_workers`, and connects it to the sink. From now on `name` stands
    /// for the new task. Returns the identifier of the task's node.
    ///
    /// Nothing is added if the maximum is below the minimum, or if the minima
    /// or the maxima of all tasks would add up to more than the machine can
    /// count.
    ///
    /// Tasks are added before workers are assigned: the network must be
    /// unsolved.
    pub fn add_task(&mut self, name: String, min_workers: usize, max_workers: usize) -> (res: Result<
        usize,
        InputError,
    >)
        requires
            old(self)@.wf(),
            old(self)@.unsolved(),
        ensures
            final(self)@.wf(),
            final(self)@.unsolved(),
            match res {
                Ok(task_id) => {
                    &&& task_id == old(self)@.graph.nodes.len()
                    &&& final(self)@ == old(self)@.with_task(
                        name@,
                        min_workers as nat,
                        max_workers as nat,
                    )
                },
                Err(error) => final(self)@ == old(self)@,
            },
            res == Err::<usize, InputError>(InputError::MaxBelowMin) <==> max_workers < min_workers,
            res == Err::<usize, InputError>(InputError::TotalTooLarge) <==> min_workers <= max_workers
                && (old(self)@.sum_of_minima + min_workers > usize::MAX || old(self)@.sum_of_maxima
                + max_workers > usize::MAX),
            res is Err ==> res == Err::<usize, InputError>(InputError::MaxBelowMin) || res == Err::<
                usize,
                InputError,
            >(InputError::TotalTooLarge),
    {
        if max_workers < min_workers {
            return Err(InputError::MaxBelowMin);
        }
        if min_workers > usize::MAX - self.min_flow_amount || max_workers > usize::MAX
            - self.max_flow_amount {
            return Err(InputError::TotalTooLarge);
        }
        proof {
            assert(self.nodes@.len() == self.nodes.len());
        }
        let ghost before = self@;
        let ghost name_view = name@;
        let name_key = name.clone();
        let task_id = self.add_node(Node::new(), NodeKind::Task, name);
        self.min_flow_amount = self.min_flow_amount + min_workers;
        self.max_flow_amount = self.max_flow_amount + max_workers;
        self.num_tasks = self.num_tasks + 1;
        proof {
            lemma_new_node_keeps_wf(before.graph);
        }
        if min_workers > 0 {
            self.add_arc(task_id, SINK, 0, min_workers, max_workers);
        } else {
            self.add_arc(SINK, task_id, 0, min_workers, max_workers);
        }
        self.task_names.insert(name_key, task_id);
        proof {
            assert(self.arcs@.len() == self.arcs.len());
            assert(self.nodes@.len() == self.nodes.len());
            lemma_with_task_structured(before, name_view, min_workers as nat, max_workers as nat);
            lemma_with_task_book(before, name_view, min_workers as nat, max_workers as nat);
            lemma_with_task_balanced(before, name_view, min_workers as nat, max_workers as nat);
            lemma_with_task_potential(before, name_view, min_workers as nat, max_workers as nat);
            lemma_with_task_unsolved(before, name_view, min_workers as nat, max_workers as nat);
            let target = before.with_task(name_view, min_workers as nat, max_workers as nat);
            assert(self@.graph.nodes =~= target.graph.nodes);
            assert(self@.graph.arcs =~= target.graph.arcs);
            assert(self@.task_ids =~= target.task_ids);
        }
        Ok(task_id)
    }

    /// Adds a worker who accepts the tasks named in `task_affinity`, each at
    /// the cost that goes with its name, and connects the worker to the source
    /// and to those tasks. Returns the identifier of the worker's node.
    ///
    /// Nothing is added if an entry names no task, a cost beyond
    /// `COST_LIMIT`, or a task that an earlier entry names; the error is that
    /// of the first such entry.
    ///
    /// Workers are added before workers are assigned: the network must be
    /// unsolved.
    pub fn add_worker(&mut self, name: String, task_affinity: &Vec<(String, i64)>) -> (res: Result<
        usize,
        InputError,
    >)
        requires
            old(self)@.wf(),
            old(self)@.unsolved(),
        ensures
            final(self)@.wf(),
            final(self)@.unsolved(),
            match res {
                Ok(worker_id) => {
                    &&& worker_id == old(self)@.graph.nodes.len()
                    &&& forall|i: int|
                        0 <= i < task_affinity@.len() ==> old(self)@.entry_error(
                            affinities_view(task_affinity@),
                            i,
                        ) is None
                    &&& final(self)@ == old(self)@.with_worker(
                        name@,
                        old(self)@.resolved(affinities_view(task_affinity@)),
                    )
                },
                Err(error) => {
                    &&& final(self)@ == old(self)@
                    &&& exists|i: int|
                        {
                            &&& 0 <= i < task_affinity@.len()
                            &&& #[trigger] old(self)@.entry_error(affinities_view(task_affinity@), i)
                                == Some(error)
                            &&& forall|j: int|
                                0 <= j < i ==> old(self)@.entry_error(
                                    affinities_view(task_affinity@),
                                    j,
                                ) is None
                        }
                },
            },
    {
        let ghost before = self@;
        let ghost aff = affinities_view(task_affinity@);
        let n = self.nodes.len();
        let mut links: Vec<(usize, i64)> = Vec::new();
        let mut chosen: Vec<bool> = filled(false, n);
        let mut i: usize = 0;
        while i < task_affinity.len()
            invariant
                before == self@,
                before.wf(),
                before.unsolved(),
                aff == affinities_view(task_affinity@),
                n == before.graph.nodes.len(),
                i <= task_affinity.len(),
                links@ == before.resolved(aff).take(i as int),
                chosen@.len() == n,
                forall|x: int|
                    0 <= x < n ==> (chosen@[x] <==> exists|j: int|
                        0 <= j < i && (#[trigger] links@[j]).0 == x),
                forall|j: int| 0 <= j < i ==> before.entry_error(aff, j) is None,
            decreases task_affinity.len() - i,
        {
            let entry = &task_affinity[i];
            let cost = entry.1;
            proof {
                assert(aff[i as int] == (entry.0@, entry.1));
            }
            let found = self.task_names.get(entry.0.as_str());
            let task_id = match found {
                None => {
                    proof {
                        assert(before.entry_error(aff, i as int) == Some(InputError::UnknownTask));
                    }
                    return Err(InputError::UnknownTask);
                },
                Some(id) => *id,
            };
            if cost < -COST_LIMIT || cost > COST_LIMIT {
                proof {
                    assert(before.entry_error(aff, i as int) == Some(InputError::CostOutOfRange));
                }
                return Err(InputError::CostOutOfRange);
            }
            proof {
                assert(before.task_ids.dom().contains(aff[i as int].0));
                assert(before.is_task(task_id as int));
            }
            if chosen[task_id] {
                proof {
                    let j = choose|j: int| 0 <= j < i && (#[trigger] links@[j]).0 == task_id;
                    assert(links@[j] == before.resolved(aff)[j]);
                    assert(before.task_ids[aff[j].0] == before.task_ids[aff[i as int].0]);
                    assert(before.entry_error(aff, i as int) == Some(InputError::RepeatedTask));
                }
                return Err(InputError::RepeatedTask);
            }
            proof {
                if exists|j: int|
                    0 <= j < i && #[trigger] before.task_ids[aff[j].0] == before.task_ids[aff[i as int].0] {
                    let j = choose|j: int|
                        0 <= j < i && #[trigger] before.task_ids[aff[j].0] == before.task_ids[aff[i as int].0];
                    assert(links@[j] == before.resolved(aff)[j]);
                    assert(links@[j].0 == task_id);
                }
                assert(before.entry_error(aff, i as int) is None);
            }
            let ghost links_before = links@;
            chosen.set(task_id, true);
            links.push((task_id, cost));
            proof {
                assert(links@ =~= before.resolved(aff).take(i + 1));
                assert forall|x: int| 0 <= x < n implies (chosen@[x] <==> exists|j: int|
                    0 <= j < i + 1 && (#[trigger] links@[j]).0 == x) by {
                    if x == task_id {
                        assert(links@[i as int].0 == x);
                    } else {
                        if exists|j: int| 0 <= j < i && (#[trigger] links_before[j]).0 == x {
                            let j = choose|j: int| 0 <= j < i && (#[trigger] links_before[j]).0 == x;
                            assert(links@[j].0 == x);
                        }
                        if exists|j: int| 0 <= j < i + 1 && (#[trigger] links@[j]).0 == x {
                            let j = choose|j: int| 0 <= j < i + 1 && (#[trigger] links@[j]).0 == x;
                            assert(links_before[j].0 == x);
                        }
                    }
                }
            }
            i += 1;
        }
        proof {
            assert(links@ =~= before.resolved(aff));
            assert(before.links_ok(links@)) by {
                assert forall|a: int| 0 <= a < links@.len() implies before.is_task(
                    (#[trigger] links@[a]).0 as int,
                ) && -COST_LIMIT <= links@[a].1 <= COST_LIMIT by {
                    assert(before.entry_error(aff, a) is None);
                }
                assert forall|a: int, b: int|
                    0 <= a < links@.len() && 0 <= b < links@.len() && a != b implies (
                #[trigger] links@[a]).0 != (#[trigger] links@[b]).0 by {
                    assert(before.entry_error(aff, a) is None);
                    assert(before.entry_error(aff, b) is None);
                    if a < b {
                        assert(before.task_ids[aff[a].0] != before.task_ids[aff[b].0]);
                    } else {
                        assert(before.task_ids[aff[b].0] != before.task_ids[aff[a].0]);
                    }
                }
            }
            lemma_new_node_keeps_wf(before.graph);
        }
        let ghost name_view = name@;
        let room: usize = if self.num_tasks <= MAX_RESERVED {
            self.num_tasks
        } else {
            MAX_RESERVED
        };
        let worker_id = self.add_node(Node::with_capacity(room), NodeKind::Worker, name);
        self.add_arc(SOURCE, worker_id, 0, 1, 1);
        let mut k: usize = 0;
        proof {
            let target = before.with_worker(name_view, links@.take(0));
            assert(self@.graph.nodes =~~= target.graph.nodes);
            assert(self@.graph.arcs =~= target.graph.arcs);
        }
        while k < links.len()
            invariant
                k <= links.len(),
                worker_id == before.graph.nodes.len(),
                before.links_ok(links@),
                before.wf(),
                before.unsolved(),
                self@ == before.with_worker(name_view, links@.take(k as int)),
                self@.graph.wf(),
            decreases links.len() - k,
        {
            let (task_id, cost) = links[k];
            proof {
                assert(before.is_task(links@[k as int].0 as int));
            }
            let ghost prev = self@;
            self.add_arc(worker_id, task_id, cost, 1, 1);
            proof {
                let target = before.with_worker(name_view, links@.take(k + 1));
                assert(links@.take(k + 1) =~= links@.take(k as int).push(links@[k as int]));
                assert(self@.graph.nodes =~~= target.graph.nodes);
                assert(self@.graph.arcs =~= target.graph.arcs);
            }
            k += 1;
        }
        proof {
            assert(links@.take(k as int) =~= links@);
            assert(self.arcs@.len() == self.arcs.len());
            assert(self.nodes@.len() == self.nodes.len());
            lemma_with_worker_structured(before, name_view, links@);
            lemma_with_worker_book(before, name_view, links@);
            lemma_with_worker_balanced(before, name_view, links@);
            lemma_with_worker_potential(before, name_view, links@);
            lemma_with_worker_unsolved(before, name_view, links@);
        }
        Ok(worker_id)
    }

    /// Adds an arc from `start_node_id` to `end_node_id` and lists it at its
    /// start node. The new arc gets the next free identifier.
    ///
    /// This works on the graph alone: the records of tasks and workers know
    /// nothing of an arc that is added here.
    pub fn add_arc(
        &mut self,
        start_node_id: usize,
        end_node_id: usize,
        cost: i64,
        min_flow: usize,
        max_flow: usize,
    )
        requires
            old(self).graph().wf(),
            start_node_id < old(self).graph().nodes.len(),
            end_node_id < old(self).graph().nodes.len(),
            min_flow <= max_flow,
            -COST_LIMIT <= cost <= COST_LIMIT,
            start_node_id != SINK ==> 0 < (if old(self).graph().min_flow_satisfied {
                max_flow
            } else {
                min_flow
            }),
        ensures
            final(self).graph().wf(),
            final(self).graph() == (Graph {
                nodes: old(self).graph().nodes.update(
                    start_node_id as int,
                    old(self).graph().nodes[start_node_id as int].push(
                        old(self).graph().arcs.len() as usize,
                    ),
                ),
                arcs: old(self).graph().arcs.push(
                    ArcView {
                        start: start_node_id as nat,
                        end: end_node_id as nat,
                        cost: cost as int,
                        min_flow: min_flow as nat,
                        max_flow: max_flow as nat,
                        current_flow: 0,
                    },
                ),
                ..old(self).graph()
            }),
            final(self)@ == (NetworkView { graph: final(self).graph(), ..old(self)@ }),
    {
        let new_arc = Arc::new(start_node_id, end_node_id, cost, min_flow, max_flow);
        let arc_id = self.arcs.len();
        assert(!old(self).graph().nodes[start_node_id as int].contains(arc_id)) by {
            let list = old(self).graph().nodes[start_node_id as int];
            assert(old(self).graph().list_ok(start_node_id as int));
            if list.contains(arc_id) {
                let k = choose|k: int| 0 <= k < list.len() && list[k] == arc_id;
                assert(list[k] < old(self).graph().arcs.len());
            }
        }
        self.nodes[start_node_id].add_connection(arc_id);
        self.arcs.push(new_arc);
        proof {
            let g0 = old(self).graph();
            let g = self.graph();
            assert(self.arcs@.len() == self.arcs.len());
            assert(g.nodes =~= g0.nodes.update(
                start_node_id as int,
                g0.nodes[start_node_id as int].push(arc_id),
            ));
            assert(g.arcs =~= g0.arcs.push(new_arc@));
            assert forall|a: int| 0 <= a < g.arcs.len() implies #[trigger] g.arc_ok(a) by {
                if a < g0.arcs.len() {
                    assert(g0.arc_ok(a));
                    let s = g0.arcs[a].start as int;
                    let k = choose|k: int| 0 <= k < g0.nodes[s].len() && g0.nodes[s][k] == a as usize;
                    assert(g.nodes[s][k] == a as usize);
                } else {
                    let list = g.nodes[start_node_id as int];
                    assert(list[list.len() - 1] == arc_id);
                }
            }
            assert forall|v: int| 0 <= v < g.nodes.len() implies #[trigger] g.list_ok(v) by {
                assert(g0.list_ok(v));
            }
        }
    }

    /// The first arc in the connection list of `start_node_id` that ends at
    /// `end_node_id`, if there is one.
    pub fn find_connecting_arc_id(&self, start_node_id: usize, end_node_id: usize) -> (found: Option<
        usize,
    >)
        requires
            self.graph().wf(),
            start_node_id < self.graph().nodes.len(),
        ensures
            match found {
                Some(arc_id) => self.graph().linked(start_node_id as int, end_node_id as int)
                    && arc_id == self.graph().link(start_node_id as int, end_node_id as int),
                None => !self.graph().linked(start_node_id as int, end_node_id as int),
            },
    {
        let ghost g = self.graph();
        let connections = self.nodes[start_node_id].get_connections();
        assert(g.list_ok(start_node_id as int));
        let mut k: usize = 0;
        while k < connections.len()
            invariant
                g == self.graph(),
                g.list_ok(start_node_id as int),
                start_node_id < g.nodes.len(),
                connections@ == g.nodes[start_node_id as int],
                k <= connections.len(),
                forall|j: int| 0 <= j < k ==> g.arcs[(#[trigger] connections@[j]) as int].end != end_node_id,
            decreases connections.len() - k,
        {
            let arc_id = connections[k];
            assert(arc_id < g.arcs.len());
            if self.arcs[arc_id].get_end_node_id() == end_node_id {
                proof {
                    assert(g.is_link(start_node_id as int, end_node_id as int, k as int));
                    lemma_link_unique(g, start_node_id as int, end_node_id as int, k as int);
                }
                return Some(arc_id);
            }
            k += 1;
        }
        proof {
            if g.linked(start_node_id as int, end_node_id as int) {
                let j = choose|j: int| g.is_link(start_node_id as int, end_node_id as int, j);
                assert(g.arcs[connections@[j] as int].end == end_node_id);
            }
        }
        None
    }

    /// Pushes one unit of flow from `start_node_id` to `end_node_id` down the
    /// first arc that joins them, and moves the arc to the list of
    /// `end_node_id` if that inverts it.
    fn push_flow_between(&mut self, start_node_id: usize, end_node_id: usize)
        requires
            old(self).graph().wf(),
            start_node_id < old(self).graph().nodes.len(),
            end_node_id < old(self).graph().nodes.len(),
            start_node_id != SINK,
            start_node_id != end_node_id,
            old(self).graph().linked(start_node_id as int, end_node_id as int),
        ensures
            final(self).graph() == old(self).graph().push_between(
                start_node_id as int,
                end_node_id as int,
            ),
            final(self).graph().wf(),
            final(self)@ == old(self)@.with_graph(final(self)@.graph),
    {
        let ghost g = self.graph();
        let ghost k = g.link_position(start_node_id as int, end_node_id as int);
        let found = self.find_connecting_arc_id(start_node_id, end_node_id);
        let arc_id = found.unwrap();
        proof {
            assert(g.is_link(start_node_id as int, end_node_id as int, k));
            assert(g.list_ok(start_node_id as int));
            assert(g.arc_ok(arc_id as int));
            lemma_listed_once(g, start_node_id as int, k);
            lemma_push_between_wf(g, start_node_id as int, end_node_id as int);
        }
        let arc_inverted = self.arcs[arc_id].push_flow(self.min_flow_satisfied);
        if arc_inverted {
            self.nodes[start_node_id].remove_connection(arc_id);
            self.nodes[end_node_id].add_connection(arc_id);
        }
        proof {
            let h = g.push_between(start_node_id as int, end_node_id as int);
            assert(self.graph().arcs =~= h.arcs);
            assert(self.graph().nodes =~= h.nodes);
        }
    }

    /// Pushes one unit of flow down each arc of `path`, which lists the nodes
    /// from the first to the last. Between two consecutive nodes the flow
    /// takes the first arc that joins them. The arcs are pushed from the end
    /// of the path back to its start.
    pub fn push_flow_down_path(&mut self, path: &Vec<usize>)
        requires
            old(self).graph().wf(),
            old(self).graph().is_path(path@),
        ensures
            final(self).graph() == old(self).graph().push_along(path@),
            final(self).graph().wf(),
            final(self)@ == old(self)@.with_graph(final(self)@.graph),
    {
        let ghost g0 = self.graph();
        if path.len() < 2 {
            return ;
        }
        let mut i: usize = path.len() - 1;
        proof {
            lemma_pushed_from(g0, path@, i as int);
        }
        while i > 0
            invariant
                g0.wf(),
                g0.is_path(path@),
                i < path.len(),
                self.graph() == g0.push_along(path@.skip(i as int)),
                self.graph().wf(),
                self@ == old(self)@.with_graph(self@.graph),
            decreases i,
        {
            proof {
                lemma_pushed_from(g0, path@, i as int);
                lemma_frame_keeps_link(g0, self.graph(), path@, i as int);
                assert(path@[i - 1] != path@[i as int]);
                assert(path@[i - 1] != SINK);
                assert(path@.skip(i - 1).drop_first() =~= path@.skip(i as int));
                assert(path@.skip(i - 1)[0] == path@[i - 1] && path@.skip(i - 1)[1] == path@[i as int]);
            }
            self.push_flow_between(path[i - 1], path[i]);
            i -= 1;
        }
        proof {
            assert(path@.skip(0) =~= path@);
        }
    }

    /// Changes phase: from now on minima count as met, and every arc that
    /// starts at the sink is prepared for the phase that fills tasks up to
    /// their maxima. An arc that is not saturated turns round to lead into
    /// the sink again, with as much room as lies between its two bounds.
    pub fn reset_arcs_for_second_phase(&mut self)
        requires
            old(self).graph().wf(),
        ensures
            final(self).graph() == old(self).graph().phase_changed(),
            final(self).graph().wf(),
            final(self)@ == old(self)@.with_graph(final(self)@.graph),
    {
        let ghost g0 = self.graph();
        let ghost g1 = Graph { min_flow_satisfied: true, ..g0 };
        let connections = self.nodes[SINK].get_connections().clone();
        self.min_flow_satisfied = true;
        proof {
            lemma_flag_keeps_wf(g0);
            assert(self.graph() == g1);
            assert(connections@ =~= g0.nodes[SINK as int]);
            assert(g0.list_ok(SINK as int));
        }
        let mut i: usize = 0;
        while i < connections.len()
            invariant
                i <= connections.len(),
                connections@ == g0.nodes[SINK as int],
                g0.wf(),
                g0.list_ok(SINK as int),
                g1 == (Graph { min_flow_satisfied: true, ..g0 }),
                self.graph() == g1.phase_change_over(connections@.take(i as int)),
                self.graph().wf(),
                self.graph().min_flow_satisfied,
                self.graph().arcs.len() == g0.arcs.len(),
                self.graph().nodes.len() == g0.nodes.len(),
                self@ == old(self)@.with_graph(self@.graph),
                forall|j: int|
                    i <= j < connections.len() ==> self.graph().arcs[(#[trigger] connections@[j]) as int]
                        == g0.arcs[connections@[j] as int],
            decreases connections.len() - i,
        {
            let connection = connections[i];
            let ghost g = self.graph();
            proof {
                assert(connection < g0.arcs.len());
                assert(g0.arcs[connection as int].start == SINK);
                assert(g.arc_ok(connection as int));
                assert(g.list_ok(SINK as int));
                lemma_phase_change_arc_wf(g, connection as int);
                assert(connections@.take(i + 1).drop_last() =~= connections@.take(i as int));
                assert forall|j: int| i + 1 <= j < connections.len() implies connections@[j]
                    != connection by {
                    assert(connections@[j] != connections@[i as int]);
                }
            }
            let arc_inverted = self.arcs[connection].update_for_second_phase();
            if arc_inverted {
                let end = self.arcs[connection].get_end_node_id();
                let start = self.arcs[connection].get_start_node_id();
                self.nodes[end].remove_connection(connection);
                self.nodes[start].add_connection(connection);
            }
            proof {
                let h = g.phase_change_arc(connection as int);
                assert(self.graph().arcs =~= h.arcs);
                assert(self.graph().nodes =~= h.nodes);
            }
            i += 1;
        }
        proof {
            assert(connections@.take(i as int) =~= connections@);
        }
    }

    /// By how much the minima of all tasks may still grow.
    pub fn room_for_minima(&self) -> (room: usize)
        ensures
            room + self@.sum_of_minima == usize::MAX,
    {
        usize::MAX - self.min_flow_amount
    }

    /// By how much the maxima of all tasks may still grow.
    pub fn room_for_maxima(&self) -> (room: usize)
        ensures
            room + self@.sum_of_maxima == usize::MAX,
    {
        usize::MAX - self.max_flow_amount
    }

    /// How many workers the network has.
    pub fn num_workers(&self) -> (count: usize)
        requires
            self@.wf(),
        ensures
            count == self@.num_workers(),
    {
        self.nodes.len() - self.num_tasks - 2
    }

    /// How many workers are not assigned yet.
    pub fn num_unassigned_workers(&self) -> (count: usize)
        requires
            self@.wf(),
        ensures
            count == self@.graph.nodes[SOURCE as int].len(),
            count <= self@.num_workers(),
    {
        self.nodes[SOURCE].get_num_connections()
    }

    /// Copies of all nodes.
    fn duplicate_nodes(&self) -> (copy: Vec<Node>)
        ensures
            copy@.map_values(|n: Node| n@) == self@.graph.nodes,
    {
        let mut copy: Vec<Node> = Vec::with_capacity(self.nodes.len());
        let mut i: usize = 0;
        while i < self.nodes.len()
            invariant
                i <= self.nodes.len(),
                copy@.len() == i,
                forall|j: int| 0 <= j < i ==> (#[trigger] copy@[j])@ == self.nodes@[j]@,
            decreases self.nodes.len() - i,
        {
            copy.push(self.nodes[i].duplicate());
            i += 1;
        }
        proof {
            assert(copy@.map_values(|n: Node| n@) =~= self@.graph.nodes);
        }
        copy
    }

    /// Copies of all arcs.
    fn duplicate_arcs(&self) -> (copy: Vec<Arc>)
        ensures
            copy@.map_values(|a: Arc| a@) == self@.graph.arcs,
    {
        let mut copy: Vec<Arc> = Vec::with_capacity(self.arcs.len());
        let mut i: usize = 0;
        while i < self.arcs.len()
            invariant
                i <= self.arcs.len(),
                copy@.len() == i,
                forall|j: int| 0 <= j < i ==> (#[trigger] copy@[j])@ == self.arcs@[j]@,
            decreases self.arcs.len() - i,
        {
            copy.push(self.arcs[i]);
            i += 1;
        }
        proof {
            assert(copy@.map_values(|a: Arc| a@) =~= self@.graph.arcs);
        }
        copy
    }

    /// Whether the workers can be assigned as far as numbers go: there must
    /// be at least as many as the minima of the tasks add up to, and no more
    /// than their maxima add up to.
    pub fn check_worker_count(&self) -> (res: Result<(), FeasibilityError>)
        requires
            self@.wf(),
        ensures
            res matches Err(error) ==> error.kind == self@.count_error()->Some_0 && error.message@ == message_of(
                error.kind,
            ),
            res is Err <==> self@.count_error() is Some,
    {
        let num_workers = self.num_workers();
        if num_workers < self.min_flow_amount {
            return Err(FeasibilityError::new(FeasibilityKind::InsufficientWorkers));
        }
        if num_workers > self.max_flow_amount {
            return Err(FeasibilityError::new(FeasibilityKind::InsufficientCapacity));
        }
        Ok(())
    }

    /// Gets the network ready for assigning workers one by one with
    /// `augment`: checks that the number of workers lies between what the
    /// minima and the maxima of the tasks add up to, and passes on to filling
    /// tasks up to their maxima if no task needs a worker.
    ///
    /// On failure the network is as it was.
    pub fn begin_assignment(&mut self) -> (res: Result<(), FeasibilityError>)
        requires
            old(self)@.wf(),
        ensures
            final(self)@.wf(),
            res matches Err(error) ==> error.kind == old(self)@.count_error()->Some_0 && final(self)@ == old(self)@
                && error.message@ == message_of(error.kind),
            res is Err <==> old(self)@.count_error() is Some,
            res is Ok ==> final(self)@ == old(self)@.with_graph(
                if old(self)@.phase_change_due() {
                    old(self)@.graph.phase_changed()
                } else {
                    old(self)@.graph
                },
            ),
    {
        match self.check_worker_count() {
            Err(error) => Err(error),
            Ok(_) => {
                self.change_phase_if_due();
                Ok(())
            },
        }
    }

    /// Passes on to filling tasks up to their maxima if every task has just
    /// reached its minimum.
    fn change_phase_if_due(&mut self)
        requires
            old(self)@.wf(),
        ensures
            final(self)@.wf(),
            final(self)@ == old(self)@.with_graph(final(self)@.graph),
            final(self)@.graph == if old(self)@.phase_change_due() {
                old(self)@.graph.phase_changed()
            } else {
                old(self)@.graph
            },
            final(self)@.total_flow() == old(self)@.total_flow(),
            final(self)@.graph.nodes[SOURCE as int] == old(self)@.graph.nodes[SOURCE as int],
            final(self)@.graph.arcs.len() == old(self)@.graph.arcs.len(),
            old(self)@.same_problem(final(self)@),
            !final(self)@.graph.min_flow_satisfied ==> final(self)@.total_flow() < final(self)@.sum_of_minima,
    {
        let ghost before = self@;
        proof {
            if !before.graph.min_flow_satisfied {
                lemma_flow_below_minima(before);
            }
            lemma_same_problem_self(before);
        }
        let current_flow = self.num_workers() - self.num_unassigned_workers();
        if !self.min_flow_satisfied && current_flow == self.min_flow_amount {
            proof {
                lemma_phase_keeps_wf(before);
            }
            self.reset_arcs_for_second_phase();
        }
    }

    /// Assigns one more worker: finds a cheapest path from the source to
    /// the sink, pushes one unit of flow down it, and passes on to filling
    /// tasks up to their maxima if with this worker every task has reached
    /// its minimum.
    ///
    /// On failure the network is as it was.
    pub fn augment(&mut self) -> (res: Result<(), FeasibilityError>)
        requires
            old(self)@.wf(),
        ensures
            final(self)@.wf(),
            final(self)@ == old(self)@.with_graph(final(self)@.graph),
            final(self)@.graph.arcs.len() == old(self)@.graph.arcs.len(),
            old(self)@.same_problem(final(self)@),
            match res {
                Ok(_) => {
                    &&& final(self)@.total_flow() == old(self)@.total_flow() + 1
                    &&& final(self)@.graph.nodes[SOURCE as int].len() == old(self)@.graph.nodes[SOURCE as int].len()
                        - 1
                    &&& !final(self)@.graph.min_flow_satisfied ==> final(self)@.total_flow() < final(self)@.sum_of_minima
                },
                Err(error) => {
                    &&& final(self)@ == old(self)@
                    &&& error.kind == FeasibilityKind::Infeasible
                    &&& error.message@ == message_of(error.kind)
                },
            },
            res is Ok <==> old(self)@.graph.reachable(SOURCE as int, SINK as int),
            res is Ok ==> exists|path: Seq<usize>|
                {
                    &&& old(self)@.graph.is_path(path)
                    &&& path.len() >= 2
                    &&& path[0] == SOURCE
                    &&& path[path.len() - 1] == SINK
                    &&& old(self)@.graph.is_cheapest(path)
                    &&& #[trigger] old(self)@.augmented_along(path) == final(self)@
                },
    {
        let ghost before = self@;
        proof {
            let pot = choose|pot: Seq<int>| before.priced(pot);
            assert(before.graph.feasible(pot));
            lemma_potential_no_negative_cycle(before.graph);
        }
        let (found, Ghost(dist), Ghost(w)) = self.search();
        match found {
            Err(error) => {
                proof {
                    lemma_unreached_is_unreachable(before.graph, dist);
                    lemma_same_problem_self(before);
                }
                Err(error)
            },
            Ok(path) => {
                proof {
                    lemma_push_keeps_wf(before, path@, dist, w);
                    lemma_traced_is_cheapest(before.graph, dist, path@, w);
                    let best = choose|best: Seq<int>| #[trigger]
                        before.graph.is_walk(best, SOURCE as int, SINK as int);
                }
                self.push_flow_down_path(&path);
                let ghost pushed = self@;
                self.change_phase_if_due();
                proof {
                    lemma_same_problem_chain(before, pushed, self@);
                    assert(before.augmented_along(path@) == self@);
                }
                Ok(())
            },
        }
    }

    /// Assigns every worker to a task, one worker at a time and each along a
    /// cheapest augmenting path: first until every task has its minimum,
    /// then up to the maxima of the tasks.
    ///
    /// Fails if there are fewer workers than the minima add up to
    /// (`InsufficientWorkers`), more than the maxima add up to
    /// (`InsufficientCapacity`), or if at some point no path leads from the
    /// source to the sink any more (`Infeasible`), which happens just if the
    /// workers cannot be assigned at all: if there is no plan. On failure the
    /// network is as it was. A network whose workers are all assigned is
    /// left as it is.
    ///
    /// On success every worker is assigned to one task, every task has a
    /// number of workers within its bounds, and the total score is the least
    /// that any plan costs.
    pub fn find_min_cost_max_flow(&mut self) -> (res: Result<(), FeasibilityError>)
        requires
            old(self)@.wf(),
        ensures
            final(self)@.wf(),
            final(self)@ == old(self)@.with_graph(final(self)@.graph),
            old(self)@.count_error() matches Some(kind) ==> res matches Err(error) && error.kind == kind,
            res matches Err(error) ==> final(self)@ == old(self)@ && (old(self)@.count_error() matches Some(
                kind,
            ) ==> error.kind == kind) && (old(self)@.count_error() is None ==> error.kind
                == FeasibilityKind::Infeasible) && error.message@ == message_of(error.kind),
            final(self)@.graph.arcs.len() == old(self)@.graph.arcs.len(),
            old(self)@.same_problem(final(self)@),
            res is Ok <==> old(self)@.count_error() is None && old(self)@.has_plan(),
            res is Ok ==> final(self)@.solved() && final(self)@.total_flow() == final(self)@.num_workers(),
            res is Ok ==> old(self)@.valid_plan(final(self)@.followed_plan()) && final(self)@.total_score()
                == old(self)@.plan_cost(final(self)@.followed_plan()),
            res is Ok ==> forall|plan: Seq<int>| #[trigger]
                old(self)@.valid_plan(plan) ==> final(self)@.total_score() <= old(self)@.plan_cost(plan),
            (exists|w: int| old(self)@.is_worker(w) && #[trigger] old(self)@.degree(w) == 0) ==> res is Err,
            old(self)@.solved() ==> final(self)@ == old(self)@ && (res is Ok <==> old(self)@.count_error() is None),
    {
        let ghost before = self@;
        proof {
            lemma_same_problem_self(before);
        }
        match self.check_worker_count() {
            Err(error) => {
                return Err(error);
            },
            Ok(_) => {},
        }
        let saved_nodes = self.duplicate_nodes();
        let saved_arcs = self.duplicate_arcs();
        let saved_flag = self.min_flow_satisfied;
        self.change_phase_if_due();
        let ghost begun = self@;
        while self.nodes[SOURCE].get_num_connections() > 0
            invariant
                self@.wf(),
                self@ == before.with_graph(self@.graph),
                self@.graph.arcs.len() == before.graph.arcs.len(),
                before.same_problem(self@),
                before == old(self)@,
                before.wf(),
                before.count_error() is None,
                before.solved() ==> self@ == before,
                !self@.graph.min_flow_satisfied ==> self@.total_flow() < self@.sum_of_minima,
                saved_nodes@.map_values(|n: Node| n@) == before.graph.nodes,
                saved_arcs@.map_values(|a: Arc| a@) == before.graph.arcs,
                saved_flag == before.graph.min_flow_satisfied,
            decreases self@.graph.nodes[SOURCE as int].len(),
        {
            let ghost stuck = self@;
            match self.augment() {
                Err(error) => {
                    proof {
                        lemma_stuck_means_no_plan(stuck);
                        lemma_same_problem_same_plans(before, stuck);
                    }
                    self.nodes = saved_nodes;
                    self.arcs = saved_arcs;
                    self.min_flow_satisfied = saved_flag;
                    proof {
                        assert(self@.graph.nodes =~= before.graph.nodes);
                        assert(self@.graph.arcs =~= before.graph.arcs);
                        assert(self@ == before);
                    }
                    return Err(error);
                },
                Ok(_) => {
                    proof {
                        lemma_same_problem_chain(before, stuck, self@);
                    }
                },
            }
        }
        proof {
            let after = self@;
            lemma_solved_follows_a_plan(after);
            lemma_same_problem_same_plans(before, after);
            lemma_same_problem_back(before, after);
            lemma_plan_carries_over(after, before, after.followed_plan());
            lemma_plan_cost_carries_over(before, after, after.followed_plan());
            lemma_score_is_plan_cost(after);
            assert forall|plan: Seq<int>| #[trigger] before.valid_plan(plan) implies after.total_score()
                <= before.plan_cost(plan) by {
                lemma_plan_carries_over(before, after, plan);
                lemma_plan_cost_carries_over(before, after, plan);
                lemma_no_plan_is_cheaper(after, plan);
            }
            assert forall|w: int| before.is_worker(w) implies #[trigger] before.degree(w) != 0 by {
                lemma_assigned_worker_accepts_a_task(after, w);
                assert(after.degree(w) == before.degree(w));
            }
        }
        Ok(())
    }
}

} // verus!
