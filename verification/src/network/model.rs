//! The mathematical model of the network as an assignment problem: which
//! nodes are tasks and workers, which arcs belong to them, and what holds of
//! them while workers are being assigned.
use crate::network::arc::{ArcView, COST_LIMIT};
use crate::network::counting::count_true;
use crate::network::graph::{Graph, SINK, SOURCE};
use vstd::prelude::*;

verus! {

/// Why a task or a worker was not added.
#[derive(Clone, Copy, Debug, PartialEq, Eq, Structural)]
pub enum InputError {
    /// The task's maximum is below its minimum.
    MaxBelowMin,
    /// With the new task the minima or the maxima of all tasks would no longer
    /// add up to a number the machine can hold.
    TotalTooLarge,
    /// The worker names a task that was not added before.
    UnknownTask,
    /// The worker names a task twice.
    RepeatedTask,
    /// The cost of assigning the worker to a task is beyond `COST_LIMIT`.
    CostOutOfRange,
}

/// What a node stands for.
#[derive(Clone, Copy, Debug, PartialEq, Eq, Structural)]
pub enum NodeKind {
    /// The node that every unassigned worker is connected from.
    Source,
    /// The node that every task leads to.
    Sink,
    /// A task.
    Task,
    /// A worker.
    Worker,
}

/// The network as plain mathematical values.
pub struct NetworkView {
    /// Nodes, arcs and phase.
    pub graph: Graph,
    /// What each node stands for.
    pub kinds: Seq<NodeKind>,
    /// The name of each node; source and sink have the empty name.
    pub names: Seq<Seq<char>>,
    /// For each node the identifier of the first arc that was added with it.
    /// The arcs added with a node follow each other, up to the first arc of
    /// the next node.
    pub first_arc: Seq<usize>,
    /// The task that each task name currently stands for.
    pub task_ids: Map<Seq<char>, usize>,
    /// What the minima of all tasks add up to.
    pub sum_of_minima: nat,
    /// What the maxima of all tasks add up to.
    pub sum_of_maxima: nat,
    /// How many tasks there are.
    pub num_tasks: nat,
}

/// An arc between a worker and the source or a task: it carries one unit or
/// none, and inverts whenever a unit is pushed.
pub open spec fn is_unit(arc: ArcView) -> bool {
    arc.min_flow == 1 && arc.max_flow == 1 && arc.current_flow == 0
}

impl NetworkView {
    /// The network that holds the source and the sink and nothing else.
    pub open spec fn empty() -> NetworkView {
        NetworkView {
            graph: Graph {
                nodes: seq![Seq::<usize>::empty(), Seq::<usize>::empty()],
                arcs: Seq::empty(),
                min_flow_satisfied: false,
            },
            kinds: seq![NodeKind::Source, NodeKind::Sink],
            names: seq![Seq::<char>::empty(), Seq::<char>::empty()],
            first_arc: seq![0usize, 0usize],
            task_ids: Map::empty(),
            sum_of_minima: 0,
            sum_of_maxima: 0,
            num_tasks: 0,
        }
    }

    /// The arc that goes with a new task `t`: it leads from the task to the
    /// sink if the task needs workers, and the other way round if it needs
    /// none, since such a task has met its minimum from the start.
    pub open spec fn new_sink_arc(t: nat, min: nat, max: nat) -> ArcView {
        if min > 0 {
            ArcView { start: t, end: SINK as nat, cost: 0, min_flow: min, max_flow: max, current_flow: 0 }
        } else {
            ArcView { start: SINK as nat, end: t, cost: 0, min_flow: min, max_flow: max, current_flow: 0 }
        }
    }

    /// The network with one more task, which needs `min` workers and takes
    /// up to `max`. The task is the newest node and its arc the newest arc;
    /// `name` stands for the new task from now on.
    pub open spec fn with_task(self, name: Seq<char>, min: nat, max: nat) -> NetworkView {
        let t = self.graph.nodes.len();
        let a = self.graph.arcs.len();
        let arc = Self::new_sink_arc(t, min, max);
        let nodes = self.graph.nodes.push(Seq::empty());
        NetworkView {
            graph: Graph {
                nodes: nodes.update(arc.start as int, nodes[arc.start as int].push(a as usize)),
                arcs: self.graph.arcs.push(arc),
                ..self.graph
            },
            kinds: self.kinds.push(NodeKind::Task),
            names: self.names.push(name),
            first_arc: self.first_arc.push(a as usize),
            task_ids: self.task_ids.insert(name, t as usize),
            sum_of_minima: self.sum_of_minima + min,
            sum_of_maxima: self.sum_of_maxima + max,
            num_tasks: self.num_tasks + 1,
        }
    }

    /// The arc from the source to a new worker `w`.
    pub open spec fn new_source_arc(w: nat) -> ArcView {
        ArcView { start: SOURCE as nat, end: w, cost: 0, min_flow: 1, max_flow: 1, current_flow: 0 }
    }

    /// The arc from a new worker `w` to a task it accepts at a cost.
    pub open spec fn new_task_arc(w: nat, link: (usize, i64)) -> ArcView {
        ArcView {
            start: w,
            end: link.0 as nat,
            cost: link.1 as int,
            min_flow: 1,
            max_flow: 1,
            current_flow: 0,
        }
    }

    /// The network with one more worker, who accepts the tasks of `links`,
    /// each at the cost that goes with it. The worker is the newest node; its
    /// arcs are the newest arcs: first the one from the source, then one to
    /// each task in the order of `links`.
    pub open spec fn with_worker(self, name: Seq<char>, links: Seq<(usize, i64)>) -> NetworkView {
        let w = self.graph.nodes.len();
        let a0 = self.graph.arcs.len();
        let source = SOURCE as int;
        NetworkView {
            graph: Graph {
                nodes: self.graph.nodes.update(source, self.graph.nodes[source].push(a0 as usize)).push(
                    Seq::new(links.len(), |i: int| (a0 + 1 + i) as usize),
                ),
                arcs: self.graph.arcs.push(Self::new_source_arc(w)) + Seq::new(
                    links.len(),
                    |i: int| Self::new_task_arc(w, links[i]),
                ),
                ..self.graph
            },
            kinds: self.kinds.push(NodeKind::Worker),
            names: self.names.push(name),
            first_arc: self.first_arc.push(a0 as usize),
            ..self
        }
    }

    /// The tasks and costs that a list of task names and costs stands for.
    pub open spec fn resolved(self, affinities: Seq<(Seq<char>, i64)>) -> Seq<(usize, i64)> {
        Seq::new(affinities.len(), |i: int| (self.task_ids[affinities[i].0], affinities[i].1))
    }

    /// What is wrong with entry `i` of a worker's list of task names and
    /// costs, if anything: the name stands for no task, the cost is beyond
    /// the limit, or an earlier entry names the same task.
    pub open spec fn entry_error(self, affinities: Seq<(Seq<char>, i64)>, i: int) -> Option<InputError> {
        if !self.task_ids.dom().contains(affinities[i].0) {
            Some(InputError::UnknownTask)
        } else if !(-COST_LIMIT <= affinities[i].1 <= COST_LIMIT) {
            Some(InputError::CostOutOfRange)
        } else if exists|j: int|
            0 <= j < i && #[trigger] self.task_ids[affinities[j].0] == self.task_ids[affinities[i].0] {
            Some(InputError::RepeatedTask)
        } else {
            None
        }
    }

    /// The tasks of `links` are tasks of the network, each named once, at
    /// costs within the limit.
    pub open spec fn links_ok(self, links: Seq<(usize, i64)>) -> bool {
        &&& forall|i: int| 0 <= i < links.len() ==> self.is_task((#[trigger] links[i]).0 as int)
        &&& forall|i: int| 0 <= i < links.len() ==> -COST_LIMIT <= (#[trigger] links[i]).1 <= COST_LIMIT
        &&& forall|i: int, j: int|
            0 <= i < links.len() && 0 <= j < links.len() && i != j ==> (#[trigger] links[i]).0 != (
            #[trigger] links[j]).0
    }

    /// Node `v` is a task.
    pub open spec fn is_task(self, v: int) -> bool {
        0 <= v < self.kinds.len() && self.kinds[v] == NodeKind::Task
    }

    /// Node `v` is a worker.
    pub open spec fn is_worker(self, v: int) -> bool {
        0 <= v < self.kinds.len() && self.kinds[v] == NodeKind::Worker
    }

    /// One more than the identifier of the last arc that was added with node
    /// `v`.
    pub open spec fn next_arc(self, v: int) -> int {
        if v + 1 < self.first_arc.len() {
            self.first_arc[v + 1] as int
        } else {
            self.graph.arcs.len() as int
        }
    }

    /// The arc between task `t` and the sink.
    pub open spec fn sink_arc(self, t: int) -> ArcView {
        self.graph.arcs[self.first_arc[t] as int]
    }

    /// The arc between the source and worker `w`.
    pub open spec fn source_arc(self, w: int) -> ArcView {
        self.graph.arcs[self.first_arc[w] as int]
    }

    /// The fewest workers that task `t` needs.
    pub open spec fn task_min(self, t: int) -> nat {
        self.sink_arc(t).min_flow
    }

    /// The most workers that task `t` can take.
    pub open spec fn task_max(self, t: int) -> nat {
        self.sink_arc(t).max_flow
    }

    /// How many tasks worker `w` accepts.
    pub open spec fn degree(self, w: int) -> int {
        self.next_arc(w) - self.first_arc[w] - 1
    }

    /// How many workers there are.
    pub open spec fn num_workers(self) -> int {
        self.graph.nodes.len() - 2 - self.num_tasks
    }

    /// Which nodes are tasks.
    pub open spec fn task_marks(self) -> Seq<bool> {
        Seq::new(self.kinds.len(), |v: int| self.kinds[v] == NodeKind::Task)
    }

    /// What the minima of the tasks among the first `upto` nodes add up to.
    pub open spec fn minima_upto(self, upto: int) -> nat
        decreases upto,
    {
        if upto <= 0 {
            0
        } else {
            self.minima_upto(upto - 1) + if self.is_task(upto - 1) {
                self.task_min(upto - 1)
            } else {
                0
            }
        }
    }

    /// What the maxima of the tasks among the first `upto` nodes add up to.
    pub open spec fn maxima_upto(self, upto: int) -> nat
        decreases upto,
    {
        if upto <= 0 {
            0
        } else {
            self.maxima_upto(upto - 1) + if self.is_task(upto - 1) {
                self.task_max(upto - 1)
            } else {
                0
            }
        }
    }

    /// The records that go with the nodes are consistent: one kind, name and
    /// first arc per node; source and sink come first; tasks are counted; and
    /// every task name stands for a task of that name.
    pub open spec fn book_ok(self) -> bool {
        let n = self.graph.nodes.len();
        &&& n <= usize::MAX
        &&& self.kinds.len() == n
        &&& self.names.len() == n
        &&& self.first_arc.len() == n
        &&& self.kinds[SOURCE as int] == NodeKind::Source
        &&& self.kinds[SINK as int] == NodeKind::Sink
        &&& forall|v: int|
            2 <= v < n ==> (#[trigger] self.kinds[v]) == NodeKind::Task || self.kinds[v]
                == NodeKind::Worker
        &&& self.num_tasks == count_true(self.task_marks())
        &&& self.num_tasks + 2 <= n
        &&& forall|name: Seq<char>| #[trigger]
            self.task_ids.dom().contains(name) ==> self.is_task(self.task_ids[name] as int)
                && self.names[self.task_ids[name] as int] == name
        &&& self.first_arc[SOURCE as int] == 0
        &&& self.first_arc[SINK as int] == 0
        &&& self.next_arc(SINK as int) == 0
        &&& forall|v: int| 2 <= v < n ==> #[trigger] self.node_shape(v)
    }

    /// A task comes with one arc, a worker with at least one.
    pub open spec fn node_shape(self, v: int) -> bool {
        if self.kinds[v] == NodeKind::Task {
            self.next_arc(v) == self.first_arc[v] + 1
        } else {
            self.next_arc(v) >= self.first_arc[v] + 1
        }
    }

    /// Arc `a` was added from `p` to `q` as one of the three kinds of arc of
    /// an assignment problem: from the source to a worker, from a worker to a
    /// task, or from a task to the sink.
    pub open spec fn shape_between(self, a: int, p: int, q: int) -> bool {
        let arc = self.graph.arcs[a];
        ||| p == SOURCE && self.is_worker(q) && a == self.first_arc[q] && is_unit(arc) && arc.cost == 0
        ||| self.is_worker(p) && self.is_task(q) && self.first_arc[p] < a < self.next_arc(p) && is_unit(
            arc,
        )
        ||| self.is_task(p) && q == SINK && a == self.first_arc[p] && arc.cost == 0
    }

    /// Arc `a` is one of the three kinds of arc of an assignment problem,
    /// whichever way it currently points.
    pub open spec fn arc_shape(self, a: int) -> bool {
        let arc = self.graph.arcs[a];
        self.shape_between(a, arc.start as int, arc.end as int) || self.shape_between(
            a,
            arc.end as int,
            arc.start as int,
        )
    }

    /// Arcs `a` and `b` do not join the same two nodes.
    pub open spec fn apart(self, a: int, b: int) -> bool {
        !self.graph.arcs[a].joins(self.graph.arcs[b].start, self.graph.arcs[b].end)
    }

    /// No two arcs join the same two nodes.
    pub open spec fn simple(self) -> bool {
        forall|a: int, b: int|
            0 <= a < self.graph.arcs.len() && 0 <= b < self.graph.arcs.len() && a != b ==> #[trigger] self.apart(
                a,
                b,
            )
    }

    /// The network encodes an assignment problem: its records are consistent
    /// and every arc is one of the three kinds, with the totals of minima and
    /// maxima kept.
    pub open spec fn structured(self) -> bool {
        &&& self.graph.wf()
        &&& self.book_ok()
        &&& forall|a: int| 0 <= a < self.graph.arcs.len() ==> #[trigger] self.arc_shape(a)
        &&& self.simple()
        &&& self.sum_of_minima == self.minima_upto(self.graph.nodes.len() as int)
        &&& self.sum_of_maxima == self.maxima_upto(self.graph.nodes.len() as int)
    }
}

/// The network of source and sink alone encodes the assignment problem
/// without tasks and workers.
pub proof fn lemma_empty_structured()
    ensures
        NetworkView::empty().structured(),
{
    let e = NetworkView::empty();
    assert forall|v: int| 0 <= v < e.graph.nodes.len() implies #[trigger] e.graph.list_ok(v) by {}
    reveal_with_fuel(count_true, 3);
    assert(e.task_marks() =~= seq![false, false]);
    assert(count_true(e.task_marks()) == 0);
    reveal_with_fuel(NetworkView::minima_upto, 3);
    reveal_with_fuel(NetworkView::maxima_upto, 3);
}

/// The totals over the first nodes depend on those nodes and their arcs
/// alone.
pub proof fn lemma_totals_frame(v1: NetworkView, v2: NetworkView, upto: int)
    requires
        upto <= v1.kinds.len(),
        upto <= v2.kinds.len(),
        upto <= v1.first_arc.len(),
        upto <= v2.first_arc.len(),
        forall|x: int| 0 <= x < upto ==> v1.kinds[x] == v2.kinds[x],
        forall|x: int|
            0 <= x < upto && v1.kinds[x] == NodeKind::Task ==> {
                &&& (#[trigger] v1.sink_arc(x)).min_flow == v2.sink_arc(x).min_flow
                &&& v1.sink_arc(x).max_flow == v2.sink_arc(x).max_flow
            },
    ensures
        v1.minima_upto(upto) == v2.minima_upto(upto),
        v1.maxima_upto(upto) == v2.maxima_upto(upto),
    decreases upto,
{
    if upto > 0 {
        lemma_totals_frame(v1, v2, upto - 1);
        if v1.is_task(upto - 1) {
            assert(v1.sink_arc(upto - 1).min_flow == v2.sink_arc(upto - 1).min_flow);
        }
    }
}

/// The arcs of a node come before those of every later node, and all of
/// them exist.
pub proof fn lemma_ranges_ordered(v: NetworkView, x: int, y: int)
    requires
        v.book_ok(),
        0 <= x <= y < v.graph.nodes.len(),
    ensures
        v.first_arc[x] <= v.first_arc[y],
        x < y ==> v.next_arc(x) <= v.first_arc[y],
        v.next_arc(y) <= v.graph.arcs.len(),
    decreases v.graph.nodes.len() - x,
{
    if x >= 2 {
        assert(v.node_shape(x));
    }
    if x < y {
        lemma_ranges_ordered(v, x + 1, y);
    } else if y + 1 < v.graph.nodes.len() {
        lemma_ranges_ordered(v, y + 1, y + 1);
        if y + 1 >= 2 {
            assert(v.node_shape(y + 1));
        }
    }
}

/// Adding a worker keeps the records consistent.
pub proof fn lemma_with_worker_book(v: NetworkView, name: Seq<char>, links: Seq<(usize, i64)>)
    requires
        v.graph.wf(),
        v.book_ok(),
        v.graph.arcs.len() + 1 + links.len() <= usize::MAX,
        v.graph.nodes.len() < usize::MAX,
    ensures
        v.with_worker(name, links).book_ok(),
        forall|x: int| 0 <= x < v.graph.nodes.len() ==> v.with_worker(name, links).next_arc(x) == v.next_arc(x),
{
    let w = v.with_worker(name, links);
    let t = v.graph.nodes.len() as int;
    let h = w.graph;
    assert(w.task_marks().drop_last() =~= v.task_marks());
    assert forall|x: int| 2 <= x < h.nodes.len() implies #[trigger] w.node_shape(x) by {
        if x < t {
            assert(v.node_shape(x));
            assert(v.next_arc(x) == w.next_arc(x));
        }
    }
    assert forall|nm: Seq<char>| #[trigger] w.task_ids.dom().contains(nm) implies w.is_task(
        w.task_ids[nm] as int,
    ) && w.names[w.task_ids[nm] as int] == nm by {
        assert(v.task_ids.dom().contains(nm));
    }
    assert forall|x: int| 2 <= x < h.nodes.len() implies (#[trigger] w.kinds[x]) == NodeKind::Task
        || w.kinds[x] == NodeKind::Worker by {
        if x < t {
            assert(v.kinds[x] == NodeKind::Task || v.kinds[x] == NodeKind::Worker);
        }
    }
}

/// Adding a worker keeps every arc one of the three kinds.
pub proof fn lemma_with_worker_shapes(v: NetworkView, name: Seq<char>, links: Seq<(usize, i64)>)
    requires
        v.structured(),
        v.links_ok(links),
        v.graph.arcs.len() + 1 + links.len() <= usize::MAX,
        v.graph.nodes.len() < usize::MAX,
    ensures
        forall|a: int|
            0 <= a < v.with_worker(name, links).graph.arcs.len() ==> #[trigger] v.with_worker(
                name,
                links,
            ).arc_shape(a),
{
    let w = v.with_worker(name, links);
    let t = v.graph.nodes.len() as int;
    let a0 = v.graph.arcs.len() as int;
    let g = v.graph;
    let h = w.graph;
    lemma_with_worker_book(v, name, links);
    assert forall|b: int| 0 <= b < h.arcs.len() implies #[trigger] w.arc_shape(b) by {
        if b < a0 {
            assert(v.arc_shape(b));
            assert(g.arc_ok(b));
            let ab = g.arcs[b];
            let p = ab.start as int;
            let q = ab.end as int;
            assert(v.next_arc(p) == w.next_arc(p));
            assert(v.next_arc(q) == w.next_arc(q));
            if v.shape_between(b, p, q) {
                assert(w.shape_between(b, p, q));
            } else {
                assert(w.shape_between(b, q, p));
            }
        } else if b == a0 {
            assert(w.shape_between(b, SOURCE as int, t));
        } else {
            let i = b - a0 - 1;
            assert(h.arcs[b] == NetworkView::new_task_arc(t as nat, links[i]));
            assert(v.is_task(links[i].0 as int));
            assert(w.shape_between(b, t, links[i].0 as int));
        }
    }
}

/// Adding a worker leaves no two arcs between the same two nodes.
pub proof fn lemma_with_worker_simple(v: NetworkView, name: Seq<char>, links: Seq<(usize, i64)>)
    requires
        v.graph.wf(),
        v.book_ok(),
        v.simple(),
        v.links_ok(links),
    ensures
        v.with_worker(name, links).simple(),
{
    let w = v.with_worker(name, links);
    let a0 = v.graph.arcs.len() as int;
    let t = v.graph.nodes.len() as int;
    let g = v.graph;
    let h = w.graph;
    assert forall|b: int, c: int|
        0 <= b < h.arcs.len() && 0 <= c < h.arcs.len() && b != c implies #[trigger] w.apart(b, c) by {
        if b < a0 {
            assert(g.arc_ok(b));
        }
        if c < a0 {
            assert(g.arc_ok(c));
        }
        if b < a0 && c < a0 {
            assert(v.apart(b, c));
        } else if b > a0 && c > a0 {
            let i = b - a0 - 1;
            let j = c - a0 - 1;
            assert(links[i].0 != links[j].0);
        } else if b > a0 && c == a0 {
            assert(v.is_task(links[b - a0 - 1].0 as int));
        } else if c > a0 && b == a0 {
            assert(v.is_task(links[c - a0 - 1].0 as int));
        }
    }
}

/// Adding a worker leaves the totals as they are.
pub proof fn lemma_with_worker_totals(v: NetworkView, name: Seq<char>, links: Seq<(usize, i64)>)
    requires
        v.graph.wf(),
        v.book_ok(),
    ensures
        v.with_worker(name, links).minima_upto(v.graph.nodes.len() as int + 1) == v.minima_upto(
            v.graph.nodes.len() as int,
        ),
        v.with_worker(name, links).maxima_upto(v.graph.nodes.len() as int + 1) == v.maxima_upto(
            v.graph.nodes.len() as int,
        ),
{
    let w = v.with_worker(name, links);
    let t = v.graph.nodes.len() as int;
    assert forall|x: int| 0 <= x < t && v.kinds[x] == NodeKind::Task implies {
        &&& (#[trigger] v.sink_arc(x)).min_flow == w.sink_arc(x).min_flow
        &&& v.sink_arc(x).max_flow == w.sink_arc(x).max_flow
    } by {
        assert(v.node_shape(x));
        lemma_ranges_ordered(v, x, x);
    }
    lemma_totals_frame(v, w, t);
    assert(!w.is_task(t));
}

/// Adding a worker keeps the network an encoding of an assignment problem,
/// given that it keeps the graph consistent.
pub proof fn lemma_with_worker_structured(v: NetworkView, name: Seq<char>, links: Seq<(usize, i64)>)
    requires
        v.structured(),
        v.links_ok(links),
        v.with_worker(name, links).graph.wf(),
        v.graph.arcs.len() + 1 + links.len() <= usize::MAX,
        v.graph.nodes.len() < usize::MAX,
    ensures
        v.with_worker(name, links).structured(),
{
    lemma_with_worker_book(v, name, links);
    lemma_with_worker_shapes(v, name, links);
    lemma_with_worker_simple(v, name, links);
    lemma_with_worker_totals(v, name, links);
}

/// Adding a task keeps the graph consistent.
pub proof fn lemma_with_task_graph(v: NetworkView, name: Seq<char>, min: nat, max: nat)
    requires
        v.graph.wf(),
        min <= max,
        v.graph.arcs.len() < usize::MAX,
    ensures
        v.with_task(name, min, max).graph.wf(),
{
    let w = v.with_task(name, min, max);
    let t = v.graph.nodes.len() as int;
    let a = v.graph.arcs.len() as int;
    let g = v.graph;
    let h = w.graph;
    let arc = NetworkView::new_sink_arc(t as nat, min, max);
    let s = arc.start as int;
    assert(h.arcs[a] == arc);
    assert forall|x: int| 0 <= x < h.nodes.len() implies #[trigger] h.list_ok(x) by {
        if x < t {
            assert(g.list_ok(x));
        }
        let list = h.nodes[x];
        if x == s {
            let base = if x < t {
                g.nodes[x]
            } else {
                Seq::<usize>::empty()
            };
            assert(list == base.push(a as usize));
            assert forall|i: int, j: int|
                0 <= i < list.len() && 0 <= j < list.len() && i != j implies list[i] != list[j] by {
                if i < base.len() {
                    assert(base[i] < g.arcs.len());
                }
                if j < base.len() {
                    assert(base[j] < g.arcs.len());
                }
            }
            assert forall|k: int| 0 <= k < list.len() implies (#[trigger] list[k]) < h.arcs.len()
                && h.arcs[list[k] as int].start == x by {
                if k < base.len() {
                    assert(base[k] < g.arcs.len());
                }
            }
        } else {
            assert forall|k: int| 0 <= k < list.len() implies (#[trigger] list[k]) < h.arcs.len()
                && h.arcs[list[k] as int].start == x by {
                assert(g.nodes[x][k] < g.arcs.len());
            }
        }
    }
    assert forall|b: int| 0 <= b < h.arcs.len() implies #[trigger] h.arc_ok(b) by {
        if b < a {
            assert(g.arc_ok(b));
            let st = g.arcs[b].start as int;
            let k = choose|k: int| 0 <= k < g.nodes[st].len() && g.nodes[st][k] == b as usize;
            assert(h.nodes[st][k] == b as usize);
        } else {
            assert(h.nodes[s].last() == a as usize);
        }
    }
}

/// Adding a task keeps the records consistent.
pub proof fn lemma_with_task_book(v: NetworkView, name: Seq<char>, min: nat, max: nat)
    requires
        v.graph.wf(),
        v.book_ok(),
        v.graph.arcs.len() < usize::MAX,
        v.graph.nodes.len() < usize::MAX,
    ensures
        v.with_task(name, min, max).book_ok(),
        forall|x: int| 0 <= x < v.graph.nodes.len() ==> v.with_task(name, min, max).next_arc(x) == v.next_arc(x),
{
    let w = v.with_task(name, min, max);
    let t = v.graph.nodes.len() as int;
    let h = w.graph;
    assert(w.task_marks().drop_last() =~= v.task_marks());
    assert forall|x: int| 2 <= x < h.nodes.len() implies #[trigger] w.node_shape(x) by {
        if x < t {
            assert(v.node_shape(x));
            assert(v.next_arc(x) == w.next_arc(x));
        }
    }
    assert forall|nm: Seq<char>| #[trigger] w.task_ids.dom().contains(nm) implies w.is_task(
        w.task_ids[nm] as int,
    ) && w.names[w.task_ids[nm] as int] == nm by {
        if nm != name {
            assert(v.task_ids.dom().contains(nm));
        }
    }
    assert forall|x: int| 2 <= x < h.nodes.len() implies (#[trigger] w.kinds[x]) == NodeKind::Task
        || w.kinds[x] == NodeKind::Worker by {
        if x < t {
            assert(v.kinds[x] == NodeKind::Task || v.kinds[x] == NodeKind::Worker);
        }
    }
}

/// Adding a task keeps every arc one of the three kinds.
pub proof fn lemma_with_task_shapes(v: NetworkView, name: Seq<char>, min: nat, max: nat)
    requires
        v.structured(),
        min <= max,
        v.graph.arcs.len() < usize::MAX,
        v.graph.nodes.len() < usize::MAX,
    ensures
        forall|a: int|
            0 <= a < v.with_task(name, min, max).graph.arcs.len() ==> #[trigger] v.with_task(
                name,
                min,
                max,
            ).arc_shape(a),
{
    let w = v.with_task(name, min, max);
    let t = v.graph.nodes.len() as int;
    let a = v.graph.arcs.len() as int;
    let g = v.graph;
    let h = w.graph;
    lemma_with_task_book(v, name, min, max);
    assert forall|b: int| 0 <= b < h.arcs.len() implies #[trigger] w.arc_shape(b) by {
        if b < a {
            assert(v.arc_shape(b));
            assert(g.arc_ok(b));
            let ab = g.arcs[b];
            let p = ab.start as int;
            let q = ab.end as int;
            assert(v.next_arc(p) == w.next_arc(p));
            assert(v.next_arc(q) == w.next_arc(q));
            if v.shape_between(b, p, q) {
                assert(w.shape_between(b, p, q));
            } else {
                assert(w.shape_between(b, q, p));
            }
        } else {
            assert(w.shape_between(a, t, SINK as int));
        }
    }
}

/// Adding a task leaves no two arcs between the same two nodes.
pub proof fn lemma_with_task_simple(v: NetworkView, name: Seq<char>, min: nat, max: nat)
    requires
        v.graph.wf(),
        v.simple(),
    ensures
        v.with_task(name, min, max).simple(),
{
    let w = v.with_task(name, min, max);
    let a = v.graph.arcs.len() as int;
    let g = v.graph;
    let h = w.graph;
    assert forall|b: int, c: int|
        0 <= b < h.arcs.len() && 0 <= c < h.arcs.len() && b != c implies #[trigger] w.apart(b, c) by {
        if b < a && c < a {
            assert(v.apart(b, c));
        } else if b < a {
            assert(g.arc_ok(b));
        } else {
            assert(g.arc_ok(c));
        }
    }
}

/// Adding a task adds its bounds to the totals.
pub proof fn lemma_with_task_totals(v: NetworkView, name: Seq<char>, min: nat, max: nat)
    requires
        v.graph.wf(),
        v.book_ok(),
        v.graph.arcs.len() < usize::MAX,
    ensures
        v.with_task(name, min, max).minima_upto(v.graph.nodes.len() as int + 1) == v.minima_upto(
            v.graph.nodes.len() as int,
        ) + min,
        v.with_task(name, min, max).maxima_upto(v.graph.nodes.len() as int + 1) == v.maxima_upto(
            v.graph.nodes.len() as int,
        ) + max,
{
    let w = v.with_task(name, min, max);
    let t = v.graph.nodes.len() as int;
    assert forall|x: int| 0 <= x < t && v.kinds[x] == NodeKind::Task implies {
        &&& (#[trigger] v.sink_arc(x)).min_flow == w.sink_arc(x).min_flow
        &&& v.sink_arc(x).max_flow == w.sink_arc(x).max_flow
    } by {
        assert(v.node_shape(x));
        lemma_ranges_ordered(v, x, x);
    }
    lemma_totals_frame(v, w, t);
    assert(w.is_task(t));
    assert(w.sink_arc(t) == NetworkView::new_sink_arc(t as nat, min, max));
}

/// Adding a task keeps the network an encoding of an assignment problem.
pub proof fn lemma_with_task_structured(v: NetworkView, name: Seq<char>, min: nat, max: nat)
    requires
        v.structured(),
        min <= max,
        v.graph.arcs.len() < usize::MAX,
        v.graph.nodes.len() < usize::MAX,
    ensures
        v.with_task(name, min, max).structured(),
{
    lemma_with_task_graph(v, name, min, max);
    lemma_with_task_book(v, name, min, max);
    lemma_with_task_shapes(v, name, min, max);
    lemma_with_task_simple(v, name, min, max);
    lemma_with_task_totals(v, name, min, max);
}

} // verus!
