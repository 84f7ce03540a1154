//! The mathematical model of the network as a graph: connection lists, arcs,
//! and what pushing flow and changing phase do to them.
use crate::network::arc::ArcView;
use crate::network::node::{first_position, is_first_position, lemma_swap_removed, swap_removed};
use vstd::prelude::*;

verus! {

/// The identifier of the source node.
pub const SOURCE: usize = 0;

/// The identifier of the sink node.
pub const SINK: usize = 1;

/// The network as a graph.
pub struct Graph {
    /// For each node, the identifiers of the arcs that currently leave it.
    pub nodes: Seq<Seq<usize>>,
    /// The arcs, by identifier.
    pub arcs: Seq<ArcView>,
    /// Whether every task has met its minimum, so that arcs now invert at
    /// their upper bound.
    pub min_flow_satisfied: bool,
}

/// `list` with `x` appended unless it is there already.
pub open spec fn with_connection(list: Seq<usize>, x: usize) -> Seq<usize> {
    if list.contains(x) {
        list
    } else {
        list.push(x)
    }
}

impl Graph {
    /// The arc `a` exists, is well formed, joins two nodes of the graph, is
    /// listed at the node it starts from, and, unless it starts at the sink,
    /// still has room for a unit of flow below the threshold of the phase.
    pub open spec fn arc_ok(self, a: int) -> bool {
        let arc = self.arcs[a];
        &&& arc.wf()
        &&& arc.start < self.nodes.len()
        &&& arc.end < self.nodes.len()
        &&& self.nodes[arc.start as int].contains(a as usize)
        &&& arc.start != SINK ==> arc.current_flow < arc.threshold(self.min_flow_satisfied)
    }

    /// The connection list of node `v` holds no arc twice, and each arc in it
    /// exists and starts at `v`.
    pub open spec fn list_ok(self, v: int) -> bool {
        let list = self.nodes[v];
        &&& list.no_duplicates()
        &&& forall|k: int|
            0 <= k < list.len() ==> (#[trigger] list[k]) < self.arcs.len() && self.arcs[list[k] as int].start
                == v
    }

    /// The graph is consistent: source and sink exist, every arc has its flow
    /// within bounds, and the connection lists are duplicate free and hold
    /// exactly the arcs that start at their node.
    pub open spec fn wf(self) -> bool {
        &&& self.nodes.len() >= 2
        &&& self.arcs.len() <= usize::MAX
        &&& forall|a: int| 0 <= a < self.arcs.len() ==> #[trigger] self.arc_ok(a)
        &&& forall|v: int| 0 <= v < self.nodes.len() ==> #[trigger] self.list_ok(v)
    }

    /// Position `k` of the connection list of `u` holds the first arc that
    /// ends at `v`.
    pub open spec fn is_link(self, u: int, v: int, k: int) -> bool {
        let list = self.nodes[u];
        &&& 0 <= k < list.len()
        &&& self.arcs[list[k] as int].end == v
        &&& forall|j: int| 0 <= j < k ==> self.arcs[(#[trigger] list[j]) as int].end != v
    }

    /// Some arc in the connection list of `u` ends at `v`.
    pub open spec fn linked(self, u: int, v: int) -> bool {
        exists|k: int| self.is_link(u, v, k)
    }

    /// The position in the connection list of `u` of the first arc that ends
    /// at `v`.
    pub open spec fn link_position(self, u: int, v: int) -> int {
        choose|k: int| self.is_link(u, v, k)
    }

    /// The first arc in the connection list of `u` that ends at `v`.
    pub open spec fn link(self, u: int, v: int) -> usize {
        self.nodes[u][self.link_position(u, v)]
    }

    /// The graph after one unit of flow went from `u` to `v` down the first
    /// arc that joins them: the arc is pushed, and if that inverts it, its
    /// identifier moves from the list of `u` (by swap-remove) to the end of
    /// the list of `v`.
    pub open spec fn push_between(self, u: int, v: int) -> Graph {
        let k = self.link_position(u, v);
        let a = self.nodes[u][k];
        let arc = self.arcs[a as int];
        let arcs = self.arcs.update(a as int, arc.pushed(self.min_flow_satisfied));
        if arc.current_flow + 1 == arc.threshold(self.min_flow_satisfied) {
            let removed = self.nodes.update(u, swap_removed(self.nodes[u], k));
            Graph { nodes: removed.update(v, with_connection(removed[v], a)), arcs, ..self }
        } else {
            Graph { arcs, ..self }
        }
    }

    /// The graph after one unit of flow went down `path`. The flow is pushed
    /// arc by arc from the end of the path back to its start.
    pub open spec fn push_along(self, path: Seq<usize>) -> Graph
        decreases path.len(),
    {
        if path.len() < 2 {
            self
        } else {
            self.push_along(path.drop_first()).push_between(path[0] as int, path[1] as int)
        }
    }

    /// Whether flow down `path` takes arc `a` on one of its steps from step
    /// `i` on.
    pub open spec fn takes_from(self, path: Seq<usize>, i: int, a: int) -> bool {
        exists|j: int| i <= j < path.len() - 1 && #[trigger] self.step_arc(path, j) == a
    }

    /// The graph after arc `c`, which starts at the sink, was prepared for
    /// the phase that fills tasks up to their maxima: unless it is saturated,
    /// the arc is inverted with its lower bound as flow, and its identifier
    /// moves from the list of the sink (by swap-remove) to the end of the
    /// list of the node it now starts at.
    pub open spec fn phase_change_arc(self, c: int) -> Graph {
        let arc = self.arcs[c];
        if arc.min_flow == arc.max_flow {
            self
        } else {
            let k = first_position(self.nodes[SINK as int], c as usize);
            let removed = self.nodes.update(SINK as int, swap_removed(self.nodes[SINK as int], k));
            Graph {
                nodes: removed.update(
                    arc.end as int,
                    with_connection(removed[arc.end as int], c as usize),
                ),
                arcs: self.arcs.update(c, arc.phase_changed()),
                ..self
            }
        }
    }

    /// The graph after the arcs of `list` were prepared for the second phase
    /// one after the other.
    pub open spec fn phase_change_over(self, list: Seq<usize>) -> Graph
        decreases list.len(),
    {
        if list.len() == 0 {
            self
        } else {
            self.phase_change_over(list.drop_last()).phase_change_arc(list.last() as int)
        }
    }

    /// The graph after the change of phase: minima count as met, and every
    /// arc that started at the sink was prepared for the second phase, in the
    /// order of the sink's connection list.
    pub open spec fn phase_changed(self) -> Graph {
        (Graph { min_flow_satisfied: true, ..self }).phase_change_over(self.nodes[SINK as int])
    }

    /// The arc that flow down `path` takes from its node `j` to the next.
    pub open spec fn step_arc(self, path: Seq<usize>, j: int) -> usize {
        self.link(path[j] as int, path[j + 1] as int)
    }

    /// Whether one more unit of flow inverts arc `a`.
    pub open spec fn inverts(self, a: int) -> bool {
        self.arcs[a].current_flow + 1 == self.arcs[a].threshold(self.min_flow_satisfied)
    }

    /// Whether flow down `path` takes arc `a` on one of its first `i` steps.
    pub open spec fn takes(self, path: Seq<usize>, i: int, a: int) -> bool {
        exists|j: int| 0 <= j < i && #[trigger] self.step_arc(path, j) == a
    }

    /// By how much flow down `path` changes the number of arcs that leave
    /// its node `j`: an arc that inverts on the way in arrives, an arc that
    /// inverts on the way out leaves.
    pub open spec fn list_change(self, path: Seq<usize>, j: int) -> int {
        (if 0 < j && self.inverts(self.step_arc(path, j - 1) as int) {
            1int
        } else {
            0int
        }) - (if j < path.len() - 1 && self.inverts(self.step_arc(path, j) as int) {
            1int
        } else {
            0int
        })
    }

    /// `path` leads from node to node along arcs of the graph, visits no node
    /// twice, and leaves the sink nowhere.
    pub open spec fn is_path(self, path: Seq<usize>) -> bool {
        &&& forall|i: int| 0 <= i < path.len() ==> (#[trigger] path[i]) < self.nodes.len()
        &&& path.no_duplicates()
        &&& forall|i: int|
            0 <= i < path.len() - 1 ==> (#[trigger] path[i]) != SINK && self.linked(
                path[i] as int,
                path[i + 1] as int,
            )
    }
}

/// The first position at which a property holds is unique.
pub proof fn lemma_link_unique(g: Graph, u: int, v: int, k: int)
    requires
        g.is_link(u, v, k),
    ensures
        g.link_position(u, v) == k,
        g.linked(u, v),
{
    let c = g.link_position(u, v);
    assert(g.is_link(u, v, c));
    if c < k {
        assert(g.arcs[g.nodes[u][c] as int].end != v);
    } else if k < c {
        assert(g.arcs[g.nodes[u][k] as int].end != v);
    }
}

/// In a consistent graph an arc occurs in the list of its start node only,
/// and there once.
pub proof fn lemma_listed_once(g: Graph, v: int, k: int)
    requires
        g.wf(),
        0 <= v < g.nodes.len(),
        0 <= k < g.nodes[v].len(),
    ensures
        is_first_position(g.nodes[v], g.nodes[v][k], k),
        first_position(g.nodes[v], g.nodes[v][k]) == k,
{
    let list = g.nodes[v];
    assert(g.list_ok(v));
    assert(is_first_position(list, list[k], k));
    let c = first_position(list, list[k]);
    assert(is_first_position(list, list[k], c));
}

/// Pushing a unit of flow between two linked nodes keeps the graph
/// consistent.
pub proof fn lemma_push_between_wf(g: Graph, u: int, v: int)
    requires
        g.wf(),
        0 <= u < g.nodes.len(),
        0 <= v < g.nodes.len(),
        u != SINK,
        u != v,
        g.linked(u, v),
    ensures
        g.push_between(u, v).wf(),
        g.push_between(u, v).nodes.len() == g.nodes.len(),
        g.push_between(u, v).arcs.len() == g.arcs.len(),
        g.push_between(u, v).min_flow_satisfied == g.min_flow_satisfied,
{
    let k = g.link_position(u, v);
    assert(g.is_link(u, v, k));
    let a = g.nodes[u][k];
    assert(g.list_ok(u));
    assert(g.list_ok(v));
    assert(g.arc_ok(a as int));
    let arc = g.arcs[a as int];
    let h = g.push_between(u, v);
    let inverts = arc.current_flow + 1 == arc.threshold(g.min_flow_satisfied);
    if inverts {
        lemma_swap_removed(g.nodes[u], k);
        assert(!g.nodes[v].contains(a)) by {
            if g.nodes[v].contains(a) {
                let j = choose|j: int| 0 <= j < g.nodes[v].len() && g.nodes[v][j] == a;
                assert(g.arcs[g.nodes[v][j] as int].start == v);
            }
        }
        assert(h.nodes[v] == g.nodes[v].push(a));
        assert(h.nodes[u] == swap_removed(g.nodes[u], k));
    }
    assert forall|x: int| 0 <= x < h.nodes.len() implies #[trigger] h.list_ok(x) by {
        assert(g.list_ok(x));
        let list = h.nodes[x];
        if inverts && x == u {
            assert forall|j: int| 0 <= j < list.len() implies (#[trigger] list[j]) < h.arcs.len()
                && h.arcs[list[j] as int].start == x by {
                assert(g.nodes[u].contains(list[j])) by {
                    assert(list.contains(list[j]));
                }
                let i = choose|i: int| 0 <= i < g.nodes[u].len() && g.nodes[u][i] == list[j];
                assert(g.nodes[u][i] < g.arcs.len());
            }
        } else if inverts && x == v {
            assert forall|i: int, j: int|
                0 <= i < list.len() && 0 <= j < list.len() && i != j implies list[i] != list[j] by {
                if i < g.nodes[v].len() && j < g.nodes[v].len() {
                } else if i < g.nodes[v].len() {
                    assert(g.nodes[v].contains(g.nodes[v][i]));
                } else {
                    assert(g.nodes[v].contains(g.nodes[v][j]));
                }
            }
            assert forall|j: int| 0 <= j < list.len() implies (#[trigger] list[j]) < h.arcs.len()
                && h.arcs[list[j] as int].start == x by {
                if j < g.nodes[v].len() {
                    assert(g.nodes[v][j] < g.arcs.len());
                    assert(g.nodes[v].contains(g.nodes[v][j]));
                }
            }
        } else {
            assert forall|j: int| 0 <= j < list.len() implies (#[trigger] list[j]) < h.arcs.len()
                && h.arcs[list[j] as int].start == x by {
                assert(g.nodes[x][j] < g.arcs.len());
            }
        }
    }
    assert forall|b: int| 0 <= b < h.arcs.len() implies #[trigger] h.arc_ok(b) by {
        assert(g.arc_ok(b));
        if b == a as int {
            if inverts {
                assert(h.nodes[v].last() == a);
            } else {
                assert(h.nodes[u][k] == a);
            }
        } else {
            let s = g.arcs[b].start as int;
            assert(g.nodes[s].contains(b as usize));
            if inverts && s == u {
                assert(g.nodes[u][k] != b as usize);
            } else if inverts && s == v {
                let j = choose|j: int| 0 <= j < g.nodes[v].len() && g.nodes[v][j] == b as usize;
                assert(h.nodes[v][j] == b as usize);
            }
        }
    }
}

/// What flow down the arcs of `path` from step `i` on has done and left
/// alone, where `g` is the graph then and `g0` the graph before. The nodes
/// before `path[i]` and their arcs are untouched; `path[i]` has lost the arc
/// that left it if that arc inverted; the nodes after it have gained and lost
/// what `list_change` says; the arcs taken are pushed and all others are as
/// they were.
pub open spec fn pushed_from(g0: Graph, g: Graph, path: Seq<usize>, i: int) -> bool {
    let last = path.len() - 1;
    &&& g.wf()
    &&& g.nodes.len() == g0.nodes.len()
    &&& g.arcs.len() == g0.arcs.len()
    &&& g.min_flow_satisfied == g0.min_flow_satisfied
    &&& forall|j: int| 0 <= j < i ==> g.nodes[(#[trigger] path[j]) as int] == g0.nodes[path[j] as int]
    &&& forall|a: int, j: int|
        0 <= j < i && 0 <= a < g0.arcs.len() && (#[trigger] g0.arcs[a]).start == (#[trigger] path[j])
            ==> g.arcs[a] == g0.arcs[a]
    &&& forall|x: int|
        0 <= x < g0.nodes.len() && !path.contains(x as usize) ==> #[trigger] g.nodes[x] == g0.nodes[x]
    &&& forall|j: int|
        i < j < last ==> (#[trigger] g.nodes[path[j] as int]).len() == g0.nodes[path[j] as int].len()
            + g0.list_change(path, j)
    &&& g.nodes[path[i] as int] == if i < last && g0.inverts(g0.step_arc(path, i) as int) {
        swap_removed(g0.nodes[path[i] as int], g0.link_position(path[i] as int, path[i + 1] as int))
    } else {
        g0.nodes[path[i] as int]
    }
    &&& i < last ==> g.nodes[path[last] as int] == if g0.inverts(g0.step_arc(path, last - 1) as int) {
        g0.nodes[path[last] as int].push(g0.step_arc(path, last - 1))
    } else {
        g0.nodes[path[last] as int]
    }
    &&& forall|j: int|
        i <= j < last ==> g.arcs[(#[trigger] g0.step_arc(path, j)) as int] == g0.arcs[g0.step_arc(
            path,
            j,
        ) as int].pushed(g0.min_flow_satisfied)
    &&& forall|a: int|
        0 <= a < g0.arcs.len() && !g0.takes_from(path, i, a) ==> #[trigger] g.arcs[a] == g0.arcs[a]
}

/// Where the nodes before `path[i]` and their arcs are untouched, the link
/// from `path[i - 1]` to `path[i]` is where it was before any flow went down
/// the path.
pub proof fn lemma_frame_keeps_link(g0: Graph, g: Graph, path: Seq<usize>, i: int)
    requires
        g0.wf(),
        g0.is_path(path),
        0 < i < path.len(),
        pushed_from(g0, g, path, i),
    ensures
        g.linked(path[i - 1] as int, path[i] as int),
        g.link_position(path[i - 1] as int, path[i] as int) == g0.link_position(
            path[i - 1] as int,
            path[i] as int,
        ),
        g.link(path[i - 1] as int, path[i] as int) == g0.step_arc(path, i - 1),
        g.arcs[g0.step_arc(path, i - 1) as int] == g0.arcs[g0.step_arc(path, i - 1) as int],
{
    let u = path[i - 1] as int;
    let v = path[i] as int;
    assert(path[i - 1] != SINK && g0.linked(u, v));
    let k = g0.link_position(u, v);
    assert(g0.is_link(u, v, k));
    assert(g0.list_ok(u));
    let list = g0.nodes[u];
    assert(g.nodes[path[i - 1] as int] == list);
    assert forall|j: int| 0 <= j < list.len() implies g.arcs[(#[trigger] list[j]) as int] == g0.arcs[list[j] as int] by {
        assert(list[j] < g0.arcs.len());
        assert(g0.arcs[list[j] as int].start == path[i - 1]);
    }
    assert(g.is_link(u, v, k)) by {
        assert(g.arcs[list[k] as int].end == v);
        assert forall|j: int| 0 <= j < k implies g.arcs[(#[trigger] list[j]) as int].end != v by {
            assert(g0.arcs[list[j] as int].end != v);
        }
    }
    lemma_link_unique(g, u, v, k);
}

/// Flow down the arcs of a path from step `i` on does what `pushed_from`
/// says.
pub proof fn lemma_pushed_from(g0: Graph, path: Seq<usize>, i: int)
    requires
        g0.wf(),
        g0.is_path(path),
        0 <= i < path.len(),
    ensures
        pushed_from(g0, g0.push_along(path.skip(i)), path, i),
    decreases path.len() - i,
{
    let last = path.len() - 1;
    if i == last {
        assert(path.skip(i).len() == 1);
        assert(g0.push_along(path.skip(i)) == g0);
        assert forall|a: int| 0 <= a < g0.arcs.len() && !g0.takes_from(path, i, a) implies #[trigger] g0.arcs[a]
            == g0.arcs[a] by {}
    } else {
        lemma_pushed_from(g0, path, i + 1);
        let g = g0.push_along(path.skip(i + 1));
        let u = path[i] as int;
        let v = path[i + 1] as int;
        assert(path.skip(i).drop_first() =~= path.skip(i + 1));
        assert(path.skip(i)[0] == path[i] && path.skip(i)[1] == path[i + 1]);
        let h = g.push_between(u, v);
        assert(g0.push_along(path.skip(i)) == h);
        lemma_frame_keeps_link(g0, g, path, i + 1);
        assert(path[i] != SINK);
        assert(path[i] != path[i + 1]);
        lemma_push_between_wf(g, u, v);
        let k = g.link_position(u, v);
        assert(g.is_link(u, v, k));
        let a = g.nodes[u][k];
        assert(a == g0.step_arc(path, i));
        lemma_step_arc_start(g0, path, i);
        assert(g.list_ok(u));
        assert(g.list_ok(v));
        assert(g0.list_ok(u));
        assert(g.nodes[path[i] as int] == g0.nodes[path[i] as int]);
        assert(g.inverts(a as int) == g0.inverts(a as int));
        assert(!g.nodes[v].contains(a)) by {
            if g.nodes[v].contains(a) {
                let j = choose|j: int| 0 <= j < g.nodes[v].len() && g.nodes[v][j] == a;
                assert(g.arcs[g.nodes[v][j] as int].start == v);
            }
        }
        if g0.inverts(a as int) {
            lemma_swap_removed(g.nodes[u], k);
            assert(h.nodes[v] == g.nodes[v].push(a));
            assert(h.nodes[u] == swap_removed(g0.nodes[u], k));
        } else {
            assert(h.nodes[v] == g.nodes[v]);
            assert(h.nodes[u] == g0.nodes[u]);
        }
        assert forall|j: int| 0 <= j < i implies h.nodes[(#[trigger] path[j]) as int] == g0.nodes[path[j] as int] by {
            assert(path[j] != path[i]);
            assert(path[j] != path[i + 1]);
            assert(g.nodes[path[j] as int] == g0.nodes[path[j] as int]);
        }
        assert forall|b: int, j: int|
            0 <= j < i && 0 <= b < g0.arcs.len() && (#[trigger] g0.arcs[b]).start == (#[trigger] path[j]) implies h.arcs[b]
            == g0.arcs[b] by {
            assert(path[j] != path[i]);
            assert(b != a as int);
            assert(g.arcs[b] == g0.arcs[b]);
        }
        assert forall|x: int| 0 <= x < g0.nodes.len() && !path.contains(x as usize) implies #[trigger] h.nodes[x]
            == g0.nodes[x] by {
            assert(path[i] != x as usize);
            assert(path[i + 1] != x as usize);
            assert(g.nodes[x] == g0.nodes[x]);
        }
        assert forall|j: int| i < j < last implies (#[trigger] h.nodes[path[j] as int]).len()
            == g0.nodes[path[j] as int].len() + g0.list_change(path, j) by {
            if j == i + 1 {
                if g0.inverts(g0.step_arc(path, i + 1) as int) {
                    lemma_step_arc_start(g0, path, i + 1);
                    assert(g0.linked(path[i + 1] as int, path[i + 2] as int));
                    assert(g0.is_link(
                        path[i + 1] as int,
                        path[i + 2] as int,
                        g0.link_position(path[i + 1] as int, path[i + 2] as int),
                    ));
                    assert(g0.list_ok(v));
                    lemma_swap_removed(
                        g0.nodes[v],
                        g0.link_position(path[i + 1] as int, path[i + 2] as int),
                    );
                }
            } else {
                assert(path[j] != path[i]);
                assert(path[j] != path[i + 1]);
                assert(g.nodes[path[j] as int].len() == g0.nodes[path[j] as int].len() + g0.list_change(
                    path,
                    j,
                ));
            }
        }
        if i + 1 < last {
            assert(path[last] != path[i]);
            assert(path[last] != path[i + 1]);
        }
        assert forall|j: int| i <= j < last implies h.arcs[(#[trigger] g0.step_arc(path, j)) as int]
            == g0.arcs[g0.step_arc(path, j) as int].pushed(g0.min_flow_satisfied) by {
            if j > i {
                lemma_step_arc_start(g0, path, j);
                assert(path[j] != path[i]);
            }
        }
        assert forall|b: int| 0 <= b < g0.arcs.len() && !g0.takes_from(path, i, b) implies #[trigger] h.arcs[b]
            == g0.arcs[b] by {
            assert(g0.step_arc(path, i) != b);
            if g0.takes_from(path, i + 1, b) {
                let j = choose|j: int| i + 1 <= j < path.len() - 1 && #[trigger] g0.step_arc(path, j) == b;
                assert(i <= j < path.len() - 1 && g0.step_arc(path, j) == b);
            }
            assert(g.arcs[b] == g0.arcs[b]);
        }
    }
}

/// Flow down a path keeps the graph consistent and as large as it was.
pub proof fn lemma_push_along_frame(g0: Graph, path: Seq<usize>, i: int)
    requires
        g0.wf(),
        g0.is_path(path),
        0 <= i,
        i == path.len() - 1,
    ensures
        g0.push_along(path.take(i + 1)).wf(),
        g0.push_along(path.take(i + 1)).nodes.len() == g0.nodes.len(),
        g0.push_along(path.take(i + 1)).arcs.len() == g0.arcs.len(),
        g0.push_along(path.take(i + 1)).min_flow_satisfied == g0.min_flow_satisfied,
{
    assert(path.take(i + 1) =~= path);
    assert(path.skip(0) =~= path);
    lemma_pushed_from(g0, path, 0);
}

/// A new node without connections keeps a consistent graph consistent.
pub proof fn lemma_new_node_keeps_wf(g: Graph)
    requires
        g.wf(),
    ensures
        (Graph { nodes: g.nodes.push(Seq::empty()), ..g }).wf(),
{
    let h = Graph { nodes: g.nodes.push(Seq::empty()), ..g };
    assert forall|a: int| 0 <= a < h.arcs.len() implies #[trigger] h.arc_ok(a) by {
        assert(g.arc_ok(a));
    }
    assert forall|v: int| 0 <= v < h.nodes.len() implies #[trigger] h.list_ok(v) by {
        if v < g.nodes.len() {
            assert(g.list_ok(v));
        }
    }
}

/// What flow down the `i` arcs of `path` has done, where `g` is the graph
/// then and `g0` the graph before: nodes off the path keep their lists, the
/// nodes passed have gained and lost what `list_change` says, the last node
/// has gained the arc it was reached over if that arc inverted, and the arcs
/// taken are pushed while all others are as they were.
pub open spec fn push_done(g0: Graph, g: Graph, path: Seq<usize>, i: int) -> bool {
    &&& forall|x: int|
        0 <= x < g0.nodes.len() && !path.contains(x as usize) ==> #[trigger] g.nodes[x] == g0.nodes[x]
    &&& forall|j: int|
        0 <= j < i ==> (#[trigger] g.nodes[path[j] as int]).len() == g0.nodes[path[j] as int].len()
            + g0.list_change(path, j)
    &&& g.nodes[path[i] as int] == if 0 < i && g0.inverts(g0.step_arc(path, i - 1) as int) {
        g0.nodes[path[i] as int].push(g0.step_arc(path, i - 1))
    } else {
        g0.nodes[path[i] as int]
    }
    &&& forall|j: int|
        0 <= j < i ==> g.arcs[(#[trigger] g0.step_arc(path, j)) as int] == g0.arcs[g0.step_arc(
            path,
            j,
        ) as int].pushed(g0.min_flow_satisfied)
    &&& forall|a: int|
        0 <= a < g0.arcs.len() && !g0.takes(path, i, a) ==> #[trigger] g.arcs[a] == g0.arcs[a]
}

/// Flow down a path does what `push_done` says.
pub proof fn lemma_push_along_done(g0: Graph, path: Seq<usize>, i: int)
    requires
        g0.wf(),
        g0.is_path(path),
        0 <= i,
        i == path.len() - 1,
    ensures
        push_done(g0, g0.push_along(path.take(i + 1)), path, i),
{
    let last = i;
    assert(path.take(i + 1) =~= path);
    assert(path.skip(0) =~= path);
    lemma_pushed_from(g0, path, 0);
    let h = g0.push_along(path);
    assert forall|j: int| 0 <= j < last implies (#[trigger] h.nodes[path[j] as int]).len()
        == g0.nodes[path[j] as int].len() + g0.list_change(path, j) by {
        if j == 0 {
            if g0.inverts(g0.step_arc(path, 0) as int) {
                assert(g0.linked(path[0] as int, path[1] as int));
                assert(g0.is_link(
                    path[0] as int,
                    path[1] as int,
                    g0.link_position(path[0] as int, path[1] as int),
                ));
                assert(g0.list_ok(path[0] as int));
                lemma_swap_removed(g0.nodes[path[0] as int], g0.link_position(path[0] as int, path[1] as int));
            }
        }
    }
    assert forall|a: int| 0 <= a < g0.arcs.len() && !g0.takes(path, last, a) implies #[trigger] h.arcs[a]
        == g0.arcs[a] by {
        if g0.takes_from(path, 0, a) {
            let j = choose|j: int| 0 <= j < path.len() - 1 && #[trigger] g0.step_arc(path, j) == a;
            assert(0 <= j < last && g0.step_arc(path, j) == a);
        }
    }
}

/// The arc that flow takes from a node of a path starts at that node.
pub proof fn lemma_step_arc_start(g0: Graph, path: Seq<usize>, j: int)
    requires
        g0.wf(),
        g0.is_path(path),
        0 <= j < path.len() - 1,
    ensures
        g0.step_arc(path, j) < g0.arcs.len(),
        g0.arcs[g0.step_arc(path, j) as int].start == path[j],
        g0.arcs[g0.step_arc(path, j) as int].end == path[j + 1],
        g0.nodes[path[j] as int].contains(g0.step_arc(path, j)),
{
    let u = path[j] as int;
    let v = path[j + 1] as int;
    assert(path[j] != SINK && g0.linked(u, v));
    let k = g0.link_position(u, v);
    assert(g0.is_link(u, v, k));
    assert(g0.list_ok(u));
    assert(g0.nodes[u][k] < g0.arcs.len());
}

impl Graph {
    /// Arc `c` turns round when the phase changes: it is not saturated.
    pub open spec fn moves(self, c: int) -> bool {
        self.arcs[c].min_flow != self.arcs[c].max_flow
    }

    /// The arcs of `list` start at the sink, end elsewhere, and no two of
    /// them end at the same node.
    pub open spec fn fan_ok(self, list: Seq<usize>) -> bool {
        &&& list.no_duplicates()
        &&& forall|j: int|
            0 <= j < list.len() ==> (#[trigger] list[j]) < self.arcs.len() && self.arcs[list[j] as int].start
                == SINK && self.arcs[list[j] as int].end != SINK
        &&& forall|i: int, j: int|
            0 <= i < list.len() && 0 <= j < list.len() && i != j ==> self.arcs[(
            #[trigger] list[i]) as int].end != self.arcs[(#[trigger] list[j]) as int].end
    }
}

/// What preparing the first `i` arcs of `list` for the second phase has
/// done, where `h` is the graph then and `g` the graph before: those arcs are
/// changed and all others are as they were; a node that one of them now
/// starts at has gained it, and every other node but the sink keeps its list.
pub open spec fn phase_done(g: Graph, h: Graph, list: Seq<usize>, i: int) -> bool {
    &&& h.wf()
    &&& h.nodes.len() == g.nodes.len()
    &&& h.arcs.len() == g.arcs.len()
    &&& h.min_flow_satisfied
    &&& forall|j: int|
        0 <= j < i ==> h.arcs[(#[trigger] list[j]) as int] == g.arcs[list[j] as int].phase_changed()
    &&& forall|a: int|
        0 <= a < g.arcs.len() && !list.take(i).contains(a as usize) ==> #[trigger] h.arcs[a] == g.arcs[a]
    &&& forall|j: int|
        0 <= j < i && g.moves(list[j] as int) ==> h.nodes[g.arcs[(#[trigger] list[j]) as int].end as int]
            == g.nodes[g.arcs[list[j] as int].end as int].push(list[j])
    &&& forall|x: int|
        0 <= x < g.nodes.len() && x != SINK && (forall|j: int|
            0 <= j < i ==> !(g.moves((#[trigger] list[j]) as int) && g.arcs[list[j] as int].end == x))
            ==> #[trigger] h.nodes[x] == g.nodes[x]
}

/// Preparing arcs at the sink for the second phase one after the other does
/// what `phase_done` says.
pub proof fn lemma_phase_change_over(g: Graph, list: Seq<usize>, i: int)
    requires
        g.wf(),
        g.min_flow_satisfied,
        g.fan_ok(list),
        0 <= i <= list.len(),
    ensures
        phase_done(g, g.phase_change_over(list.take(i)), list, i),
    decreases i,
{
    if i == 0 {
        assert(g.phase_change_over(list.take(0)) == g);
        assert(list.take(0) =~= Seq::<usize>::empty());
    } else {
        lemma_phase_change_over(g, list, i - 1);
        let m = g.phase_change_over(list.take(i - 1));
        let c = list[i - 1] as int;
        assert(list.take(i).drop_last() =~= list.take(i - 1));
        assert(list.take(i).last() == list[i - 1]);
        let h = m.phase_change_arc(c);
        assert(g.phase_change_over(list.take(i)) == h);
        assert(!list.take(i - 1).contains(c as usize)) by {
            if list.take(i - 1).contains(c as usize) {
                let prefix = list.take(i - 1);
                let j = choose|j: int| 0 <= j < prefix.len() && prefix[j] == c as usize;
                assert(list[j] == list[i - 1]);
            }
        }
        assert(m.arcs[c] == g.arcs[c]);
        lemma_phase_change_arc_wf(m, c);
        let v = g.arcs[c].end as int;
        assert(g.arc_ok(c));
        assert forall|j: int| 0 <= j < i implies h.arcs[(#[trigger] list[j]) as int] == g.arcs[list[j] as int].phase_changed() by {
            if j < i - 1 {
                assert(list[j] != list[i - 1]);
            }
        }
        assert forall|a: int|
            0 <= a < g.arcs.len() && !list.take(i).contains(a as usize) implies #[trigger] h.arcs[a]
            == g.arcs[a] by {
            assert(list.take(i)[i - 1] == c as usize);
            assert(a != c);
            if list.take(i - 1).contains(a as usize) {
                let prefix = list.take(i - 1);
                let j = choose|j: int| 0 <= j < prefix.len() && prefix[j] == a as usize;
                assert(list.take(i)[j] == a as usize);
            }
        }
        // The node that arc `c` ends at has seen none of the earlier arcs.
        assert(m.nodes[v] == g.nodes[v]) by {
            assert forall|j: int| 0 <= j < i - 1 implies !(g.moves((#[trigger] list[j]) as int)
                && g.arcs[list[j] as int].end == v) by {
                assert(g.arcs[list[j] as int].end != g.arcs[list[i - 1] as int].end);
            }
        }
        if g.moves(c) {
            assert(m.list_ok(v));
            assert(!m.nodes[v].contains(c as usize)) by {
                if m.nodes[v].contains(c as usize) {
                    let j = choose|j: int| 0 <= j < m.nodes[v].len() && m.nodes[v][j] == c as usize;
                    assert(m.arcs[m.nodes[v][j] as int].start == v);
                }
            }
        }
        assert forall|j: int| 0 <= j < i && g.moves(list[j] as int) implies h.nodes[g.arcs[(
        #[trigger] list[j]) as int].end as int] == g.nodes[g.arcs[list[j] as int].end as int].push(
            list[j],
        ) by {
            let x = g.arcs[list[j] as int].end as int;
            assert(g.arc_ok(list[j] as int));
            if j < i - 1 {
                assert(g.arcs[list[j] as int].end != g.arcs[list[i - 1] as int].end);
                assert(m.nodes[x] == g.nodes[x].push(list[j]));
                assert(h.nodes[x] == m.nodes[x]);
            } else {
                assert(x == v);
                assert(m.arcs[c].end == v);
                assert(h.nodes[v] == m.nodes[v].push(c as usize));
            }
        }
        assert forall|x: int|
            0 <= x < g.nodes.len() && x != SINK && (forall|j: int|
                0 <= j < i ==> !(g.moves((#[trigger] list[j]) as int) && g.arcs[list[j] as int].end
                    == x)) implies #[trigger] h.nodes[x] == g.nodes[x] by {
            assert(!(g.moves(list[i - 1] as int) && g.arcs[list[i - 1] as int].end == x));
            assert(m.nodes[x] == g.nodes[x]);
        }
    }
}

/// Counting minima as met keeps a consistent graph consistent: an arc with
/// room below its lower bound has room below its upper bound.
pub proof fn lemma_flag_keeps_wf(g: Graph)
    requires
        g.wf(),
    ensures
        (Graph { min_flow_satisfied: true, ..g }).wf(),
{
    let h = Graph { min_flow_satisfied: true, ..g };
    assert forall|a: int| 0 <= a < h.arcs.len() implies #[trigger] h.arc_ok(a) by {
        assert(g.arc_ok(a));
    }
    assert forall|v: int| 0 <= v < h.nodes.len() implies #[trigger] h.list_ok(v) by {
        assert(g.list_ok(v));
    }
}

/// Preparing one arc at the sink for the second phase keeps the graph
/// consistent and touches no other arc.
pub proof fn lemma_phase_change_arc_wf(g: Graph, c: int)
    requires
        g.wf(),
        g.min_flow_satisfied,
        0 <= c < g.arcs.len(),
        g.arcs[c].start == SINK,
    ensures
        g.phase_change_arc(c).wf(),
        g.phase_change_arc(c).nodes.len() == g.nodes.len(),
        g.phase_change_arc(c).arcs.len() == g.arcs.len(),
        g.phase_change_arc(c).min_flow_satisfied,
        forall|b: int| 0 <= b < g.arcs.len() && b != c ==> g.phase_change_arc(c).arcs[b] == g.arcs[b],
{
    let arc = g.arcs[c];
    let h = g.phase_change_arc(c);
    assert(g.arc_ok(c));
    if arc.min_flow != arc.max_flow {
        let sink = SINK as int;
        let v = arc.end as int;
        let list = g.nodes[sink];
        assert(g.list_ok(sink));
        assert(g.list_ok(v));
        assert(list.contains(c as usize));
        let k = first_position(list, c as usize);
        let j0 = choose|j: int| 0 <= j < list.len() && list[j] == c as usize;
        lemma_listed_once(g, sink, j0);
        assert(k == j0);
        lemma_swap_removed(list, k);
        let removed = g.nodes.update(sink, swap_removed(list, k));
        assert(!removed[v].contains(c as usize)) by {
            if v != sink && g.nodes[v].contains(c as usize) {
                let j = choose|j: int| 0 <= j < g.nodes[v].len() && g.nodes[v][j] == c as usize;
                assert(g.arcs[g.nodes[v][j] as int].start == v);
            }
        }
        assert(h.nodes[v] == removed[v].push(c as usize));
        assert forall|x: int| 0 <= x < h.nodes.len() implies #[trigger] h.list_ok(x) by {
            assert(g.list_ok(x));
            let hl = h.nodes[x];
            if x == v {
                let base = removed[v];
                assert forall|i: int| 0 <= i < base.len() implies (#[trigger] base[i]) < g.arcs.len()
                    && g.arcs[base[i] as int].start == v && base[i] != c as usize by {
                    assert(base.contains(base[i]));
                    if v == sink {
                        assert(list.contains(base[i]));
                        let i2 = choose|i2: int| 0 <= i2 < list.len() && list[i2] == base[i];
                        assert(list[i2] < g.arcs.len());
                    } else {
                        assert(g.nodes[v][i] < g.arcs.len());
                    }
                }
                assert forall|i: int, j: int|
                    0 <= i < hl.len() && 0 <= j < hl.len() && i != j implies hl[i] != hl[j] by {
                    if i < base.len() && j < base.len() {
                    } else if i < base.len() {
                        assert(base[i] != c as usize);
                    } else {
                        assert(base[j] != c as usize);
                    }
                }
                assert forall|j: int| 0 <= j < hl.len() implies (#[trigger] hl[j]) < h.arcs.len()
                    && h.arcs[hl[j] as int].start == x by {
                    if j < base.len() {
                        assert(base[j] != c as usize);
                    }
                }
            } else if x == sink {
                assert forall|j: int| 0 <= j < hl.len() implies (#[trigger] hl[j]) < h.arcs.len()
                    && h.arcs[hl[j] as int].start == x by {
                    assert(hl.contains(hl[j]));
                    assert(list.contains(hl[j]));
                    let i = choose|i: int| 0 <= i < list.len() && list[i] == hl[j];
                    assert(list[i] < g.arcs.len());
                }
            } else {
                assert forall|j: int| 0 <= j < hl.len() implies (#[trigger] hl[j]) < h.arcs.len()
                    && h.arcs[hl[j] as int].start == x by {
                    assert(g.nodes[x][j] < g.arcs.len());
                }
            }
        }
        assert forall|b: int| 0 <= b < h.arcs.len() implies #[trigger] h.arc_ok(b) by {
            assert(g.arc_ok(b));
            if b == c {
                assert(h.nodes[v].last() == c as usize);
            } else {
                let s = g.arcs[b].start as int;
                assert(g.nodes[s].contains(b as usize));
                if s == v {
                    assert(removed[v].contains(b as usize));
                    let j = choose|j: int| 0 <= j < removed[v].len() && removed[v][j] == b as usize;
                    assert(h.nodes[v][j] == b as usize);
                }
            }
        }
    }
}

} // verus!
