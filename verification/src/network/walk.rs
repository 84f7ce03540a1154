//! Walks through the graph, their cost, and what a settled search says about
//! them.
use crate::network::graph::{Graph, SINK, SOURCE};
use vstd::prelude::*;

verus! {

impl Graph {
    /// Arc `a` exists and may be followed: it does not start at the sink.
    pub open spec fn followable(self, a: int) -> bool {
        &&& 0 <= a < self.arcs.len()
        &&& self.arcs[a].start != SINK
    }

    /// `w` lists arcs that lead, each from where the one before ended, from
    /// node `from` to node `to`, and none of them leaves the sink.
    pub open spec fn is_walk(self, w: Seq<int>, from: int, to: int) -> bool {
        &&& 0 <= from < self.nodes.len()
        &&& 0 <= to < self.nodes.len()
        &&& w.len() == 0 ==> from == to
        &&& w.len() > 0 ==> self.arcs[w[0]].start == from && self.arcs[w[w.len() - 1]].end == to
        &&& forall|i: int| 0 <= i < w.len() ==> self.followable(#[trigger] w[i])
        &&& forall|i: int|
            0 <= i < w.len() - 1 ==> self.arcs[#[trigger] w[i]].end == self.arcs[w[i + 1]].start
    }

    /// The sum of the costs of the arcs of `w`.
    pub open spec fn walk_cost(self, w: Seq<int>) -> int
        decreases w.len(),
    {
        if w.len() == 0 {
            0
        } else {
            self.walk_cost(w.drop_last()) + self.arcs[w.last()].cost
        }
    }

    /// Some walk leads from `from` to `to`.
    pub open spec fn reachable(self, from: int, to: int) -> bool {
        exists|w: Seq<int>| self.is_walk(w, from, to)
    }

    /// A walk from the source reaches a cycle whose costs add up to less than
    /// zero.
    pub open spec fn has_negative_cycle(self) -> bool {
        exists|w: Seq<int>, c: Seq<int>, x: int|
            #![trigger self.is_walk(w, SOURCE as int, x), self.is_walk(c, x, x)]
            self.is_walk(w, SOURCE as int, x) && self.is_walk(c, x, x) && self.walk_cost(c) < 0
    }
}

/// Distances as a search holds them: `None` for a node it has not reached.
pub type Distances = Seq<Option<i128>>;

/// Arc `a` is relaxed under `dist`: its end is reached, at no more than the
/// distance of its start plus its cost.
pub open spec fn relaxed(g: Graph, dist: Distances, a: int) -> bool {
    let arc = g.arcs[a];
    dist[arc.start as int] is Some ==> dist[arc.end as int] is Some && dist[arc.end as int].unwrap()
        <= dist[arc.start as int].unwrap() + arc.cost
}

/// Every arc that leaves node `x` is relaxed under `dist`.
pub open spec fn relaxed_all(g: Graph, dist: Distances, x: int) -> bool {
    forall|j: int| 0 <= j < g.nodes[x].len() ==> relaxed(g, dist, (#[trigger] g.nodes[x][j]) as int)
}

/// Every arc that may be followed is relaxed under `dist`.
pub open spec fn all_relaxed(g: Graph, dist: Distances) -> bool {
    &&& dist.len() == g.nodes.len()
    &&& forall|a: int| g.followable(a) ==> #[trigger] relaxed(g, dist, a)
}

/// The search has settled: the source is at distance zero and every arc that
/// may be followed is relaxed.
pub open spec fn settled(g: Graph, dist: Distances) -> bool {
    &&& all_relaxed(g, dist)
    &&& dist[SOURCE as int] == Some(0i128)
}

/// Appending an arc that starts where a walk ends gives a walk to the end of
/// that arc, and adds the arc's cost.
pub proof fn lemma_walk_push(g: Graph, w: Seq<int>, from: int, a: int)
    requires
        g.wf(),
        g.followable(a),
        g.is_walk(w, from, g.arcs[a].start as int),
    ensures
        g.is_walk(w.push(a), from, g.arcs[a].end as int),
        g.walk_cost(w.push(a)) == g.walk_cost(w) + g.arcs[a].cost,
{
    let w2 = w.push(a);
    assert(w2.drop_last() =~= w);
    assert(g.arc_ok(a));
    assert forall|i: int| 0 <= i < w2.len() implies g.followable(#[trigger] w2[i]) by {
        if i < w.len() {
            assert(w2[i] == w[i]);
        }
    }
    assert forall|i: int| 0 <= i < w2.len() - 1 implies g.arcs[#[trigger] w2[i]].end == g.arcs[w2[i
        + 1]].start by {
        if i < w.len() - 1 {
            assert(w2[i] == w[i]);
            assert(w2[i + 1] == w[i + 1]);
        }
    }
}

/// A walk without its last arc is a walk to the start of that arc.
pub proof fn lemma_walk_drop_last(g: Graph, w: Seq<int>, from: int, to: int)
    requires
        g.wf(),
        g.is_walk(w, from, to),
        w.len() > 0,
    ensures
        g.followable(w.last()),
        g.arcs[w.last()].end == to,
        g.is_walk(w.drop_last(), from, g.arcs[w.last()].start as int),
{
    let v = w.drop_last();
    assert(g.followable(w[w.len() - 1]));
    assert(g.arc_ok(w.last()));
    if v.len() > 0 {
        assert(g.arcs[w[w.len() - 2]].end == g.arcs[w[w.len() - 2 + 1]].start);
    }
    assert forall|i: int| 0 <= i < v.len() implies g.followable(#[trigger] v[i]) by {
        assert(v[i] == w[i]);
    }
    assert forall|i: int| 0 <= i < v.len() - 1 implies g.arcs[#[trigger] v[i]].end == g.arcs[v[i
        + 1]].start by {
        assert(v[i] == w[i]);
        assert(v[i + 1] == w[i + 1]);
    }
}

/// Under settled distances, a walk from a reached node ends at a reached
/// node, and costs at least the difference of the two distances.
pub proof fn lemma_settled_bounds_walk(g: Graph, dist: Distances, w: Seq<int>, from: int, to: int)
    requires
        g.wf(),
        all_relaxed(g, dist),
        g.is_walk(w, from, to),
        dist[from] is Some,
    ensures
        dist[to] is Some,
        dist[to].unwrap() - dist[from].unwrap() <= g.walk_cost(w),
    decreases w.len(),
{
    if w.len() > 0 {
        lemma_walk_drop_last(g, w, from, to);
        let a = w.last();
        lemma_settled_bounds_walk(g, dist, w.drop_last(), from, g.arcs[a].start as int);
        assert(relaxed(g, dist, a));
    }
}

/// Arc `a` leads from `u` to `v`, both reached, and accounts exactly for the
/// difference of their distances.
pub open spec fn tight_step(g: Graph, dist: Distances, a: int, u: int, v: int) -> bool {
    &&& g.followable(a)
    &&& g.arcs[a].start == u
    &&& g.arcs[a].end == v
    &&& dist[u] is Some
    &&& dist[v] is Some
    &&& dist[v].unwrap() == dist[u].unwrap() + g.arcs[a].cost
}

/// The arcs of `w` lead along the nodes of `path`, one arc from each node to
/// the next.
pub open spec fn along(g: Graph, w: Seq<int>, path: Seq<usize>) -> bool {
    &&& w.len() == path.len() - 1
    &&& forall|i: int|
        0 <= i < w.len() ==> g.followable(#[trigger] w[i]) && g.arcs[w[i]].start == path[i]
            && g.arcs[w[i]].end == path[i + 1]
}

/// `path` leads from the source to the sink without visiting a node twice,
/// along the arcs of `w`, each of which accounts exactly for the difference
/// of the distances of its two ends.
pub open spec fn traced(g: Graph, dist: Distances, path: Seq<usize>, w: Seq<int>) -> bool {
    &&& g.is_path(path)
    &&& path.len() >= 2
    &&& path[0] == SOURCE
    &&& path[path.len() - 1] == SINK
    &&& w.len() == path.len() - 1
    &&& forall|i: int|
        0 <= i < w.len() ==> tight_step(g, dist, #[trigger] w[i], path[i] as int, path[i + 1] as int)
}

impl Graph {
    /// `path` is a cheapest way from the source to the sink: arcs of the graph
    /// lead along it, and no walk from the source to the sink costs less than
    /// they do.
    pub open spec fn is_cheapest(self, path: Seq<usize>) -> bool {
        exists|w: Seq<int>|
            {
                &&& #[trigger] self.is_walk(w, SOURCE as int, SINK as int)
                &&& along(self, w, path)
                &&& forall|other: Seq<int>| #[trigger]
                    self.is_walk(other, SOURCE as int, SINK as int) ==> self.walk_cost(w)
                        <= self.walk_cost(other)
            }
    }
}

/// Arcs that lead along a path, each accounting for the difference of the
/// distances at its ends, form a walk whose cost is the difference of the
/// distances at the ends of the path.
pub proof fn lemma_tight_walk(g: Graph, dist: Distances, path: Seq<usize>, w: Seq<int>, m: int)
    requires
        g.wf(),
        dist.len() == g.nodes.len(),
        0 <= m <= w.len(),
        w.len() == path.len() - 1,
        forall|i: int| 0 <= i < path.len() ==> (#[trigger] path[i]) < g.nodes.len(),
        forall|i: int|
            0 <= i < w.len() ==> tight_step(g, dist, #[trigger] w[i], path[i] as int, path[i + 1] as int),
        dist[path[0] as int] is Some,
    ensures
        g.is_walk(w.take(m), path[0] as int, path[m] as int),
        dist[path[m] as int] is Some,
        g.walk_cost(w.take(m)) == dist[path[m] as int].unwrap() - dist[path[0] as int].unwrap(),
    decreases m,
{
    if m > 0 {
        lemma_tight_walk(g, dist, path, w, m - 1);
        assert(tight_step(g, dist, w[m - 1], path[m - 1] as int, path[m] as int));
        lemma_walk_push(g, w.take(m - 1), path[0] as int, w[m - 1]);
        assert(w.take(m - 1).push(w[m - 1]) =~= w.take(m));
    } else {
        assert(g.is_walk(w.take(0), path[0] as int, path[0] as int));
    }
}

/// A path traced through settled distances is a cheapest path.
pub proof fn lemma_traced_is_cheapest(g: Graph, dist: Distances, path: Seq<usize>, w: Seq<int>)
    requires
        g.wf(),
        settled(g, dist),
        traced(g, dist, path, w),
    ensures
        g.is_cheapest(path),
{
    lemma_tight_walk(g, dist, path, w, w.len() as int);
    assert(w.take(w.len() as int) =~= w);
    assert(along(g, w, path)) by {
        assert forall|i: int| 0 <= i < w.len() implies g.followable(#[trigger] w[i]) && g.arcs[w[i]].start
            == path[i] && g.arcs[w[i]].end == path[i + 1] by {
            assert(tight_step(g, dist, w[i], path[i] as int, path[i + 1] as int));
        }
    }
    assert forall|other: Seq<int>| #[trigger]
        g.is_walk(other, SOURCE as int, SINK as int) implies g.walk_cost(w) <= g.walk_cost(other) by {
        lemma_settled_bounds_walk(g, dist, other, SOURCE as int, SINK as int);
    }
    assert(g.is_walk(w, SOURCE as int, SINK as int));
}

/// If a settled search has not reached the sink, no walk leads there from
/// the source.
pub proof fn lemma_unreached_is_unreachable(g: Graph, dist: Distances)
    requires
        g.wf(),
        settled(g, dist),
        dist[SINK as int] is None,
    ensures
        !g.reachable(SOURCE as int, SINK as int),
{
    if g.reachable(SOURCE as int, SINK as int) {
        let w = choose|w: Seq<int>| g.is_walk(w, SOURCE as int, SINK as int);
        lemma_settled_bounds_walk(g, dist, w, SOURCE as int, SINK as int);
    }
}

/// The node that walk `w` from `from` has reached after `k` arcs.
pub open spec fn node_at(g: Graph, w: Seq<int>, from: int, k: int) -> int {
    if k == 0 {
        from
    } else {
        g.arcs[w[k - 1]].end as int
    }
}

/// Walk `w` from `from` visits no node twice.
pub open spec fn is_simple(g: Graph, w: Seq<int>, from: int) -> bool {
    forall|i: int, j: int|
        0 <= i < j <= w.len() ==> #[trigger] node_at(g, w, from, i) != #[trigger] node_at(g, w, from, j)
}

/// One walk after another is a walk, and costs what the two cost together.
pub proof fn lemma_walk_concat(g: Graph, a: Seq<int>, b: Seq<int>, x: int, y: int, z: int)
    requires
        g.wf(),
        g.is_walk(a, x, y),
        g.is_walk(b, y, z),
    ensures
        g.is_walk(a + b, x, z),
        g.walk_cost(a + b) == g.walk_cost(a) + g.walk_cost(b),
    decreases b.len(),
{
    if b.len() == 0 {
        assert(a + b =~= a);
    } else {
        lemma_walk_drop_last(g, b, y, z);
        let last = b.last();
        lemma_walk_concat(g, a, b.drop_last(), x, y, g.arcs[last].start as int);
        lemma_walk_push(g, a + b.drop_last(), x, last);
        assert((a + b.drop_last()).push(last) =~= a + b);
    }
}

/// Part of a walk is a walk between the nodes where the part begins and
/// ends.
pub proof fn lemma_walk_part(g: Graph, w: Seq<int>, from: int, to: int, i: int, j: int)
    requires
        g.wf(),
        g.is_walk(w, from, to),
        0 <= i <= j <= w.len(),
    ensures
        g.is_walk(w.subrange(i, j), node_at(g, w, from, i), node_at(g, w, from, j)),
        0 <= node_at(g, w, from, i) < g.nodes.len(),
        0 <= node_at(g, w, from, j) < g.nodes.len(),
        node_at(g, w, from, w.len() as int) == to,
{
    let part = w.subrange(i, j);
    if i > 0 {
        assert(g.followable(w[i - 1]));
        assert(g.arc_ok(w[i - 1]));
    }
    if j > 0 {
        assert(g.followable(w[j - 1]));
        assert(g.arc_ok(w[j - 1]));
    }
    assert forall|k: int| 0 <= k < part.len() implies g.followable(#[trigger] part[k]) by {
        assert(part[k] == w[i + k]);
    }
    assert forall|k: int| 0 <= k < part.len() - 1 implies g.arcs[#[trigger] part[k]].end == g.arcs[part[k
        + 1]].start by {
        assert(part[k] == w[i + k]);
        assert(part[k + 1] == w[i + k + 1]);
    }
    if part.len() > 0 {
        if i > 0 {
            assert(g.arcs[w[i - 1]].end == g.arcs[w[i - 1 + 1]].start);
        }
    }
}

/// Among more numbers than `n`, all of them below `n` and none negative, two
/// are equal.
pub proof fn lemma_repeat(s: Seq<int>, n: int)
    requires
        forall|i: int| 0 <= i < s.len() ==> 0 <= #[trigger] s[i] < n,
        s.len() > n,
        n >= 0,
    ensures
        exists|i: int, j: int| 0 <= i < j < s.len() && s[i] == s[j],
{
    if s.no_duplicates() {
        s.unique_seq_to_set();
        vstd::set_lib::lemma_int_range(0, n);
        assert(s.to_set().subset_of(vstd::set_lib::set_int_range(0, n))) by {
            assert forall|x: int| s.to_set().contains(x) implies vstd::set_lib::set_int_range(0, n).contains(
                x,
            ) by {
                let i = choose|i: int| 0 <= i < s.len() && s[i] == x;
                assert(0 <= s[i] < n);
            }
        }
        vstd::set_lib::lemma_len_subset(s.to_set(), vstd::set_lib::set_int_range(0, n));
    } else {
        let (i, j) = choose|i: int, j: int| 0 <= i < s.len() && 0 <= j < s.len() && i != j && s[i] == s[j];
        if i < j {
            assert(0 <= i < j < s.len() && s[i] == s[j]);
        } else {
            assert(0 <= j < i < s.len() && s[j] == s[i]);
        }
    }
}

/// A walk that visits no node twice has fewer arcs than the graph has nodes,
/// and one fewer still if it does not end at the sink.
pub proof fn lemma_simple_is_short(g: Graph, w: Seq<int>, from: int, to: int)
    requires
        g.wf(),
        g.is_walk(w, from, to),
        is_simple(g, w, from),
        from != SINK,
    ensures
        w.len() <= g.nodes.len() - 1,
        to != SINK ==> w.len() <= g.nodes.len() - 2,
{
    let n = g.nodes.len() as int;
    let visited = Seq::new(w.len() + 1, |k: int| node_at(g, w, from, k));
    assert forall|k: int| 0 <= k < visited.len() implies 0 <= #[trigger] visited[k] < n by {
        lemma_walk_part(g, w, from, to, 0, k);
    }
    if w.len() > n - 1 {
        lemma_repeat(visited, n);
        let (i, j) = choose|i: int, j: int| 0 <= i < j < visited.len() && visited[i] == visited[j];
        assert(node_at(g, w, from, i) != node_at(g, w, from, j));
    }
    if to != SINK && w.len() > n - 2 {
        // No node on the way is the sink, so the nodes come from one fewer.
        let moved = Seq::new(
            w.len() + 1,
            |k: int|
                if visited[k] == n - 1 {
                    SINK as int
                } else {
                    visited[k]
                },
        );
        assert forall|k: int| 0 <= k < visited.len() implies visited[k] != SINK by {
            lemma_walk_part(g, w, from, to, 0, k);
            if k < w.len() {
                assert(g.followable(w[k]));
                if k > 0 {
                    assert(g.arcs[w[k - 1]].end == g.arcs[w[k - 1 + 1]].start);
                }
            }
        }
        assert forall|k: int| 0 <= k < moved.len() implies 0 <= #[trigger] moved[k] < n - 1 by {
            assert(0 <= visited[k] < n);
            assert(visited[k] != SINK);
        }
        lemma_repeat(moved, n - 1);
        let (i, j) = choose|i: int, j: int| 0 <= i < j < moved.len() && moved[i] == moved[j];
        assert(visited[i] != SINK && visited[j] != SINK);
        assert(visited[i] == visited[j]);
        assert(node_at(g, w, from, i) != node_at(g, w, from, j));
    }
}

/// A walk costs no less than its arcs can cost at the least.
pub proof fn lemma_walk_cost_floor(g: Graph, w: Seq<int>, from: int, to: int)
    requires
        g.wf(),
        g.is_walk(w, from, to),
    ensures
        g.walk_cost(w) >= -cost_span(w.len() as int),
    decreases w.len(),
{
    if w.len() > 0 {
        lemma_walk_drop_last(g, w, from, to);
        lemma_walk_cost_floor(g, w.drop_last(), from, g.arcs[w.last()].start as int);
        assert(g.arc_ok(w.last()));
    }
}

/// Where no negative cycle can be reached, every walk from the source can be
/// cut short to one that visits no node twice and costs no more.
pub proof fn lemma_shortcut(g: Graph, w: Seq<int>, to: int)
    requires
        g.wf(),
        !g.has_negative_cycle(),
        g.is_walk(w, SOURCE as int, to),
    ensures
        exists|p: Seq<int>|
            #![trigger g.is_walk(p, SOURCE as int, to)]
            g.is_walk(p, SOURCE as int, to) && is_simple(g, p, SOURCE as int) && g.walk_cost(p)
                <= g.walk_cost(w),
    decreases w.len(),
{
    let from = SOURCE as int;
    if is_simple(g, w, from) {
        assert(g.is_walk(w, from, to));
    } else {
        let (i, j) = choose|i: int, j: int|
            0 <= i < j <= w.len() && #[trigger] node_at(g, w, from, i) == #[trigger] node_at(g, w, from, j);
        let x = node_at(g, w, from, i);
        let head = w.subrange(0, i);
        let cycle = w.subrange(i, j);
        let tail = w.subrange(j, w.len() as int);
        lemma_walk_part(g, w, from, to, 0, i);
        lemma_walk_part(g, w, from, to, i, j);
        lemma_walk_part(g, w, from, to, j, w.len() as int);
        assert(g.is_walk(head, from, x));
        assert(g.is_walk(cycle, x, x));
        assert(g.is_walk(tail, x, to));
        lemma_walk_concat(g, head, cycle, from, x, x);
        lemma_walk_concat(g, head + cycle, tail, from, x, to);
        assert(head + cycle + tail =~= w);
        lemma_walk_concat(g, head, tail, from, x, to);
        assert(g.walk_cost(cycle) >= 0);
        lemma_shortcut(g, head + tail, to);
        let p = choose|p: Seq<int>|
            #![trigger g.is_walk(p, SOURCE as int, to)]
            g.is_walk(p, SOURCE as int, to) && is_simple(g, p, SOURCE as int) && g.walk_cost(p)
                <= g.walk_cost(head + tail);
        assert(g.is_walk(p, SOURCE as int, to));
    }
}

/// A walk from the source that costs less than any way without a repeated
/// node can cost passes through a cycle of negative cost.
pub proof fn lemma_too_cheap(g: Graph, w: Seq<int>, to: int)
    requires
        g.wf(),
        g.is_walk(w, SOURCE as int, to),
        g.walk_cost(w) < -cost_span(g.nodes.len() - 1),
    ensures
        g.has_negative_cycle(),
{
    if !g.has_negative_cycle() {
        lemma_shortcut(g, w, to);
        let p = choose|p: Seq<int>|
            #![trigger g.is_walk(p, SOURCE as int, to)]
            g.is_walk(p, SOURCE as int, to) && is_simple(g, p, SOURCE as int) && g.walk_cost(p)
                <= g.walk_cost(w);
        lemma_simple_is_short(g, p, SOURCE as int, to);
        lemma_walk_cost_floor(g, p, SOURCE as int, to);
        assert(cost_span(p.len() as int) <= cost_span(g.nodes.len() - 1));
    }
}

/// Distances `dist` cover all walks of up to `arcs` arcs from the source:
/// the end of each such walk is reached, at no more than the walk costs.
pub open spec fn covers(g: Graph, dist: Distances, arcs: int) -> bool {
    forall|w: Seq<int>, to: int| #[trigger]
        g.is_walk(w, SOURCE as int, to) && w.len() <= arcs ==> dist[to] is Some && dist[to].unwrap()
            <= g.walk_cost(w)
}

/// Node `x` is no further under `dist` than under `base`.
pub open spec fn no_worse(base: Distances, dist: Distances, x: int) -> bool {
    base[x] is Some ==> dist[x] is Some && dist[x].unwrap() <= base[x].unwrap()
}

/// Arc `a` carries the distance that its start had under `base` on to its
/// end under `dist`.
pub open spec fn carried(g: Graph, base: Distances, dist: Distances, a: int) -> bool {
    let arc = g.arcs[a];
    base[arc.start as int] is Some ==> dist[arc.end as int] is Some && dist[arc.end as int].unwrap()
        <= base[arc.start as int].unwrap() + arc.cost
}

/// Every arc that leaves node `x` carries its distance on.
pub open spec fn carried_all(g: Graph, base: Distances, dist: Distances, x: int) -> bool {
    forall|j: int| 0 <= j < g.nodes[x].len() ==> carried(g, base, dist, (#[trigger] g.nodes[x][j]) as int)
}

/// If `base` covers the walks of up to `arcs` arcs and every arc carries the
/// distances of `base` on to `dist`, then `dist` covers the walks of one arc
/// more.
pub proof fn lemma_covers_step(g: Graph, base: Distances, dist: Distances, arcs: int)
    requires
        g.wf(),
        base.len() == g.nodes.len(),
        dist.len() == g.nodes.len(),
        covers(g, base, arcs),
        arcs >= 0,
        forall|x: int| 0 <= x < g.nodes.len() ==> #[trigger] no_worse(base, dist, x),
        forall|a: int| g.followable(a) ==> #[trigger] carried(g, base, dist, a),
    ensures
        covers(g, dist, arcs + 1),
{
    assert forall|w: Seq<int>, to: int| #[trigger]
        g.is_walk(w, SOURCE as int, to) && w.len() <= arcs + 1 implies dist[to] is Some
        && dist[to].unwrap() <= g.walk_cost(w) by {
        if w.len() == 0 {
            assert(g.is_walk(w, SOURCE as int, to) && w.len() <= arcs);
            assert(no_worse(base, dist, to));
        } else {
            lemma_walk_drop_last(g, w, SOURCE as int, to);
            let a = w.last();
            let u = g.arcs[a].start as int;
            assert(g.is_walk(w.drop_last(), SOURCE as int, u) && w.drop_last().len() <= arcs);
            assert(carried(g, base, dist, a));
        }
    }
}

/// If distances cover the walks of all but the last two of as many arcs as
/// there are nodes, and yet a node other than the sink improves on them
/// later, then a negative cycle can be reached.
pub proof fn lemma_late_improvement(g: Graph, base: Distances, w: Seq<int>, x: int)
    requires
        g.wf(),
        covers(g, base, g.nodes.len() - 2),
        g.is_walk(w, SOURCE as int, x),
        x != SINK,
        base[x] is Some ==> g.walk_cost(w) < base[x].unwrap(),
    ensures
        g.has_negative_cycle(),
{
    if !g.has_negative_cycle() {
        lemma_shortcut(g, w, x);
        let p = choose|p: Seq<int>|
            #![trigger g.is_walk(p, SOURCE as int, x)]
            g.is_walk(p, SOURCE as int, x) && is_simple(g, p, SOURCE as int) && g.walk_cost(p)
                <= g.walk_cost(w);
        lemma_simple_is_short(g, p, SOURCE as int, x);
        assert(g.is_walk(p, SOURCE as int, x) && p.len() <= g.nodes.len() - 2);
    }
}

/// Which nodes `dist` has reached.
pub open spec fn reached(dist: Distances) -> Seq<bool> {
    Seq::new(dist.len(), |i: int| dist[i] is Some)
}

/// The largest cost that a walk of `arcs` arcs can have.
pub open spec fn cost_span(arcs: int) -> int {
    arcs * 0x4000_0000_0000_0000
}

/// If some arc in the list of `u` ends at `v`, there is a first such arc.
pub proof fn lemma_linked_from_member(g: Graph, u: int, v: int, k: int)
    requires
        0 <= k < g.nodes[u].len(),
        g.arcs[g.nodes[u][k] as int].end == v,
    ensures
        g.linked(u, v),
    decreases k,
{
    let list = g.nodes[u];
    if exists|j: int| 0 <= j < k && g.arcs[(#[trigger] list[j]) as int].end == v {
        let j = choose|j: int| 0 <= j < k && g.arcs[(#[trigger] list[j]) as int].end == v;
        lemma_linked_from_member(g, u, v, j);
    } else {
        assert(g.is_link(u, v, k));
    }
}

} // verus!
