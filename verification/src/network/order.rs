//! Networks as they come about from a list of tasks and workers, and why the
//! order of the list does not matter to the score.
//!
//! A list of declarations is added entry by entry; each entry becomes the
//! newest node, and its arcs the newest arcs. Two lists that hold the same
//! declarations in another order give networks that are each other with
//! other identifiers.
use crate::network::counting::renaming;
use crate::network::laws::lemma_score_is_cost_of_task_arcs;
use crate::network::model::{lemma_ranges_ordered, NetworkView, NodeKind};
use crate::network::rename::lemma_order_does_not_matter;
use vstd::prelude::*;

verus! {

/// A task or a worker as it is declared.
pub enum Entry {
    /// A task that needs `min` workers and takes up to `max`.
    Task { name: Seq<char>, min: nat, max: nat },
    /// A worker who accepts the tasks named in `affinities`, each at the
    /// cost that goes with it.
    Worker { name: Seq<char>, affinities: Seq<(Seq<char>, i64)> },
}

/// Whether the entry declares a task.
pub open spec fn is_task_entry(entry: Entry) -> bool {
    entry is Task
}

/// The name that the entry declares.
pub open spec fn entry_name(entry: Entry) -> Seq<char> {
    match entry {
        Entry::Task { name, .. } => name,
        Entry::Worker { name, .. } => name,
    }
}

/// The tasks that the entry accepts, with their costs; none for a task.
pub open spec fn affinities_of(entry: Entry) -> Seq<(Seq<char>, i64)> {
    match entry {
        Entry::Task { .. } => Seq::empty(),
        Entry::Worker { affinities, .. } => affinities,
    }
}

/// How many arcs come with the entry: one for a task, and for a worker one
/// and one more for each task accepted.
pub open spec fn arcs_of(entry: Entry) -> nat {
    1 + affinities_of(entry).len()
}

/// How many arcs come with the first `upto` entries.
pub open spec fn arcs_upto(entries: Seq<Entry>, upto: int) -> nat
    decreases upto,
{
    if upto <= 0 {
        0
    } else {
        arcs_upto(entries, upto - 1) + arcs_of(entries[upto - 1])
    }
}

/// The network that comes about when the entries are added one after the
/// other to a network of source and sink alone: each task as `add_task`
/// adds it, each worker as `add_worker` adds it.
pub open spec fn built(entries: Seq<Entry>) -> NetworkView
    decreases entries.len(),
{
    if entries.len() == 0 {
        NetworkView::empty()
    } else {
        let before = built(entries.drop_last());
        match entries.last() {
            Entry::Task { name, min, max } => before.with_task(name, min, max),
            Entry::Worker { name, affinities } => before.with_worker(name, before.resolved(affinities)),
        }
    }
}

/// Entry `j` declares the task named `name`.
pub open spec fn is_task_named(entries: Seq<Entry>, j: int, name: Seq<char>) -> bool {
    0 <= j < entries.len() && is_task_entry(entries[j]) && entry_name(entries[j]) == name
}

/// The entry that declares the task named `name`.
pub open spec fn task_index(entries: Seq<Entry>, name: Seq<char>) -> int {
    choose|j: int| is_task_named(entries, j, name)
}

/// The task that entry `i` accepts in place `k` of its list was declared
/// before the entry.
pub open spec fn accepts_known(entries: Seq<Entry>, i: int, k: int) -> bool {
    exists|j: int| 0 <= j < i && #[trigger] is_task_named(entries, j, affinities_of(entries[i])[k].0)
}

/// No two tasks of the list share a name, and every worker accepts only
/// tasks that were declared before it.
pub open spec fn admissible(entries: Seq<Entry>) -> bool {
    &&& forall|i: int, j: int, name: Seq<char>|
        #[trigger] is_task_named(entries, i, name) && #[trigger] is_task_named(entries, j, name) ==> i == j
    &&& forall|i: int, k: int|
        0 <= i < entries.len() && 0 <= k < affinities_of(entries[i]).len() ==> #[trigger] accepts_known(
            entries,
            i,
            k,
        )
}

/// The arc that came with entry `i` for the task in place `k` of its list
/// leads from the entry's node to the node of that task, at the cost given.
pub open spec fn arc_laid(v: NetworkView, entries: Seq<Entry>, i: int, k: int) -> bool {
    let arc = v.graph.arcs[arcs_upto(entries, i) + 1 + k];
    let accepted = affinities_of(entries[i])[k];
    &&& arc.start == i + 2
    &&& arc.cost == accepted.1
    &&& arc.end == task_index(entries, accepted.0) + 2
}

/// Entry `i` stands in the network as node `i + 2`, with its arcs after
/// those of the entries before it: a task with its bounds and under its
/// name, a worker with an arc to each task it accepts.
pub open spec fn entry_laid(v: NetworkView, entries: Seq<Entry>, i: int) -> bool {
    let x = i + 2;
    let first = arcs_upto(entries, i) as int;
    &&& v.first_arc[x] == first
    &&& v.kinds[x] == if is_task_entry(entries[i]) {
        NodeKind::Task
    } else {
        NodeKind::Worker
    }
    &&& match entries[i] {
        Entry::Task { name, min, max } => {
            &&& v.graph.arcs[first].min_flow == min
            &&& v.graph.arcs[first].max_flow == max
            &&& v.task_ids.dom().contains(name)
            &&& v.task_ids[name] == x
        },
        Entry::Worker { name, affinities } => forall|k: int|
            0 <= k < affinities.len() ==> #[trigger] arc_laid(v, entries, i, k),
    }
}

/// The first `m` entries stand in the network, and nothing else.
pub open spec fn laid_out(v: NetworkView, entries: Seq<Entry>, m: int) -> bool {
    &&& v.graph.nodes.len() == m + 2
    &&& v.kinds.len() == m + 2
    &&& v.first_arc.len() == m + 2
    &&& v.graph.arcs.len() == arcs_upto(entries, m)
    &&& forall|i: int| 0 <= i < m ==> #[trigger] entry_laid(v, entries, i)
}

/// More entries come with no fewer arcs.
pub proof fn lemma_arcs_grow(entries: Seq<Entry>, i: int, j: int)
    requires
        i <= j,
    ensures
        arcs_upto(entries, i) <= arcs_upto(entries, j),
    decreases j - i,
{
    if i < j {
        lemma_arcs_grow(entries, i, j - 1);
    }
}

/// How many arcs come with the first entries depends on those entries
/// alone.
pub proof fn lemma_arcs_of_prefix(entries: Seq<Entry>, m: int, upto: int)
    requires
        0 <= upto <= m <= entries.len(),
    ensures
        arcs_upto(entries.take(m), upto) == arcs_upto(entries, upto),
    decreases upto,
{
    if upto > 0 {
        lemma_arcs_of_prefix(entries, m, upto - 1);
    }
}

/// The network built from the first `m` entries of an admissible list holds
/// those entries as `laid_out` says.
pub proof fn lemma_built_laid_out(entries: Seq<Entry>, m: int)
    requires
        admissible(entries),
        0 <= m <= entries.len(),
        built(entries).graph.wf(),
        built(entries).book_ok(),
    ensures
        laid_out(built(entries.take(m)), entries, m),
    decreases m,
{
    let v = built(entries.take(m));
    lemma_built_sizes(entries);
    if m == 0 {
        assert(entries.take(0).len() == 0);
    } else {
        lemma_built_laid_out(entries, m - 1);
        let before = built(entries.take(m - 1));
        let entry = entries[m - 1];
        assert(entries.take(m).drop_last() =~= entries.take(m - 1));
        assert(entries.take(m).last() == entry);
        lemma_arcs_grow(entries, m - 1, entries.len() as int);
        lemma_arcs_grow(entries, m, entries.len() as int);
        let first = arcs_upto(entries, m - 1) as int;
        assert(before.graph.arcs.len() == first);
        assert forall|i: int| 0 <= i < m - 1 implies arcs_upto(entries, i) + arcs_of(entries[i]) <= first by {
            lemma_arcs_grow(entries, i + 1, m - 1);
        }
        match entry {
            Entry::Task { name, min, max } => {
                assert(v == before.with_task(name, min, max));
                assert forall|i: int| 0 <= i < m implies #[trigger] entry_laid(v, entries, i) by {
                    if i < m - 1 {
                        assert(entry_laid(before, entries, i));
                        assert(arcs_upto(entries, i) + arcs_of(entries[i]) <= first);
                        match entries[i] {
                            Entry::Task { name: earlier, .. } => {
                                assert(is_task_named(entries, i, earlier));
                                if earlier == name {
                                    assert(is_task_named(entries, m - 1, earlier));
                                }
                            },
                            Entry::Worker { affinities, .. } => {
                                assert forall|k: int| 0 <= k < affinities.len() implies #[trigger] arc_laid(
                                    v,
                                    entries,
                                    i,
                                    k,
                                ) by {
                                    assert(arc_laid(before, entries, i, k));
                                }
                            },
                        }
                    }
                }
            },
            Entry::Worker { name, affinities } => {
                let links = before.resolved(affinities);
                assert(v == before.with_worker(name, links));
                assert forall|i: int| 0 <= i < m implies #[trigger] entry_laid(v, entries, i) by {
                    if i < m - 1 {
                        assert(entry_laid(before, entries, i));
                        assert(arcs_upto(entries, i) + arcs_of(entries[i]) <= first);
                        match entries[i] {
                            Entry::Task { .. } => {},
                            Entry::Worker { affinities: earlier, .. } => {
                                assert forall|k: int| 0 <= k < earlier.len() implies #[trigger] arc_laid(
                                    v,
                                    entries,
                                    i,
                                    k,
                                ) by {
                                    assert(arc_laid(before, entries, i, k));
                                }
                            },
                        }
                    } else {
                        assert forall|k: int| 0 <= k < affinities.len() implies #[trigger] arc_laid(
                            v,
                            entries,
                            i,
                            k,
                        ) by {
                            assert(accepts_known(entries, i, k));
                            let j = choose|j: int|
                                0 <= j < i && #[trigger] is_task_named(entries, j, affinities_of(entries[i])[k].0);
                            assert(is_task_named(entries, task_index(entries, affinities[k].0), affinities[k].0));
                            assert(task_index(entries, affinities[k].0) == j);
                            assert(entry_laid(before, entries, j));
                            assert(links[k] == (before.task_ids[affinities[k].0], affinities[k].1));
                            assert(v.graph.arcs[first + 1 + k] == NetworkView::new_task_arc(
                                before.graph.nodes.len(),
                                links[k],
                            ));
                        }
                    }
                }
            },
        }
    }
}

/// The network built from a list holds a node for each entry besides
/// source and sink, and the arcs that come with the entries.
pub proof fn lemma_built_sizes(entries: Seq<Entry>)
    ensures
        built(entries).graph.nodes.len() == entries.len() + 2,
        built(entries).graph.arcs.len() == arcs_upto(entries, entries.len() as int),
    decreases entries.len(),
{
    if entries.len() > 0 {
        let shorter = entries.drop_last();
        lemma_built_sizes(shorter);
        lemma_arcs_of_prefix(entries, entries.len() - 1, entries.len() - 1);
        assert(entries.take(entries.len() - 1) =~= shorter);
    }
}

/// The second list holds the entries of the first in another order: entry
/// `i` of the first is entry `perm[i]` of the second, and `inv` undoes
/// `perm`.
pub open spec fn reordered(first: Seq<Entry>, second: Seq<Entry>, perm: Seq<int>, inv: Seq<int>) -> bool {
    &&& second.len() == first.len()
    &&& renaming(perm, inv, first.len() as int)
    &&& forall|i: int| 0 <= i < first.len() ==> second[#[trigger] perm[i]] == first[i]
}

/// How the nodes are renamed when the entries are reordered: source and
/// sink stay, and the node of entry `i` becomes the node of entry `perm[i]`.
pub open spec fn node_renaming(perm: Seq<int>) -> Seq<int> {
    Seq::new(
        perm.len() + 2,
        |x: int|
            if x < 2 {
                x
            } else {
                perm[x - 2] + 2
            },
    )
}

/// Arc `a` came with node `x`, a task or a worker.
pub open spec fn came_with(v: NetworkView, a: int, x: int) -> bool {
    2 <= x < v.graph.nodes.len() && v.first_arc[x] <= a < v.next_arc(x)
}

/// The node that arc `a` came with.
pub open spec fn owner(v: NetworkView, a: int) -> int {
    choose|x: int| came_with(v, a, x)
}

/// How the arcs are renamed when the nodes are: an arc becomes the arc in
/// the same place among the arcs of the renamed node.
pub open spec fn arc_renaming(v: NetworkView, other: NetworkView, there: Seq<int>) -> Seq<int> {
    Seq::new(v.graph.arcs.len(), |a: int| other.first_arc[there[owner(v, a)]] + (a - v.first_arc[owner(v, a)]))
}

/// The arcs of an entry end where those of the next entry begin.
pub proof fn lemma_next_arc(v: NetworkView, entries: Seq<Entry>, i: int)
    requires
        laid_out(v, entries, entries.len() as int),
        0 <= i < entries.len(),
    ensures
        v.first_arc[i + 2] == arcs_upto(entries, i),
        v.next_arc(i + 2) == arcs_upto(entries, i + 1),
{
    assert(entry_laid(v, entries, i));
    if i + 1 < entries.len() {
        assert(entry_laid(v, entries, i + 1));
    }
}

/// A list in another order is the first list in another order, too.
pub proof fn lemma_reordered_back(first: Seq<Entry>, second: Seq<Entry>, perm: Seq<int>, inv: Seq<int>)
    requires
        reordered(first, second, perm, inv),
    ensures
        reordered(second, first, inv, perm),
{
    assert forall|y: int| 0 <= y < second.len() implies first[#[trigger] inv[y]] == second[y] by {
        assert(perm[inv[y]] == y);
    }
}

/// A task keeps its name when the list is reordered, so the entry that
/// declares a task of the first list is renamed to the entry that declares
/// it in the second.
pub proof fn lemma_task_index_renamed(
    first: Seq<Entry>,
    second: Seq<Entry>,
    perm: Seq<int>,
    inv: Seq<int>,
    name: Seq<char>,
)
    requires
        admissible(second),
        reordered(first, second, perm, inv),
        exists|j: int| is_task_named(first, j, name),
    ensures
        is_task_named(first, task_index(first, name), name),
        task_index(second, name) == perm[task_index(first, name)],
{
    let j = task_index(first, name);
    assert(is_task_named(first, j, name));
    assert(second[perm[j]] == first[j]);
    assert(is_task_named(second, perm[j], name));
    assert(is_task_named(second, task_index(second, name), name));
}

/// Building a list in another order gives the same network with other
/// identifiers.
pub proof fn lemma_reordered_is_renamed(first: Seq<Entry>, second: Seq<Entry>, perm: Seq<int>, inv: Seq<int>)
    requires
        admissible(first),
        admissible(second),
        reordered(first, second, perm, inv),
        built(first).structured(),
        built(second).structured(),
    ensures
        built(first).renamed_to(
            built(second),
            node_renaming(perm),
            node_renaming(inv),
            arc_renaming(built(first), built(second), node_renaming(perm)),
        ),
{
    let v = built(first);
    let other = built(second);
    let m = first.len() as int;
    let n = m + 2;
    let there = node_renaming(perm);
    let back = node_renaming(inv);
    let arcs_there = arc_renaming(v, other, there);
    lemma_built_sizes(first);
    lemma_built_sizes(second);
    assert(first.take(m) =~= first);
    assert(second.take(m) =~= second);
    lemma_built_laid_out(first, m);
    lemma_built_laid_out(second, m);
    assert(renaming(there, back, n)) by {
        assert forall|x: int| 0 <= x < n implies 0 <= #[trigger] there[x] < n && back[there[x]] == x by {
            if x >= 2 {
                assert(inv[perm[x - 2]] == x - 2);
            }
        }
        assert forall|y: int| 0 <= y < n implies 0 <= #[trigger] back[y] < n && there[back[y]] == y by {
            if y >= 2 {
                assert(perm[inv[y - 2]] == y - 2);
            }
        }
    }
    assert forall|x: int| 0 <= x < n implies other.kinds[#[trigger] there[x]] == v.kinds[x] by {
        if x >= 2 {
            assert(entry_laid(v, first, x - 2));
            assert(second[perm[x - 2]] == first[x - 2]);
            assert(entry_laid(other, second, perm[x - 2]));
        }
    }
    assert forall|t: int| v.is_task(t) implies other.task_min(#[trigger] there[t]) == v.task_min(t)
        && other.task_max(there[t]) == v.task_max(t) by {
        assert(t >= 2);
        assert(entry_laid(v, first, t - 2));
        assert(second[perm[t - 2]] == first[t - 2]);
        assert(entry_laid(other, second, perm[t - 2]));
    }
    assert forall|w: int, a: int| v.is_worker(w) && v.first_arc[w] < a < v.next_arc(w) implies #[trigger] v.arc_renamed(
        other,
        there,
        arcs_there,
        w,
        a,
    ) by {
        assert(w >= 2);
        let i = w - 2;
        let u = perm[i];
        assert(entry_laid(v, first, i));
        assert(second[u] == first[i]);
        assert(entry_laid(other, second, u));
        lemma_next_arc(v, first, i);
        lemma_next_arc(other, second, u);
        lemma_ranges_ordered(v, w, w);
        let x = owner(v, a);
        assert(came_with(v, a, w));
        assert(came_with(v, a, x));
        if x < w {
            lemma_ranges_ordered(v, x, w);
        } else if w < x {
            lemma_ranges_ordered(v, w, x);
        }
        assert(x == w);
        let k = a - v.first_arc[w] - 1;
        let accepted = affinities_of(first[i]);
        assert(0 <= k < accepted.len());
        assert(arc_laid(v, first, i, k));
        assert(arc_laid(other, second, u, k));
        assert(accepts_known(first, i, k));
        lemma_task_index_renamed(first, second, perm, inv, accepted[k].0);
        let j = task_index(first, accepted[k].0);
        assert(there[j + 2] == perm[j] + 2);
        assert(arcs_there[a] == other.first_arc[there[w]] + (a - v.first_arc[w]));
    }
}

/// Adding the same tasks and workers in another order gives the same score
/// once all workers are assigned, where no two tasks share a name and every
/// worker is added after the tasks it accepts. The same holds of the score
/// as it is read off the arcs that leave the tasks, each network asked with
/// the names of all its tasks.
pub proof fn lemma_adding_in_another_order(
    first: Seq<Entry>,
    second: Seq<Entry>,
    perm: Seq<int>,
    inv: Seq<int>,
    solved_first: NetworkView,
    solved_second: NetworkView,
    names_first: Seq<Seq<char>>,
    names_second: Seq<Seq<char>>,
)
    requires
        admissible(first),
        admissible(second),
        reordered(first, second, perm, inv),
        built(first).structured(),
        built(second).structured(),
        built(first).same_problem(solved_first),
        built(second).same_problem(solved_second),
        solved_first.wf(),
        solved_first.solved(),
        solved_second.wf(),
        solved_second.solved(),
    ensures
        solved_first.total_score() == solved_second.total_score(),
        solved_first.names_every_task_once(names_first) && solved_second.names_every_task_once(names_second)
            ==> solved_first.named_cost_upto(names_first, names_first.len() as int)
            == solved_second.named_cost_upto(names_second, names_second.len() as int),
{
    let v = built(first);
    let other = built(second);
    lemma_reordered_back(first, second, perm, inv);
    lemma_reordered_is_renamed(first, second, perm, inv);
    lemma_reordered_is_renamed(second, first, inv, perm);
    lemma_order_does_not_matter(
        v,
        other,
        solved_first,
        solved_second,
        node_renaming(perm),
        node_renaming(inv),
        arc_renaming(v, other, node_renaming(perm)),
        arc_renaming(other, v, node_renaming(inv)),
    );
    if solved_first.names_every_task_once(names_first) && solved_second.names_every_task_once(names_second) {
        lemma_score_is_cost_of_task_arcs(solved_first, names_first);
        lemma_score_is_cost_of_task_arcs(solved_second, names_second);
    }
}

} // verus!
