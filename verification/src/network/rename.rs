//! Networks that differ only in the order in which their tasks and workers
//! were added reach the same score.
//!
//! Adding tasks and workers in another order gives the nodes and arcs other
//! identifiers. Such a renaming carries every plan of one network over to a
//! plan of the other that costs the same, so the two networks have the same
//! cheapest plans.
use crate::network::balance::lemma_owner;
use crate::network::counting::{lemma_count_renamed, lemma_sum_renamed, renaming, row};
use crate::network::laws::lemma_score_is_cost_of_task_arcs;
use crate::network::model::{lemma_ranges_ordered, NetworkView};
use crate::network::optimal::{lemma_no_plan_is_cheaper, lemma_score_is_plan_cost};
use crate::network::plan::lemma_solved_follows_a_plan;
use vstd::prelude::*;

verus! {

impl NetworkView {
    /// Arc `a` of worker `w` has a namesake among the arcs of the worker's
    /// namesake in `other`: an arc to the namesake of the same task, at the
    /// same cost.
    pub open spec fn arc_renamed(
        self,
        other: NetworkView,
        there: Seq<int>,
        arcs_there: Seq<int>,
        w: int,
        a: int,
    ) -> bool {
        let b = arcs_there[a];
        &&& other.first_arc[there[w]] < b < other.next_arc(there[w])
        &&& other.task_of(b) == there[self.task_of(a)]
        &&& other.given_cost(b) == self.given_cost(a)
    }

    /// `other` is this network with other identifiers: `there` renames the
    /// nodes and `back` undoes it, tasks stay tasks with the same bounds and
    /// workers stay workers, and `arcs_there` renames the arcs from workers
    /// to tasks.
    pub open spec fn renamed_to(
        self,
        other: NetworkView,
        there: Seq<int>,
        back: Seq<int>,
        arcs_there: Seq<int>,
    ) -> bool {
        let n = self.graph.nodes.len() as int;
        &&& other.graph.nodes.len() == n
        &&& renaming(there, back, n)
        &&& forall|x: int| 0 <= x < n ==> other.kinds[#[trigger] there[x]] == self.kinds[x]
        &&& forall|t: int|
            self.is_task(t) ==> other.task_min(#[trigger] there[t]) == self.task_min(t) && other.task_max(
                there[t],
            ) == self.task_max(t)
        &&& forall|w: int, a: int|
            self.is_worker(w) && self.first_arc[w] < a < self.next_arc(w) ==> #[trigger] self.arc_renamed(
                other,
                there,
                arcs_there,
                w,
                a,
            )
    }

    /// The plan with the identifiers of the renamed network.
    pub open spec fn carried_plan(self, plan: Seq<int>, back: Seq<int>, arcs_there: Seq<int>) -> Seq<int> {
        Seq::new(self.graph.nodes.len(), |y: int| arcs_there[plan[back[y]]])
    }
}

/// A renaming carries a plan over to a plan that costs the same.
pub proof fn lemma_renamed_plan(
    v: NetworkView,
    other: NetworkView,
    there: Seq<int>,
    back: Seq<int>,
    arcs_there: Seq<int>,
    plan: Seq<int>,
)
    requires
        v.structured(),
        other.structured(),
        v.renamed_to(other, there, back, arcs_there),
        v.valid_plan(plan),
    ensures
        other.valid_plan(v.carried_plan(plan, back, arcs_there)),
        other.plan_cost(v.carried_plan(plan, back, arcs_there)) == v.plan_cost(plan),
{
    let n = v.graph.nodes.len();
    let carried = v.carried_plan(plan, back, arcs_there);
    assert forall|x: int| 0 <= x < n && v.is_worker(x) implies #[trigger] carried[there[x]] == arcs_there[plan[x]]
        && v.arc_renamed(other, there, arcs_there, x, plan[x]) by {
        assert(back[there[x]] == x);
        assert(v.first_arc[x] < plan[x] < v.next_arc(x));
    }
    assert forall|y: int| other.is_worker(y) implies other.first_arc[y] < #[trigger] carried[y] < other.next_arc(
        y,
    ) by {
        let x = back[y];
        assert(there[x] == y);
        assert(other.kinds[there[x]] == v.kinds[x]);
        assert(carried[there[x]] == arcs_there[plan[x]]);
    }
    assert forall|u: int| other.is_task(u) implies other.task_min(u) <= #[trigger] other.load(carried, u)
        <= other.task_max(u) by {
        let t = back[u];
        assert(there[t] == u);
        assert(other.kinds[there[t]] == v.kinds[t]);
        assert(v.is_task(t));
        assert(other.task_min(there[t]) == v.task_min(t));
        assert(v.task_min(t) <= v.load(plan, t) <= v.task_max(t));
        let low = row(v.placing(plan), n, t);
        let high = row(other.placing(carried), n, u);
        assert forall|x: int| 0 <= x < n implies high[#[trigger] there[x]] == low[x] by {
            assert(other.kinds[there[x]] == v.kinds[x]);
            if v.is_worker(x) {
                assert(carried[there[x]] == arcs_there[plan[x]]);
                assert(v.arc_renamed(other, there, arcs_there, x, plan[x]));
                lemma_owner(v, plan[x], x);
                let home = v.task_of(plan[x]);
                assert(back[there[home]] == home);
                assert(back[there[t]] == t);
            }
        }
        lemma_count_renamed(low, high, there, back);
    }
    assert forall|x: int| 0 <= x < n implies other.all_workers()[#[trigger] there[x]] == v.all_workers()[x] by {
        assert(other.kinds[there[x]] == v.kinds[x]);
    }
    assert forall|x: int| 0 <= x < n && v.all_workers()[x] implies other.cost_by(carried)(#[trigger] there[x])
        == v.cost_by(plan)(x) by {
        assert(carried[there[x]] == arcs_there[plan[x]]);
        assert(v.arc_renamed(other, there, arcs_there, x, plan[x]));
    }
    lemma_sum_renamed(
        v.cost_by(plan),
        other.cost_by(carried),
        v.all_workers(),
        other.all_workers(),
        there,
        back,
        n,
    );
}

/// A renaming of a network renames every network that poses the same
/// problem.
pub proof fn lemma_renaming_survives(
    v: NetworkView,
    other: NetworkView,
    later: NetworkView,
    other_later: NetworkView,
    there: Seq<int>,
    back: Seq<int>,
    arcs_there: Seq<int>,
)
    requires
        v.structured(),
        other.structured(),
        later.structured(),
        other_later.structured(),
        v.renamed_to(other, there, back, arcs_there),
        v.same_problem(later),
        other.same_problem(other_later),
    ensures
        later.renamed_to(other_later, there, back, arcs_there),
{
    let n = v.graph.nodes.len() as int;
    assert forall|x: int| 0 <= x < n implies other_later.kinds[#[trigger] there[x]] == later.kinds[x] by {
        assert(other.kinds[there[x]] == v.kinds[x]);
    }
    assert forall|t: int| later.is_task(t) implies other_later.task_min(#[trigger] there[t]) == later.task_min(
        t,
    ) && other_later.task_max(there[t]) == later.task_max(t) by {
        assert(v.is_task(t));
        assert(other.task_min(there[t]) == v.task_min(t));
        assert(other.kinds[there[t]] == v.kinds[t]);
        assert(v.node_shape(t));
        lemma_ranges_ordered(v, t, t);
        assert(later.graph.arcs[v.first_arc[t] as int].min_flow == v.graph.arcs[v.first_arc[t] as int].min_flow);
        let u = there[t];
        assert(other.is_task(u));
        assert(other.node_shape(u));
        lemma_ranges_ordered(other, u, u);
        assert(other_later.graph.arcs[other.first_arc[u] as int].min_flow == other.graph.arcs[other.first_arc[u] as int].min_flow);
    }
    assert forall|w: int, a: int|
        later.is_worker(w) && later.first_arc[w] < a < later.next_arc(w) implies #[trigger] later.arc_renamed(
        other_later,
        there,
        arcs_there,
        w,
        a,
    ) by {
        assert(v.is_worker(w));
        assert(v.arc_renamed(other, there, arcs_there, w, a));
        let b = arcs_there[a];
        let u = there[w];
        assert(other.kinds[there[w]] == v.kinds[w]);
        lemma_owner(v, a, w);
        lemma_owner(later, a, w);
        assert(later.graph.arcs[a].joins(v.graph.arcs[a].start, v.graph.arcs[a].end));
        lemma_owner(other, b, u);
        lemma_owner(other_later, b, u);
        assert(other_later.graph.arcs[b].joins(other.graph.arcs[b].start, other.graph.arcs[b].end));
    }
}

/// Two networks of which each is the other with other identifiers, as they
/// come about when the same tasks and workers are added in another order,
/// have the same score once all their workers are assigned.
pub proof fn lemma_order_does_not_matter(
    first: NetworkView,
    second: NetworkView,
    solved_first: NetworkView,
    solved_second: NetworkView,
    there: Seq<int>,
    back: Seq<int>,
    arcs_there: Seq<int>,
    arcs_back: Seq<int>,
)
    requires
        first.structured(),
        second.structured(),
        first.renamed_to(second, there, back, arcs_there),
        second.renamed_to(first, back, there, arcs_back),
        first.same_problem(solved_first),
        second.same_problem(solved_second),
        solved_first.wf(),
        solved_first.solved(),
        solved_second.wf(),
        solved_second.solved(),
    ensures
        solved_first.total_score() == solved_second.total_score(),
{
    lemma_renaming_survives(first, second, solved_first, solved_second, there, back, arcs_there);
    lemma_renaming_survives(second, first, solved_second, solved_first, back, there, arcs_back);
    lemma_solved_follows_a_plan(solved_first);
    lemma_solved_follows_a_plan(solved_second);
    lemma_score_is_plan_cost(solved_first);
    lemma_score_is_plan_cost(solved_second);
    let plan_first = solved_first.followed_plan();
    let plan_second = solved_second.followed_plan();
    lemma_renamed_plan(solved_first, solved_second, there, back, arcs_there, plan_first);
    lemma_no_plan_is_cheaper(solved_second, solved_first.carried_plan(plan_first, back, arcs_there));
    lemma_renamed_plan(solved_second, solved_first, back, there, arcs_back, plan_second);
    lemma_no_plan_is_cheaper(solved_first, solved_second.carried_plan(plan_second, there, arcs_back));
}

/// The same holds of the score as it is read off the arcs that leave the
/// tasks: for two such networks, each asked with the names of all its tasks
/// in any order, the arcs that leave the tasks cost the same together.
pub proof fn lemma_order_does_not_matter_to_task_arcs(
    first: NetworkView,
    second: NetworkView,
    solved_first: NetworkView,
    solved_second: NetworkView,
    there: Seq<int>,
    back: Seq<int>,
    arcs_there: Seq<int>,
    arcs_back: Seq<int>,
    names_first: Seq<Seq<char>>,
    names_second: Seq<Seq<char>>,
)
    requires
        first.structured(),
        second.structured(),
        first.renamed_to(second, there, back, arcs_there),
        second.renamed_to(first, back, there, arcs_back),
        first.same_problem(solved_first),
        second.same_problem(solved_second),
        solved_first.wf(),
        solved_first.solved(),
        solved_second.wf(),
        solved_second.solved(),
        solved_first.names_every_task_once(names_first),
        solved_second.names_every_task_once(names_second),
    ensures
        solved_first.named_cost_upto(names_first, names_first.len() as int) == solved_second.named_cost_upto(
            names_second,
            names_second.len() as int,
        ),
{
    lemma_order_does_not_matter(
        first,
        second,
        solved_first,
        solved_second,
        there,
        back,
        arcs_there,
        arcs_back,
    );
    lemma_score_is_cost_of_task_arcs(solved_first, names_first);
    lemma_score_is_cost_of_task_arcs(solved_second, names_second);
}

} // verus!
