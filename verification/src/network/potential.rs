//! Node potentials: why the search never meets a cycle of negative cost in a
//! network that was built from tasks and workers.
//!
//! A potential gives every node a number such that no arc that may be
//! followed leads to a node whose number exceeds that of the arc's start by
//! more than the arc costs. Where there is a potential, the costs round any
//! cycle add up to zero at least.
use crate::network::arc::COST_LIMIT;
use crate::network::graph::{Graph, SINK, SOURCE};
use crate::network::walk::lemma_walk_drop_last;
use vstd::prelude::*;

verus! {

impl Graph {
    /// Under `pot`, arc `a` leads to a node whose number exceeds that of its
    /// start by no more than the arc costs.
    pub open spec fn kept(self, pot: Seq<int>, a: int) -> bool {
        pot[self.arcs[a].start as int] + self.arcs[a].cost >= pot[self.arcs[a].end as int]
    }

    /// `pot` is a potential: it has a number for each node, and every arc
    /// that may be followed is kept.
    pub open spec fn feasible(self, pot: Seq<int>) -> bool {
        &&& pot.len() == self.nodes.len()
        &&& forall|a: int| self.followable(a) ==> #[trigger] self.kept(pot, a)
    }

    /// The graph has a potential.
    pub open spec fn has_potential(self) -> bool {
        exists|pot: Seq<int>| self.feasible(pot)
    }
}

/// Under a potential, a walk costs at least the difference of the numbers at
/// its ends.
pub proof fn lemma_potential_bounds_walk(g: Graph, pot: Seq<int>, w: Seq<int>, from: int, to: int)
    requires
        g.wf(),
        g.feasible(pot),
        g.is_walk(w, from, to),
    ensures
        pot[to] - pot[from] <= g.walk_cost(w),
    decreases w.len(),
{
    if w.len() > 0 {
        lemma_walk_drop_last(g, w, from, to);
        let a = w.last();
        lemma_potential_bounds_walk(g, pot, w.drop_last(), from, g.arcs[a].start as int);
        assert(g.kept(pot, a));
    }
}

/// A graph with a potential holds no cycle of negative cost.
pub proof fn lemma_potential_no_negative_cycle(g: Graph)
    requires
        g.wf(),
        g.has_potential(),
    ensures
        !g.has_negative_cycle(),
{
    let pot = choose|pot: Seq<int>| g.feasible(pot);
    if g.has_negative_cycle() {
        let (w, c, x) = choose|w: Seq<int>, c: Seq<int>, x: int|
            #![trigger g.is_walk(w, SOURCE as int, x), g.is_walk(c, x, x)]
            g.is_walk(w, SOURCE as int, x) && g.is_walk(c, x, x) && g.walk_cost(c) < 0;
        lemma_potential_bounds_walk(g, pot, c, x, x);
    }
}

/// The least of the first `upto` numbers of `pot`, or zero if that is less.
pub open spec fn floor_upto(pot: Seq<int>, upto: int) -> int
    decreases upto,
{
    if upto <= 0 {
        0
    } else {
        let rest = floor_upto(pot, upto - 1);
        if pot[upto - 1] < rest {
            pot[upto - 1]
        } else {
            rest
        }
    }
}

/// `floor_upto` is no more than any of the numbers it covers.
pub proof fn lemma_floor(pot: Seq<int>, upto: int, x: int)
    requires
        0 <= x < upto <= pot.len(),
    ensures
        floor_upto(pot, upto) <= pot[x],
    decreases upto,
{
    if x < upto - 1 {
        lemma_floor(pot, upto - 1, x);
    }
}

/// After the change of phase the graph has a potential again: the old one
/// with the number of the sink lowered below all others by more than any arc
/// costs.
pub proof fn lemma_phase_keeps_potential(g: Graph, h: Graph, pot: Seq<int>)
    requires
        g.wf(),
        h.wf(),
        g.feasible(pot),
        h.nodes.len() == g.nodes.len(),
        h.arcs.len() == g.arcs.len(),
        forall|a: int|
            0 <= a < g.arcs.len() ==> #[trigger] h.arcs[a] == if g.arcs[a].start == SINK {
                g.arcs[a].phase_changed()
            } else {
                g.arcs[a]
            },
    ensures
        h.has_potential(),
{
    let low = floor_upto(pot, pot.len() as int) - COST_LIMIT;
    let new_pot = pot.update(SINK as int, low);
    assert forall|a: int| h.followable(a) implies #[trigger] h.kept(new_pot, a) by {
        assert(g.arc_ok(a));
        assert(h.arcs[a] == if g.arcs[a].start == SINK {
            g.arcs[a].phase_changed()
        } else {
            g.arcs[a]
        });
        let x = h.arcs[a].start as int;
        lemma_floor(pot, pot.len() as int, x);
        lemma_floor(pot, pot.len() as int, SINK as int);
        if g.arcs[a].start != SINK {
            assert(g.followable(a));
            assert(g.kept(pot, a));
        }
    }
    assert(h.feasible(new_pot));
}

} // verus!
