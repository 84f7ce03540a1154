//! A node of the flow network: the list of arcs that currently leave it.
use vstd::prelude::*;

verus! {

/// The largest number of connections that a node can reserve room for in
/// advance. A node can hold more than that.
pub const MAX_RESERVED: usize = 0x0fff_ffff;

/// A node of the network. Source, sink, tasks and workers are all nodes; a
/// node only knows the identifiers of the arcs that currently start at it.
pub struct Node {
    connected_arcs: Vec<usize>,
}

impl View for Node {
    type V = Seq<usize>;

    /// The identifiers of the arcs leaving the node, in list order.
    closed spec fn view(&self) -> Seq<usize> {
        self.connected_arcs@
    }
}

/// The list that remains after swap-removing position `idx` of `list`: the
/// last element takes the place of the removed one.
pub open spec fn swap_removed(list: Seq<usize>, idx: int) -> Seq<usize> {
    list.update(idx, list.last()).drop_last()
}

/// The position of the first occurrence of `x` in `list`.
pub open spec fn first_position(list: Seq<usize>, x: usize) -> int {
    choose|i: int| is_first_position(list, x, i)
}

/// `i` is where `x` first occurs in `list`.
pub open spec fn is_first_position(list: Seq<usize>, x: usize, i: int) -> bool {
    &&& 0 <= i < list.len()
    &&& list[i] == x
    &&& forall|k: int| 0 <= k < i ==> list[k] != x
}

/// Swap-removing one position of a duplicate-free list leaves a
/// duplicate-free list that holds exactly the other elements.
pub proof fn lemma_swap_removed(list: Seq<usize>, idx: int)
    requires
        list.no_duplicates(),
        0 <= idx < list.len(),
    ensures
        swap_removed(list, idx).no_duplicates(),
        swap_removed(list, idx).len() == list.len() - 1,
        !swap_removed(list, idx).contains(list[idx]),
        forall|x: usize| x != list[idx] ==> (swap_removed(list, idx).contains(x) <==> list.contains(x)),
{
    let out = swap_removed(list, idx);
    let last = list.len() - 1;
    assert forall|x: usize| x != list[idx] implies (out.contains(x) <==> list.contains(x)) by {
        if list.contains(x) {
            let k = choose|k: int| 0 <= k < list.len() && list[k] == x;
            if k == last {
                assert(out[idx] == x);
            } else {
                assert(out[k] == x);
            }
        }
        if out.contains(x) {
            let k = choose|k: int| 0 <= k < out.len() && out[k] == x;
            if k == idx {
                assert(list[last] == x);
            } else {
                assert(list[k] == x);
            }
        }
    }
    if out.contains(list[idx]) {
        let k = choose|k: int| 0 <= k < out.len() && out[k] == list[idx];
        if k == idx {
            assert(list[last] == list[idx]);
        } else {
            assert(list[k] == list[idx]);
        }
    }
}

impl Node {
    /// The connection list holds no arc twice.
    pub open spec fn wf(&self) -> bool {
        self@.no_duplicates()
    }

    /// A node without connections.
    pub fn new() -> (node: Node)
        ensures
            node@ == Seq::<usize>::empty(),
            node.wf(),
    {
        Node { connected_arcs: Vec::new() }
    }

    /// A node without connections, with room reserved for `cap` of them.
    /// No more room than `MAX_RESERVED` can be asked for: a reservation has to
    /// fit into the address space of the machine.
    pub fn with_capacity(cap: usize) -> (node: Node)
        requires
            cap <= MAX_RESERVED,
        ensures
            node@ == Seq::<usize>::empty(),
            node.wf(),
    {
        Node { connected_arcs: Vec::with_capacity(cap) }
    }

    /// A copy of the node.
    pub fn duplicate(&self) -> (node: Node)
        ensures
            node@ == self@,
    {
        let connected_arcs = self.connected_arcs.clone();
        assert(connected_arcs@ =~= self.connected_arcs@);
        Node { connected_arcs }
    }

    /// The number of arcs leaving the node.
    pub fn get_num_connections(&self) -> (count: usize)
        ensures
            count == self@.len(),
    {
        self.connected_arcs.len()
    }

    /// Whether `arc_id` is in the connection list.
    pub fn is_connected(&self, arc_id: usize) -> (found: bool)
        ensures
            found == self@.contains(arc_id),
    {
        let mut i: usize = 0;
        while i < self.connected_arcs.len()
            invariant
                i <= self.connected_arcs.len(),
                forall|k: int| 0 <= k < i ==> self.connected_arcs@[k] != arc_id,
            decreases self.connected_arcs.len() - i,
        {
            if self.connected_arcs[i] == arc_id {
                return true;
            }
            i += 1;
        }
        false
    }

    /// Appends `arc_id` unless the list already holds it.
    pub fn add_connection(&mut self, arc_id: usize)
        ensures
            final(self)@ == if old(self)@.contains(arc_id) {
                old(self)@
            } else {
                old(self)@.push(arc_id)
            },
            old(self).wf() ==> final(self).wf(),
    {
        if !self.is_connected(arc_id) {
            self.connected_arcs.push(arc_id);
            proof {
                let before = old(self)@;
                let after = self@;
                if before.no_duplicates() {
                    assert forall|i: int, j: int|
                        0 <= i < after.len() && 0 <= j < after.len() && i != j implies after[i]
                        != after[j] by {
                        if i < before.len() && j < before.len() {
                            assert(before[i] != before[j]);
                        } else if i < before.len() {
                            assert(before.contains(before[i]));
                        } else {
                            assert(before.contains(before[j]));
                        }
                    }
                }
            }
        }
    }

    /// Removes `arc_id` by swap-remove: the last connection takes the place of
    /// the first occurrence of `arc_id`. The order of the others is otherwise
    /// kept.
    pub fn remove_connection(&mut self, arc_id: usize)
        requires
            old(self)@.contains(arc_id),
        ensures
            is_first_position(old(self)@, arc_id, first_position(old(self)@, arc_id)),
            final(self)@ == swap_removed(old(self)@, first_position(old(self)@, arc_id)),
            old(self).wf() ==> final(self).wf() && !final(self)@.contains(arc_id),
    {
        let mut idx: usize = 0;
        while self.connected_arcs[idx] != arc_id
            invariant
                self@ == old(self)@,
                self@.contains(arc_id),
                idx < self.connected_arcs.len(),
                forall|k: int| 0 <= k < idx ==> self.connected_arcs@[k] != arc_id,
            decreases self.connected_arcs.len() - idx,
        {
            proof {
                let k = choose|k: int| 0 <= k < self@.len() && self@[k] == arc_id;
                assert(k > idx);
            }
            idx += 1;
        }
        proof {
            let list = old(self)@;
            assert(is_first_position(list, arc_id, idx as int));
            let first = first_position(list, arc_id);
            assert(first == idx) by {
                if first < idx {
                    assert(list[first] != arc_id);
                } else if idx < first {
                    assert(list[idx as int] != arc_id);
                }
            }
            if list.no_duplicates() {
                lemma_swap_removed(list, idx as int);
            }
        }
        self.connected_arcs.swap_remove(idx);
    }

    /// The connection list.
    pub fn get_connections(&self) -> (list: &Vec<usize>)
        ensures
            list@ == self@,
    {
        &self.connected_arcs
    }

    /// The first connection, if there is one.
    pub fn get_first_connected_arc_id(&self) -> (first: Option<usize>)
        ensures
            first == if self@.len() == 0 {
                None
            } else {
                Some(self@[0])
            },
    {
        if self.connected_arcs.len() == 0 {
            None
        } else {
            Some(self.connected_arcs[0])
        }
    }
}

} // verus!
