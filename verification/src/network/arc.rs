//! A directed arc of the flow network and its inversion into residual form.
use vstd::prelude::*;

verus! {

/// The largest magnitude an arc's cost may have. Within it a cost can always
/// be negated, and the cost of any path without repeated nodes fits a 128-bit
/// integer with room to spare.
pub const COST_LIMIT: i64 = 0x4000_0000_0000_0000;

/// What an arc is, as plain mathematical values.
pub struct ArcView {
    /// The node the arc currently starts at.
    pub start: nat,
    /// The node the arc currently ends at.
    pub end: nat,
    /// The cost of pushing one unit of flow down the arc in its current
    /// direction.
    pub cost: int,
    /// The flow at which the arc inverts while minima are being met.
    pub min_flow: nat,
    /// The flow at which the arc inverts once minima have been met.
    pub max_flow: nat,
    /// The flow pushed since the arc last changed direction (or, after the
    /// phase change, the flow that already counts against `max_flow`).
    pub current_flow: nat,
}

impl ArcView {
    /// The bounds are ordered, the flow respects the upper bound and the cost
    /// is within the limit.
    pub open spec fn wf(self) -> bool {
        &&& self.min_flow <= self.max_flow
        &&& self.current_flow <= self.max_flow
        &&& -COST_LIMIT <= self.cost <= COST_LIMIT
    }

    /// The flow at which the arc inverts: the lower bound while minima are
    /// being met, the upper bound afterwards.
    pub open spec fn threshold(self, min_flow_satisfied: bool) -> nat {
        if min_flow_satisfied {
            self.max_flow
        } else {
            self.min_flow
        }
    }

    /// The arc in residual form: direction swapped, cost negated, flow reset.
    pub open spec fn inverted(self) -> ArcView {
        ArcView {
            start: self.end,
            end: self.start,
            cost: -self.cost,
            min_flow: self.min_flow,
            max_flow: self.max_flow,
            current_flow: 0,
        }
    }

    /// The arc after one more unit of flow: inverted if that unit reaches the
    /// threshold of the phase, else with its flow raised by one.
    pub open spec fn pushed(self, min_flow_satisfied: bool) -> ArcView {
        if self.current_flow + 1 == self.threshold(min_flow_satisfied) {
            self.inverted()
        } else {
            ArcView { current_flow: self.current_flow + 1, ..self }
        }
    }

    /// The arc after the change of phase: unless it is saturated already
    /// (`min_flow == max_flow`), it is inverted and starts with `min_flow`
    /// units that count against `max_flow`.
    pub open spec fn phase_changed(self) -> ArcView {
        if self.min_flow == self.max_flow {
            self
        } else {
            ArcView { current_flow: self.min_flow, ..self.inverted() }
        }
    }

    /// The two nodes the arc joins, whichever way it currently points.
    pub open spec fn joins(self, a: nat, b: nat) -> bool {
        (self.start == a && self.end == b) || (self.start == b && self.end == a)
    }
}

/// An arc that connects two nodes of the network.
///
/// Besides its end points it carries the cost of one unit of flow, the two
/// flow bounds, and the flow pushed so far. The lower bound is the flow the
/// arc must carry before the network may pass from meeting minima to filling
/// up to maxima.
#[derive(Debug, Clone, Copy)]
pub struct Arc {
    start_node: usize,
    end_node: usize,
    cost: i64,
    min_flow: usize,
    max_flow: usize,
    current_flow: usize,
}

impl View for Arc {
    type V = ArcView;

    closed spec fn view(&self) -> ArcView {
        ArcView {
            start: self.start_node as nat,
            end: self.end_node as nat,
            cost: self.cost as int,
            min_flow: self.min_flow as nat,
            max_flow: self.max_flow as nat,
            current_flow: self.current_flow as nat,
        }
    }
}

impl Arc {
    /// A new arc from `start_node_id` to `end_node_id` that carries no flow.
    pub fn new(
        start_node_id: usize,
        end_node_id: usize,
        cost: i64,
        min_flow: usize,
        max_flow: usize,
    ) -> (arc: Arc)
        requires
            min_flow <= max_flow,
            -COST_LIMIT <= cost <= COST_LIMIT,
        ensures
            arc@ == (ArcView {
                start: start_node_id as nat,
                end: end_node_id as nat,
                cost: cost as int,
                min_flow: min_flow as nat,
                max_flow: max_flow as nat,
                current_flow: 0,
            }),
            arc@.wf(),
    {
        Arc { start_node: start_node_id, end_node: end_node_id, cost, min_flow, max_flow, current_flow: 0 }
    }

    /// Pushes one unit of flow down the arc. When that unit reaches the
    /// threshold of the phase (`min_flow` while minima are being met,
    /// `max_flow` afterwards) the arc inverts, and the result says so.
    pub fn push_flow(&mut self, min_flow_satisfied: bool) -> (inverted: bool)
        requires
            old(self)@.wf(),
            old(self)@.current_flow < old(self)@.max_flow,
        ensures
            inverted == (old(self)@.current_flow + 1 == old(self)@.threshold(min_flow_satisfied)),
            final(self)@ == old(self)@.pushed(min_flow_satisfied),
            final(self)@.wf(),
    {
        self.current_flow = self.current_flow + 1;
        let mut inverted = false;
        if min_flow_satisfied {
            if self.current_flow == self.max_flow {
                self.invert();
                inverted = true;
            }
        } else {
            if self.current_flow == self.min_flow {
                self.invert();
                inverted = true;
            }
        }
        inverted
    }

    /// Turns the arc into its residual form: the cost is negated, the flow is
    /// reset and the end points change places. The connection lists of the
    /// two nodes are the network's to update.
    pub fn invert(&mut self)
        requires
            old(self)@.wf(),
        ensures
            final(self)@ == old(self)@.inverted(),
            final(self)@.wf(),
    {
        self.cost = -self.cost;
        self.current_flow = 0;
        let temp_id = self.start_node;
        self.start_node = self.end_node;
        self.end_node = temp_id;
    }

    /// The cost of one unit of flow down the arc as it currently points.
    pub fn get_cost(&self) -> (cost: i64)
        ensures
            cost == self@.cost,
    {
        self.cost
    }

    /// The node the arc currently starts at.
    pub fn get_start_node_id(&self) -> (id: usize)
        ensures
            id == self@.start,
    {
        self.start_node
    }

    /// The node the arc currently ends at.
    pub fn get_end_node_id(&self) -> (id: usize)
        ensures
            id == self@.end,
    {
        self.end_node
    }

    /// The flow pushed down the arc since it last changed direction.
    pub fn get_current_flow(&self) -> (flow: usize)
        ensures
            flow == self@.current_flow,
    {
        self.current_flow
    }

    /// The lower flow bound.
    pub fn get_min_flow(&self) -> (flow: usize)
        ensures
            flow == self@.min_flow,
    {
        self.min_flow
    }

    /// The upper flow bound.
    pub fn get_max_flow(&self) -> (flow: usize)
        ensures
            flow == self@.max_flow,
    {
        self.max_flow
    }

    /// Prepares the arc for the phase that fills tasks up to their maxima.
    /// An arc with `min_flow == max_flow` is saturated and stays as it is;
    /// any other is inverted and starts the phase with `min_flow` units of
    /// flow. The result says whether the arc was inverted.
    pub fn update_for_second_phase(&mut self) -> (inverted: bool)
        requires
            old(self)@.wf(),
        ensures
            inverted == (old(self)@.min_flow != old(self)@.max_flow),
            final(self)@ == old(self)@.phase_changed(),
            final(self)@.wf(),
    {
        if self.min_flow == self.max_flow {
            return false;
        }
        self.invert();
        self.current_flow = self.min_flow;
        true
    }
}

} // verus!
