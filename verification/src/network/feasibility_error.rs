//! The ways in which an assignment problem can turn out to have no solution.
use vstd::prelude::*;

verus! {

/// Why no assignment was produced.
#[derive(Debug, Clone, Copy, PartialEq, Eq, Structural)]
pub enum FeasibilityKind {
    /// There are fewer workers than the tasks' minima add up to.
    InsufficientWorkers,
    /// There are more workers than the tasks' maxima add up to.
    InsufficientCapacity,
    /// The numbers would allow an assignment, but the tasks that the workers
    /// accept do not: at some point no augmenting path was left.
    Infeasible,
}

/// An assignment problem without a solution: the kind of failure, and a
/// message for the user.
#[derive(Debug, Clone)]
pub struct FeasibilityError {
    pub kind: FeasibilityKind,
    pub message: String,
}

/// The message that goes with each kind of failure.
pub open spec fn message_of(kind: FeasibilityKind) -> Seq<char> {
    match kind {
        FeasibilityKind::InsufficientWorkers => "Not enough workers to assign!"@,
        FeasibilityKind::InsufficientCapacity => "Not enough capacity for workers!"@,
        FeasibilityKind::Infeasible => "Unable to assign all workers!"@,
    }
}

impl FeasibilityError {
    /// The error of the given kind, with the message that belongs to it.
    pub fn new(kind: FeasibilityKind) -> (error: FeasibilityError)
        ensures
            error.kind == kind,
            error.message@ == message_of(kind),
    {
        let message = match kind {
            FeasibilityKind::InsufficientWorkers => "Not enough workers to assign!".to_string(),
            FeasibilityKind::InsufficientCapacity => "Not enough capacity for workers!".to_string(),
            FeasibilityKind::Infeasible => "Unable to assign all workers!".to_string(),
        };
        FeasibilityError { kind, message }
    }

    /// The message, as the user is to read it.
    pub fn to_text(&self) -> (text: String)
        ensures
            text@ == self.message@,
    {
        self.message.clone()
    }
}

} // verus!
