//! Worker-to-task assignment by minimum-cost augmentation over a flow network.
//!
//! Tasks declare how many workers they need at least and can take at most;
//! workers declare, for each task they accept, an integer cost of being
//! assigned to it. [`network::Network`] encodes both as a flow network and
//! assigns every worker to exactly one task, first up to each task's minimum
//! and then up to each task's maximum, always along a cheapest augmenting
//! path.
//!
//! Costs are integers. Callers that score assignments with fractions scale
//! them to a common unit before they build the network.
pub mod io;
pub mod network;
