//! Fair assignment of delivery locations to riders by branch and bound.
//!
//! Every location carries a tip. The search hands each location to one rider
//! so that the gap between the best-rewarded rider and the average of the
//! others is as small as possible, while every rider's round trip from the
//! depot stays within a travel budget.

pub mod branching;
pub mod graph;
pub mod laws;
pub mod ledger;
pub mod metric;
pub mod objective;
pub mod partition;
pub mod rider;
pub mod search;
pub mod solver;
pub mod spanning;
pub mod tour;
