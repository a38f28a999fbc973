//! Enumerates every way of picking one price per city so that the running
//! total of the trip stays within a budget.
pub mod laws;
pub mod planner;
pub mod trips;

pub use planner::TripPlanner;
