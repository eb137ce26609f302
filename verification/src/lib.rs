//! Estimation of a company's next earnings announcement from several noisy
//! sources: trading-calendar arithmetic, observation gathering, and a
//! vote-based reconciliation of disagreeing observations.
pub mod calendar;
pub mod earnings;
pub mod gather;
