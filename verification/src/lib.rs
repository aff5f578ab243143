//! Core of a metrics agent: measurement events submitted by producers are
//! buffered, periodically grouped by kind and identifier, rolled up into
//! summary statistics, appended to an in-memory time-series store, and
//! broadcast to registered subscribers.

pub mod db;
pub mod metric;
pub mod recv;
