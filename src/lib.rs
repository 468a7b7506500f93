//! Departure resolution for nearby transit stops: calendar arithmetic, the
//! adaptive spatial search limits, anchor-stop selection along direction
//! patterns, service-date expansion and the merge of live predictions into
//! grouped departures.

pub mod calendar_model;

pub mod resolver;
pub mod spatial;
pub mod anchors;
pub mod calendar_rows;
pub mod expand;
pub mod merge;
pub mod push;
pub mod ingest;
pub mod grouping;
