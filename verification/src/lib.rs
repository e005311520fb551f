//! A personal file/folder freshness tracker: a persisted map from canonical
//! filesystem paths to the instant each path was first registered, with a
//! textual store codec, live-set reconciliation, and stale-entry reporting.

pub mod codec;
pub mod error;
pub mod stamp;
pub mod store;
pub mod text;
