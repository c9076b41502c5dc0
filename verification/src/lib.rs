//! Indexing core of a locate-style file search tool: entry records, directory
//! size aggregation, tree walking over a directory listing, and reconciliation
//! of a fresh snapshot against a persisted index.

pub mod classified;
pub mod dates;
pub mod entry;
pub mod listing;
pub mod paths;
pub mod reconcile;
pub mod reconcile_laws;
pub mod room;
pub mod row;
pub mod store;
pub mod table;
pub mod text;
pub mod walk;
pub mod walk_laws;
