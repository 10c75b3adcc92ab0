//! A kanban board that mirrors work items of an upstream issue tracker.
//!
//! Tickets arrive from the tracker as a forest; the board keeps its own flat
//! table of tasks, each with a locally assigned id, and reconciles the two.

pub mod flatten;
pub mod import_laws;
pub mod jira;
pub mod models;
pub mod reconcile;
pub mod service;
pub mod status;
pub mod store;
pub mod store_laws;
pub mod sync_laws;
pub mod table;
pub mod text;
