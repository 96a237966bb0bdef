//! Verified core of the beads kanban server: the project/tag store, the
//! bead post-processing and epic-status rules, and the request decisions
//! of the beads endpoints.

pub mod text;
pub mod beads;
pub mod epic;
pub mod links;
pub mod db;
pub mod external;
pub mod sources;
pub mod requests;
pub mod reading;
pub mod recompute;
pub mod api;
pub mod laws;
