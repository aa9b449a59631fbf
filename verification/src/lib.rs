//! The core of a permanent archival node: the sync ledger that tells which
//! milestones still need work, the per-milestone collection of messages with
//! its analytics, and the decisions of the one-for-one supervisor.

pub mod analytics;
pub mod composition;
pub mod launcher;
pub mod message;
pub mod milestone;
pub mod names;
pub mod search;
pub mod sync;
pub mod topology;
