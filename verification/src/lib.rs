//! Virtual-host request dispatch.
//!
//! A set of configured virtual hosts (each with host names and aliases, an
//! optional default-host flag, and per-sub-path overrides) is compiled once
//! into a flat, priority-ordered routing table. At request time the table
//! resolves a host and path to exactly one downstream handler; a matched
//! prefix rule can strip the matched segments from the request path. The
//! selected entry's index is carried across the later request phases through
//! a per-request context and a session-attached token, so the choice survives
//! phases that run without the original context.

pub mod segments;
pub mod conf;
pub mod table;
pub mod compile;
pub mod dispatch;
pub mod laws;
