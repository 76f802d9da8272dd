//! Issue-digest relay: ranks tracker issues into a readable report, encodes
//! tracker queries, and decides each step of a digest run.

pub mod auth;
pub mod digest;
pub mod encode;
pub mod http;
pub mod pipeline;
pub mod queue;
