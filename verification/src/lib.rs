//! Session tracking for a playtime daemon: which tracked programs are
//! running, when their sessions start and end, and how much time each
//! program has accumulated.

pub mod clock;
pub mod config;
pub mod process;
pub mod report;
pub mod store;
pub mod system;
pub mod tracker;
