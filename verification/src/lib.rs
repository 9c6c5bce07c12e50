//! The host's scheduling, planning and decision logic: reads and snapshots queued for the
//! capture thread and what they are charged, the module dependency graph and the review of an
//! install, the settings store, a picture's profile, and the screen-reader search.
pub mod policy;
pub mod portable;
pub mod profile;
pub mod region;
pub mod registry;
pub mod sched;
pub mod service;
pub mod settings;
pub mod snap_queue;
pub mod snapshot;
pub mod speech;
pub mod text;
pub mod types;
