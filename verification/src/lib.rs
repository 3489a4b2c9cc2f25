//! A parallel build orchestrator core: a dependency-ordered job queue with
//! freshness propagation, a concurrency-token budget, and progress reporting.
//!
//! The scheduler is a state machine: callers enqueue units with their jobs and
//! dependencies, then drive the machine by asking it to schedule work and by
//! feeding back completion and token events. All decisions (what to dispatch,
//! when to request or release a token, what to report, when the build is done)
//! are made here and verified; performing the work itself (spawning workers,
//! talking to the cross-process token pool, writing to a terminal) is left to
//! the embedding program.

pub mod freshness;
pub mod unit;
pub mod dependency_queue;
pub mod job_queue;
pub mod strutil;
pub mod layout;
pub mod target_info;
pub mod shell;
pub mod sbom;
pub mod ops;
pub mod cli;
