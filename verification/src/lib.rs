//! A deterministic logical-time engine.
pub mod barrier;
pub mod beats;
pub mod context;
pub mod demo;
pub mod engine;
pub mod executor;
pub mod flt;
pub mod frames;
pub mod inverse;
pub mod kin;
pub mod laws;
pub mod lineage;
pub mod meeting;
pub mod moves;
pub mod notation;
pub mod pq;
pub mod replay;
pub mod rng;
pub mod scheduler;
pub mod tempo;
pub mod steps;
pub mod text;
pub mod upkeep;
pub mod waits;
pub mod world;

pub use barrier::{await_barrier, resolve_barrier, start_barrier};
pub use context::{BranchHandle, BranchOptions, CancelHandlerUnsubscribe, Ctx, WaitError};
pub use engine::{Engine, EngineConfig};
pub use scheduler::SchedulerMode;
pub use tempo::TempoMap;
