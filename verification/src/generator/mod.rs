//! The batching generator's rules: which jobs run, what is fed to the model, and what
//! leaves as text.
pub mod emission;
pub mod job;
pub mod batch;
pub mod verify;
pub mod engine;
pub mod grammar;
pub mod laws;
pub mod chain_laws;
pub mod event_laws;
pub mod round_laws;
pub mod resume_laws;

pub use engine::Generator;
pub use job::{Job, JobSpec, MmFinish, Stage, StreamEvent};
