//! Scheduling and shared context for parallel worker runs.

pub mod clock;
pub mod command_laws;
pub mod commands;
pub mod config;
pub mod coordinator;
pub mod fact_laws;
pub mod facts;
pub mod name_laws;
pub mod names;
pub mod plan_laws;
pub mod run_laws;
pub mod run_state;
pub mod schedule_laws;
pub mod sequences;
pub mod step_laws;
pub mod task;
pub mod text;
pub mod text_laws;
pub mod wave_laws;
