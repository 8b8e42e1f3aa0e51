//! Resource managing graph: bindless handles and descriptor slot allocation,
//! the resource store with its queue ownership states, execution tracks, task
//! scheduling, and running schedules frame by frame.
pub mod bindless;
pub mod error;
pub mod conv;
pub mod executor;
pub mod handle;
pub mod maps;
pub mod recorder;
pub mod register;
pub mod registry;
pub mod res_states;
pub mod resources;
pub mod rmg;
pub mod run;
pub mod schedule;
pub mod temporary;
pub mod task;
pub mod tasks;
pub mod track;
pub mod transfer;
