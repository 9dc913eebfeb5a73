use vstd::prelude::*;

pub mod agent;
pub mod agent_core;
pub mod board;
pub mod bridge_server;
pub mod cache;
pub mod client;
pub mod destination;
pub mod diagnostics;
pub mod erased;
pub mod error;
pub mod job_record;
pub mod json;
pub mod login;
pub mod report;
pub mod sacctmgr;
pub mod slurm;
pub mod slurm_account;
pub mod text;

verus! {

} // verus!
