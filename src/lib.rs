//! Inventory of version-controlled repositories: discovery under watched
//! directories, reconciliation of the persisted inventory, the per-repository
//! check/update pipeline driven by the text a version-control tool prints, and
//! the longest-first scheduling of that work.
pub mod text;
pub mod repository_info;
pub mod git;
pub mod process;
pub mod pipeline;
pub mod state;
pub mod reconcile;
pub mod run;
pub mod discovery;
pub mod schedule;
pub mod cli;
pub mod config;
pub mod hooks;
pub mod ssh_key;
pub mod commands;
pub mod persist;
