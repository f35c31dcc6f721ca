//! Hive: a library for building typed pods that run inside a Hive runtime,
//! together with the state the hive keeps about them (knowledge base, pod
//! registry, command handling) and the genome that evolving pods carry.
pub mod pods;
pub mod link;
pub mod text;
pub mod pod;
pub mod knowledge;
pub mod config;
pub mod hive_core;
pub mod hive;
pub mod tui;
