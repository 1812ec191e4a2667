//! A dependency-aware runner for named shell tasks.
//!
//! Tasks (scripts) declare the names of the tasks they depend on. The
//! resolver builds a directed graph over the task set, validates it
//! (unique names, no dangling references), and produces execution plans
//! in which every task appears after all of its dependencies. The runner
//! walks such a plan, checking the ordering invariant defensively and
//! stopping at the first failure.

pub mod cli;
pub mod config;
pub mod console;
pub mod error;
pub mod graph_binding;
pub mod resolver;
pub mod runner;
pub mod script;
