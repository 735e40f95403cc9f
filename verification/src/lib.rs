//! Core engine of an interactive dependency updater: it parses a project's
//! manifest into typed dependency declarations, resolves each declaration to
//! its locked version through a name-sorted lock table, recursively walks
//! workspace member projects, classifies declarations by their source
//! registry, tracks fetch progress, and filters and sorts the collected
//! results into the final set of outdated dependencies.
//!
//! Network lookups, terminal rendering and file reading are left to callers;
//! every decision this crate makes is stated in contracts and verified.

pub mod api;
pub mod cargo;
pub mod cli;
pub mod dependency;
pub mod errors;
pub mod info;
pub mod loading;
pub mod lock;
pub mod text;
pub mod toml_model;
pub mod version;
