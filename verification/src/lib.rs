//! Glance over a directory of git and jj repositories: which branch or bookmark each
//! one is on, whether its working copy is dirty, and how it stands against its remote.

pub mod cli;
pub mod render;
pub mod repo;
pub mod terminal;
pub mod text;
pub mod vcs;

pub use crate::cli::Args;
