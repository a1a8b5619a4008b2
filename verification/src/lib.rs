//! A verified core for a git-worktree management toolkit: porcelain-output
//! parsing, working-tree classification, project-name resolution, and a
//! file-backed "frecency" navigation index with deterministic ranking.

pub mod commands;
pub mod config;
pub mod digits;
pub mod frecency;
pub mod resolver;
pub mod text;
pub mod worktree;
