//! A verified core for a Git front end that works on several workspaces at
//! once.
//!
//! The core decides; it does not act. It holds the rules of the working
//! tree, of history, branches, remote sync and the GitHub lookups as
//! functions on plain values, each with a contract that Verus proves.
//! Whoever uses it reads the repository, asks the core, and carries out what
//! it decided.
//!
//! - [`resolver`] finds the repository root of a workspace; [`walk`] shows
//!   what its search for repositories finds.
//! - [`registry`] keeps the workspaces and their guards; [`serial`] shows
//!   what the guards are good for.
//! - [`worktree`] is the state machine of status, staging and reverting;
//!   [`repository`] adds commit and checkout.
//! - [`diff`] and [`hunks`] shape diffs; [`history`] shapes the log.
//! - [`branch`] lists, creates and checks out branches.
//! - [`sync`] runs fetch, pull and push in order.
//! - [`github`] plans the requests to the GitHub API.
//! - [`error`] names what can go wrong; [`text`] holds what the others share.

pub mod branch;
pub mod diff;
pub mod error;
pub mod github;
pub mod history;
pub mod hunks;
pub mod registry;
pub mod repository;
pub mod resolver;
pub mod serial;
pub mod sync;
pub mod text;
pub mod walk;
pub mod worktree;
