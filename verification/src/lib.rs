//! Verified core of a small coding agent.
//!
//! The agent has four tools on a workspace: listing, searching, reading and patching. It works in
//! a Git worktree of its own, and its patches reach the user's files only the way the selected mode
//! lets them. Everything that is decided about that is decided here, on plain values: what the file
//! system, ripgrep, Git and the model showed comes in as arguments, and what is to be done goes out
//! as results.
//!
//! - The workspace boundary: [`paths`], [`glob`], [`workspace`] and [`executable`].
//! - The reading tools: [`listing`], [`search`] and [`read`], and in [`answers`] what they tell of the
//!   workspace.
//! - Patches: [`edit`], [`diff`], [`patch`] and [`transaction`], and in [`atomicity`] why a patch is
//!   all or nothing.
//! - Sessions on a repository: [`command`], [`script`], [`git`], [`repository`], [`review`],
//!   [`queue`] and [`conflict`], in [`inspection`], [`effects`] and [`merges`] what its work makes
//!   sure of and comes to, and in [`guarantees`] what a session never does.
//! - The module and its panel: [`faculty`] and [`panel`].
//! - Texts and failures: [`text`], [`sorted`], [`scan`], [`encoding`] and [`failure`].
pub mod answers;
pub mod atomicity;
pub mod command;
pub mod conflict;
pub mod diff;
pub mod edit;
pub mod effects;
pub mod encoding;
pub mod executable;
pub mod faculty;
pub mod failure;
pub mod git;
pub mod glob;
pub mod guarantees;
pub mod inspection;
pub mod listing;
pub mod merges;
pub mod panel;
pub mod patch;
pub mod paths;
pub mod queue;
pub mod read;
pub mod repository;
pub mod review;
pub mod scan;
pub mod script;
pub mod search;
pub mod sorted;
pub mod text;
pub mod transaction;
pub mod workspace;
