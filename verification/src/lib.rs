//! `st` — a library for working with stacked branches and their chained
//! pull requests on a remote host.
//!
//! The core of the library is the branch tree: a store of tracked branches
//! linked by parent/child edges, rooted at the trunk. On top of it sit the
//! stack resolver, the cleanliness checks, the fork-target resolution, the
//! submission planner and the navigation-comment renderer. All decisions are
//! made here, over plain values; reading refs, pushing branches, talking to
//! the remote host and prompting the user are left to the binary around the
//! library.

pub mod cli;
pub mod comment;
pub mod config;
pub mod ctx;
pub mod delete;
pub mod errors;
pub mod giturl;
pub mod set;
pub mod stack;
pub mod submit;
pub mod tree;

pub use errors::StError;
