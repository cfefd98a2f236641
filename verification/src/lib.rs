//! Planning core of a symlink-farm manager.
//!
//! Given a snapshot of one or more package source trees and of their mirrored
//! locations under a single target tree, the library decides, path by path,
//! which symlinks must be created (stow) or are safe to remove (unstow), and
//! detects conflicts before any plan is handed to an apply step.  Paths are
//! modelled as vectors of components; reading the filesystem into a snapshot
//! and applying a finished plan are left to the caller.

pub mod aggregate;
pub mod error;
pub mod laws;
pub mod paths;
pub mod plan;
pub mod stow;
pub mod tree;
pub mod unstow;

pub use aggregate::concat_unstow_lists;
pub use aggregate::merge_stow_lists;
pub use aggregate::stow_packages;
pub use aggregate::unstow_packages;
pub use aggregate::Package;
pub use error::Error;
pub use error::ErrorView;
pub use paths::SourceTargetDiff;
pub use plan::StowPlan;
pub use stow::new_stow_list;
pub use unstow::new_unstow_list;
pub use tree::Pair;
pub use tree::SourceInfo;
pub use tree::TargetInfo;
