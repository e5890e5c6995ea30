//! Version-control hook management: a validated hook configuration, the
//! managed-file protocol used to install generated hook scripts, and the
//! decision logic of the engine that runs the configured commands.

pub mod config;
pub mod executor;
pub mod installer;
pub mod platform;
pub mod text;

pub use crate::config::Error;
pub use crate::config::SmeeConfig;
pub use crate::installer::install_hooks;

use vstd::prelude::*;

verus! {

/// File name of the configuration document at the repository root.
pub const DEFAULT_CONFIG_FILE_NAME: &'static str = ".git-smee.toml";

} // verus!
