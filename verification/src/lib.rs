//! Hygiene checks for Mintlify-style documentation trees: frontmatter,
//! prose, file names and navigation registration.

pub mod text;
pub mod frontmatter;
pub mod pathx;
pub mod finding;
pub mod markdown;
pub mod dashes;
pub mod autofix;
pub mod globs;
pub mod config;
pub mod nav;
pub mod lint;

pub use config::{resolve, ConfigFile, ResolvedConfig};
pub use finding::{Finding, Severity};
