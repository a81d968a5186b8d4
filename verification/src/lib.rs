//! stranger — audit a dependency tree without installing, resolving, or
//! phoning anything.

pub mod cli;
pub mod corpus;
pub mod diff;
pub mod distance;
pub mod error;
pub mod json;
pub mod lock;
pub mod report;
pub mod rules;
pub mod semver;
pub mod term;
pub mod text;
pub mod toml;
pub mod tree;
pub mod walk;
pub mod yaml;
