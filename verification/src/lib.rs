//! Configuration parameters from YAML documents, kept as one flat collection: each leaf of
//! the nested documents is stored under the path of its keys, joined by dots, as in
//! `user.name`.
//!
//! - [`tree`]: the document type and its mathematical model.
//! - [`path`]: paths, their segments and the separator.
//! - [`flatten`]: from a nested document to the flat collection.
//! - [`nesting`]: what the flat collection keeps of the nesting.
//! - [`yaml`]: documents read from text by `serde_yaml`.
//! - [`parameters`]: the collection of a file, or of a directory of files.
//! - [`config`]: the configuration and its typed getters.

pub mod config;
pub mod flatten;
pub mod nesting;
pub mod parameters;
pub mod path;
pub mod tree;
pub mod yaml;

pub use config::{Config, ConfigError, Expected, Number};
pub use parameters::Source;
pub use tree::{Key, ValueTree};
