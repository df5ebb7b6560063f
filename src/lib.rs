//! Assembles one configuration tree out of several sources: environment
//! variables, files, defaults, command-line values and overrides, merged by
//! precedence; nested configurable types compose their prefixes.

pub mod text;
pub mod tree;
pub mod coerce;
pub mod environment;
pub mod compose;
pub mod laws;

pub use compose::{ConfigError, ConfigSpec, FieldSpec, Sources};
pub use environment::{Environment, Source};
pub use tree::{MergeStrategy, Value};
