//! Layered configuration with provenance: every leaf of a configuration
//! remembers which source set its value and which earlier values it
//! overrode.
//!
//! A [`Schema`] lists the leaves of a configuration struct with their kinds
//! and compiled-in defaults. A [`Config`] lists sources in the order they
//! apply: in-memory JSON and TOML documents, environment variables under a
//! prefix, a command-line partial, or a document of the user's own.
//! [`Config::build`] reads every source against the schema and layers what
//! each sets over the defaults into a [`Prov`], where each leaf's
//! [`ValueHistory`] holds the default and every value set after it.
pub mod category;
pub mod config;
pub mod env;
pub mod json;
pub mod laws;
pub mod node;
pub mod prov;
pub mod schema;
pub mod text;
pub mod toml;

pub use category::{defaults_source, Category, SourceInfo};
pub use config::{CliSource, Config, ConfigError, CustomSource, Source};
pub use env::EnvSource;
pub use json::JsonStr;
pub use node::Node;
pub use prov::{HistoryEntry, LeafProv, LeafVisit, Prov, SourcesMap, ValueHistory};
pub use schema::{deserialize_env_list, Field, Key, Leaf, LeafKind, Partial, Schema, Section, Setting};
pub use crate::toml::TomlStr;
