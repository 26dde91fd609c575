//! Layered configuration resolution: a configuration file, environment
//! variables and explicit overrides are merged, in that order of precedence,
//! into one typed configuration.

pub mod cli;
pub mod conf;
pub mod error;
pub mod idempotence;
pub mod laws;
pub mod merge;
pub mod scan;
pub mod select;
pub mod source;
pub mod text;
pub mod value;
pub mod yaml;

pub use cli::{parse_key_val, Cli};
pub use conf::{load_config, CacheConfig, CacheLocation, Config, SourceRoot};
pub use error::ConfigError;
pub use scan::{format_path, get_source_directories, is_source_dir};
pub use select::selected_directory;
pub use source::{load_config_from_env, screaming_snake_to_camel};
