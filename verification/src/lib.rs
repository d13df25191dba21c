//! Synchronisation of cookies from a CookieCloud server: the configuration of
//! export specs, the decryption of the server's payload, and the decisions of a
//! sync round.

pub mod text;
pub mod paths;
pub mod domains;
pub mod config;
pub mod decrypt;
pub mod client;
pub mod sync;
pub mod cookiefile;

pub use config::{
    build_config, merge_exports, parse_export_env, parse_export_spec, resolve_export_paths, Config,
    ConfigError, ExportSpec, OutputFormat, DEFAULT_FORMAT, DEFAULT_INTERVAL,
};
pub use domains::DomainSet;
pub use client::EncryptedResponse;
