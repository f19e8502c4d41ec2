//! Debian package index, OTA channel catalog and schema mirrors: the
//! parsing, dependency and catalog rules, with their contracts.

pub mod text;
pub mod version;
pub mod depends;
pub mod control;
pub mod graph;
pub mod client;
pub mod deb_paths;
pub mod push;
pub mod listing;
pub mod sort;
pub mod packages;
pub mod dbc;
pub mod sync;
pub mod catalog;
pub mod bundles;
pub mod config;
pub mod api;
pub mod templates;
pub mod archive;
pub mod inspect;
pub mod round_trip;
