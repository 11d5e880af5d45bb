//! Reading Cargo manifests and lock files for an editor: the declarations of
//! a manifest with the byte ranges where they are written, the checks run on
//! them, the texts offered as hovers, completions and code actions, version
//! arithmetic, and the registry and crate data the editor looks up.
use vstd::prelude::*;

pub mod text;
pub mod order;
pub mod rust_version;
pub mod version_string;
pub mod registry;
pub mod crate_info;
pub mod tree;
pub mod toml;
pub mod manifest;
pub mod positioned;
pub mod raw;
pub mod structure;
pub mod sorted;
pub mod info_api;
pub mod offline;
pub mod analyze;
pub mod lock;
pub mod assist;
pub mod position;
pub mod config;
pub mod daemon_config;
pub mod dom;
pub mod readable;
pub mod hints;
pub mod document;
pub mod formatting;
pub mod generate_tree;
pub mod static_structure;
pub mod cache;
pub mod requests;
pub mod search_index;
pub mod offline_store;
pub mod entry_completion;
pub mod entry_actions;
