//! Verified core of a CKAN metadata explorer and catalog sidecar generator.

pub mod text;
pub mod order;
pub mod json;
pub mod model;
pub mod version;
pub mod archive;
pub mod module_entry;
pub mod keymap;
pub mod catalog;
pub mod counting;
pub mod export_file;
pub mod catalog_laws;
pub mod parser;
pub mod clock;
pub mod compare;
pub mod repository_cache;
pub mod relations;
pub mod queries;
pub mod display;
pub mod timing;
pub mod parse_laws;
