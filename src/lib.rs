//! Release-note accumulation: a deduplicating store of changelog entries,
//! its flat persisted form, and the logic around fetching pull requests.

pub mod one_or_many;
pub mod state;
pub mod map_to_list;
pub mod text;
pub mod tera_functions;
pub mod config;
pub mod github_api;
pub mod changelog;
pub mod cli;
