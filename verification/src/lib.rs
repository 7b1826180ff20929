//! tig: a small git-like version control system. This library holds its
//! object formats, repository metadata parsing, ignore rules, configuration
//! handling and line diff, each with its contract.
pub mod error;
pub mod utils;
pub mod models;
pub mod commands;
