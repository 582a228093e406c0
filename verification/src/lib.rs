//! Etanol: the verified core of a Kotlin language server.
//!
//! The server itself (the protocol plumbing, the `kotlinc` process, the file
//! system) lives in `app/`; this crate holds the decisions and text
//! processing that the server performs, each with a contract.
pub mod text;
pub mod fixtures;
pub mod pattern;
pub mod completion;
pub mod diagnostics;
pub mod documents;
pub mod temp_file;
pub mod capabilities;
pub mod nix;
