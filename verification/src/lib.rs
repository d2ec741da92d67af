//! The logic of the `uliab` build tool.
//!
//! `uliab` evaluates a project's `.ulb` files into a generic module model and
//! leaves all Java, Kotlin and Android work to plugins. This library is what
//! the tool decides and computes on the way: the Maven resolver ([`maven`]),
//! the plugin registry client ([`registry`]), the task graph and the
//! incremental task engine ([`task`]), the course of a build ([`driver`]), what
//! a project's files amount to ([`project`]), project scaffolding ([`init`])
//! and the command line ([`cli`]).
//!
//! The library reads no file and opens no connection. Where a decision depends
//! on the outside, a function takes what is known so far and says what is
//! needed next; the caller gets it and asks again.

pub mod cli;
pub mod command_laws;
pub mod digest;
pub mod driver;
pub mod init;
pub mod json;
pub mod json_laws;
pub mod maven;
pub mod project;
pub mod registry;
pub mod registry_laws;
pub mod task;
pub mod text;
pub mod text_laws;
pub mod text_map;
pub mod value;
