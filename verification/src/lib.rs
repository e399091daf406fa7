//! Shared machinery for a family of standalone MCP tool servers.
//!
//! Each tool server is a thin crate around a group of tools. What the servers
//! have in common lives here: the options and what they allow, the squashing of
//! all tools into one, timeouts, authentication, the confinement of paths to
//! permitted directories, the capture of large output, and the merging of
//! several groups into one.
//!
//! Nothing in this crate touches the system. What the file system, the
//! environment or a tool has to say is handed in as a value, and what is to be
//! done about it is handed back.

pub mod auth;
pub mod cli;
pub mod components;
pub mod composite;
pub mod content;
pub mod join_laws;
pub mod json;
pub mod path_laws;
pub mod paths;
pub mod sandbox;
pub mod server;
pub mod single;
pub mod single_laws;
pub mod spill;
pub mod spill_laws;
pub mod startup;
pub mod text;
pub mod tool;
pub mod written_laws;

pub use cli::{ServerOptions, Transport};
pub use composite::{Composite, Member};
pub use server::ToolServer;
pub use startup::StartupError;
pub use tool::{
    ensure_timeout_property, requested_timeout, strip_timeout, ToolDef, ToolFailure, ToolOutput,
    ToolResult,
};
