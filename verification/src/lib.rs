//! Verified core of a Neovim Todoist plugin: the Markdown buffer format, the
//! diff between an edited buffer and the last fetched snapshot, and the
//! rendering of projects, sections and tasks.
pub mod text;
pub mod models;
pub mod parser;
pub mod sync;
pub mod outline;
pub mod fetch;
pub mod plain;
pub mod api;
pub mod readback;
