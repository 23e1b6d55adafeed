//! Core of a modal, multi-client text editor built on a client/server
//! architecture: line-oriented buffers with byte-indexed positions,
//! multi-cursor selections with deterministic sort-and-merge, an undo/redo
//! history of primitive edits, a double-buffered editor event queue, the
//! key and wire protocol between client and server, and the decision core
//! of the server's readiness loop.

pub mod buffer;
pub mod client;
pub mod collection;
pub mod content;
pub mod cursor;
pub mod display;
pub mod events;
pub mod help;
pub mod history;
pub mod key;
pub mod keymap;
pub mod lsp;
pub mod mode;
pub mod pathpos;
pub mod pattern;
pub mod syntax;
pub mod position;
pub mod protocol;
pub mod register;
pub mod server;
pub mod text;
pub mod word;
pub mod worddb;
