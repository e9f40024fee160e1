//! The core of an in-memory key-value server speaking a subset of RESP2.
//!
//! - `parser`: streaming request parser; `reply` and `value`: RESP2 values
//!   and their wire form.
//! - `store`: one database of typed values; `database`: the fleet of them.
//! - `glob`: glob patterns for `KEYS` and `COMMAND LIST`.
//! - `acl`, `command`: ACL categories and the command registry.
//! - `connection`: connection identifiers and per-connection state.
//! - `controller`: the dispatcher that ties them together.
//! - `text`: decimal rendering and parsing, ASCII case folding.
pub mod acl;
pub mod command;
pub mod connection;
pub mod controller;
pub mod database;
pub mod glob;
pub mod parser;
pub mod reply;
pub mod store;
pub mod text;
pub mod value;
