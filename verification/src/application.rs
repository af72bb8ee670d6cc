//! Command/query surface over the port: write intentions, read models and
//! the handlers that validate them.

pub mod commands;
pub mod handlers;
pub mod queries;
