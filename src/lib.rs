//! A small interactive shell: its lexer, pipeline builder and execution plans.
pub mod text;
pub mod lexer;
pub mod commands;
pub mod context;
pub mod job;
pub mod readline;
