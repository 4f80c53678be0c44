//! Core logic of a command-line reader for Hacker News, Reddit and an AI chat
//! service: what is requested from each service, how answers are read, and
//! what is shown of them.

pub mod config;
pub mod display;
pub mod fetch;
pub mod number;
pub mod repl;
pub mod text;
