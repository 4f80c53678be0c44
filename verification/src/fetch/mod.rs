//! The three services the program reads: the chat completion service, Hacker
//! News and Reddit.

pub mod ai;
pub mod hn;
pub mod json;
pub mod rd;
pub mod stream;
