//! Markdown chapter numbering.
//!
//! A document is parsed into an outline tree keyed by heading depth
//! ([`parser`]); the tree can then be numbered ([`numbering`]), checked for
//! heading syntax and level skips ([`validator`]) and written back to text
//! ([`renderer`]). Clean heading titles come from [`title`].

pub mod config;
pub mod error;
pub mod mst;
pub mod numbering;
pub mod parser;
pub mod paths;
pub mod renderer;
pub mod text;
pub mod title;
pub mod tools;
pub mod validator;
