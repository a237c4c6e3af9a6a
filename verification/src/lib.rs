//! Synthesizes a regular expression that matches exactly a given finite set
//! of example strings, and renders it in several configurable surface forms
//! (compact, capturing or non-capturing, colorized, verbose).

pub mod ast;
pub mod canon;
pub mod cluster;
pub mod config;
pub mod regexp;
pub mod unicode;
pub mod verbose;
