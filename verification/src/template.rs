//! Template rule sets for specific languages.

pub mod ja;
