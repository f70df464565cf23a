//! Rewrites the marked lines of configuration files from a theme's values.
pub mod text;
pub mod scanner;
pub mod errors;
pub mod directive;
pub mod config;
pub mod arguments;
pub mod matching;
pub mod functions;
pub mod engine;
