//! Combines the source files of a project into one XML document.
pub mod text;
pub mod paths;
pub mod graph;
pub mod patterns;
pub mod config;
pub mod json;
pub mod dependency_resolver;
pub mod typescript_resolver;
pub mod processor;
