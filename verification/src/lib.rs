//! Expansion engine for JSON workspace templates.
//!
//! A template is a JSON document whose strings and object keys may carry a
//! small macro language: named-value substitution from a `gen.globals`
//! dictionary, in-place splicing and merging, platform gating through
//! `gen.os`, environment-variable interpolation, and extraction of an
//! embedded side document under `gen.cmakepresets`.

pub mod config;
pub mod interp;
pub mod laws;
pub mod project;
pub mod qt;
pub mod render;
pub mod value;
pub mod workspace;

pub use value::Value;
