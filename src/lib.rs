//! Feature-switch configuration for a multi-package build: schema
//! validation, switch-to-feature mapping, optional-dependency extern
//! resolution, compiler-invocation rewriting and cache fingerprints.
pub mod text;
pub mod schema;
pub mod mapper;
pub mod resolve;
pub mod intercept;
pub mod encode;
pub mod settings;
