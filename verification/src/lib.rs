//! A package-manager engine for editor extension packages: the lock-file
//! model, semantic-version ranges, the dependency resolution pass, and the
//! mark-and-sweep cleanup, each with a verified contract. Reading and
//! writing files, talking to a registry, and materializing payloads on disk
//! are the caller's work; the engine computes over plain values.

pub mod semver;
pub mod version_text;
pub mod ranges;
pub mod unity;
pub mod descriptor;
pub mod manifest;
pub mod project;
pub mod resolve;
pub mod gui_config;
