//! Loading, validating, selecting, and exporting cross-platform process-name rules.

pub mod text;
pub mod platform;
pub mod outside;
pub mod region;
pub mod collection;
pub mod application;
pub mod catalog;
pub mod diagnostic;
pub mod loader;
pub mod error;
pub mod output;
pub mod command;
