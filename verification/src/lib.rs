//! Deterministic cross-platform command translation: the command store,
//! its on-disk index and data formats, detection, translation and the
//! safety decisions of the interactive shell.
pub mod data_paths;
pub mod desktop;
pub mod detector;
pub mod executor;
pub mod explainer;
pub mod fixer;
pub mod output;
pub mod platform;
pub mod rules;
pub mod safety;
pub mod shell;
pub mod store;
pub mod text;
pub mod translator;
