//! Verified core of a tool that keeps a private layer of personal files in a
//! Git repository: the exclude file, the configurations, and the decisions
//! of synchronization.
pub mod text;
pub mod paths;
pub mod exclude;
pub mod strlist;
pub mod directory_config;
pub mod repo_config;
pub mod matcher;
pub mod overlay_directory;
pub mod sync_decision;
pub mod base_repository;
pub mod info;
pub mod overlay;
pub mod sync;
