//! A rule-driven file organizer: rules made of conditions and actions are
//! evaluated against the facts of a file and turned into planned operations;
//! operations are journaled before they run, never overwrite a file, and can
//! be undone batch by batch.
pub mod text;
pub mod pathname;
pub mod templates;
pub mod watcher;
pub mod paths;
pub mod rules;
pub mod journal;
pub mod listing;
pub mod executor;
pub mod service;
pub mod settings;
pub mod store;
pub mod watch;
pub mod ipc;
