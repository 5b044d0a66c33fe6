//! Verified core of a desktop monitor for coding-agent sessions.

pub mod status;
pub mod json;
pub mod text;
pub mod layout;
pub mod office;
pub mod parser;
pub mod agents;
pub mod settings_writer;
pub mod pricing;
pub mod snapshots;
pub mod ui;
pub mod watcher;
pub mod hooks;
pub mod currency;
pub mod prefs;
pub mod render;
pub mod usage;
pub mod order;
pub mod groups;
pub mod world;
