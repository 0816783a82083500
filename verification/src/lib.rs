//! Verified core of a terminal multiplexer server.

pub mod attach;
pub mod cli;
pub mod coalescing;
pub mod connection_tasks;
pub mod consent;
pub mod dec2026;
pub mod extension_events;
pub mod extension_install;
pub mod extension_laws;
pub mod extension_manager;
pub mod file_access;
pub mod file_pages;
pub mod grid_sync;
pub mod grid_wire;
pub mod host_answers;
pub mod host_bridge;
pub mod host_settings;
pub mod json;
pub mod json_documents;
pub mod json_text;
pub mod layout;
pub mod layout_laws;
pub mod layout_messages;
pub mod layout_model;
pub mod layout_persist;
pub mod layout_refusals;
pub mod layout_wire;
pub mod lines;
pub mod numbers;
pub mod osc;
pub mod palette;
pub mod pane;
pub mod pane_access;
pub mod pane_requests;
pub mod paths;
pub mod pattern;
pub mod persistence;
pub mod protocol;
pub mod pty;
pub mod ratio;
pub mod recovery;
pub mod registry;
pub mod request_messages;
pub mod rt;
pub mod server_settings;
pub mod session;
pub mod session_laws;
pub mod shell_markers;
pub mod startup;
pub mod term_grid;
pub mod term_snapshot;
pub mod text;
pub mod text_order;
pub mod unicode;
pub mod viewports;
