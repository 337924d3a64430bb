//! The logic of the visual designer: project tree, open tabs, editing,
//! inspecting and previewing documents.

pub mod app;
pub mod chrome;
pub mod document;
pub mod editor;
pub mod editor_laws;
pub mod event_laws;
pub mod events;
pub mod frame;
pub mod inspector;
pub mod mirror;
pub mod model;
pub mod node_laws;
pub mod nodes;
pub mod paths;
pub mod preview;
pub mod project_laws;
pub mod snapshot;
pub mod state;
pub mod step_laws;
pub mod steps;
pub mod tabs;
pub mod virtual_fs;
pub mod watcher;
