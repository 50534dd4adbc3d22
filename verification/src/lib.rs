//! Core logic of a terminal launcher for window-layout scripts: discovering
//! `workspace-*.sh` entries, extracting the workspace number each script
//! declares, driving the selection cursor, and generating new script text.

pub mod script;
pub mod text;
pub mod tui;
pub mod workspace;
