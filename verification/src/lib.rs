//! Core logic of a terminal multiplexer with a window sidebar: the pane
//! layout tree, key handling, configuration parsing and the application
//! state machine that drives panes and windows.

pub mod config;
pub mod event;
pub mod input;
pub mod layout;
pub mod notification;
pub mod process;
pub mod render;
pub mod text;
pub mod window;
pub mod app;
pub mod screen;
pub mod sidebar;
