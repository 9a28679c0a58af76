//! A development server for static web content with hot reload: the decisions,
//! formats and state machines behind serving, injecting and reloading.

pub mod calendar;
pub mod text;
pub mod listing;
pub mod handler;
pub mod reloader;
pub mod watcher;
pub mod websocket;
pub mod util;
pub mod inject;
pub mod run;
pub mod args;
