//! Core of a text editor: buffers, cursors, selections, undo history,
//! bookmarks, sessions, a unified-diff parser and the bookkeeping around a
//! per-project edit history.

pub mod error;
pub mod text;
pub mod order;
pub mod lines;
pub mod rope;
pub mod buffer;
pub mod editor;
pub mod cursor;
pub mod selection;
pub mod history;
pub mod bookmark;
pub mod command;
pub mod diff_parser;
pub mod git_history;
pub mod history_browser;
pub mod session;
