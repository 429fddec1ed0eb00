//! Core of an interactive command-line shell: lexing of input lines into
//! pipelines of commands with quoting and redirection, a prefix-tree
//! completion index, history with cursor navigation, the line-editor state
//! machine, and the routing rules that decide where each command's output
//! goes. All decisions are made here; the thin binary around this library
//! performs the actual terminal, file and process work.

pub mod ansi_codes;
pub mod args;
pub mod command;
pub mod error;
pub mod history;
pub mod input;
pub mod pipeline;
pub mod strutil;
pub mod tab_completions;
pub mod trie;
pub mod utils;
pub mod writer;

pub use history::History;
pub use history::HistoryNavigation;
