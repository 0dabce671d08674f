//! Harbor: the rules that decide where files landing in watched folders
//! go, and the decisions of the daemon that moves them.
//!
//! - `config`: combining folder, default and rule settings.
//! - `rules`: compiled rules, first-match selection, destinations.
//! - `mime`: MIME detection from leading bytes and file names.
//! - `daemon`: which watcher reports to queue, what to do with reported
//!   paths, waiting for files to settle.
//! - `dispatch`: the daemon's main loop as a state machine.
//! - `table`: the summary report of organized files.
//! - `files`: destination and alternative names of organized files.
//! - `cli`: the command line.
//! - `path`, `text`, `vars`, `calendar`, `glob`: supporting models.
pub mod calendar;
pub mod cli;
pub mod config;
pub mod daemon;
pub mod dispatch;
pub mod files;
pub mod glob;
pub mod mime;
pub mod path;
pub mod rules;
pub mod table;
pub mod text;
pub mod vars;
