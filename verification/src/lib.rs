//! SysWatcher - system monitoring library
//!
//! Core functionality for monitoring and controlling processes: parsers for
//! the `/proc` filesystem, process control (suspend, resume, kill), the
//! process tree view, and the dashboard's key handling and formatting.
//!
//! # Modules
//!
//! - [`parsers`]: parsing functions for /proc filesystem data
//! - [`process_controller`]: process control operations (suspend, resume, kill)
//! - [`system_interface`]: trait-based abstraction over OS interactions
//! - [`metrics`]: sampled figures and their arithmetic and text
//! - [`table`]: the layout of the process table
//! - [`tree`]: the process tree view
//! - [`ui`]: the dashboard's keys, answers, selection window and texts
//! - [`text`]: character-level text handling

pub mod metrics;
pub mod parsers;
pub mod process_controller;
pub mod system_interface;
pub mod table;
pub mod text;
pub mod tree;
pub mod ui;

pub use metrics::{MemInfo, SortKey};
pub use process_controller::ProcessController;
pub use system_interface::{MockSystem, SignalKind, SystemError, SystemInterface};
