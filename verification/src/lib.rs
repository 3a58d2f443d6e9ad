//! A combined CPU, memory and GPU monitor for the terminal: the metrics, the
//! configuration, the hooks, the keys and the screens. Reading the machine,
//! running commands and drawing on the terminal are left to the caller.

pub mod args;
pub mod chars;
pub mod config;
pub mod hooks;
pub mod metrics;
pub mod num;
pub mod scan;
pub mod sort;
pub mod style;
pub mod text;
pub mod ui;

use vstd::prelude::*;

verus! {

pub const VERSION: &'static str = "3.0.0";

} // verus!
