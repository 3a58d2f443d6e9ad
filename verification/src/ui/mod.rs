//! Renders the dashboard: a host header, gauges, a braille utilization history
//! chart, optional per-core bars, an all-filesystems disk view, a full-screen
//! network view of live connections, and an interactive process table.

pub mod app;
pub mod bars;
pub mod braille;
pub mod charts;
pub mod controls;
pub mod corebars;
pub mod disktable;
pub mod gauge;
pub mod history;
pub mod input;
pub mod keys;
pub mod list;
pub mod nettable;
pub mod panels;
pub mod proctable;
pub mod render;
pub mod screen;
pub mod tick;

pub use app::App;
pub use controls::clamp_interval;
