//! Chart-rendering and refresh engine for a terminal view of one metrics query.
//!
//! The crate turns the series returned by a range query into a bounded,
//! labelled, multi-series line chart, and decides when the loop that redraws
//! it waits, ticks and stops. Numbers are decimal fixed-point values, so every
//! step from the response text to the chart description is exact.

pub mod decimal;
pub mod labels;
pub mod config;
pub mod prometheus;
pub mod time_utils;
pub mod ui;
pub mod render_loop;
pub mod dashboards;
