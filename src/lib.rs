//! Renders a snapshot of counters, gauges and histograms as an indented text
//! tree, grouped by the dot-separated segments of each metric name and sorted
//! alphabetically at every level.
pub mod key;
pub mod observer;
pub mod outside;
pub mod text;
pub mod tree;
