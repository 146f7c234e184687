//! Verified core of a disk-usage analyser with a cushion treemap view.
//!
//! The library holds the integer logic of the analyser: colour
//! normalisation for the palette and the cushion shading, hard-link
//! filtering during a scan, the choice of units when sizes are shown,
//! the walk configuration, and the algorithms that read and edit the
//! scanned directory tree.

pub mod palette;
pub mod cushion;
pub mod highlight;
pub mod inode_filter;
pub mod units;
pub mod walk;
pub mod tree;
pub mod order;
pub mod extension_index;
pub mod tree_panel;
pub mod tree_edit;
pub mod graft;
pub mod throttle;
pub mod tiles;
pub mod sizes;
pub mod totals;
