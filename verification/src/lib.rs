//! A directory-tree visualizer's verified core: listing filters and
//! ordering, tree construction with depth bounds, single-chain
//! collapsing, text/JSON/CSV rendering, and the interactive browser's
//! navigation state machine. Filesystem and terminal I/O live outside.

use vstd::prelude::*;

pub mod browser;
pub mod builder;
pub mod json;
pub mod jsonparse;
pub mod laws;
pub mod csvexport;
pub mod fsmodel;
pub mod lister;
pub mod names;
pub mod render;
pub mod sorting;
pub mod text;
pub mod tree;

verus! {

} // verus!
