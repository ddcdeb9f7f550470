//! Treemap core for a disk-usage visualizer: a squarified rectangle packer,
//! a recursive layout engine with level-of-detail culling, chain collapsing
//! and cushion-coefficient accumulation, and a CPU cushion rasterizer.
//!
//! All geometry is carried in whole integer pixel units so that every area
//! bound and tiling claim is exact rather than approximate.

pub mod geom;
pub mod tree;
pub mod aggregate;
pub mod layout;
pub mod strutil;
pub mod extensions;
pub mod colors;
pub mod cushion;
pub mod mft;
pub mod nav;
pub mod ui;
pub mod tooltip;
