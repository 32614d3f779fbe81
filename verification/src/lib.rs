//! The *multilevel voxel table* (MVT), a data structure for fast collision checking between spheres
//! and point clouds.
//!
//! If you use this in an academic work, please cite it as follows:
//!
//! ```bibtex
//! @inproceedings{chen2026vcc,
//!  author    = {Ching Chen and Tsung-Tai Yeh},
//!  title     = {VCC: Efficient Voxel-Based Collision Checking Framework for Real-Time Robotic
//!               Motion Planning},
//!  booktitle = {IEEE International Conference on Robotics and Automation (ICRA)},
//!  year      = {2026},
//! }
//! ```
//!
//! The core data structure in this library is the [`Mvt`], a sparse voxel grid used for collision
//! checking. [`Mvt`]s are polymorphic over dimension and coordinate type. On construction, they
//! take in a list of points in a point cloud and a voxel width used to size the grid's voxels. Once
//! you have an [`Mvt`], you can use it for collision-checking against spheres, one at a time or in
//! batches.
//!
//! [`Mvt`] is immutable once built. If you need to insert new points after construction, use
//! [`MutableMvt`] instead, which supports [`MutableMvt::insert`] and
//! [`MutableMvt::insert_points`] at some cost to query performance.
//!
//! What a table holds, and what a query against it answers, is stated over a
//! [`VoxelGrid`](voxel_grid::VoxelGrid). How that answer compares with checking every point is
//! stated in [`laws`] and [`exact`], when a table can be built in [`construction`], and where its
//! points go in [`sizing`] and [`storing`]. The laws of the point-cloud filters are in [`cells`] and
//! [`thinning`], those of the tree searches in [`routing`].

pub mod aabb;
pub mod accounting;
pub mod agreement;
pub mod axis;
pub mod capt_search;
pub mod cells;
pub mod choosing;
pub mod clouds;
pub mod construction;
pub mod exact;
pub mod filter;
pub mod grid;
pub mod immutable;
pub mod index;
pub mod kd_search;
pub mod lattices;
pub mod laws;
pub mod layout;
pub mod listing;
pub mod manifest;
pub mod memory;
pub mod mutable;
pub mod mvt_cpp;
pub mod mvt_trace;
pub mod occupancy;
pub mod placement;
pub mod planning;
pub mod pointcloud;
pub mod pool;
pub mod recording;
pub mod replay;
pub mod report;
pub mod robots;
pub mod room;
pub mod routing;
pub mod rows;
pub mod runs;
pub mod scan;
pub mod shapes;
pub mod simd;
pub mod sizing;
pub mod sorting;
pub mod splitting;
pub mod storing;
pub mod structure;
pub mod sweep;
pub mod text;
pub mod thinning;
pub mod tree;
pub mod viz;
pub mod voxel_grid;
pub mod walking;
pub mod window;
pub mod workload;
pub mod workspaces;

pub use axis::Axis;
pub use immutable::{Mvt, NewMvtError};
pub use index::Index;
pub use mutable::{InsertError, MutableMvt, NewMutableMvtError};
pub use simd::{AxisSimd, AxisSimdElement};
