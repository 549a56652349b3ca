//! A verified slicing kernel.
//!
//! The kernel turns a triangulated solid into a stack of binary raster
//! layers, one per horizontal cutting plane:
//!
//! * [`planner`] moves the mesh to the origin of its bounding box and sweeps
//!   along z, handing out for every plane the triangles that the plane cuts;
//! * [`slicer`] cuts one triangle with one plane and collects the segments
//!   of the contour;
//! * [`raster`] sweeps along x and fills the inside of the contour by the
//!   winding number of its cells;
//! * [`pipeline`] puts these together, from a mesh to its layers;
//! * [`contours`] and [`surface`] show that closed contours, and so the cuts
//!   of closed surfaces, are always filled without failure.
//!
//! All coordinates are whole numbers of units, [`geometry::UNITS_PER_PIXEL`]
//! of which make up the side of a raster cell.  Every function carries a
//! contract over mathematical integers, sequences and sets, and every
//! contract is proved.

pub mod boundingbox;
pub mod contours;
pub mod error;
pub mod events;
pub mod geometry;
pub mod layer;
pub mod pipeline;
pub mod planner;
pub mod raster;
pub mod slicer;
pub mod sorting;
pub mod surface;
pub mod sweep;
