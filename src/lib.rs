//! Bounding volume hierarchies over triangles: the tree layouts, their
//! invariants, and the operations on them: top-down construction,
//! compaction, leaf coverage, conversion to the linked, 4-wide and 8-wide layouts,
//! refit, and the bookkeeping of which layouts exist.
//!
//! Node boxes are a type parameter. The tree logic moves boxes around and
//! hands them to caller-supplied functions (a union for refit, a surface
//! area ranking for the 4-wide collapse, a split plan for construction),
//! and never looks inside one.
pub mod builder;
pub mod errors;
pub mod hierarchy;
pub mod layouts;
pub mod node;
pub mod primitives;

pub use errors::{BVHBuildError, BVHCompactError, BVHLayoutType, MissingLayout};
pub use hierarchy::{BVHConvertError, Hierarchy};
pub use layouts::{verbose, wald, wide, Capture};
pub use node::NodeId;
