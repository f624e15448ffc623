use vstd::prelude::*;

verus! {

/// The node layouts that a hierarchy can be held in.
#[derive(Clone, Copy, Debug, PartialEq, Eq, Structural)]
pub enum BVHLayoutType {
    /// Binary tree of 32-byte nodes, sibling pairs stored side by side.
    Wald32Byte,
    /// Binary tree with both child boxes stored in the parent.
    AilaLaine,
    /// Binary tree with child boxes in structure-of-arrays form.
    AltSoa,
    /// Binary tree with explicit right child and parent links.
    Verbose,
    /// 4-wide tree.
    BasicBVH4,
    /// 4-wide tree packed for GPU traversal.
    BVH4Gpu,
    /// 4-wide tree in the SIMD-friendly layout.
    BVH4Afra,
    /// 8-wide tree.
    BasicBVH8,
    /// 8-wide tree with quantized child boxes.
    CWBVH,
}

/// A layout was asked for before it was produced by a build or a conversion.
#[derive(Clone, Copy, Debug, PartialEq, Eq, Structural)]
pub struct MissingLayout(pub BVHLayoutType);

impl MissingLayout {
    pub fn new(layout: BVHLayoutType) -> (r: Self)
        ensures
            r.0 == layout,
    {
        MissingLayout(layout)
    }

    /// The layout that has to be produced first (by converting to it).
    pub fn layout(&self) -> (r: BVHLayoutType)
        ensures
            r == self.0,
    {
        self.0
    }
}

/// Why a compaction was refused; the tree is left as it was.
#[derive(Clone, Copy, Debug, PartialEq, Eq, Structural)]
pub enum BVHCompactError {
    /// The layout has no compaction.
    UnsupportedLayout(BVHLayoutType),
    /// The layout has not been produced yet.
    MissingLayout(BVHLayoutType),
}

impl BVHCompactError {
    /// The layout that the refused operation was about.
    pub fn layout(&self) -> (r: BVHLayoutType)
        ensures
            r == match *self {
                BVHCompactError::UnsupportedLayout(l) => l,
                BVHCompactError::MissingLayout(l) => l,
            },
    {
        match *self {
            BVHCompactError::UnsupportedLayout(l) => l,
            BVHCompactError::MissingLayout(l) => l,
        }
    }
}

impl From<MissingLayout> for BVHCompactError {
    fn from(value: MissingLayout) -> (r: Self) {
        BVHCompactError::MissingLayout(value.0)
    }
}

impl vstd::std_specs::convert::FromSpecImpl<MissingLayout> for BVHCompactError {
    open spec fn obeys_from_spec() -> bool {
        true
    }

    open spec fn from_spec(v: MissingLayout) -> BVHCompactError {
        BVHCompactError::MissingLayout(v.0)
    }
}

/// The position buffer handed to a build cannot be read as triangles.
#[derive(Clone, Copy, Debug, PartialEq, Eq, Structural)]
pub enum BVHBuildError {
    /// The number of positions (given) is not a multiple of three.
    NotTriangulated(usize),
    /// The number of triangles does not fit a 32-bit primitive index.
    TooManyPrimitives(usize),
}

} // verus!
