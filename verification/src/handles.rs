//! GPU resource handles: plain indices into the renderer's tables.

use vstd::prelude::*;

verus! {

/// Handle to an uploaded mesh.
#[derive(Debug, Clone, Copy, PartialEq, Eq, Hash, Structural)]
pub struct MeshHandle(pub u32);

/// Handle to an uploaded texture.
#[derive(Debug, Clone, Copy, PartialEq, Eq, Hash, Structural)]
pub struct TextureHandle(pub u32);

/// Handle to a created material.
#[derive(Debug, Clone, Copy, PartialEq, Eq, Hash, Structural)]
pub struct MaterialHandle(pub u32);

/// Handles that can be compared for identity.
pub trait SameHandle: Copy + Sized {
    /// Whether two handles name the same resource.
    fn same(&self, other: &Self) -> (r: bool)
        ensures
            r == (*self == *other),
    ;
}

impl SameHandle for MeshHandle {
    fn same(&self, other: &Self) -> (r: bool) {
        self.0 == other.0
    }
}

impl SameHandle for TextureHandle {
    fn same(&self, other: &Self) -> (r: bool) {
        self.0 == other.0
    }
}

impl SameHandle for MaterialHandle {
    fn same(&self, other: &Self) -> (r: bool) {
        self.0 == other.0
    }
}

} // verus!
