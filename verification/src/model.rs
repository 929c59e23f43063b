//! A loaded model: its voxels and the extent of their bounding box.

use vstd::prelude::*;
use crate::geometry::Extent;
use crate::voxel::Voxel;

verus! {

/// A sequence of voxels, in the order in which they were read, with a bounding extent.
pub struct Model {
    voxels: Vec<Voxel>,
    size: Extent,
}

impl Model {
    pub closed spec fn spec_voxels(&self) -> Seq<Voxel> {
        self.voxels@
    }

    pub closed spec fn spec_size(&self) -> Extent {
        self.size
    }

    pub fn from_voxels(voxels: Vec<Voxel>, size: Extent) -> (model: Self)
        ensures
            model.spec_voxels() == voxels@,
            model.spec_size() == size,
    {
        Model { voxels, size }
    }

    #[verifier::when_used_as_spec(spec_size)]
    pub fn size(&self) -> (size: Extent)
        ensures
            size == self.spec_size(),
    {
        self.size
    }

    pub fn voxels(&self) -> (voxels: &Vec<Voxel>)
        ensures
            voxels@ == self.spec_voxels(),
    {
        &self.voxels
    }
}

} // verus!
