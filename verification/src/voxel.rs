//! The data unit of a model: one coloured lattice cell.

use vstd::prelude::*;
use crate::geometry::{pack_rgb, Color, Position};

verus! {

/// A lattice position together with its colour.
#[derive(Clone, Copy, Debug, PartialEq, Eq)]
pub struct Voxel {
    position: Position,
    color: Color,
}

impl Voxel {
    pub closed spec fn spec_position(&self) -> Position {
        self.position
    }

    pub closed spec fn spec_color(&self) -> Color {
        self.color
    }

    pub fn new(position: Position, color: Color) -> (v: Voxel)
        ensures
            v.spec_position() == position,
            v.spec_color() == color,
    {
        Voxel { position, color }
    }

    #[verifier::when_used_as_spec(spec_position)]
    pub fn position(&self) -> (p: Position)
        ensures
            p == self.spec_position(),
    {
        self.position
    }

    pub fn set_position(&mut self, pos: Position)
        ensures
            final(self).spec_position() == pos,
            final(self).spec_color() == old(self).spec_color(),
    {
        self.position = pos;
    }

    #[verifier::when_used_as_spec(spec_color)]
    pub fn color(&self) -> (c: Color)
        ensures
            c == self.spec_color(),
    {
        self.color
    }

    /// The packed 32-bit material code of the voxel's colour.
    pub fn material(&self) -> (mat: u32)
        ensures
            mat == self.spec_color().packed(),
    {
        pack_rgb(self.color.r, self.color.g, self.color.b)
    }
}

/// Two voxels with the same position and colour are the same voxel.
pub proof fn lemma_voxel_ext(a: Voxel, b: Voxel)
    requires
        a.spec_position() == b.spec_position(),
        a.spec_color() == b.spec_color(),
    ensures
        a == b,
{
}

} // verus!
