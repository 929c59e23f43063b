//! The two output records of the linear encoding: the 32-bit node descriptor and the
//! packed colour attribute.

use vstd::prelude::*;
use crate::geometry::{pack_rgb, packed_rgb};

verus! {

/// Bits 0 to 23 of a descriptor: the relative pointer.
pub const POINTER_BITS: u32 = 0x00FF_FFFF;

/// Bits 24 to 31 of a descriptor: the child mask.
pub const MASK_BITS: u32 = 0xFF00_0000;

/// The largest relative pointer that the encoding accepts.
pub const MAX_POINTER: u32 = 0x007F_FFFF;

/// The descriptor word that holds `pointer` in its low 24 bits and `mask` in its high 8.
pub open spec fn descriptor(pointer: u32, mask: u8) -> u32 {
    ((mask as u32) << 24) | (pointer & POINTER_BITS)
}

/// The relative pointer held in a descriptor word.
pub open spec fn pointer_of(value: u32) -> u32 {
    value & POINTER_BITS
}

/// The child mask held in a descriptor word.
pub open spec fn mask_of(value: u32) -> u8 {
    (value >> 24) as u8
}

/// A node descriptor: a relative pointer and a child mask packed into one word.
/// A terminal slot is marked as a leaf and holds the word zero.
#[derive(Clone, Copy, Debug, PartialEq, Eq)]
pub struct Node {
    value: u32,
    is_leaf: bool,
}

/// A packed RGB colour, index-aligned with the node array.
#[derive(Clone, Copy, Debug, PartialEq, Eq)]
pub struct Attribute {
    rgb: u32,
}

/// Reading a descriptor gives back what was packed into it.
pub proof fn lemma_descriptor_fields(pointer: u32, mask: u8)
    ensures
        pointer_of(descriptor(pointer, mask)) == pointer & POINTER_BITS,
        mask_of(descriptor(pointer, mask)) == mask,
        pointer <= POINTER_BITS ==> pointer_of(descriptor(pointer, mask)) == pointer,
        pointer <= POINTER_BITS ==> descriptor(pointer, mask) == mask as u32 * 0x100_0000
            + pointer,
{
    assert(((((mask as u32) << 24) | (pointer & 0x00FF_FFFFu32)) & 0x00FF_FFFFu32) == pointer
        & 0x00FF_FFFFu32) by (bit_vector);
    assert((((((mask as u32) << 24) | (pointer & 0x00FF_FFFFu32)) >> 24) as u8) == mask)
        by (bit_vector);
    assert(pointer <= 0x00FF_FFFFu32 ==> (pointer & 0x00FF_FFFFu32) == pointer) by (bit_vector);
    assert(pointer <= 0x00FF_FFFFu32 ==> (((mask as u32) << 24) | (pointer & 0x00FF_FFFFu32))
        == mask as u32 * 0x100_0000 + pointer) by (bit_vector);
}

impl Node {
    /// The packed descriptor word.
    pub closed spec fn spec_value(&self) -> u32 {
        self.value
    }

    /// Whether this is a terminal slot.
    pub closed spec fn spec_is_leaf(&self) -> bool {
        self.is_leaf
    }

    pub open spec fn spec_pointer(&self) -> u32 {
        pointer_of(self.spec_value())
    }

    pub open spec fn spec_child_mask(&self) -> u8 {
        mask_of(self.spec_value())
    }

    /// An internal descriptor with the given pointer, cut to 24 bits, and child mask.
    pub fn new(ptr: u32, child_mask: u8) -> (node: Self)
        ensures
            node.spec_value() == descriptor(ptr, child_mask),
            !node.spec_is_leaf(),
    {
        let mut node = Node { value: 0, is_leaf: false };
        node.set_pointer(ptr);
        node.set_child_mask(child_mask);
        assert((((0u32 & 0xFF00_0000u32) | (ptr & 0x00FF_FFFFu32)) & 0x00FF_FFFFu32) | ((
        child_mask as u32) << 24) == ((child_mask as u32) << 24) | (ptr & 0x00FF_FFFFu32))
            by (bit_vector);
        node
    }

    /// A terminal slot: the word zero, marked as a leaf.
    pub fn new_leaf() -> (node: Self)
        ensures
            node.spec_value() == 0,
            node.spec_is_leaf(),
    {
        Node { value: 0, is_leaf: true }
    }

    /// Replaces the relative pointer (bits 0 to 23) and keeps the child mask.
    pub fn set_pointer(&mut self, pointer: u32)
        ensures
            final(self).spec_value() == (old(self).spec_value() & MASK_BITS) | (pointer
                & POINTER_BITS),
            final(self).spec_pointer() == pointer & POINTER_BITS,
            final(self).spec_child_mask() == old(self).spec_child_mask(),
            final(self).spec_is_leaf() == old(self).spec_is_leaf(),
    {
        let ghost before = self.value;
        self.value = (self.value & 0xFF00_0000) | (pointer & 0x00FF_FFFF);
        assert((((before & 0xFF00_0000u32) | (pointer & 0x00FF_FFFFu32)) & 0x00FF_FFFFu32)
            == pointer & 0x00FF_FFFFu32) by (bit_vector);
        assert(((((before & 0xFF00_0000u32) | (pointer & 0x00FF_FFFFu32)) >> 24) as u8) == ((
        before >> 24) as u8)) by (bit_vector);
    }

    /// Replaces the child mask (bits 24 to 31) and keeps the relative pointer.
    pub fn set_child_mask(&mut self, mask: u8)
        ensures
            final(self).spec_value() == (old(self).spec_value() & POINTER_BITS) | ((mask as u32)
                << 24),
            final(self).spec_child_mask() == mask,
            final(self).spec_pointer() == old(self).spec_pointer(),
            final(self).spec_is_leaf() == old(self).spec_is_leaf(),
    {
        let ghost before = self.value;
        self.value = (self.value & 0x00FF_FFFF) | ((mask as u32) << 24);
        assert(((((before & 0x00FF_FFFFu32) | ((mask as u32) << 24)) >> 24) as u8) == mask)
            by (bit_vector);
        assert((((before & 0x00FF_FFFFu32) | ((mask as u32) << 24)) & 0x00FF_FFFFu32) == before
            & 0x00FF_FFFFu32) by (bit_vector);
    }

    #[verifier::when_used_as_spec(spec_pointer)]
    pub fn pointer(&self) -> (p: u32)
        ensures
            p == self.spec_pointer(),
    {
        self.value & 0x00FF_FFFF
    }

    #[verifier::when_used_as_spec(spec_child_mask)]
    pub fn child_mask(&self) -> (m: u8)
        ensures
            m == self.spec_child_mask(),
    {
        (self.value >> 24) as u8
    }

    #[verifier::when_used_as_spec(spec_value)]
    pub fn value(&self) -> (v: u32)
        ensures
            v == self.spec_value(),
    {
        self.value
    }

    #[verifier::when_used_as_spec(spec_is_leaf)]
    pub fn is_leaf(&self) -> (leaf: bool)
        ensures
            leaf == self.spec_is_leaf(),
    {
        self.is_leaf
    }
}

impl Default for Node {
    fn default() -> (node: Self)
        ensures
            node.spec_value() == 0,
            !node.spec_is_leaf(),
    {
        Node { value: 0, is_leaf: false }
    }
}

/// A node is its word and its leaf mark.
pub proof fn lemma_node_ext(a: Node, b: Node)
    requires
        a.spec_value() == b.spec_value(),
        a.spec_is_leaf() == b.spec_is_leaf(),
    ensures
        a == b,
{
}

impl Attribute {
    /// The packed colour word.
    pub closed spec fn spec_rgb(&self) -> u32 {
        self.rgb
    }

    pub fn new(r: u8, g: u8, b: u8) -> (attribute: Self)
        ensures
            attribute.spec_rgb() == packed_rgb(r, g, b),
    {
        Attribute { rgb: pack_rgb(r, g, b) }
    }

    #[verifier::when_used_as_spec(spec_rgb)]
    pub fn rgb(&self) -> (rgb: u32)
        ensures
            rgb == self.spec_rgb(),
    {
        self.rgb
    }
}

/// An attribute is its colour word.
pub proof fn lemma_attribute_ext(a: Attribute, b: Attribute)
    requires
        a.spec_rgb() == b.spec_rgb(),
    ensures
        a == b,
{
}

} // verus!
