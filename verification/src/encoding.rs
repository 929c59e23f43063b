//! The linear encoding of an octree, as a mathematical object: which records the
//! serializer lays out, in which order, and when the 24-bit pointer field cannot hold
//! an offset.

use vstd::prelude::*;
use crate::node::{descriptor, Attribute, Node, MAX_POINTER, POINTER_BITS};
use crate::octree::{lemma_kid_is_smaller, Octree};

verus! {

/// The colour written beside every descriptor that is not a terminal slot.
pub const WHITE: u32 = 0x00FF_FFFF;

/// One position of the two index-aligned output arrays: the descriptor word, whether
/// the slot is terminal, and the colour word beside it.
pub struct Slot {
    pub word: u32,
    pub leaf: bool,
    pub rgb: u32,
}

/// The two arrays read side by side.
pub open spec fn slots_of(nodes: Seq<Node>, attributes: Seq<Attribute>) -> Seq<Slot> {
    Seq::new(
        nodes.len(),
        |i: int|
            Slot {
                word: nodes[i].spec_value(),
                leaf: nodes[i].spec_is_leaf(),
                rgb: attributes[i].spec_rgb(),
            },
    )
}

/// The descriptor words of a run of slots.
pub open spec fn words_of(slots: Seq<Slot>) -> Seq<u32> {
    Seq::new(slots.len(), |i: int| slots[i].word)
}

/// The colour words of a run of slots.
pub open spec fn colors_of(slots: Seq<Slot>) -> Seq<u32> {
    Seq::new(slots.len(), |i: int| slots[i].rgb)
}

/// The colour words of an attribute array.
pub open spec fn rgb_of(attributes: Seq<Attribute>) -> Seq<u32> {
    Seq::new(attributes.len(), |i: int| attributes[i].spec_rgb())
}

/// A slot after its child mask was replaced by `mask`.
pub open spec fn with_mask(slot: Slot, mask: u8) -> Slot {
    Slot { word: (slot.word & POINTER_BITS) | ((mask as u32) << 24), leaf: slot.leaf, rgb: slot.rgb }
}

/// The slot reserved for a subtree: pointer `offset`, child mask `mask`.
pub open spec fn internal_slot(offset: int, mask: u8) -> Slot {
    Slot { word: descriptor(offset as u32, mask), leaf: false, rgb: WHITE }
}

/// The terminal slot of a unit cube.
pub open spec fn terminal_slot(child: Octree) -> Slot {
    Slot {
        word: 0,
        leaf: true,
        rgb: match child.occupant() {
            Some(v) => v.spec_color().packed(),
            None => 0,
        },
    }
}

impl Octree {
    /// Whether the node holds a voxel or is divided.
    pub open spec fn occupied(&self) -> bool {
        self.occupant().is_some() || self.kids().len() > 0
    }

    /// The octants below `n` whose child is occupied, in ascending order.
    pub open spec fn occupied_below(&self, n: int) -> Seq<int>
        decreases n,
    {
        if n <= 0 {
            Seq::empty()
        } else if n <= self.kids().len() && self.kids()[n - 1].occupied() {
            self.occupied_below(n - 1).push(n - 1)
        } else {
            self.occupied_below(n - 1)
        }
    }

    /// The octants whose child is occupied, in ascending order.
    pub open spec fn occupied_octants(&self) -> Seq<int> {
        self.occupied_below(self.kids().len() as int)
    }

    /// The child that stands at rank `r` among the occupied children.
    pub open spec fn occupied_kid(&self, r: int) -> Octree {
        self.kids()[self.occupied_octants()[r]]
    }

    /// The child mask restricted to the octants below `n`.
    pub open spec fn mask_below(&self, n: int) -> u32
        decreases n,
    {
        if n <= 0 {
            0
        } else if n <= self.kids().len() && self.kids()[n - 1].occupied() {
            self.mask_below(n - 1) | (1u32 << ((n - 1) as u32))
        } else {
            self.mask_below(n - 1)
        }
    }

    /// The child mask: bit `i` is set exactly when the child in octant `i` is occupied.
    pub open spec fn child_mask(&self) -> u8 {
        self.mask_below(self.kids().len() as int) as u8
    }

    /// Whether a child in an octant below `n` holds a voxel.
    pub open spec fn leaf_below(&self, n: int) -> bool
        decreases n,
    {
        if n <= 0 {
            false
        } else {
            self.leaf_below(n - 1) || (n <= self.kids().len() && self.kids()[n
                - 1].occupant().is_some())
        }
    }

    /// Whether the children are unit cubes of which one holds a voxel.
    pub open spec fn has_leaf(&self) -> bool {
        self.leaf_below(self.kids().len() as int)
    }

    /// The terminal slots of the first `r` occupied children.
    pub open spec fn terminal_slots(&self, r: int) -> Seq<Slot>
        decreases r,
    {
        if r <= 0 {
            Seq::empty()
        } else {
            self.terminal_slots(r - 1).push(terminal_slot(self.occupied_kid(r - 1)))
        }
    }

    /// The blocks of the first `r` occupied children, one after the other.
    pub open spec fn subtrees(&self, r: int) -> Seq<Slot>
        decreases self, r, 0int,
    {
        if r <= 0 || r > self.occupied_octants().len() {
            Seq::empty()
        } else {
            let c = self.occupied_octants()[r - 1];
            if 0 <= c < self.kids().len() {
                proof {
                    lemma_kid_is_smaller(*self, c);
                }
                self.subtrees(r - 1) + self.kids()[c].block()
            } else {
                self.subtrees(r - 1)
            }
        }
    }

    /// The relative pointer of the occupied child at rank `r`: the distance from its
    /// reserved slot to the first slot of its own block.
    pub open spec fn offset(&self, r: int) -> int
        decreases self, r, 1int,
    {
        self.occupied_octants().len() - r + self.subtrees(r).len()
    }

    /// The reserved slots of the first `r` occupied children.
    pub open spec fn reserved_slots(&self, r: int) -> Seq<Slot>
        decreases self, r, 2int,
    {
        if r <= 0 {
            Seq::empty()
        } else {
            self.reserved_slots(r - 1).push(
                internal_slot(self.offset(r - 1), self.occupied_kid(r - 1).child_mask()),
            )
        }
    }

    /// The slots that the node's descendants take up, which start where the node's
    /// pointer leads. Occupied children stand side by side, in octant order: as
    /// terminal slots where they hold voxels, else as reserved slots that are followed
    /// by the children's own blocks.
    pub open spec fn block(&self) -> Seq<Slot>
        decreases self, self.occupied_octants().len() + 1, 0int,
    {
        let k = self.occupied_octants().len() as int;
        if self.has_leaf() {
            self.terminal_slots(k)
        } else {
            self.reserved_slots(k) + self.subtrees(k)
        }
    }

    /// The first offset, in the order in which the serializer computes them, that the
    /// pointer field cannot hold, among the first `r` occupied children and all below
    /// them.
    pub open spec fn overflow_below(&self, r: int) -> Option<int>
        decreases self, r,
    {
        if r <= 0 || r > self.occupied_octants().len() {
            None
        } else {
            let c = self.occupied_octants()[r - 1];
            match self.overflow_below(r - 1) {
                Some(o) => Some(o),
                None => {
                    let inner = if 0 <= c < self.kids().len() {
                        proof {
                            lemma_kid_is_smaller(*self, c);
                        }
                        self.kids()[c].overflow()
                    } else {
                        None
                    };
                    match inner {
                        Some(o) => Some(o),
                        None => if self.offset(r - 1) > MAX_POINTER {
                            Some(self.offset(r - 1))
                        } else {
                            None
                        },
                    }
                },
            }
        }
    }

    /// The first offset that the pointer field cannot hold, if there is one.
    pub open spec fn overflow(&self) -> Option<int>
        decreases self, self.occupied_octants().len() + 1,
    {
        if self.has_leaf() {
            None
        } else {
            self.overflow_below(self.occupied_octants().len() as int)
        }
    }

    /// The whole encoding: the root's descriptor, with pointer 1, then its block.
    pub open spec fn encoding(&self) -> Seq<Slot> {
        seq![internal_slot(1, self.child_mask())] + self.block()
    }

    /// The occupied octants below `n` are octants below `n`, in ascending order, of
    /// occupied children, and there are at most `n` of them.
    pub proof fn lemma_occupied_below(&self, n: int)
        requires
            0 <= n <= self.kids().len(),
        ensures
            self.occupied_below(n).len() <= n,
            forall|r: int|
                0 <= r < self.occupied_below(n).len() ==> {
                    &&& 0 <= (#[trigger] self.occupied_below(n)[r]) < n
                    &&& self.kids()[self.occupied_below(n)[r]].occupied()
                },
            forall|r: int, s: int|
                0 <= r < s < self.occupied_below(n).len() ==> self.occupied_below(n)[r]
                    < self.occupied_below(n)[s],
        decreases n,
    {
        if n > 0 {
            self.lemma_occupied_below(n - 1);
        }
    }

    /// Once an offset overflows, it stays the first one that does.
    pub proof fn lemma_overflow_stays(&self, r: int, k: int)
        requires
            0 <= r <= k <= self.occupied_octants().len(),
            self.overflow_below(r).is_some(),
        ensures
            self.overflow_below(k) == self.overflow_below(r),
        decreases k - r,
    {
        if r < k {
            self.lemma_overflow_stays(r, k - 1);
        }
    }

    /// The reserved slots, one by one.
    pub proof fn lemma_reserved_slots(&self, r: int)
        requires
            0 <= r,
        ensures
            self.reserved_slots(r).len() == r,
            forall|j: int|
                0 <= j < r ==> #[trigger] self.reserved_slots(r)[j] == internal_slot(
                    self.offset(j),
                    self.occupied_kid(j).child_mask(),
                ),
        decreases r,
    {
        if r > 0 {
            self.lemma_reserved_slots(r - 1);
        }
    }

    /// The terminal slots, one by one.
    pub proof fn lemma_terminal_slots(&self, r: int)
        requires
            0 <= r,
        ensures
            self.terminal_slots(r).len() == r,
            forall|j: int|
                0 <= j < r ==> #[trigger] self.terminal_slots(r)[j] == terminal_slot(
                    self.occupied_kid(j),
                ),
        decreases r,
    {
        if r > 0 {
            self.lemma_terminal_slots(r - 1);
        }
    }

    /// Where a child holds a voxel, the children are unit cubes: each occupied child
    /// holds a voxel and none is divided.
    pub proof fn lemma_leaf_level(&self, n: int)
        requires
            self.wf(),
            0 <= n <= self.kids().len(),
            self.leaf_below(n),
        ensures
            self.edge() == 2,
            forall|i: int|
                0 <= i < self.kids().len() ==> ((#[trigger] self.kids()[i]).occupied()
                    <==> self.kids()[i].occupant().is_some()),
        decreases n,
    {
        if n > 0 && !self.kids()[n - 1].occupant().is_some() {
            self.lemma_leaf_level(n - 1);
        } else {
            assert(self.kids()[n - 1].wf());
            assert(self.kids()[n - 1].edge() == 1);
            assert forall|i: int| 0 <= i < self.kids().len() implies ((
            #[trigger] self.kids()[i]).occupied() <==> self.kids()[i].occupant().is_some()) by {
                assert(self.kids()[i].wf());
            }
        }
    }
}

} // verus!
