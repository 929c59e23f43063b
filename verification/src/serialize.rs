//! The serializer: flattens an octree into the node and attribute arrays.

use vstd::prelude::*;
use crate::encoding::{colors_of, internal_slot, rgb_of, slots_of, terminal_slot, with_mask,
    words_of, Slot};
use crate::node::{Attribute, Node, MAX_POINTER};
use crate::octree::Octree;

verus! {

/// Why an octree has no linear encoding.
#[derive(Clone, Copy, Debug, PartialEq, Eq)]
pub enum SerializeError {
    /// A subtree begins `offset` slots after the slot that points to it, which is more
    /// than the pointer field may hold. Far pointers are not supported.
    FarPointer { offset: u64 },
}

/// Appending one record to both arrays appends one slot.
proof fn lemma_push_slot(nodes: Seq<Node>, attributes: Seq<Attribute>, n: Node, a: Attribute)
    requires
        nodes.len() == attributes.len(),
    ensures
        slots_of(nodes.push(n), attributes.push(a)) == slots_of(nodes, attributes).push(
            Slot { word: n.spec_value(), leaf: n.spec_is_leaf(), rgb: a.spec_rgb() },
        ),
{
    assert(slots_of(nodes.push(n), attributes.push(a)) =~= slots_of(nodes, attributes).push(
        Slot { word: n.spec_value(), leaf: n.spec_is_leaf(), rgb: a.spec_rgb() },
    ));
}

/// Replacing one node replaces the word and leaf mark of one slot.
proof fn lemma_update_slot(nodes: Seq<Node>, attributes: Seq<Attribute>, i: int, n: Node)
    requires
        nodes.len() == attributes.len(),
        0 <= i < nodes.len(),
    ensures
        slots_of(nodes.update(i, n), attributes) == slots_of(nodes, attributes).update(
            i,
            Slot { word: n.spec_value(), leaf: n.spec_is_leaf(), rgb: attributes[i].spec_rgb() },
        ),
{
    assert(slots_of(nodes.update(i, n), attributes) =~= slots_of(nodes, attributes).update(
        i,
        Slot { word: n.spec_value(), leaf: n.spec_is_leaf(), rgb: attributes[i].spec_rgb() },
    ));
}

impl Octree {
    /// Lays out the node's descendants behind the arrays as they stand and writes the
    /// node's child mask into its own slot at `parent_idx`. Returns the distance from
    /// that slot to the first slot added.
    fn serialize_recursive(
        &self,
        nodes: &mut Vec<Node>,
        attributes: &mut Vec<Attribute>,
        parent_idx: usize,
    ) -> (result: Result<usize, SerializeError>)
        requires
            self.wf(),
            old(nodes).len() == old(attributes).len(),
            parent_idx < old(nodes).len(),
        ensures
            match result {
                Ok(start) => {
                    &&& self.overflow().is_none()
                    &&& start == old(nodes).len() - parent_idx
                    &&& final(nodes).len() == final(attributes).len()
                    &&& slots_of(final(nodes)@, final(attributes)@) == slots_of(
                        old(nodes)@,
                        old(attributes)@,
                    ).update(
                        parent_idx as int,
                        with_mask(
                            slots_of(old(nodes)@, old(attributes)@)[parent_idx as int],
                            self.child_mask(),
                        ),
                    ) + self.block()
                },
                Err(e) => self.overflow() == Some(e->offset as int),
            },
        decreases self.edge(),
    {
        let ghost s0 = slots_of(nodes@, attributes@);
        let ghost base = nodes@.len() as int;
        let child_start: usize = nodes.len() - parent_idx;
        let kids = self.children();

        // Find the occupied children, the child mask, and whether they are leaves.
        let mut child_indices: Vec<usize> = Vec::new();
        let mut child_mask: u32 = 0;
        let mut has_leaf = false;
        let mut i: usize = 0;
        while i < kids.len()
            invariant
                self.wf(),
                kids@ == self.kids(),
                i <= kids.len(),
                kids.len() <= 8,
                child_mask < 256,
                child_mask == self.mask_below(i as int),
                has_leaf == self.leaf_below(i as int),
                child_indices@.len() == self.occupied_below(i as int).len(),
                forall|r: int|
                    0 <= r < child_indices@.len() ==> #[trigger] child_indices@[r]
                        == self.occupied_below(i as int)[r],
            decreases kids.len() - i,
        {
            let child = &kids[i];
            let shift: u32 = i as u32;
            let before: u32 = child_mask;
            assert(before < 256 && shift < 8 ==> (before | (1u32 << shift)) < 256)
                by (bit_vector);
            if child.voxel().is_some() {
                child_indices.push(i);
                child_mask |= 1u32 << shift;
                has_leaf = true;
            } else if !child.children().is_empty() {
                child_indices.push(i);
                child_mask |= 1u32 << shift;
            }
            i += 1;
        }
        let ghost occ = self.occupied_octants();
        let child_count: usize = child_indices.len();
        proof {
            self.lemma_occupied_below(kids@.len() as int);
        }

        if has_leaf {
            proof {
                self.lemma_leaf_level(kids@.len() as int);
            }
            let mut r: usize = 0;
            while r < child_count
                invariant
                    self.wf(),
                    kids@ == self.kids(),
                    occ == self.occupied_octants(),
                    r <= child_count,
                    child_count == child_indices@.len(),
                    child_indices@.len() == occ.len(),
                    forall|j: int|
                        0 <= j < child_indices@.len() ==> #[trigger] child_indices@[j] == occ[j],
                    forall|j: int|
                        0 <= j < occ.len() ==> {
                            &&& 0 <= (#[trigger] occ[j]) < kids@.len()
                            &&& self.kids()[occ[j]].occupied()
                        },
                    forall|j: int|
                        0 <= j < self.kids().len() ==> ((#[trigger] self.kids()[j]).occupied()
                            <==> self.kids()[j].occupant().is_some()),
                    nodes@.len() == attributes@.len(),
                    slots_of(nodes@, attributes@) == s0 + self.terminal_slots(r as int),
                decreases child_count - r,
            {
                let leaf = Node::new_leaf();
                let idx = child_indices[r];
                assert(idx as int == occ[r as int]);
                assert(self.kids()[occ[r as int]].occupied());
                let color = kids[idx].voxel().unwrap().color();
                let attribute = Attribute::new(color.r, color.g, color.b);
                proof {
                    lemma_push_slot(nodes@, attributes@, leaf, attribute);
                    assert(s0 + self.terminal_slots(r + 1) =~= (s0 + self.terminal_slots(
                        r as int,
                    )).push(terminal_slot(self.occupied_kid(r as int))));
                }
                nodes.push(leaf);
                attributes.push(attribute);
                r += 1;
            }
        } else {
            // Reserve one slot for every occupied child, so that siblings stay adjacent.
            let mut r: usize = 0;
            while r < child_count
                invariant
                    r <= child_count,
                    nodes@.len() == attributes@.len(),
                    slots_of(nodes@, attributes@) == s0 + Seq::new(
                        r as nat,
                        |j: int| internal_slot(0, 0),
                    ),
                decreases child_count - r,
            {
                let node = Node::new(0, 0);
                let attribute = Attribute::new(255, 255, 255);
                proof {
                    lemma_push_slot(nodes@, attributes@, node, attribute);
                    assert(s0 + Seq::new((r + 1) as nat, |j: int| internal_slot(0, 0)) =~= (s0
                        + Seq::new(r as nat, |j: int| internal_slot(0, 0))).push(
                        internal_slot(0, 0),
                    ));
                }
                nodes.push(node);
                attributes.push(attribute);
                r += 1;
            }

            // Serialize the children in turn, and note where each one's block begins.
            let mut grandchild_starts: Vec<usize> = Vec::new();
            let mut r: usize = 0;
            while r < child_count
                invariant
                    self.wf(),
                    kids@ == self.kids(),
                    occ == self.occupied_octants(),
                    !self.has_leaf(),
                    r <= child_count,
                    child_count == child_indices@.len(),
                    child_indices@.len() == occ.len(),
                    forall|j: int|
                        0 <= j < child_indices@.len() ==> #[trigger] child_indices@[j] == occ[j],
                    forall|j: int|
                        0 <= j < occ.len() ==> {
                            &&& 0 <= (#[trigger] occ[j]) < kids@.len()
                            &&& self.kids()[occ[j]].occupied()
                        },
                    base == s0.len(),
                    parent_idx < base,
                    child_start == base - parent_idx,
                    nodes@.len() == attributes@.len(),
                    nodes@.len() == base + child_count + self.subtrees(r as int).len(),
                    slots_of(nodes@, attributes@) == s0 + Seq::new(
                        child_count as nat,
                        |j: int|
                            if j < r {
                                internal_slot(0, self.occupied_kid(j).child_mask())
                            } else {
                                internal_slot(0, 0)
                            },
                    ) + self.subtrees(r as int),
                    grandchild_starts@.len() == r,
                    forall|j: int|
                        0 <= j < r ==> {
                            &&& (#[trigger] grandchild_starts@[j]) == self.offset(j)
                            &&& grandchild_starts@[j] <= MAX_POINTER
                        },
                    self.overflow_below(r as int).is_none(),
                decreases child_count - r,
            {
                let idx = child_indices[r];
                assert(idx as int == occ[r as int]);
                let ghost kid = self.kids()[idx as int];
                assert(kid.wf() && kid.edge() < self.edge());
                let ghost before = slots_of(nodes@, attributes@);
                assert(parent_idx + child_start + r < nodes.len());
                let result = kids[idx].serialize_recursive(
                    nodes,
                    attributes,
                    parent_idx + child_start + r,
                );
                let start = match result {
                    Ok(start) => start,
                    Err(e) => {
                        proof {
                            assert(self.overflow_below(r + 1) == Some(e->offset as int));
                            self.lemma_overflow_stays(r + 1, child_count as int);
                        }
                        return Err(e);
                    },
                };
                assert(start == self.offset(r as int));
                if start > 0x007F_FFFF {
                    proof {
                        assert(self.overflow_below(r + 1) == Some(start as int));
                        self.lemma_overflow_stays(r + 1, child_count as int);
                    }
                    return Err(SerializeError::FarPointer { offset: start as u64 });
                }
                grandchild_starts.push(start);
                proof {
                    let mask = kid.child_mask();
                    assert(((0u32 & 0x00FF_FFFFu32) | ((mask as u32) << 24)) == (((mask as u32)
                        << 24) | (0u32 & 0x00FF_FFFFu32))) by (bit_vector);
                    assert(with_mask(internal_slot(0, 0), mask) == internal_slot(0, mask)) by {
                        assert(((0u32 << 24) | (0u32 & 0x00FF_FFFFu32)) == 0u32) by (bit_vector);
                    }
                    assert(before[base + r] == internal_slot(0, 0));
                    assert(slots_of(nodes@, attributes@) =~= s0 + Seq::new(
                        child_count as nat,
                        |j: int|
                            if j < r + 1 {
                                internal_slot(0, self.occupied_kid(j).child_mask())
                            } else {
                                internal_slot(0, 0)
                            },
                    ) + self.subtrees(r + 1));
                }
                r += 1;
            }

            // Point each reserved slot at its child's block.
            let mut r: usize = 0;
            while r < child_count
                invariant
                    r <= child_count,
                    child_count == occ.len(),
                    occ == self.occupied_octants(),
                    base == s0.len(),
                    parent_idx < base,
                    child_start == base - parent_idx,
                    nodes@.len() == attributes@.len(),
                    nodes@.len() == base + child_count + self.subtrees(child_count as int).len(),
                    slots_of(nodes@, attributes@) == s0 + Seq::new(
                        child_count as nat,
                        |j: int|
                            if j < r {
                                internal_slot(self.offset(j), self.occupied_kid(j).child_mask())
                            } else {
                                internal_slot(0, self.occupied_kid(j).child_mask())
                            },
                    ) + self.subtrees(child_count as int),
                    grandchild_starts@.len() == child_count,
                    forall|j: int|
                        0 <= j < child_count ==> {
                            &&& (#[trigger] grandchild_starts@[j]) == self.offset(j)
                            &&& grandchild_starts@[j] <= MAX_POINTER
                        },
                decreases child_count - r,
            {
                assert(child_start + parent_idx + r < nodes.len());
                let child_index = child_start + parent_idx + r;
                let offset = grandchild_starts[r];
                let ghost before = slots_of(nodes@, attributes@);
                let ghost before_nodes = nodes@;
                nodes[child_index].set_pointer(offset as u32);
                proof {
                    let mask = self.occupied_kid(r as int).child_mask();
                    let pointer = offset as u32;
                    assert((((((mask as u32) << 24) | (0u32 & 0x00FF_FFFFu32)) & 0xFF00_0000u32)
                        | (pointer & 0x00FF_FFFFu32)) == (((mask as u32) << 24) | (pointer
                        & 0x00FF_FFFFu32))) by (bit_vector);
                    assert(before[child_index as int] == internal_slot(0, mask));
                    lemma_update_slot(
                        before_nodes,
                        attributes@,
                        child_index as int,
                        nodes@[child_index as int],
                    );
                    assert(slots_of(nodes@, attributes@) =~= s0 + Seq::new(
                        child_count as nat,
                        |j: int|
                            if j < r + 1 {
                                internal_slot(self.offset(j), self.occupied_kid(j).child_mask())
                            } else {
                                internal_slot(0, self.occupied_kid(j).child_mask())
                            },
                    ) + self.subtrees(child_count as int));
                }
                r += 1;
            }
            proof {
                self.lemma_reserved_slots(child_count as int);
                assert(Seq::new(
                    child_count as nat,
                    |j: int|
                        if j < child_count {
                            internal_slot(self.offset(j), self.occupied_kid(j).child_mask())
                        } else {
                            internal_slot(0, self.occupied_kid(j).child_mask())
                        },
                ) =~= self.reserved_slots(child_count as int));
            }
        }

        // Write the child mask into the node's own slot.
        let ghost before = slots_of(nodes@, attributes@);
        let ghost before_nodes = nodes@;
        assert(before =~= s0 + self.block());
        nodes[parent_idx].set_child_mask(child_mask as u8);
        proof {
            lemma_update_slot(before_nodes, attributes@, parent_idx as int, nodes@[parent_idx as int]);
            assert(before[parent_idx as int] == s0[parent_idx as int]);
            assert(slots_of(nodes@, attributes@) =~= s0.update(
                parent_idx as int,
                with_mask(s0[parent_idx as int], self.child_mask()),
            ) + self.block());
        }
        Ok(child_start)
    }

    /// The encoding as node records and attributes: the root's descriptor at index 0,
    /// with a white attribute beside it, then the root's block.
    pub fn serialize_nodes(&self) -> (result: Result<(Vec<Node>, Vec<Attribute>), SerializeError>)
        requires
            self.wf(),
        ensures
            match result {
                Ok((nodes, attributes)) => {
                    &&& self.overflow().is_none()
                    &&& nodes@.len() == attributes@.len()
                    &&& slots_of(nodes@, attributes@) == self.encoding()
                },
                Err(e) => self.overflow() == Some(e->offset as int),
            },
    {
        let mut nodes: Vec<Node> = Vec::new();
        nodes.push(Node::new(1, 0));
        let mut attributes: Vec<Attribute> = Vec::new();
        attributes.push(Attribute::new(255, 255, 255));
        let ghost s0 = slots_of(nodes@, attributes@);
        match self.serialize_recursive(&mut nodes, &mut attributes, 0) {
            Ok(_) => {
                proof {
                    let mask = self.child_mask();
                    assert(s0 =~= seq![internal_slot(1, 0)]);
                    assert((((0u32 << 24) | (1u32 & 0x00FF_FFFFu32)) & 0x00FF_FFFFu32) | ((
                    mask as u32) << 24) == ((mask as u32) << 24) | (1u32 & 0x00FF_FFFFu32))
                        by (bit_vector);
                    assert(with_mask(internal_slot(1, 0), mask) == internal_slot(1, mask));
                    assert(slots_of(nodes@, attributes@) =~= self.encoding());
                }
                Ok((nodes, attributes))
            },
            Err(e) => Err(e),
        }
    }

    /// The encoding as the two arrays that a renderer reads: the descriptor words and
    /// the attributes. Fails, with no arrays, exactly when some offset does not fit
    /// the pointer field, and then names the first such offset.
    pub fn serialize(&self) -> (result: Result<(Vec<u32>, Vec<Attribute>), SerializeError>)
        requires
            self.wf(),
        ensures
            match result {
                Ok((words, attributes)) => {
                    &&& self.overflow().is_none()
                    &&& words@ == words_of(self.encoding())
                    &&& rgb_of(attributes@) == colors_of(self.encoding())
                },
                Err(e) => self.overflow() == Some(e->offset as int),
            },
    {
        match self.serialize_nodes() {
            Ok((nodes, attributes)) => {
                let mut words: Vec<u32> = Vec::new();
                let mut i: usize = 0;
                while i < nodes.len()
                    invariant
                        i <= nodes.len(),
                        words@.len() == i,
                        forall|j: int| 0 <= j < i ==> #[trigger] words@[j] == nodes@[j].spec_value(),
                    decreases nodes.len() - i,
                {
                    words.push(nodes[i].value());
                    i += 1;
                }
                proof {
                    assert(words@ =~= words_of(self.encoding()));
                    assert(rgb_of(attributes@) =~= colors_of(self.encoding()));
                }
                Ok((words, attributes))
            },
            Err(e) => Err(e),
        }
    }
}

} // verus!
