//! Reading the linear encoding back: the traversal that a renderer performs over the
//! two arrays, and the laws that tie it to the tree that was serialized.

use vstd::prelude::*;
use crate::encoding::{colors_of, internal_slot, terminal_slot, words_of, Slot};
use crate::geometry::{Color, Position};
use crate::node::{lemma_descriptor_fields, mask_of, pointer_of, MAX_POINTER};
use crate::octree::{box_contains, cells_after, child_origin, lemma_octant_holds, octant_of,
    Octree};
use crate::voxel::Voxel;

verus! {

/// Whether bit `i` of a child mask is set.
pub open spec fn bit_set(mask: u8, i: int) -> bool {
    (mask >> (i as u8)) & 1u8 == 1u8
}

/// The number of set bits of a child mask below bit `i`: the place of octant `i`
/// among the children that are present.
pub open spec fn rank(mask: u8, i: int) -> int
    decreases i,
{
    if i <= 0 {
        0
    } else {
        rank(mask, i - 1) + if bit_set(mask, i - 1) {
            1int
        } else {
            0
        }
    }
}

/// The slot of the child in octant `o` of the node at `index`.
pub open spec fn child_slot(words: Seq<u32>, index: int, o: int) -> int {
    index + pointer_of(words[index]) + rank(mask_of(words[index]), o)
}

/// The colour word that a traversal of the arrays finds for cell `p`, starting at the
/// descriptor at `index`, which stands for the cube at `origin` with side `edge`.
pub open spec fn decode(
    words: Seq<u32>,
    colors: Seq<u32>,
    index: int,
    origin: Position,
    edge: u32,
    p: Position,
) -> Option<u32>
    decreases edge,
{
    if edge < 2 || !box_contains(origin, edge, p) || !(0 <= index < words.len()) {
        None
    } else {
        let half = (edge / 2) as u32;
        let o = octant_of(origin, half, p);
        if !bit_set(mask_of(words[index]), o) {
            None
        } else {
            let slot = child_slot(words, index, o);
            if half == 1 {
                if 0 <= slot < colors.len() {
                    Some(colors[slot])
                } else {
                    None
                }
            } else {
                decode(words, colors, slot, child_origin(origin, half, o), half, p)
            }
        }
    }
}

/// Whether, below the descriptor at `index` for a cube of side `edge`, every child
/// slot lies in the array and strictly behind its parent, and is terminal exactly
/// where the parent's side is 2.
pub open spec fn laid_out(slots: Seq<Slot>, index: int, edge: u32) -> bool
    decreases edge,
{
    edge >= 2 && 0 <= index < slots.len() ==> forall|o: int|
        0 <= o < 8 && #[trigger] bit_set(mask_of(slots[index].word), o) ==> {
            let slot = child_slot(words_of(slots), index, o);
            &&& index < slot < slots.len()
            &&& slots[slot].leaf == (edge == 2)
            &&& (edge > 2 ==> laid_out(slots, slot, (edge / 2) as u32))
        }
}

/// Whether the block of `tree` stands in `slots` where the descriptor at `index`
/// points, and that descriptor carries the tree's child mask.
pub open spec fn placed(tree: Octree, slots: Seq<Slot>, index: int) -> bool {
    let start = index + pointer_of(slots[index].word);
    &&& 0 <= index < slots.len()
    &&& mask_of(slots[index].word) == tree.child_mask()
    &&& pointer_of(slots[index].word) >= 1
    &&& start + tree.block().len() <= slots.len()
    &&& slots.subrange(start, start + tree.block().len()) == tree.block()
}

/// The colour word of a colour, if there is one.
pub open spec fn packed_option(color: Option<Color>) -> Option<u32> {
    match color {
        Some(c) => Some(c.packed()),
        None => None,
    }
}

impl Octree {
    /// Bit `i` of the child mask is set exactly when the child in octant `i` is
    /// occupied.
    pub proof fn lemma_mask_below(&self, n: int)
        requires
            0 <= n <= 8,
            n <= self.kids().len(),
        ensures
            self.mask_below(n) < 256,
            forall|i: int|
                0 <= i < 8 ==> (#[trigger] bit_set(self.mask_below(n) as u8, i) <==> (i < n
                    && self.kids()[i].occupied())),
        decreases n,
    {
        if n == 0 {
            assert forall|i: int| 0 <= i < 8 implies !#[trigger] bit_set(0u8, i) by {
                let iu = i as u8;
                assert(iu < 8 ==> (0u8 >> iu) & 1u8 != 1u8) by (bit_vector);
            }
        } else {
            self.lemma_mask_below(n - 1);
            let a = self.mask_below(n - 1);
            let k = (n - 1) as u32;
            assert(a < 256 && k < 8 ==> (a | (1u32 << k)) < 256) by (bit_vector);
            assert forall|i: int| 0 <= i < 8 implies (#[trigger] bit_set(
                self.mask_below(n) as u8,
                i,
            ) <==> (i < n && self.kids()[i].occupied())) by {
                let iu = i as u8;
                assert(a < 256 && k < 8 && iu < 8 ==> (((((a | (1u32 << k)) as u8) >> iu) & 1u8
                    == 1u8) <==> ((((a as u8) >> iu) & 1u8 == 1u8) || iu as u32 == k)))
                    by (bit_vector);
                assert(bit_set(a as u8, i) <==> (i < n - 1 && self.kids()[i].occupied()));
                assert(iu as u32 == k <==> i == n - 1);
                if self.kids()[n - 1].occupied() {
                    assert(self.mask_below(n) == a | (1u32 << k));
                    assert(bit_set((a | (1u32 << k)) as u8, i) <==> (bit_set(a as u8, i) || i
                        == n - 1));
                } else {
                    assert(self.mask_below(n) == a);
                }
            }
        }
    }

    /// The place of an octant among the set bits of the child mask is its place among
    /// the occupied children.
    pub proof fn lemma_rank(&self, i: int)
        requires
            self.kids().len() == 8,
            0 <= i <= 8,
        ensures
            rank(self.child_mask(), i) == self.occupied_below(i).len(),
        decreases i,
    {
        if i > 0 {
            self.lemma_rank(i - 1);
            self.lemma_mask_below(8);
        }
    }

    /// The occupied octants below `a` begin the occupied octants below `b`.
    pub proof fn lemma_occupied_prefix(&self, a: int, b: int)
        requires
            0 <= a <= b <= self.kids().len(),
        ensures
            self.occupied_below(a).len() <= self.occupied_below(b).len(),
            forall|r: int|
                0 <= r < self.occupied_below(a).len() ==> #[trigger] self.occupied_below(b)[r]
                    == self.occupied_below(a)[r],
        decreases b - a,
    {
        if a < b {
            self.lemma_occupied_prefix(a, b - 1);
        }
    }

    /// An occupied child stands among the occupied children at the place that the
    /// number of occupied octants below it gives.
    pub proof fn lemma_occupied_place(&self, o: int)
        requires
            0 <= o < self.kids().len(),
            self.kids()[o].occupied(),
        ensures
            self.occupied_below(o).len() < self.occupied_octants().len(),
            self.occupied_octants()[self.occupied_below(o).len() as int] == o,
    {
        self.lemma_occupied_prefix(o + 1, self.kids().len() as int);
        assert(self.occupied_below(o + 1) == self.occupied_below(o).push(o));
        assert(self.occupied_below(o + 1)[self.occupied_below(o).len() as int] == o);
    }

    /// The blocks of the first `a` occupied children begin those of the first `b`.
    pub proof fn lemma_subtrees_prefix(&self, a: int, b: int)
        requires
            0 <= a <= b <= self.occupied_octants().len(),
        ensures
            self.subtrees(a).len() <= self.subtrees(b).len(),
            self.subtrees(b).subrange(0, self.subtrees(a).len() as int) == self.subtrees(a),
        decreases b - a,
    {
        if a < b {
            self.lemma_subtrees_prefix(a, b - 1);
            assert(self.subtrees(b).subrange(0, self.subtrees(a).len() as int) =~= self.subtrees(
                b - 1,
            ).subrange(0, self.subtrees(a).len() as int));
        } else {
            assert(self.subtrees(b).subrange(0, self.subtrees(a).len() as int) =~= self.subtrees(
                a,
            ));
        }
    }

    /// Where no offset overflows, each offset fits the pointer field and no child
    /// holds an overflow of its own.
    pub proof fn lemma_offsets_fit(&self, b: int)
        requires
            0 <= b <= self.occupied_octants().len(),
            self.overflow_below(b).is_none(),
            forall|j: int|
                0 <= j < self.occupied_octants().len() ==> 0 <= #[trigger] self.occupied_octants()[j]
                    < self.kids().len(),
        ensures
            forall|r: int|
                0 <= r < b ==> {
                    &&& 1 <= #[trigger] self.offset(r) <= MAX_POINTER
                    &&& self.occupied_kid(r).overflow().is_none()
                },
        decreases b,
    {
        if b > 0 {
            self.lemma_offsets_fit(b - 1);
        }
    }

    /// Where no child in an octant below `n` holds a voxel, none of them does.
    pub proof fn lemma_no_leaf(&self, n: int)
        requires
            0 <= n <= self.kids().len(),
            !self.leaf_below(n),
        ensures
            forall|i: int| 0 <= i < n ==> (#[trigger] self.kids()[i]).occupant().is_none(),
        decreases n,
    {
        if n > 0 {
            self.lemma_no_leaf(n - 1);
        }
    }

    /// An overflow is an offset above the largest pointer that the encoding accepts,
    /// so a tree is refused only for an offset that the pointer field may not hold.
    pub proof fn lemma_overflow_exceeds_limit(&self)
        requires
            self.wf(),
        ensures
            self.overflow() matches Some(o) ==> o > MAX_POINTER,
        decreases self.edge(),
    {
        if !self.has_leaf() {
            self.lemma_overflow_below_exceeds_limit(self.occupied_octants().len() as int);
        }
    }

    proof fn lemma_overflow_below_exceeds_limit(&self, r: int)
        requires
            self.wf(),
            0 <= r <= self.occupied_octants().len(),
        ensures
            self.overflow_below(r) matches Some(o) ==> o > MAX_POINTER,
        decreases self.edge(), r,
    {
        if r > 0 {
            self.lemma_overflow_below_exceeds_limit(r - 1);
            self.lemma_occupied_below(self.kids().len() as int);
            let c = self.occupied_octants()[r - 1];
            assert(self.kids()[c].wf());
            self.kids()[c].lemma_overflow_exceeds_limit();
        }
    }

    /// Where the tree's block is in place, the slot of an occupied child is found by
    /// pointer and rank: a terminal slot with the child's colour below a cube of side
    /// 2, else a reserved slot behind which the child's own block is in place.
    proof fn lemma_locate_child(&self, slots: Seq<Slot>, index: int, o: int)
        requires
            self.wf(),
            self.kids().len() == 8,
            self.overflow().is_none(),
            placed(*self, slots, index),
            0 <= o < 8,
            self.kids()[o].occupied(),
        ensures
            bit_set(mask_of(slots[index].word), o),
            index < child_slot(words_of(slots), index, o) < slots.len(),
            self.has_leaf() ==> {
                &&& self.edge() == 2
                &&& self.kids()[o].occupant().is_some()
                &&& slots[child_slot(words_of(slots), index, o)] == terminal_slot(self.kids()[o])
            },
            !self.has_leaf() ==> {
                &&& self.edge() > 2
                &&& !slots[child_slot(words_of(slots), index, o)].leaf
                &&& self.kids()[o].overflow().is_none()
                &&& placed(self.kids()[o], slots, child_slot(words_of(slots), index, o))
            },
    {
        let k = self.occupied_octants().len() as int;
        let r = self.occupied_below(o).len() as int;
        let start = index + pointer_of(slots[index].word);
        let slot = child_slot(words_of(slots), index, o);
        let kid = self.kids()[o];
        let block = self.block();
        self.lemma_mask_below(8);
        self.lemma_rank(o);
        self.lemma_occupied_place(o);
        self.lemma_occupied_below(8);
        assert(slot == start + r);
        assert(kid.wf());
        if self.has_leaf() {
            self.lemma_leaf_level(8);
            self.lemma_terminal_slots(k);
            assert(slots[slot] == slots.subrange(start, start + block.len())[r]);
        } else {
            self.lemma_no_leaf(8);
            self.lemma_reserved_slots(k);
            self.lemma_offsets_fit(k);
            let off = self.offset(r);
            assert(self.occupied_kid(r) == kid);
            assert(slots[slot] == slots.subrange(start, start + block.len())[r]);
            assert(block[r] == self.reserved_slots(k)[r]);
            assert(slots[slot] == internal_slot(off, kid.child_mask()));
            lemma_descriptor_fields(off as u32, kid.child_mask());
            self.lemma_subtrees_prefix(r + 1, k);
            self.lemma_subtrees_prefix(r, r + 1);
            let sub = self.subtrees(k);
            let before = self.subtrees(r).len() as int;
            assert(self.subtrees(r + 1) == self.subtrees(r) + kid.block());
            let kid_start = slot + off;
            assert(kid_start == start + k + before);
            assert forall|j: int| 0 <= j < kid.block().len() implies slots[kid_start + j]
                == #[trigger] kid.block()[j] by {
                assert(slots[kid_start + j] == slots.subrange(start, start + block.len())[k
                    + before + j]);
                assert(block[k + before + j] == sub[before + j]);
                assert(sub[before + j] == sub.subrange(0, self.subtrees(r + 1).len() as int)[before
                    + j]);
                assert(self.subtrees(r + 1)[before + j] == kid.block()[j]);
            }
            assert(slots.subrange(kid_start, kid_start + kid.block().len()) =~= kid.block());
        }
    }

    /// Where the tree's block is in place, traversing the arrays from the tree's
    /// descriptor finds for every cell what the tree holds there.
    pub proof fn lemma_decode_placed(&self, slots: Seq<Slot>, index: int, p: Position)
        requires
            self.wf(),
            self.edge() >= 2,
            self.overflow().is_none(),
            placed(*self, slots, index),
        ensures
            decode(words_of(slots), colors_of(slots), index, self.origin(), self.edge(), p)
                == packed_option(self.lookup(p)),
        decreases self.edge(),
    {
        if box_contains(self.origin(), self.edge(), p) {
            assert(self.edge() % 2 == 0) by {
                assert(crate::geometry::is_pow2(self.edge() as int));
            }
            lemma_octant_holds(self.origin(), self.edge(), p);
            let half = (self.edge() / 2) as u32;
            let o = octant_of(self.origin(), half, p);
            if self.kids().len() == 0 {
                self.lemma_mask_below(0);
            } else {
                self.lemma_mask_below(8);
                let kid = self.kids()[o];
                assert(kid.wf());
                assert(box_contains(kid.origin(), kid.edge(), p));
                if !kid.occupied() {
                    assert(kid.lookup(p).is_none());
                } else {
                    self.lemma_locate_child(slots, index, o);
                    let slot = child_slot(words_of(slots), index, o);
                    if self.has_leaf() {
                        assert(kid.kids().len() == 0);
                        assert(kid.lookup(p) == Some(kid.occupant().unwrap().spec_color()));
                    } else {
                        kid.lemma_decode_placed(slots, slot, p);
                    }
                }
            }
        }
    }

    /// Where the tree's block is in place, every child slot below the tree's
    /// descriptor lies behind its parent, and the terminal slots are exactly the
    /// children of the cubes of side 2.
    pub proof fn lemma_laid_out_placed(&self, slots: Seq<Slot>, index: int)
        requires
            self.wf(),
            self.overflow().is_none(),
            placed(*self, slots, index),
        ensures
            laid_out(slots, index, self.edge()),
        decreases self.edge(),
    {
        if self.edge() >= 2 {
            assert forall|o: int|
                0 <= o < 8 && #[trigger] bit_set(mask_of(slots[index].word), o) implies {
                let slot = child_slot(words_of(slots), index, o);
                &&& index < slot < slots.len()
                &&& slots[slot].leaf == (self.edge() == 2)
                &&& (self.edge() > 2 ==> laid_out(slots, slot, (self.edge() / 2) as u32))
            } by {
                if self.kids().len() == 0 {
                    self.lemma_mask_below(0);
                } else {
                    self.lemma_mask_below(8);
                    self.lemma_locate_child(slots, index, o);
                    if !self.has_leaf() {
                        let slot = child_slot(words_of(slots), index, o);
                        assert(self.kids()[o].wf());
                        self.kids()[o].lemma_laid_out_placed(slots, slot);
                    }
                }
            }
        }
    }

    /// The block of a tree is in place in the tree's own encoding, behind the root
    /// descriptor at index 0.
    pub proof fn lemma_encoding_placed(&self)
        ensures
            placed(*self, self.encoding(), 0),
            self.encoding().len() == 1 + self.block().len(),
            self.encoding()[0] == internal_slot(1, self.child_mask()),
            pointer_of(self.encoding()[0].word) == 1,
            mask_of(self.encoding()[0].word) == self.child_mask(),
    {
        lemma_descriptor_fields(1, self.child_mask());
        assert(self.encoding().subrange(1, 1 + self.block().len() as int) =~= self.block());
    }
}

/// Decoding recovers the tree: a traversal of the encoding of a tree, from the root
/// descriptor at index 0, finds a colour for cell `p` exactly when the tree holds a
/// voxel there, and then the packed colour of that voxel. The root must be divisible
/// (side at least 2): a unit root has no slot for its own voxel.
pub proof fn lemma_decoding_recovers_cells(tree: Octree, p: Position)
    requires
        tree.wf(),
        tree.edge() >= 2,
        tree.overflow().is_none(),
    ensures
        decode(
            words_of(tree.encoding()),
            colors_of(tree.encoding()),
            0,
            tree.origin(),
            tree.edge(),
            p,
        ) == packed_option(tree.lookup(p)),
        tree@.contains_key(p) <==> decode(
            words_of(tree.encoding()),
            colors_of(tree.encoding()),
            0,
            tree.origin(),
            tree.edge(),
            p,
        ).is_some(),
        tree@.contains_key(p) ==> decode(
            words_of(tree.encoding()),
            colors_of(tree.encoding()),
            0,
            tree.origin(),
            tree.edge(),
            p,
        ) == Some(tree@[p].packed()),
{
    tree.lemma_encoding_placed();
    tree.lemma_decode_placed(tree.encoding(), 0, p);
}

/// The encoding begins with the one root descriptor, which is not terminal, points
/// one slot ahead and carries the root's child mask. No traversal comes back to it,
/// since every child slot lies behind its parent; and a terminal slot is met only as
/// the child of a cube of side 2.
pub proof fn lemma_encoding_layout(tree: Octree)
    requires
        tree.wf(),
        tree.overflow().is_none(),
    ensures
        tree.encoding().len() >= 1,
        tree.encoding()[0] == internal_slot(1, tree.child_mask()),
        !tree.encoding()[0].leaf,
        pointer_of(tree.encoding()[0].word) == 1,
        mask_of(tree.encoding()[0].word) == tree.child_mask(),
        laid_out(tree.encoding(), 0, tree.edge()),
{
    tree.lemma_encoding_placed();
    tree.lemma_laid_out_placed(tree.encoding(), 0);
}

/// An undivided tree encodes as the root descriptor alone, with an empty child mask.
pub proof fn lemma_undivided_encoding(tree: Octree)
    requires
        tree.kids().len() == 0,
    ensures
        tree.child_mask() == 0,
        tree.overflow().is_none(),
        tree.encoding() == seq![internal_slot(1, 0)],
        words_of(tree.encoding()) == seq![1u32],
{
    assert(tree.occupied_octants().len() == 0);
    assert(!tree.has_leaf());
    assert(tree.block() =~= Seq::<Slot>::empty());
    assert(tree.encoding() =~= seq![internal_slot(1, 0)]);
    assert(((0u32 << 24) | (1u32 & 0x00FF_FFFFu32)) == 1u32) by (bit_vector);
    assert(words_of(tree.encoding()) =~= seq![1u32]);
}

/// Equal trees have equal encodings and fail alike: serializing an unmodified tree
/// again gives the same arrays.
pub proof fn lemma_encoding_is_a_function(first: Octree, second: Octree)
    requires
        first == second,
    ensures
        first.encoding() == second.encoding(),
        first.overflow() == second.overflow(),
        words_of(first.encoding()) == words_of(second.encoding()),
        colors_of(first.encoding()) == colors_of(second.encoding()),
{
}

/// Last write wins: of two voxels offered for the same cell of the cube, the second
/// gives the cell its colour, whatever the first one did.
pub proof fn lemma_last_write_wins(
    origin: Position,
    edge: u32,
    cells: Map<Position, Color>,
    first: Voxel,
    second: Voxel,
)
    requires
        first.spec_position() == second.spec_position(),
        box_contains(origin, edge, second.spec_position()),
    ensures
        cells_after(origin, edge, cells_after(origin, edge, cells, first), second)[second.spec_position()]
            == second.spec_color(),
        cells_after(origin, edge, cells_after(origin, edge, cells, first), second) == cells_after(
            origin,
            edge,
            cells,
            second,
        ),
{
    assert(cells_after(origin, edge, cells_after(origin, edge, cells, first), second)
        =~= cells_after(origin, edge, cells, second));
}

} // verus!
