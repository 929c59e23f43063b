//! The in-memory sparse voxel octree, built by repeated point insertion.

use vstd::prelude::*;
use crate::geometry::{is_pow2, lemma_next_pow2, next_pow2, round_up_to_pow2, shifted, Color,
    Position};
use crate::model::Model;
use crate::voxel::Voxel;

verus! {

/// Whether `p` lies in the half-open cube with minimum corner `origin` and side `edge`.
pub open spec fn box_contains(origin: Position, edge: u32, p: Position) -> bool {
    &&& origin.x <= p.x < origin.x + edge
    &&& origin.y <= p.y < origin.y + edge
    &&& origin.z <= p.z < origin.z + edge
}

/// The minimum corner of octant `i` of a cube at `origin` whose children have side
/// `half`. Bit 0 of `i` selects the upper half along x, bit 2 along y, bit 1 along z.
pub open spec fn child_origin(origin: Position, half: u32, i: int) -> Position {
    Position {
        x: (origin.x + (i % 2) * half) as u32,
        y: (origin.y + ((i / 4) % 2) * half) as u32,
        z: (origin.z + ((i / 2) % 2) * half) as u32,
    }
}

/// The octant of the cube at `origin`, with children of side `half`, in which `p` lies.
pub open spec fn octant_of(origin: Position, half: u32, p: Position) -> int {
    (if p.x >= origin.x + half { 1int } else { 0 })
        + (if p.z >= origin.z + half { 2int } else { 0 })
        + (if p.y >= origin.y + half { 4int } else { 0 })
}

/// What a lookup gives after `voxel` was offered to a cube at `origin` with side `edge`
/// whose lookup gave `before`.
pub open spec fn lookup_after(
    origin: Position,
    edge: u32,
    voxel: Voxel,
    q: Position,
    before: Option<Color>,
) -> Option<Color> {
    if q == voxel.spec_position() && box_contains(origin, edge, q) {
        Some(voxel.spec_color())
    } else {
        before
    }
}

/// The cell colours after `voxel` was offered to a cube at `origin` with side `edge`
/// that held `cells`: a point outside the cube changes nothing, a point inside takes
/// its cell over.
pub open spec fn cells_after(
    origin: Position,
    edge: u32,
    cells: Map<Position, Color>,
    voxel: Voxel,
) -> Map<Position, Color> {
    if box_contains(origin, edge, voxel.spec_position()) {
        cells.insert(voxel.spec_position(), voxel.spec_color())
    } else {
        cells
    }
}

/// The cell colours after the voxels were offered one by one, in order, to an empty
/// cube at `origin` with side `edge`.
pub open spec fn cells_of(origin: Position, edge: u32, voxels: Seq<Voxel>) -> Map<
    Position,
    Color,
>
    decreases voxels.len(),
{
    if voxels.len() == 0 {
        Map::empty()
    } else {
        cells_after(origin, edge, cells_of(origin, edge, voxels.drop_last()), voxels.last())
    }
}

/// Among the eight octants of a cube, `octant_of` names the one that holds `p`, and
/// no other octant holds it.
pub proof fn lemma_octant_holds(origin: Position, edge: u32, p: Position)
    requires
        edge >= 2,
        edge % 2 == 0,
        origin.x + edge <= u32::MAX,
        origin.y + edge <= u32::MAX,
        origin.z + edge <= u32::MAX,
        box_contains(origin, edge, p),
    ensures
        0 <= octant_of(origin, (edge / 2) as u32, p) < 8,
        forall|i: int|
            0 <= i < 8 ==> (#[trigger] box_contains(
                child_origin(origin, (edge / 2) as u32, i),
                (edge / 2) as u32,
                p,
            ) <==> i == octant_of(origin, (edge / 2) as u32, p)),
{
    let half = (edge / 2) as u32;
    assert(half + half == edge);
    assert forall|i: int| 0 <= i < 8 implies (#[trigger] box_contains(
        child_origin(origin, half, i),
        half,
        p,
    ) <==> i == octant_of(origin, half, p)) by {
        let bx = i % 2;
        let by = (i / 4) % 2;
        let bz = (i / 2) % 2;
        assert(i == bx + 2 * bz + 4 * by);
        assert(bx * half == if bx == 0 { 0int } else { half as int }) by (nonlinear_arith)
            requires
                bx == 0 || bx == 1,
        ;
        assert(by * half == if by == 0 { 0int } else { half as int }) by (nonlinear_arith)
            requires
                by == 0 || by == 1,
        ;
        assert(bz * half == if bz == 0 { 0int } else { half as int }) by (nonlinear_arith)
            requires
                bz == 0 || bz == 1,
        ;
    }
}

/// The cells of a sequence of voxels: a cell is occupied exactly when it lies in the
/// cube and some voxel names it, and it has the colour of the last voxel that does.
/// Where the positions are distinct, that is each voxel's own colour.
pub proof fn lemma_cells_of(origin: Position, edge: u32, voxels: Seq<Voxel>, p: Position)
    ensures
        cells_of(origin, edge, voxels).contains_key(p) <==> (box_contains(origin, edge, p)
            && exists|i: int| 0 <= i < voxels.len() && (#[trigger] voxels[i]).spec_position() == p),
        forall|i: int|
            0 <= i < voxels.len() && (#[trigger] voxels[i]).spec_position() == p && box_contains(
                origin,
                edge,
                p,
            ) && (forall|j: int| i < j < voxels.len() ==> (#[trigger] voxels[j]).spec_position()
                != p) ==> cells_of(origin, edge, voxels)[p] == voxels[i].spec_color(),
    decreases voxels.len(),
{
    if voxels.len() > 0 {
        let front = voxels.drop_last();
        let last = voxels.last();
        lemma_cells_of(origin, edge, front, p);
        assert forall|i: int| 0 <= i < front.len() implies front[i] == voxels[i] by {}
        if cells_of(origin, edge, voxels).contains_key(p) {
            if last.spec_position() == p {
                assert(voxels[voxels.len() - 1].spec_position() == p);
            } else {
                let i = choose|i: int|
                    0 <= i < front.len() && (#[trigger] front[i]).spec_position() == p;
                assert(voxels[i].spec_position() == p);
            }
        }
        if box_contains(origin, edge, p) && exists|i: int|
            0 <= i < voxels.len() && (#[trigger] voxels[i]).spec_position() == p {
            let i = choose|i: int|
                0 <= i < voxels.len() && (#[trigger] voxels[i]).spec_position() == p;
            if i < front.len() {
                assert(front[i].spec_position() == p);
            }
        }
        assert forall|i: int|
            0 <= i < voxels.len() && (#[trigger] voxels[i]).spec_position() == p && box_contains(
                origin,
                edge,
                p,
            ) && (forall|j: int| i < j < voxels.len() ==> (#[trigger] voxels[j]).spec_position()
                != p) implies cells_of(origin, edge, voxels)[p] == voxels[i].spec_color() by {
            if i < front.len() {
                assert(voxels[voxels.len() - 1].spec_position() != p);
                assert(front[i].spec_position() == p);
                assert forall|j: int| i < j < front.len() implies (#[trigger] front[j]).spec_position()
                    != p by {
                    assert(voxels[j].spec_position() != p);
                }
            }
        }
    }
}

/// A node of the octree: a cube of the lattice that is empty, holds one voxel (side 1),
/// or is divided into eight children.
pub struct Octree {
    pos: Position,
    size: u32,
    children: Vec<Octree>,
    voxel: Option<Voxel>,
}

/// A child is structurally smaller than its parent.
pub proof fn lemma_kid_is_smaller(tree: Octree, i: int)
    requires
        0 <= i < tree.kids().len(),
    ensures
        decreases_to!(tree => tree.kids()[i]),
{
    broadcast use vstd::std_specs::vec::axiom_vec_index_decreases;

    assert(decreases_to!(tree.children => tree.children@[i]));
}

impl View for Octree {
    type V = Map<Position, Color>;

    /// The occupied cells with their colours.
    open spec fn view(&self) -> Map<Position, Color> {
        Map::new(|p: Position| self.lookup(p).is_some(), |p: Position| self.lookup(p).unwrap())
    }
}

impl Octree {
    /// The minimum corner of the node's cube.
    pub closed spec fn origin(&self) -> Position {
        self.pos
    }

    /// The side of the node's cube.
    pub closed spec fn edge(&self) -> u32 {
        self.size
    }

    /// The children: none, or one per octant.
    pub closed spec fn kids(&self) -> Seq<Octree> {
        self.children@
    }

    /// The voxel held by a unit cube.
    pub closed spec fn occupant(&self) -> Option<Voxel> {
        self.voxel
    }

    /// The structural invariant: sides are powers of two, a voxel sits only in a unit
    /// cube at its own position, children come in eights, halve the side and tile the
    /// parent by the octant mapping.
    pub open spec fn wf(&self) -> bool
        decreases self,
    {
        &&& is_pow2(self.edge() as int)
        &&& self.origin().x + self.edge() <= u32::MAX
        &&& self.origin().y + self.edge() <= u32::MAX
        &&& self.origin().z + self.edge() <= u32::MAX
        &&& (self.occupant() matches Some(v) ==> self.edge() == 1 && v.spec_position()
            == self.origin())
        &&& (self.kids().len() == 0 || (self.kids().len() == 8 && self.edge() >= 2))
        &&& forall|i: int|
            0 <= i < self.kids().len() ==> {
                &&& (#[trigger] self.kids()[i]).edge() == self.edge() / 2
                &&& self.kids()[i].origin() == child_origin(self.origin(), self.edge() / 2, i)
                &&& self.kids()[i].wf()
            }
    }

    /// The colour stored for cell `p`, if the cell is occupied.
    pub open spec fn lookup(&self, p: Position) -> Option<Color>
        decreases self,
    {
        if !box_contains(self.origin(), self.edge(), p) {
            None
        } else if self.kids().len() == 8 {
            self.kids()[octant_of(self.origin(), self.edge() / 2, p)].lookup(p)
        } else {
            match self.occupant() {
                Some(v) => Some(v.spec_color()),
                None => None,
            }
        }
    }

    /// Whether the node has no voxel and no children.
    pub open spec fn is_empty(&self) -> bool {
        self.occupant().is_none() && self.kids().len() == 0
    }

    /// Whether the node is the empty cube at `origin` with side `edge`.
    pub open spec fn is_empty_cube(&self, origin: Position, edge: u32) -> bool {
        self.origin() == origin && self.edge() == edge && self.is_empty()
    }

    /// Whether the node is what the empty cube at `origin` with side `edge` becomes
    /// when `voxel` is offered to it: unchanged where the voxel lies outside, a unit
    /// cube that holds the voxel, or a cube divided into eight children of which each
    /// was offered the voxel in turn.
    pub open spec fn grown_from_empty(&self, origin: Position, edge: u32, voxel: Voxel) -> bool
        decreases edge,
    {
        &&& self.origin() == origin
        &&& self.edge() == edge
        &&& if !box_contains(origin, edge, voxel.spec_position()) {
            self.is_empty()
        } else if edge < 2 {
            self.occupant() == Some(voxel) && self.kids().len() == 0
        } else {
            &&& self.occupant().is_none()
            &&& self.kids().len() == 8
            &&& forall|i: int|
                0 <= i < 8 ==> (#[trigger] self.kids()[i]).grown_from_empty(
                    child_origin(origin, (edge / 2) as u32, i),
                    (edge / 2) as u32,
                    voxel,
                )
        }
    }

    /// Whether the node is what `before` becomes when `voxel` is offered to it:
    /// unchanged where the voxel lies outside; a unit cube that now holds the voxel;
    /// or a divided cube whose children are what the children of `before` (empty
    /// octants, where `before` was undivided) become when offered the voxel.
    pub open spec fn grown_from(&self, before: Octree, voxel: Voxel) -> bool
        decreases before,
    {
        &&& self.origin() == before.origin()
        &&& self.edge() == before.edge()
        &&& if !box_contains(before.origin(), before.edge(), voxel.spec_position()) {
            self.occupant() == before.occupant() && self.kids() == before.kids()
        } else if before.edge() < 2 {
            self.occupant() == Some(voxel) && self.kids() == before.kids()
        } else {
            &&& self.occupant() == before.occupant()
            &&& self.kids().len() == 8
            &&& forall|i: int|
                0 <= i < 8 ==> if before.kids().len() == 8 {
                    proof {
                        lemma_kid_is_smaller(before, i);
                    }
                    (#[trigger] self.kids()[i]).grown_from(before.kids()[i], voxel)
                } else {
                    self.kids()[i].grown_from_empty(
                        child_origin(before.origin(), (before.edge() / 2) as u32, i),
                        (before.edge() / 2) as u32,
                        voxel,
                    )
                }
        }
    }

    /// Whether the node is what the empty cube at `origin` with side `edge` becomes
    /// when the voxels are offered to it one by one, in order.
    pub open spec fn built_from(&self, origin: Position, edge: u32, voxels: Seq<Voxel>) -> bool
        decreases voxels.len(),
    {
        if voxels.len() == 0 {
            self.is_empty_cube(origin, edge)
        } else {
            exists|prev: Octree|
                {
                    &&& prev.built_from(origin, edge, voxels.drop_last())
                    &&& prev.wf()
                    &&& #[trigger] self.grown_from(prev, voxels.last())
                }
        }
    }

    /// One more voxel offered to a tree built from a sequence gives the tree built
    /// from the longer sequence.
    pub proof fn lemma_built_step(
        &self,
        prev: Octree,
        origin: Position,
        edge: u32,
        voxels: Seq<Voxel>,
    )
        requires
            voxels.len() > 0,
            prev.built_from(origin, edge, voxels.drop_last()),
            prev.wf(),
            self.grown_from(prev, voxels.last()),
        ensures
            self.built_from(origin, edge, voxels),
    {
    }

    /// An empty cube at `pos` whose side is `size` rounded up to a power of two.
    pub fn new(pos: Position, size: u32) -> (tree: Self)
        requires
            size <= 0x8000_0000,
            pos.x + next_pow2(size as int) <= u32::MAX,
            pos.y + next_pow2(size as int) <= u32::MAX,
            pos.z + next_pow2(size as int) <= u32::MAX,
        ensures
            tree.wf(),
            tree.origin() == pos,
            tree.edge() == next_pow2(size as int),
            tree.is_empty(),
            tree@ == Map::<Position, Color>::empty(),
    {
        proof {
            lemma_next_pow2(size as int);
        }
        let size = round_up_to_pow2(size);
        let tree = Octree { pos, size, voxel: None, children: Vec::new() };
        assert(tree@ =~= Map::<Position, Color>::empty());
        tree
    }

    pub fn pos(&self) -> (pos: Position)
        ensures
            pos == self.origin(),
    {
        self.pos
    }

    pub fn size(&self) -> (size: u32)
        ensures
            size == self.edge(),
    {
        self.size
    }

    pub fn children(&self) -> (children: &Vec<Octree>)
        ensures
            children@ == self.kids(),
    {
        &self.children
    }

    pub fn voxel(&self) -> (voxel: Option<Voxel>)
        ensures
            voxel == self.occupant(),
    {
        self.voxel
    }

    /// Whether `pos` lies in the node's cube.
    pub fn contains(&self, pos: Position) -> (inside: bool)
        requires
            self.wf(),
        ensures
            inside == box_contains(self.origin(), self.edge(), pos),
    {
        let min = self.pos;
        let max = shifted(self.pos, self.size, self.size, self.size);
        pos.x >= min.x && pos.x < max.x && pos.y >= min.y && pos.y < max.y && pos.z >= min.z
            && pos.z < max.z
    }

    /// Divides an undivided cube into its eight empty octants; a divided cube is left
    /// as it is. The cells do not change.
    pub fn split(&mut self)
        requires
            old(self).wf(),
            old(self).edge() >= 2,
        ensures
            final(self).wf(),
            final(self).origin() == old(self).origin(),
            final(self).edge() == old(self).edge(),
            final(self).occupant() == old(self).occupant(),
            final(self).kids().len() == 8,
            old(self).kids().len() != 0 ==> final(self).kids() == old(self).kids(),
            old(self).kids().len() == 0 ==> forall|i: int|
                0 <= i < 8 ==> (#[trigger] final(self).kids()[i]).is_empty(),
            forall|q: Position| #[trigger] final(self).lookup(q) == old(self).lookup(q),
            final(self)@ == old(self)@,
    {
        if !self.children.is_empty() {
            return;
        }
        let size: u32 = self.size;
        let child_size: u32 = size >> 1;
        assert(size >> 1 == size / 2) by (bit_vector);
        let mut i: u32 = 0;
        while i < 8
            invariant
                i <= 8,
                self.pos == old(self).pos,
                self.size == old(self).size,
                self.voxel == old(self).voxel,
                old(self).wf(),
                self.size >= 2,
                child_size == self.size / 2,
                self.children@.len() == i,
                forall|j: int|
                    0 <= j < i ==> {
                        &&& (#[trigger] self.children@[j]).pos == child_origin(
                            self.pos,
                            child_size,
                            j,
                        )
                        &&& self.children@[j].size == child_size
                        &&& self.children@[j].voxel.is_none()
                        &&& self.children@[j].children@.len() == 0
                    },
            decreases 8 - i,
        {
            let bx: u32 = i & 1;
            let by: u32 = (i >> 2) & 1;
            let bz: u32 = (i >> 1) & 1;
            assert(i & 1 == i % 2 && (i >> 2) & 1 == (i / 4) % 2 && (i >> 1) & 1 == (i / 2) % 2)
                by (bit_vector);
            assert(bx * child_size == if bx == 0 { 0int } else { child_size as int })
                by (nonlinear_arith)
                requires
                    bx == 0 || bx == 1,
            ;
            assert(by * child_size == if by == 0 { 0int } else { child_size as int })
                by (nonlinear_arith)
                requires
                    by == 0 || by == 1,
            ;
            assert(bz * child_size == if bz == 0 { 0int } else { child_size as int })
                by (nonlinear_arith)
                requires
                    bz == 0 || bz == 1,
            ;
            let child_pos = shifted(self.pos, bx * child_size, by * child_size, bz * child_size);
            self.children.push(
                Octree { pos: child_pos, size: child_size, voxel: None, children: Vec::new() },
            );
            i += 1;
        }
        proof {
            assert(is_pow2(child_size as int));
            assert forall|j: int| 0 <= j < 8 implies (#[trigger] self.kids()[j]).wf() by {
                let bx = j % 2;
                let by = (j / 4) % 2;
                let bz = (j / 2) % 2;
                assert(bx * child_size <= child_size) by (nonlinear_arith)
                    requires
                        bx == 0 || bx == 1,
                ;
                assert(by * child_size <= child_size) by (nonlinear_arith)
                    requires
                        by == 0 || by == 1,
                ;
                assert(bz * child_size <= child_size) by (nonlinear_arith)
                    requires
                        bz == 0 || bz == 1,
                ;
            }
            assert forall|q: Position| #[trigger] self.lookup(q) == old(self).lookup(q) by {
                if box_contains(self.origin(), self.edge(), q) {
                    lemma_octant_holds(self.origin(), self.edge(), q);
                    let o = octant_of(self.origin(), self.edge() / 2, q);
                    assert(self.kids()[o].lookup(q).is_none());
                    assert(self.lookup(q) == self.kids()[o].lookup(q));
                }
                assert(old(self).lookup(q).is_none());
            }
            assert(self@ =~= old(self)@);
        }
    }

    /// Offers a voxel to the cube. A voxel outside the cube is dropped. One inside
    /// takes over its cell, whatever the cell held: on the way down each divided cube
    /// hands the voxel to all eight children, and the one that contains it goes on.
    pub fn insert(&mut self, voxel: &Voxel)
        requires
            old(self).wf(),
        ensures
            final(self).wf(),
            final(self).origin() == old(self).origin(),
            final(self).edge() == old(self).edge(),
            forall|q: Position| #[trigger]
                final(self).lookup(q) == lookup_after(
                    old(self).origin(),
                    old(self).edge(),
                    *voxel,
                    q,
                    old(self).lookup(q),
                ),
            final(self)@ == cells_after(old(self).origin(), old(self).edge(), old(self)@, *voxel),
            !box_contains(old(self).origin(), old(self).edge(), voxel.spec_position())
                ==> *final(self) == *old(self),
            final(self).grown_from(*old(self), *voxel),
        decreases old(self).edge(),
    {
        if !self.contains(voxel.position()) {
            proof {
                assert(self@ =~= cells_after(self.origin(), self.edge(), self@, *voxel));
            }
            return;
        }
        if self.size == 1 {
            self.voxel = Some(*voxel);
            proof {
                assert(self@ =~= cells_after(
                    old(self).origin(),
                    old(self).edge(),
                    old(self)@,
                    *voxel,
                ));
            }
            return;
        }
        assert(self.size >= 2) by {
            assert(is_pow2(self.size as int));
        }
        self.split();
        let ghost parted = *self;
        let mut i: usize = 0;
        while i < 8
            invariant
                i <= 8,
                parted.wf(),
                parted.kids().len() == 8,
                parted.edge() >= 2,
                parted.edge() == old(self).edge(),
                parted.origin() == old(self).origin(),
                self.pos == parted.pos,
                self.size == parted.size,
                self.voxel == parted.voxel,
                self.children@.len() == 8,
                forall|j: int|
                    0 <= j < i ==> {
                        &&& (#[trigger] self.children@[j]).wf()
                        &&& self.children@[j].origin() == parted.kids()[j].origin()
                        &&& self.children@[j].edge() == parted.kids()[j].edge()
                        &&& self.children@[j].grown_from(parted.kids()[j], *voxel)
                        &&& forall|q: Position| #[trigger]
                            self.children@[j].lookup(q) == lookup_after(
                                parted.kids()[j].origin(),
                                parted.kids()[j].edge(),
                                *voxel,
                                q,
                                parted.kids()[j].lookup(q),
                            )
                    },
                forall|j: int| i <= j < 8 ==> #[trigger] self.children@[j] == parted.kids()[j],
            decreases 8 - i,
        {
            assert(parted.kids()[i as int].wf());
            assert(parted.kids()[i as int].edge() < parted.edge());
            self.children[i].insert(voxel);
            i += 1;
        }
        proof {
            let p = voxel.spec_position();
            assert(self.wf());
            assert forall|q: Position| #[trigger]
                self.lookup(q) == lookup_after(
                    old(self).origin(),
                    old(self).edge(),
                    *voxel,
                    q,
                    old(self).lookup(q),
                ) by {
                if box_contains(self.origin(), self.edge(), q) {
                    lemma_octant_holds(self.origin(), self.edge(), q);
                    let o = octant_of(self.origin(), self.edge() / 2, q);
                    assert(parted.lookup(q) == parted.kids()[o].lookup(q));
                    assert(self.lookup(q) == self.kids()[o].lookup(q));
                    assert(parted.kids()[o].origin() == child_origin(
                        parted.origin(),
                        parted.edge() / 2,
                        o,
                    ));
                    assert(box_contains(parted.kids()[o].origin(), parted.kids()[o].edge(), q));
                    assert(self.kids()[o].lookup(q) == lookup_after(
                        parted.kids()[o].origin(),
                        parted.kids()[o].edge(),
                        *voxel,
                        q,
                        parted.kids()[o].lookup(q),
                    ));
                } else {
                    assert(self.lookup(q).is_none());
                    assert(old(self).lookup(q).is_none());
                }
            }
            assert(self@ =~= cells_after(old(self).origin(), old(self).edge(), old(self)@, *voxel));
            assert forall|i: int| 0 <= i < 8 implies if old(self).kids().len() == 8 {
                (#[trigger] self.kids()[i]).grown_from(old(self).kids()[i], *voxel)
            } else {
                self.kids()[i].grown_from_empty(
                    child_origin(old(self).origin(), (old(self).edge() / 2) as u32, i),
                    (old(self).edge() / 2) as u32,
                    *voxel,
                )
            } by {
                assert(self.kids()[i].grown_from(parted.kids()[i], *voxel));
                if old(self).kids().len() != 8 {
                    assert(parted.kids()[i].is_empty());
                    assert(parted.kids()[i].wf());
                }
            }
        }
    }

    /// The tree of a model: an empty cube at the lattice origin whose side is the
    /// model's longest extent rounded up to a power of two, to which the model's voxels
    /// are offered in their order.
    pub fn from_model(model: &Model) -> (tree: Self)
        requires
            model.spec_size().longest() <= 0x8000_0000,
        ensures
            tree.wf(),
            tree.origin() == (Position { x: 0, y: 0, z: 0 }),
            tree.edge() == next_pow2(model.spec_size().longest() as int),
            tree@ == cells_of(tree.origin(), tree.edge(), model.spec_voxels()),
            tree.built_from(tree.origin(), tree.edge(), model.spec_voxels()),
    {
        let pos = Position { x: 0, y: 0, z: 0 };
        let model_size = model.size();
        let longest = model_size.max_side();
        proof {
            lemma_next_pow2(longest as int);
        }
        let size = round_up_to_pow2(longest);
        let mut root = Octree { pos, size, voxel: None, children: Vec::new() };
        let voxels = model.voxels();
        assert(root@ =~= cells_of(pos, size, voxels@.subrange(0, 0)));
        let mut i: usize = 0;
        while i < voxels.len()
            invariant
                i <= voxels.len(),
                root.wf(),
                root.origin() == pos,
                root.edge() == size,
                root@ == cells_of(pos, size, voxels@.subrange(0, i as int)),
                root.built_from(pos, size, voxels@.subrange(0, i as int)),
            decreases voxels.len() - i,
        {
            let ghost prev = root;
            root.insert(&voxels[i]);
            proof {
                let upto = voxels@.subrange(0, i + 1);
                assert(upto.drop_last() =~= voxels@.subrange(0, i as int));
                assert(upto.last() == voxels@[i as int]);
                assert(upto.len() > 0);
                let front = upto.drop_last();
                let last = upto.last();
                assert(prev.built_from(pos, size, front) && prev.wf() && root.grown_from(
                    prev,
                    last,
                ));
                root.lemma_built_step(prev, pos, size, upto);
            }
            i += 1;
        }
        assert(voxels@.subrange(0, i as int) =~= voxels@);
        root
    }
}

} // verus!
