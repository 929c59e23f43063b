//! Plain lattice data: positions, extents and colours.

use vstd::prelude::*;

verus! {

/// A point of the integer lattice.
#[derive(Clone, Copy, Debug, PartialEq, Eq, Hash)]
pub struct Position {
    pub x: u32,
    pub y: u32,
    pub z: u32,
}

/// The size of an axis-aligned box, one length per axis.
#[derive(Clone, Copy, Debug, PartialEq, Eq, Hash)]
pub struct Extent {
    pub x: u32,
    pub y: u32,
    pub z: u32,
}

/// An RGB colour with 8 bits per channel.
#[derive(Clone, Copy, Debug, PartialEq, Eq, Hash)]
pub struct Color {
    pub r: u8,
    pub g: u8,
    pub b: u8,
}

/// The 32-bit material code of a colour: red in bits 16 to 23, green in bits 8 to 15,
/// blue in bits 0 to 7.
pub open spec fn packed_rgb(r: u8, g: u8, b: u8) -> u32 {
    (r as u32 * 65536 + g as u32 * 256 + b as u32) as u32
}

impl Position {
    pub fn new(x: u32, y: u32, z: u32) -> (p: Self)
        ensures
            p == (Position { x, y, z }),
    {
        Position { x, y, z }
    }
}

impl Extent {
    pub fn new(x: u32, y: u32, z: u32) -> (e: Self)
        ensures
            e == (Extent { x, y, z }),
    {
        Extent { x, y, z }
    }

    /// The longest of the three sides.
    pub open spec fn longest(self) -> u32 {
        if self.x >= self.y && self.x >= self.z {
            self.x
        } else if self.y >= self.z {
            self.y
        } else {
            self.z
        }
    }

    pub fn max_side(&self) -> (m: u32)
        ensures
            m == self.longest(),
    {
        let mut m: u32 = self.x;
        if self.y > m {
            m = self.y;
        }
        if self.z > m {
            m = self.z;
        }
        m
    }
}

impl Color {
    pub fn new(r: u8, g: u8, b: u8) -> (c: Self)
        ensures
            c == (Color { r, g, b }),
    {
        Color { r, g, b }
    }

    /// The material code of this colour.
    pub open spec fn packed(self) -> u32 {
        packed_rgb(self.r, self.g, self.b)
    }
}

/// The smallest power of two that is at least `n`.
pub open spec fn next_pow2(n: int) -> int
    decreases n,
{
    if n <= 1 {
        1
    } else {
        2 * next_pow2((n + 1) / 2)
    }
}

/// Whether `n` is a power of two.
pub open spec fn is_pow2(n: int) -> bool
    decreases n,
{
    if n <= 1 {
        n == 1
    } else {
        n % 2 == 0 && is_pow2(n / 2)
    }
}

/// `next_pow2(n)` is a power of two, is at least `n`, and no smaller power of two is.
pub proof fn lemma_next_pow2(n: int)
    ensures
        is_pow2(next_pow2(n)),
        n <= next_pow2(n),
        1 <= next_pow2(n),
        n >= 1 ==> next_pow2(n) < 2 * n,
        forall|q: int| is_pow2(q) && n <= q ==> next_pow2(n) <= q,
    decreases n,
{
    if n > 1 {
        let h = (n + 1) / 2;
        lemma_next_pow2(h);
        assert forall|q: int| is_pow2(q) && n <= q implies next_pow2(n) <= q by {
            assert(is_pow2(q / 2));
            assert(h <= q / 2);
        }
    } else {
        assert forall|q: int| is_pow2(q) && n <= q implies next_pow2(n) <= q by {
            if q < 1 {
                assert(!is_pow2(q));
            }
        }
    }
}

/// `u32::next_power_of_two`: the smallest power of two that is at least `n`. The std
/// function overflows above 2^31, so such inputs are left out.
#[verifier::external_body]
pub(crate) fn round_up_to_pow2(n: u32) -> (r: u32)
    requires
        n <= 0x8000_0000,
    ensures
        r == next_pow2(n as int),
{
    n.next_power_of_two()
}

/// cgmath's `Point3 + Vector3`: the point moved by the vector, component by component.
/// The sum must fit in `u32` on each axis, since the addition is the plain `+` of `u32`.
#[verifier::external_body]
pub(crate) fn shifted(p: Position, dx: u32, dy: u32, dz: u32) -> (q: Position)
    requires
        p.x + dx <= u32::MAX,
        p.y + dy <= u32::MAX,
        p.z + dz <= u32::MAX,
    ensures
        q.x == p.x + dx,
        q.y == p.y + dy,
        q.z == p.z + dz,
{
    let q = cgmath::Point3::new(p.x, p.y, p.z) + cgmath::Vector3::new(dx, dy, dz);
    Position { x: q.x, y: q.y, z: q.z }
}

/// Packs three channels into one material code.
pub fn pack_rgb(r: u8, g: u8, b: u8) -> (rgb: u32)
    ensures
        rgb == packed_rgb(r, g, b),
{
    let rgb: u32 = (r as u32) << 16 | (g as u32) << 8 | (b as u32);
    assert(((r as u32) << 16 | (g as u32) << 8 | (b as u32)) == (r as u32 * 65536 + g as u32 * 256
        + b as u32) as u32) by (bit_vector);
    rgb
}

/// A material code gives back each of its channels at the documented bit positions,
/// and leaves the top byte clear.
pub proof fn lemma_packed_rgb_channels(r: u8, g: u8, b: u8)
    ensures
        (packed_rgb(r, g, b) >> 16) & 0xff == r,
        (packed_rgb(r, g, b) >> 8) & 0xff == g,
        packed_rgb(r, g, b) & 0xff == b,
        packed_rgb(r, g, b) >> 24 == 0,
{
    let p = packed_rgb(r, g, b);
    assert(p == (r as u32) << 16 | (g as u32) << 8 | (b as u32)) by (bit_vector)
        requires
            p == (r as u32 * 65536 + g as u32 * 256 + b as u32) as u32,
    ;
    assert(((((r as u32) << 16 | (g as u32) << 8 | (b as u32)) >> 16) & 0xff) == r as u32)
        by (bit_vector);
    assert(((((r as u32) << 16 | (g as u32) << 8 | (b as u32)) >> 8) & 0xff) == g as u32)
        by (bit_vector);
    assert((((r as u32) << 16 | (g as u32) << 8 | (b as u32)) & 0xff) == b as u32)
        by (bit_vector);
    assert((((r as u32) << 16 | (g as u32) << 8 | (b as u32)) >> 24) == 0u32) by (bit_vector);
}

} // verus!
