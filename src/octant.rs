//! Octant codes and node coordinates.
use vstd::arithmetic::power2::{lemma2_to64, lemma_pow2_strictly_increases, pow2};
use vstd::prelude::*;

verus! {

/// One of the eight children of a cube, as the bit pattern `(i << 2) | (j << 1) | k`.
///
/// The `i`, `j` and `k` accessors return the bit at its own magnitude (`4`, `2`, `1` or `0`),
/// not normalized to `0` or `1`.
#[derive(Debug, Default, Copy, Clone, PartialEq, Eq, Structural, Hash, PartialOrd, Ord)]
pub struct Octant(pub u8);

/// The value `(i << 2) | (j << 1) | k` for three axis flags.
pub open spec fn octant_code(i: bool, j: bool, k: bool) -> u8 {
    ((if i { 4int } else { 0int }) + (if j { 2int } else { 0int }) + (if k { 1int } else { 0int })) as u8
}

/// The bit of magnitude `m` (a power of two below eight) in `v`, at its own magnitude.
pub open spec fn bit_at(v: u8, m: u8) -> u8 {
    if (v / m) % 2 == 1 { m } else { 0 }
}

/// The bit of magnitude `m` in `v`, as `0` or `1`.
pub open spec fn bit01(v: u8, m: u8) -> nat {
    if (v / m) % 2 == 1 { 1 } else { 0 }
}

impl Octant {
    /// Whether the code is one of the eight octants.
    pub open spec fn valid(self) -> bool {
        self.0 < 8
    }

    /// Build an octant from the three axis flags.
    pub fn new(i: bool, j: bool, k: bool) -> (r: Octant)
        ensures
            r.0 == octant_code(i, j, k),
            r.valid(),
    {
        let a: u8 = if i { 4 } else { 0 };
        let b: u8 = if j { 2 } else { 0 };
        let c: u8 = if k { 1 } else { 0 };
        Octant(a + b + c)
    }

    /// The `i` bit, as `4` or `0`.
    pub fn i(self) -> (r: u8)
        ensures
            r == bit_at(self.0, 4),
    {
        let v = self.0;
        let r = v & 4u8;
        assert(r == bit_at(v, 4)) by (bit_vector)
            requires
                r == v & 4u8,
        ;
        r
    }

    /// The `j` bit, as `2` or `0`.
    pub fn j(self) -> (r: u8)
        ensures
            r == bit_at(self.0, 2),
    {
        let v = self.0;
        let r = v & 2u8;
        assert(r == bit_at(v, 2)) by (bit_vector)
            requires
                r == v & 2u8,
        ;
        r
    }

    /// The `k` bit, as `1` or `0`.
    pub fn k(self) -> (r: u8)
        ensures
            r == bit_at(self.0, 1),
    {
        let v = self.0;
        let r = v & 1u8;
        assert(r == bit_at(v, 1)) by (bit_vector)
            requires
                r == v & 1u8,
        ;
        r
    }

    /// The three bits at their own magnitudes, as an `(i, j, k)` vector.
    pub fn vector(self) -> (r: (u8, u8, u8))
        ensures
            r == (bit_at(self.0, 4), bit_at(self.0, 2), bit_at(self.0, 1)),
    {
        (self.i(), self.j(), self.k())
    }

    /// The octant opposite to `self` across the center of the parent cube: every axis flag flipped.
    pub fn not(self) -> (r: Octant)
        requires
            self.valid(),
        ensures
            r.valid(),
            r.0 == 7 - self.0,
    {
        let v = self.0;
        let r = 7u8 ^ v;
        assert(r == 7 - v) by (bit_vector)
            requires
                r == 7u8 ^ v,
                v < 8,
        ;
        Octant(r)
    }

    /// The octant as an index into a children array.
    pub fn index(self) -> (r: usize)
        ensures
            r == self.0,
    {
        self.0 as usize
    }

    /// All eight octants, in ascending order.
    pub fn all() -> (r: Vec<Octant>)
        ensures
            r@.len() == 8,
            forall|n: int| 0 <= n < 8 ==> (#[trigger] r@[n]).0 == n,
    {
        let mut r: Vec<Octant> = Vec::new();
        let mut n: u8 = 0;
        while n < 8
            invariant
                n <= 8,
                r@.len() == n,
                forall|m: int| 0 <= m < n ==> (#[trigger] r@[m]).0 == m,
            decreases 8 - n,
        {
            r.push(Octant(n));
            n = n + 1;
        }
        r
    }
}

/// The coordinates `(x, y, z)` of a node within the `2^d`-sized grid of its depth `d`.
#[derive(Debug, Default, Copy, Clone, PartialEq, Eq, Structural, Hash)]
pub struct NodePoint {
    pub x: u32,
    pub y: u32,
    pub z: u32,
    pub d: u32,
}

/// The coordinates of a voxel within an octree's finest grid.
#[derive(Debug, Default, Copy, Clone, PartialEq, Eq, Structural, Hash)]
pub struct VoxelPoint {
    pub x: u32,
    pub y: u32,
    pub z: u32,
}

/// The node point of child `o` of the node at `(x, y, z, d)`: each coordinate doubles and takes
/// the octant's bit on its axis, and the depth grows by one.
pub open spec fn child_point(p: NodePoint, o: u8) -> NodePoint {
    NodePoint {
        x: (2 * p.x + bit01(o, 4)) as u32,
        y: (2 * p.y + bit01(o, 2)) as u32,
        z: (2 * p.z + bit01(o, 1)) as u32,
        d: (p.d + 1) as u32,
    }
}

/// Whether every coordinate of `p` lies inside the grid of its depth.
pub open spec fn in_grid(p: NodePoint) -> bool {
    p.d < 32 && p.x < pow2(p.d as nat) && p.y < pow2(p.d as nat) && p.z < pow2(p.d as nat)
}

impl NodePoint {
    /// The point with the given coordinates and depth.
    pub fn new(x: u32, y: u32, z: u32, d: u32) -> (r: NodePoint)
        ensures
            r == (NodePoint { x, y, z, d }),
    {
        NodePoint { x, y, z, d }
    }

    /// The point of child `o` of this node.
    pub fn add(self, o: Octant) -> (r: NodePoint)
        requires
            o.valid(),
            self.d < 31,
            in_grid(self),
        ensures
            r == child_point(self, o.0),
            in_grid(r),
    {
        let i: u32 = if o.i() != 0 { 1 } else { 0 };
        let j: u32 = if o.j() != 0 { 1 } else { 0 };
        let k: u32 = if o.k() != 0 { 1 } else { 0 };
        proof {
            lemma_pow2_bound(self.d as nat);
            vstd::arithmetic::power2::lemma_pow2_unfold((self.d + 1) as nat);
        }
        NodePoint { x: 2 * self.x + i, y: 2 * self.y + j, z: 2 * self.z + k, d: self.d + 1 }
    }
}

/// `2^n` fits in 32 bits for `n < 32`.
pub proof fn lemma_pow2_bound(n: nat)
    requires
        n < 32,
    ensures
        1 <= pow2(n) <= 0x8000_0000,
{
    lemma2_to64();
    if n < 31 {
        lemma_pow2_strictly_increases(n, 31);
    }
    if n > 0 {
        lemma_pow2_strictly_increases(0, n);
    }
}

} // verus!
