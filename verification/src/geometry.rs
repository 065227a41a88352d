//! Coordinates, extents and the flattening order of a region.

use vstd::prelude::*;
use vstd::arithmetic::div_mod::lemma_div_denominator;
use vstd::arithmetic::div_mod::lemma_fundamental_div_mod;
use vstd::arithmetic::div_mod::lemma_fundamental_div_mod_converse;

verus! {

/// An absolute position in the world.
#[derive(Clone, Copy, Debug, PartialEq, Eq, Hash, Structural)]
pub struct Coordinate {
    pub x: i32,
    pub y: i32,
    pub z: i32,
}

/// A displacement inside a region, never negative.
#[derive(Clone, Copy, Debug, PartialEq, Eq, Hash, Structural)]
pub struct Offset {
    pub x: u32,
    pub y: u32,
    pub z: u32,
}

/// The extents of a region along the three axes.
#[derive(Clone, Copy, Debug, PartialEq, Eq, Hash, Structural)]
pub struct Size {
    pub x: u32,
    pub y: u32,
    pub z: u32,
}

/// A cuboid of space: where it starts and how far it reaches.
#[derive(Clone, Copy, Debug, PartialEq, Eq, Hash, Structural)]
pub struct Region {
    pub origin: Coordinate,
    pub size: Size,
}

/// The smaller of two integers.
pub open spec fn lesser(a: int, b: int) -> int {
    if a <= b { a } else { b }
}

/// The distance between two integers.
pub open spec fn distance(a: int, b: int) -> int {
    if a <= b { b - a } else { a - b }
}

/// A sum of a signed 32-bit base and an unsigned 32-bit delta, brought back
/// into the signed 32-bit range by two's complement wrap-around. Where the
/// sum is at most `i32::MAX` it is left as it is.
pub open spec fn wrap_i32(v: int) -> int {
    if v > i32::MAX { v - 0x1_0000_0000 } else { v }
}

/// An extent as a divisor: an axis of extent zero divides like one of extent one.
pub open spec fn divisor(extent: u32) -> int {
    if extent == 0 { 1 } else { extent as int }
}

/// The place of record `index` in the flattening order: Y is the outermost
/// axis, X the middle one and Z the innermost. The Y component is kept to
/// 32 bits, which changes nothing for an index below the volume.
pub open spec fn offset_at(size: Size, index: int) -> Offset {
    let dx = divisor(size.x);
    let dz = divisor(size.z);
    Offset {
        x: ((index / dz) % dx) as u32,
        y: ((index / (dx * dz)) % 0x1_0000_0000) as u32,
        z: (index % dz) as u32,
    }
}

/// The index at which the flattening order places `offset`.
pub open spec fn index_at(size: Size, offset: Offset) -> int {
    offset.z + (offset.x + offset.y * size.x) * size.z
}

/// Whether `offset` lies inside the cuboid `[0, x) * [0, y) * [0, z)` of `size`.
pub open spec fn in_cuboid(size: Size, offset: Offset) -> bool {
    offset.x < size.x && offset.y < size.y && offset.z < size.z
}

/// `origin` displaced by `offset`, each axis wrapped into 32 bits.
pub open spec fn displaced(origin: Coordinate, offset: Offset) -> Coordinate {
    Coordinate {
        x: wrap_i32(origin.x + offset.x) as i32,
        y: wrap_i32(origin.y + offset.y) as i32,
        z: wrap_i32(origin.z + offset.z) as i32,
    }
}

/// The region spanned by two corners, whichever way round they are given.
pub open spec fn normalized(a: Coordinate, b: Coordinate) -> Region {
    Region {
        origin: Coordinate {
            x: lesser(a.x as int, b.x as int) as i32,
            y: lesser(a.y as int, b.y as int) as i32,
            z: lesser(a.z as int, b.z as int) as i32,
        },
        size: Size {
            x: distance(a.x as int, b.x as int) as u32,
            y: distance(a.y as int, b.y as int) as u32,
            z: distance(a.z as int, b.z as int) as u32,
        },
    }
}

impl Coordinate {
    pub fn new(x: i32, y: i32, z: i32) -> (c: Coordinate)
        ensures
            c.x == x,
            c.y == y,
            c.z == z,
    {
        Coordinate { x, y, z }
    }

    /// The component-wise minimum of two coordinates.
    pub fn min(self, other: Coordinate) -> (c: Coordinate)
        ensures
            c.x == lesser(self.x as int, other.x as int),
            c.y == lesser(self.y as int, other.y as int),
            c.z == lesser(self.z as int, other.z as int),
    {
        Coordinate {
            x: if self.x <= other.x { self.x } else { other.x },
            y: if self.y <= other.y { self.y } else { other.y },
            z: if self.z <= other.z { self.z } else { other.z },
        }
    }
}

impl Offset {
    pub fn new(x: u32, y: u32, z: u32) -> (o: Offset)
        ensures
            o.x == x,
            o.y == y,
            o.z == z,
    {
        Offset { x, y, z }
    }
}

impl Size {
    pub fn new(x: u32, y: u32, z: u32) -> (s: Size)
        ensures
            s.x == x,
            s.y == y,
            s.z == z,
    {
        Size { x, y, z }
    }

    /// The number of blocks in a cuboid of this size.
    pub open spec fn cells(self) -> nat {
        (self.x * self.y * self.z) as nat
    }

    /// The number of blocks, where it fits the machine word.
    pub fn checked_volume(self) -> (v: Option<usize>)
        ensures
            self.cells() <= usize::MAX ==> v == Some(self.cells() as usize),
            self.cells() > usize::MAX ==> v.is_none(),
    {
        assert(self.x * self.y <= 0xffff_ffff * 0xffff_ffff) by (nonlinear_arith)
            requires
                self.x <= 0xffff_ffff,
                self.y <= 0xffff_ffff,
        ;
        let xy: u128 = (self.x as u128) * (self.y as u128);
        assert(xy * self.z <= 0xffff_ffff * 0xffff_ffff * 0xffff_ffff) by (nonlinear_arith)
            requires
                xy <= 0xffff_ffff * 0xffff_ffff,
                self.z <= 0xffff_ffff,
        ;
        let all: u128 = xy * (self.z as u128);
        if all <= usize::MAX as u128 {
            Some(all as usize)
        } else {
            None
        }
    }

    /// The number of blocks in a cuboid of this size.
    pub fn volume(self) -> (v: usize)
        requires
            self.cells() <= usize::MAX,
        ensures
            v == self.cells(),
    {
        match self.checked_volume() {
            Some(v) => v,
            None => 0,
        }
    }
}

impl Region {
    /// The region with the given parts, taken as they stand.
    pub fn new(origin: Coordinate, size: Size) -> (r: Region)
        ensures
            r.origin == origin,
            r.size == size,
    {
        Region { origin, size }
    }

    /// A region is well formed when its far corner is a coordinate: on each
    /// axis the origin plus the extent stays within 32 signed bits.
    pub open spec fn wf(self) -> bool {
        &&& self.origin.x + self.size.x <= i32::MAX
        &&& self.origin.y + self.size.y <= i32::MAX
        &&& self.origin.z + self.size.z <= i32::MAX
    }

    /// Whether the region is well formed.
    pub fn is_wf(self) -> (b: bool)
        ensures
            b == self.wf(),
    {
        self.origin.x as i64 + self.size.x as i64 <= 0x7fff_ffff && self.origin.y as i64
            + self.size.y as i64 <= 0x7fff_ffff && self.origin.z as i64 + self.size.z as i64
            <= 0x7fff_ffff
    }

    /// The far corner: the origin displaced by the whole size.
    pub open spec fn far_corner(self) -> Coordinate {
        displaced(self.origin, Offset { x: self.size.x, y: self.size.y, z: self.size.z })
    }

    /// The far corner of the region. For a well-formed region this is the
    /// origin plus the size on each axis.
    pub fn bound(self) -> (c: Coordinate)
        ensures
            c == self.far_corner(),
            self.wf() ==> c.x == self.origin.x + self.size.x && c.y == self.origin.y + self.size.y
                && c.z == self.origin.z + self.size.z,
    {
        offset_to_coordinate(self.origin, Offset { x: self.size.x, y: self.size.y, z: self.size.z })
    }
}

fn shifted(base: i32, delta: u32) -> (r: i32)
    ensures
        r == wrap_i32(base + delta),
{
    let sum: i64 = base as i64 + delta as i64;
    if sum > 0x7fff_ffff {
        (sum - 0x1_0000_0000) as i32
    } else {
        sum as i32
    }
}

fn gap(a: i32, b: i32) -> (r: u32)
    ensures
        r == distance(a as int, b as int),
{
    let d: i64 = a as i64 - b as i64;
    if d < 0 {
        (-d) as u32
    } else {
        d as u32
    }
}

/// `origin` displaced by `offset`. Each axis is the plain sum where that sum
/// is a signed 32-bit number, and wraps round otherwise.
pub fn offset_to_coordinate(origin: Coordinate, offset: Offset) -> (c: Coordinate)
    ensures
        c == displaced(origin, offset),
        origin.x + offset.x <= i32::MAX ==> c.x == origin.x + offset.x,
        origin.y + offset.y <= i32::MAX ==> c.y == origin.y + offset.y,
        origin.z + offset.z <= i32::MAX ==> c.z == origin.z + offset.z,
{
    Coordinate {
        x: shifted(origin.x, offset.x),
        y: shifted(origin.y, offset.y),
        z: shifted(origin.z, offset.z),
    }
}

/// The region between two corners given in any order: its origin is the
/// smaller corner on each axis and its size the distance between them.
pub fn normalize(a: Coordinate, b: Coordinate) -> (r: Region)
    ensures
        r == normalized(a, b),
        r.wf(),
{
    Region {
        origin: a.min(b),
        size: Size { x: gap(a.x, b.x), y: gap(a.y, b.y), z: gap(a.z, b.z) },
    }
}

/// Calls `mcrs::Size::index_to_offset` on a size with the given extents and
/// hands back the low 32 bits of each component. That function takes the
/// index modulo the Z extent, then the quotient modulo the X extent, and what
/// is left after dividing by both as the Y component; it divides by the X and
/// Z extents, which therefore may not be zero.
#[verifier::external_body]
fn flattened(x: u32, y: u32, z: u32, index: usize) -> (o: Offset)
    requires
        x > 0,
        z > 0,
    ensures
        o.z == index as int % z as int,
        o.x == (index as int / z as int) % (x as int),
        o.y == ((index as int / z as int) / (x as int)) % 0x1_0000_0000,
{
    let at = mcrs::Size::new(x, y, z).index_to_offset(index);
    Offset { x: at.x as u32, y: at.y as u32, z: at.z as u32 }
}

/// The offset of record `index` within a region of the given size, in the
/// one order that files are written and read in: Y outermost, X in the
/// middle, Z innermost. For an index below the volume this is
/// `y = index / (x * z)`, `x = (index / z) mod x`, `z = index mod z`, an
/// offset inside the region. An index at or beyond the volume has an offset
/// too, by the same formula: it lies beyond the region in Y, an axis of
/// extent zero counts as one of extent one, and Y is kept to 32 bits.
pub fn index_to_offset(size: Size, index: usize) -> (o: Offset)
    ensures
        o == offset_at(size, index as int),
        index < size.cells() ==> {
            &&& o.x == (index as int / size.z as int) % (size.x as int)
            &&& o.y == index as int / (size.x * size.z)
            &&& o.z == index as int % (size.z as int)
            &&& in_cuboid(size, o)
        },
{
    let dx: u32 = if size.x == 0 { 1 } else { size.x };
    let dz: u32 = if size.z == 0 { 1 } else { size.z };
    let o = flattened(dx, size.y, dz, index);
    proof {
        lemma_div_denominator(index as int, dz as int, dx as int);
        assert(dz * dx == dx * dz) by (nonlinear_arith);
        if index < size.cells() {
            lemma_offset_in_cuboid(size, index as int);
        }
    }
    o
}

/// Below the volume the flattening order is the plain formula, and it stays
/// inside the cuboid.
pub proof fn lemma_offset_in_cuboid(size: Size, index: int)
    requires
        0 <= index < size.cells(),
    ensures
        in_cuboid(size, offset_at(size, index)),
        offset_at(size, index).x == (index / size.z as int) % (size.x as int),
        offset_at(size, index).y == index / (size.x * size.z),
        offset_at(size, index).z == index % (size.z as int),
{
    let sx = size.x as int;
    let sy = size.y as int;
    let sz = size.z as int;
    assert(sx > 0 && sy > 0 && sz > 0) by (nonlinear_arith)
        requires
            0 < sx * sy * sz,
            sx >= 0,
            sy >= 0,
            sz >= 0,
    ;
    assert(sx * sz > 0) by (nonlinear_arith)
        requires
            sx > 0,
            sz > 0,
    ;
    assert(index / (sx * sz) < sy && index / (sx * sz) >= 0) by (nonlinear_arith)
        requires
            0 <= index < sx * sy * sz,
            sx * sz > 0,
    ;
}

/// Walking to an offset inside the cuboid and asking for its index gives a
/// number below the volume, and the flattening order leads back to the offset.
pub proof fn lemma_offset_of_index(size: Size, offset: Offset)
    requires
        in_cuboid(size, offset),
    ensures
        0 <= index_at(size, offset) < size.cells(),
        offset_at(size, index_at(size, offset)) == offset,
{
    let sx = size.x as int;
    let sy = size.y as int;
    let sz = size.z as int;
    let x = offset.x as int;
    let y = offset.y as int;
    let z = offset.z as int;
    let row = x + y * sx;
    let i = index_at(size, offset);
    assert(0 <= row <= sy * sx - 1) by (nonlinear_arith)
        requires
            row == x + y * sx,
            0 <= x < sx,
            0 <= y < sy,
    ;
    assert(0 <= z + row * sz < sx * sy * sz) by (nonlinear_arith)
        requires
            0 <= row <= sy * sx - 1,
            0 <= z < sz,
    ;
    lemma_fundamental_div_mod_converse(i, sz, row, z);
    lemma_fundamental_div_mod_converse(row, sx, y, x);
    lemma_div_denominator(i, sz, sx);
    assert(sz * sx == sx * sz) by (nonlinear_arith);
}

/// Asking for the offset of an index below the volume and then for the index
/// of that offset gives the index back.
pub proof fn lemma_index_of_offset(size: Size, index: int)
    requires
        0 <= index < size.cells(),
    ensures
        index_at(size, offset_at(size, index)) == index,
{
    let sx = size.x as int;
    let sz = size.z as int;
    lemma_offset_in_cuboid(size, index);
    let row = index / sz;
    lemma_fundamental_div_mod(index, sz);
    lemma_fundamental_div_mod(row, sx);
    lemma_div_denominator(index, sz, sx);
    assert(sz * sx == sx * sz) by (nonlinear_arith);
    assert((row % sx + (row / sx) * sx) * sz == (sx * (row / sx) + row % sx) * sz)
        by (nonlinear_arith);
    assert(row * sz == sz * row) by (nonlinear_arith);
}

/// The flattening order is one-to-one and onto: two different indices below
/// the volume never share an offset, every such index lands inside the
/// cuboid, and every offset inside the cuboid is the place of an index below
/// the volume.
pub proof fn lemma_flattening_is_bijection(size: Size)
    ensures
        forall|i: int| 0 <= i < size.cells() ==> in_cuboid(size, #[trigger] offset_at(size, i)),
        forall|i: int, j: int|
            0 <= i < size.cells() && 0 <= j < size.cells() && #[trigger] offset_at(size, i)
                == #[trigger] offset_at(size, j) ==> i == j,
        forall|o: Offset| #[trigger]
            in_cuboid(size, o) ==> 0 <= index_at(size, o) < size.cells() && offset_at(
                size,
                index_at(size, o),
            ) == o,
{
    assert forall|i: int| 0 <= i < size.cells() implies in_cuboid(
        size,
        #[trigger] offset_at(size, i),
    ) by {
        lemma_offset_in_cuboid(size, i);
    }
    assert forall|i: int, j: int|
        0 <= i < size.cells() && 0 <= j < size.cells() && #[trigger] offset_at(size, i)
            == #[trigger] offset_at(size, j) implies i == j by {
        lemma_index_of_offset(size, i);
        lemma_index_of_offset(size, j);
    }
    assert forall|o: Offset| #[trigger] in_cuboid(size, o) implies 0 <= index_at(size, o)
        < size.cells() && offset_at(size, index_at(size, o)) == o by {
        lemma_offset_of_index(size, o);
    }
}

/// The two corners may be given in either order: the region is the same, it
/// is well formed, and its origin is not beyond its far corner on any axis.
pub proof fn lemma_normalize_symmetric(a: Coordinate, b: Coordinate)
    ensures
        normalized(a, b) == normalized(b, a),
        normalized(a, b).wf(),
        normalized(a, b).origin.x <= normalized(a, b).far_corner().x,
        normalized(a, b).origin.y <= normalized(a, b).far_corner().y,
        normalized(a, b).origin.z <= normalized(a, b).far_corner().z,
{
}

} // verus!
