//! The preamble of a region file: signature, version, origin and size.

use vstd::prelude::*;
use crate::error::Error;
use crate::geometry::{Coordinate, Region, Size};
use crate::wire::{
    i32_of_le, le_i32, le_u16, le_u32, lemma_i32_round_trip, lemma_u16_round_trip,
    lemma_u32_round_trip, put_i32, put_u16, put_u32, read_i32,
    read_u16, read_u32, u16_of_le, u32_of_le, Input,
};

verus! {

/// The signature that every region file starts with.
pub const MAGIC_NUMBER: u16 = 0xa3f9;

/// The one version of the format that is written and accepted.
pub const VERSION: u16 = 0x0100;

/// The length of the header in bytes: two 16-bit and six 32-bit numbers.
pub const HEADER_LEN: usize = 28;

/// What stands at the start of a region file.
#[derive(Clone, Copy, Debug, PartialEq, Eq, Hash, Structural)]
pub struct RegionHeader {
    pub signature: u16,
    pub version: u16,
    pub origin: Coordinate,
    pub size: Size,
}

impl RegionHeader {
    /// The header that is written for `region`: the signature and version
    /// of this format, then the region's origin and size.
    pub open spec fn of(region: Region) -> RegionHeader {
        RegionHeader {
            signature: MAGIC_NUMBER,
            version: VERSION,
            origin: region.origin,
            size: region.size,
        }
    }

    /// The region that the header describes.
    pub fn region(self) -> (r: Region)
        ensures
            r.origin == self.origin,
            r.size == self.size,
    {
        Region { origin: self.origin, size: self.size }
    }
}

/// The header of `region` as it stands in a file, all numbers little-endian.
pub open spec fn header_bytes(region: Region) -> Seq<u8> {
    le_u16(MAGIC_NUMBER) + le_u16(VERSION) + le_i32(region.origin.x) + le_i32(region.origin.y)
        + le_i32(region.origin.z) + le_u32(region.size.x) + le_u32(region.size.y) + le_u32(
        region.size.z,
    )
}

/// Whether a stream starts like a region file of this version. The signature
/// is judged first, and only then is the version looked at.
pub open spec fn metadata_verdict(bytes: Seq<u8>) -> Result<(), Error> {
    if bytes.len() < 2 {
        Err(Error::Io)
    } else if u16_of_le(bytes) != MAGIC_NUMBER {
        Err(Error::FormatMismatch)
    } else if bytes.len() < 4 {
        Err(Error::Io)
    } else if u16_of_le(bytes.skip(2)) < VERSION {
        Err(Error::OutdatedFile)
    } else if u16_of_le(bytes.skip(2)) > VERSION {
        Err(Error::OutdatedProgram)
    } else {
        Ok(())
    }
}

/// What is left of a stream once its signature and version have been judged.
pub open spec fn after_metadata(bytes: Seq<u8>) -> Seq<u8> {
    if bytes.len() < 2 {
        Seq::empty()
    } else if u16_of_le(bytes) != MAGIC_NUMBER {
        bytes.skip(2)
    } else if bytes.len() < 4 {
        Seq::empty()
    } else {
        bytes.skip(4)
    }
}

/// The header that a stream starts with, or why it has none. The origin and
/// the size are taken as they stand: no extent is too large or too small.
pub open spec fn parsed_header(bytes: Seq<u8>) -> Result<RegionHeader, Error> {
    match metadata_verdict(bytes) {
        Err(e) => Err(e),
        Ok(_) => if bytes.len() < HEADER_LEN {
            Err(Error::Io)
        } else {
            Ok(
                RegionHeader {
                    signature: MAGIC_NUMBER,
                    version: VERSION,
                    origin: Coordinate {
                        x: i32_of_le(bytes.skip(4)),
                        y: i32_of_le(bytes.skip(8)),
                        z: i32_of_le(bytes.skip(12)),
                    },
                    size: Size {
                        x: u32_of_le(bytes.skip(16)),
                        y: u32_of_le(bytes.skip(20)),
                        z: u32_of_le(bytes.skip(24)),
                    },
                },
            )
        },
    }
}

/// What is left of a stream once its header has been read, or the reading
/// has failed.
pub open spec fn after_header(bytes: Seq<u8>) -> Seq<u8> {
    if metadata_verdict(bytes).is_err() {
        after_metadata(bytes)
    } else if bytes.len() < HEADER_LEN {
        Seq::empty()
    } else {
        bytes.skip(HEADER_LEN as int)
    }
}

/// Appends the header of `region`: always this format's own signature and
/// version, then the origin and the size.
pub fn write_header(file: &mut Vec<u8>, region: Region)
    ensures
        final(file)@ == old(file)@ + header_bytes(region),
{
    put_u16(file, MAGIC_NUMBER);
    put_u16(file, VERSION);
    put_i32(file, region.origin.x);
    put_i32(file, region.origin.y);
    put_i32(file, region.origin.z);
    put_u32(file, region.size.x);
    put_u32(file, region.size.y);
    put_u32(file, region.size.z);
    assert(file@ =~= old(file)@ + header_bytes(region));
}

/// Reads the signature and the version and judges them: a wrong signature
/// is a format mismatch whatever follows it; a version below the current one
/// is an outdated file, one above it an outdated program.
pub fn check_data_metadata(file: &mut Input) -> (r: Result<(), Error>)
    ensures
        r == metadata_verdict(old(file)@),
        final(file)@ == after_metadata(old(file)@),
{
    let magic_number: u16 = match read_u16(file) {
        Ok(v) => v,
        Err(e) => {
            return Err(e);
        },
    };
    if magic_number != MAGIC_NUMBER {
        return Err(Error::FormatMismatch);
    }
    let version: u16 = match read_u16(file) {
        Ok(v) => v,
        Err(e) => {
            return Err(e);
        },
    };
    assert(file@ =~= old(file)@.skip(4));
    if version < VERSION {
        Err(Error::OutdatedFile)
    } else if version > VERSION {
        Err(Error::OutdatedProgram)
    } else {
        Ok(())
    }
}

/// Reads the header of a region file: judges signature and version, then
/// takes the origin and the size as they stand.
pub fn read_header(file: &mut Input) -> (r: Result<RegionHeader, Error>)
    ensures
        r == parsed_header(old(file)@),
        final(file)@ == after_header(old(file)@),
{
    let ghost start = file@;
    match check_data_metadata(file) {
        Ok(_) => {},
        Err(e) => {
            return Err(e);
        },
    }
    let ox = read_i32(file);
    assert(start.len() >= 8 ==> file@ =~= start.skip(8));
    let oy = read_i32(file);
    assert(start.len() >= 12 ==> file@ =~= start.skip(12));
    let oz = read_i32(file);
    assert(start.len() >= 16 ==> file@ =~= start.skip(16));
    let sx = read_u32(file);
    assert(start.len() >= 20 ==> file@ =~= start.skip(20));
    let sy = read_u32(file);
    assert(start.len() >= 24 ==> file@ =~= start.skip(24));
    let sz = read_u32(file);
    assert(start.len() >= 28 ==> file@ =~= start.skip(28));
    match (ox, oy, oz, sx, sy, sz) {
        (Ok(ox), Ok(oy), Ok(oz), Ok(sx), Ok(sy), Ok(sz)) => Ok(
            RegionHeader {
                signature: MAGIC_NUMBER,
                version: VERSION,
                origin: Coordinate { x: ox, y: oy, z: oz },
                size: Size { x: sx, y: sy, z: sz },
            },
        ),
        _ => Err(Error::Io),
    }
}

/// Every header has the same length.
pub proof fn lemma_header_len(region: Region)
    ensures
        header_bytes(region).len() == HEADER_LEN,
{
}

/// A written header reads back as itself, whatever follows it, and leaves
/// exactly what follows it.
pub proof fn lemma_header_round_trip(region: Region, rest: Seq<u8>)
    ensures
        parsed_header(header_bytes(region) + rest) == Ok::<RegionHeader, Error>(
            RegionHeader::of(region),
        ),
        after_header(header_bytes(region) + rest) == rest,
{
    let all = header_bytes(region) + rest;
    let t20 = le_u32(region.size.z) + rest;
    let t16 = le_u32(region.size.y) + t20;
    let t12 = le_u32(region.size.x) + t16;
    let t8 = le_i32(region.origin.z) + t12;
    let t4 = le_i32(region.origin.y) + t8;
    let t0 = le_i32(region.origin.x) + t4;
    let v = le_u16(VERSION) + t0;
    lemma_u32_round_trip(region.size.z, rest);
    lemma_u32_round_trip(region.size.y, t20);
    lemma_u32_round_trip(region.size.x, t16);
    lemma_i32_round_trip(region.origin.z, t12);
    lemma_i32_round_trip(region.origin.y, t8);
    lemma_i32_round_trip(region.origin.x, t4);
    lemma_u16_round_trip(VERSION, t0);
    lemma_u16_round_trip(MAGIC_NUMBER, v);
    assert(all == le_u16(MAGIC_NUMBER) + v) by {
        assert(all =~= le_u16(MAGIC_NUMBER) + v);
    }
    assert(all.skip(2) == v);
    lemma_skip_twice(all, 2, 2);
    lemma_skip_twice(all, 4, 4);
    lemma_skip_twice(all, 8, 4);
    lemma_skip_twice(all, 12, 4);
    lemma_skip_twice(all, 16, 4);
    lemma_skip_twice(all, 20, 4);
    lemma_skip_twice(all, 24, 4);
    assert(all.skip(4) == t0);
    assert(all.skip(8) == t4);
    assert(all.skip(12) == t8);
    assert(all.skip(16) == t12);
    assert(all.skip(20) == t16);
    assert(all.skip(24) == t20);
    assert(all.skip(28) == rest);
}

/// Skipping twice is skipping once by the sum.
proof fn lemma_skip_twice(s: Seq<u8>, a: int, b: int)
    requires
        0 <= a,
        0 <= b,
        a + b <= s.len(),
    ensures
        s.skip(a).skip(b) == s.skip(a + b),
{
    assert(s.skip(a).skip(b) =~= s.skip(a + b));
}

/// A stream whose signature is not this format's is a format mismatch,
/// whatever stands behind the signature, version bytes or none. With the
/// right signature, any lower version is an outdated file and any higher
/// one an outdated program.
pub proof fn lemma_header_rejection(signature: u16, version: u16, rest: Seq<u8>)
    ensures
        signature != MAGIC_NUMBER ==> parsed_header(le_u16(signature) + rest) == Err::<
            RegionHeader,
            Error,
        >(Error::FormatMismatch),
        signature == MAGIC_NUMBER && version < VERSION ==> parsed_header(
            le_u16(signature) + le_u16(version) + rest,
        ) == Err::<RegionHeader, Error>(Error::OutdatedFile),
        signature == MAGIC_NUMBER && version > VERSION ==> parsed_header(
            le_u16(signature) + le_u16(version) + rest,
        ) == Err::<RegionHeader, Error>(Error::OutdatedProgram),
{
    let tail = le_u16(version) + rest;
    let all = le_u16(signature) + le_u16(version) + rest;
    lemma_u16_round_trip(signature, rest);
    lemma_u16_round_trip(version, rest);
    lemma_u16_round_trip(signature, tail);
    assert(all =~= le_u16(signature) + tail);
}

} // verus!
