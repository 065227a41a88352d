//! Writing a region: the header, then one record per block.

use vstd::prelude::*;
use crate::block::{body_bytes, lemma_body_push, write_block, Block};
use crate::format::{header_bytes, write_header};
use crate::geometry::Region;

verus! {

/// A whole region file: the header of `region`, then the records of
/// `blocks` in the order given.
pub open spec fn file_bytes(region: Region, blocks: Seq<Block>) -> Seq<u8> {
    header_bytes(region) + body_bytes(blocks)
}

/// Appends a region file to `file`: the header, then every block of
/// `blocks` in the order given, which is the order they will be placed in
/// when the file is read. How many blocks there are is not held against the
/// volume of the region.
pub fn write_data(file: &mut Vec<u8>, region: Region, blocks: &[Block])
    ensures
        final(file)@ == old(file)@ + file_bytes(region, blocks@),
{
    write_header(file, region);
    let ghost start = file@;
    let mut i: usize = 0;
    while i < blocks.len()
        invariant
            i <= blocks.len(),
            file@ == start + body_bytes(blocks@.take(i as int)),
        decreases blocks.len() - i,
    {
        proof {
            lemma_body_push(blocks@.take(i as int), blocks@[i as int]);
            assert(blocks@.take(i as int).push(blocks@[i as int]) =~= blocks@.take(i + 1));
        }
        write_block(file, blocks[i]);
        i = i + 1;
        assert(file@ =~= start + body_bytes(blocks@.take(i as int)));
    }
    assert(blocks@.take(i as int) =~= blocks@);
    assert(file@ =~= old(file)@ + file_bytes(region, blocks@));
}

} // verus!
