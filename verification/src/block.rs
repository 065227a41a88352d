//! A block, and the record that holds it in a file.

use vstd::prelude::*;
use crate::wire::{le_u32, lemma_u32_round_trip, put_u32, u32_of_le};

verus! {

/// The length of one record in bytes.
pub const RECORD_LEN: usize = 8;

/// What fills one cell of the world. Nothing is read into the two numbers:
/// blocks are only ever compared.
#[derive(Clone, Copy, Debug, PartialEq, Eq, Hash, Structural)]
pub struct Block {
    pub id: u32,
    pub modifier: u32,
}

/// The record of `block`: its id, then its modifier, both little-endian.
pub open spec fn record_bytes(block: Block) -> Seq<u8> {
    le_u32(block.id) + le_u32(block.modifier)
}

/// The block whose record starts `bytes`.
pub open spec fn block_of_record(bytes: Seq<u8>) -> Block
    recommends
        bytes.len() >= RECORD_LEN,
{
    Block { id: u32_of_le(bytes), modifier: u32_of_le(bytes.skip(4)) }
}

/// The records of `blocks`, one after the other.
pub open spec fn body_bytes(blocks: Seq<Block>) -> Seq<u8>
    decreases blocks.len(),
{
    if blocks.len() == 0 {
        Seq::empty()
    } else {
        record_bytes(blocks[0]) + body_bytes(blocks.skip(1))
    }
}

impl Block {
    pub fn new(id: u32, modifier: u32) -> (b: Block)
        ensures
            b.id == id,
            b.modifier == modifier,
    {
        Block { id, modifier }
    }

    /// Whether a cell that holds `self` has to be written to hold `wanted`:
    /// only where the two differ.
    pub fn needs_update(self, wanted: Block) -> (b: bool)
        ensures
            b == (self != wanted),
    {
        self.id != wanted.id || self.modifier != wanted.modifier
    }
}

/// Appends the record of `block`.
pub fn write_block(file: &mut Vec<u8>, block: Block)
    ensures
        final(file)@ == old(file)@ + record_bytes(block),
{
    put_u32(file, block.id);
    put_u32(file, block.modifier);
    assert(file@ =~= old(file)@ + record_bytes(block));
}

/// A record reads back as its block, whatever follows it.
pub proof fn lemma_record_round_trip(block: Block, rest: Seq<u8>)
    ensures
        block_of_record(record_bytes(block) + rest) == block,
        (record_bytes(block) + rest).skip(RECORD_LEN as int) == rest,
        (record_bytes(block) + rest).len() == RECORD_LEN + rest.len(),
{
    let all = record_bytes(block) + rest;
    let tail = le_u32(block.modifier) + rest;
    lemma_u32_round_trip(block.modifier, rest);
    lemma_u32_round_trip(block.id, tail);
    assert(all =~= le_u32(block.id) + tail);
    assert(all.skip(4).skip(4) =~= all.skip(8));
}

/// The records of a sequence with one more block at its end are the records
/// of the sequence and then that block's.
pub proof fn lemma_body_push(blocks: Seq<Block>, block: Block)
    ensures
        body_bytes(blocks.push(block)) == body_bytes(blocks) + record_bytes(block),
    decreases blocks.len(),
{
    let more = blocks.push(block);
    if blocks.len() == 0 {
        assert(more.skip(1) =~= Seq::<Block>::empty());
        assert(body_bytes(more.skip(1)) == Seq::<u8>::empty());
        assert(body_bytes(more) =~= record_bytes(block));
        assert(body_bytes(blocks) + record_bytes(block) =~= record_bytes(block));
    } else {
        lemma_body_push(blocks.skip(1), block);
        assert(more.skip(1) =~= blocks.skip(1).push(block));
        assert(body_bytes(more) =~= body_bytes(blocks) + record_bytes(block));
    }
}

/// Every block takes one record's length.
pub proof fn lemma_body_len(blocks: Seq<Block>)
    ensures
        body_bytes(blocks).len() == RECORD_LEN * blocks.len(),
    decreases blocks.len(),
{
    if blocks.len() > 0 {
        lemma_body_len(blocks.skip(1));
    }
}

} // verus!
