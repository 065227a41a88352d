//! Reading a region: the header at once, then the blocks one at a time.

use vstd::prelude::*;
use crate::block::{
    block_of_record, body_bytes, lemma_body_len, lemma_record_round_trip, Block, RECORD_LEN,
};
use crate::format::HEADER_LEN;
use crate::error::Error;
use crate::format::{
    after_header, lemma_header_len, lemma_header_round_trip, parsed_header, read_header,
    RegionHeader,
};
use crate::geometry::{
    displaced, in_cuboid, index_to_offset, lemma_offset_in_cuboid, offset_at,
    offset_to_coordinate, Coordinate, Region, Size,
};
use crate::wire::{read_u32, try_read_u32, u32_from_le, Input};
use vstd::slice::slice_subrange;
use crate::writer::file_bytes;

verus! {

/// Where a reader stands. Once exhausted or failed it stays so.
#[derive(Clone, Copy, Debug, PartialEq, Eq, Hash, Structural)]
pub enum ReaderState {
    /// The header has been read and records may follow.
    Streaming,
    /// The stream ended between two records.
    Exhausted,
    /// The stream ended inside a record.
    Failed,
}

/// What one pull on a reader gives.
#[derive(Clone, Copy, Debug, PartialEq, Eq, Hash, Structural)]
pub enum Step {
    /// The next block and the place it belongs to.
    Item(Coordinate, Block),
    /// There are no more blocks.
    End,
    /// The stream cannot be read any further.
    Error(Error),
}

/// All that a body gives when it is read to its end.
pub struct Decoded {
    /// The blocks with their places, in the order of the file.
    pub items: Seq<(Coordinate, Block)>,
    /// Whether, and how, reading failed after the last of them.
    pub failure: Option<Error>,
}

/// The place of record `index` of `region`: the origin displaced by the
/// offset that the flattening order gives the index.
pub open spec fn place_at(region: Region, index: int) -> Coordinate {
    displaced(region.origin, offset_at(region.size, index))
}

/// What a pull gives for record `index` of `region` when `pending` is what
/// the stream still holds: nothing is the end, a whole record is an item,
/// and anything between is a record cut short.
pub open spec fn step_of(region: Region, index: int, pending: Seq<u8>) -> Step {
    if pending.len() == 0 {
        Step::End
    } else if pending.len() < RECORD_LEN {
        Step::Error(Error::TruncatedRecord)
    } else {
        Step::Item(place_at(region, index), block_of_record(pending))
    }
}

/// The result of reading `body` to its end as the records of `region` from
/// number `index` on. The body may hold fewer or more records than the
/// region has cells; only a record cut short is a failure.
pub open spec fn decoded(region: Region, index: int, body: Seq<u8>) -> Decoded
    decreases body.len(),
{
    if body.len() == 0 {
        Decoded { items: Seq::empty(), failure: None }
    } else if body.len() < RECORD_LEN {
        Decoded { items: Seq::empty(), failure: Some(Error::TruncatedRecord) }
    } else {
        let rest = decoded(region, index + 1, body.skip(RECORD_LEN as int));
        Decoded {
            items: seq![(place_at(region, index), block_of_record(body))] + rest.items,
            failure: rest.failure,
        }
    }
}

/// The blocks of `blocks` with the places of records `index`, `index + 1`
/// and so on.
pub open spec fn placed(region: Region, index: int, blocks: Seq<Block>) -> Seq<
    (Coordinate, Block),
> {
    Seq::new(blocks.len(), |i: int| (place_at(region, index + i), blocks[i]))
}

/// A single pass over the blocks of a region file.
#[derive(Debug)]
pub struct BlockReader {
    reader: Input,
    index: usize,
    origin: Coordinate,
    size: Size,
    state: ReaderState,
}

impl BlockReader {
    #[verifier::type_invariant]
    spec fn inv(self) -> bool {
        self.index + self.reader@.len() <= usize::MAX
    }

    /// The region that the header announced.
    pub closed spec fn region(&self) -> Region {
        Region { origin: self.origin, size: self.size }
    }

    /// How many records have been handed out.
    pub closed spec fn position(&self) -> nat {
        self.index as nat
    }

    /// The bytes of the body that have not been read.
    pub closed spec fn pending(&self) -> Seq<u8> {
        self.reader@
    }

    /// Where the reader stands.
    pub closed spec fn status(&self) -> ReaderState {
        self.state
    }

    /// What the next pull gives.
    pub open spec fn upcoming(&self) -> Step {
        match self.status() {
            ReaderState::Exhausted => Step::End,
            ReaderState::Failed => Step::Error(Error::TruncatedRecord),
            ReaderState::Streaming => step_of(
                self.region(),
                self.position() as int,
                self.pending(),
            ),
        }
    }

    /// Everything that pulling until the end gives.
    pub open spec fn outcome(&self) -> Decoded {
        match self.status() {
            ReaderState::Exhausted => Decoded { items: Seq::empty(), failure: None },
            ReaderState::Failed => Decoded {
                items: Seq::empty(),
                failure: Some(Error::TruncatedRecord),
            },
            ReaderState::Streaming => decoded(
                self.region(),
                self.position() as int,
                self.pending(),
            ),
        }
    }

    fn new(reader: Input, origin: Coordinate, size: Size) -> (r: BlockReader)
        ensures
            r.region() == (Region { origin, size }),
            r.position() == 0,
            r.pending() == reader@,
            r.status() == ReaderState::Streaming,
    {
        // the length of what is unread is a machine word, so the count of
        // records cannot outgrow one
        let _: usize = reader.available();
        BlockReader { reader, index: 0, origin, size, state: ReaderState::Streaming }
    }

    /// The origin of the region, as the header gave it.
    pub fn origin(&self) -> (c: Coordinate)
        ensures
            c == self.region().origin,
    {
        self.origin
    }

    /// The size of the region, as the header gave it.
    pub fn size(&self) -> (s: Size)
        ensures
            s == self.region().size,
    {
        self.size
    }

    /// The far corner of the region: its origin displaced by its size.
    pub fn bound(&self) -> (c: Coordinate)
        ensures
            c == self.region().far_corner(),
            self.region().wf() ==> c.x == self.region().origin.x + self.region().size.x && c.y
                == self.region().origin.y + self.region().size.y && c.z
                == self.region().origin.z + self.region().size.z,
    {
        Region { origin: self.origin, size: self.size }.bound()
    }

    /// Where the reader stands.
    pub fn state(&self) -> (s: ReaderState)
        ensures
            s == self.status(),
    {
        self.state
    }

    /// Pulls the next block. At the end of the stream the reader is
    /// exhausted; a record of fewer than its eight bytes makes it fail, and
    /// what there was of the record is used up. An exhausted or failed reader
    /// gives the same answer to every further pull and reads nothing.
    pub fn next(&mut self) -> (step: Step)
        ensures
            step == old(self).upcoming(),
            final(self).region() == old(self).region(),
            final(self).position() == old(self).position() + (if step is Item {
                1nat
            } else {
                0nat
            }),
            final(self).status() == (match step {
                Step::Item(_, _) => ReaderState::Streaming,
                Step::End => ReaderState::Exhausted,
                Step::Error(_) => ReaderState::Failed,
            }),
            final(self).pending() == (match step {
                Step::Item(_, _) => old(self).pending().skip(RECORD_LEN as int),
                Step::End => old(self).pending(),
                Step::Error(_) => if old(self).status() == ReaderState::Streaming {
                    Seq::empty()
                } else {
                    old(self).pending()
                },
            }),
    {
        proof {
            use_type_invariant(&*self);
        }
        match self.state {
            ReaderState::Exhausted => {
                return Step::End;
            },
            ReaderState::Failed => {
                return Step::Error(Error::TruncatedRecord);
            },
            ReaderState::Streaming => {},
        }
        let id: u32 = match try_read_u32(&mut self.reader) {
            Ok(Some(id)) => id,
            Ok(None) => {
                self.state = ReaderState::Exhausted;
                return Step::End;
            },
            Err(_) => {
                self.state = ReaderState::Failed;
                return Step::Error(Error::TruncatedRecord);
            },
        };
        let modifier: u32 = match read_u32(&mut self.reader) {
            Ok(modifier) => modifier,
            Err(_) => {
                self.state = ReaderState::Failed;
                return Step::Error(Error::TruncatedRecord);
            },
        };
        assert(self.reader@ =~= old(self).reader@.skip(RECORD_LEN as int));
        let block = Block { id, modifier };
        let coordinate = offset_to_coordinate(self.origin, index_to_offset(self.size, self.index));
        self.index = self.index + 1;
        Step::Item(coordinate, block)
    }

    /// Pulls until the reader is exhausted or has failed, and gives the
    /// blocks that came with their places, and the failure if there was one.
    pub fn collect(&mut self) -> (all: (Vec<(Coordinate, Block)>, Option<Error>))
        ensures
            all.0@ == old(self).outcome().items,
            all.1 == old(self).outcome().failure,
            final(self).region() == old(self).region(),
            final(self).position() == old(self).position() + all.0@.len(),
            final(self).status() == (if all.1.is_none() {
                ReaderState::Exhausted
            } else {
                ReaderState::Failed
            }),
            final(self).pending() == (if old(self).status() == ReaderState::Streaming {
                Seq::empty()
            } else {
                old(self).pending()
            }),
    {
        let mut items: Vec<(Coordinate, Block)> = Vec::new();
        loop
            invariant
                self.region() == old(self).region(),
                self.position() == old(self).position() + items@.len(),
                old(self).outcome().items == items@ + self.outcome().items,
                old(self).outcome().failure == self.outcome().failure,
                self.status() == old(self).status(),
                old(self).status() != ReaderState::Streaming ==> self.pending() == old(
                    self,
                ).pending(),
            decreases self.pending().len(),
        {
            let ghost before = self.outcome();
            match self.next() {
                Step::Item(coordinate, block) => {
                    let ghost so_far = items@;
                    items.push((coordinate, block));
                    assert(so_far + before.items =~= items@ + self.outcome().items);
                },
                Step::End => {
                    assert(items@ + before.items =~= items@);
                    return (items, None);
                },
                Step::Error(e) => {
                    assert(items@ + before.items =~= items@);
                    return (items, Some(e));
                },
            }
        }
    }
}

/// Judges the bytes that a stream gave for record `index` of `region`, for
/// a caller that reads the stream itself: `record` holds the next eight
/// bytes, or all that was left where the stream ended before that.
pub fn decode_record(region: Region, index: usize, record: &[u8]) -> (step: Step)
    ensures
        step == step_of(region, index as int, record@),
{
    if record.len() == 0 {
        Step::End
    } else if record.len() < RECORD_LEN {
        Step::Error(Error::TruncatedRecord)
    } else {
        let id: u32 = u32_from_le(record);
        let modifier: u32 = u32_from_le(slice_subrange(record, 4, record.len()));
        assert(record@.subrange(4, record@.len() as int) =~= record@.skip(4));
        Step::Item(
            offset_to_coordinate(region.origin, index_to_offset(region.size, index)),
            Block { id, modifier },
        )
    }
}

/// Reads the header of a region file and gives the reader of its blocks.
/// A stream that does not start with a header of this format and version is
/// refused, and none of its body is looked at.
pub fn read_data(file: Input) -> (r: Result<BlockReader, Error>)
    ensures
        match parsed_header(file@) {
            Ok(header) => r matches Ok(reader) && reader.region() == (Region {
                origin: header.origin,
                size: header.size,
            }) && reader.position() == 0 && reader.pending() == after_header(file@)
                && reader.status() == ReaderState::Streaming,
            Err(e) => r matches Err(x) && x == e,
        },
{
    let mut file = file;
    match read_header(&mut file) {
        Ok(header) => Ok(BlockReader::new(file, header.origin, header.size)),
        Err(e) => Err(e),
    }
}

/// A body of whole records reads cleanly, however many records the region
/// has room for; a body with one to seven bytes behind its last whole record
/// fails as truncated. Either way every whole record is handed out.
pub proof fn lemma_truncation(region: Region, index: int, body: Seq<u8>)
    ensures
        decoded(region, index, body).items.len() == body.len() / 8,
        body.len() % 8 == 0 ==> decoded(region, index, body).failure.is_none(),
        body.len() % 8 != 0 ==> decoded(region, index, body).failure == Some(
            Error::TruncatedRecord,
        ),
    decreases body.len(),
{
    if body.len() >= RECORD_LEN {
        lemma_truncation(region, index + 1, body.skip(RECORD_LEN as int));
    }
}

/// The records of `blocks` read back as those blocks, in their order, each
/// at the place of its number.
pub proof fn lemma_body_round_trip(region: Region, index: int, blocks: Seq<Block>)
    ensures
        decoded(region, index, body_bytes(blocks)).items == placed(region, index, blocks),
        decoded(region, index, body_bytes(blocks)).failure.is_none(),
    decreases blocks.len(),
{
    if blocks.len() > 0 {
        let rest = blocks.skip(1);
        lemma_record_round_trip(blocks[0], body_bytes(rest));
        lemma_body_round_trip(region, index + 1, rest);
        assert(seq![(place_at(region, index), blocks[0])] + placed(region, index + 1, rest)
            =~= placed(region, index, blocks));
    } else {
        assert(placed(region, index, blocks) =~= Seq::empty());
    }
}

/// What is written is what is read. The file of a region and its blocks
/// starts with a header that gives the same origin and size, and its body
/// reads cleanly as the same blocks in the same order, the block of number
/// `i` at the place of number `i`. Where the region is well formed and there
/// are no more blocks than it has cells, that place is the origin plus an
/// offset inside the region, by plain addition.
pub proof fn lemma_round_trip(region: Region, blocks: Seq<Block>)
    ensures
        parsed_header(file_bytes(region, blocks)) == Ok::<RegionHeader, Error>(
            RegionHeader::of(region),
        ),
        after_header(file_bytes(region, blocks)) == body_bytes(blocks),
        file_bytes(region, blocks).len() == HEADER_LEN + RECORD_LEN * blocks.len(),
        decoded(region, 0, after_header(file_bytes(region, blocks))) == (Decoded {
            items: placed(region, 0, blocks),
            failure: None,
        }),
        region.wf() && blocks.len() <= region.size.cells() ==> forall|i: int|
            0 <= i < blocks.len() ==> {
                let at = #[trigger] offset_at(region.size, i);
                let (coordinate, block) = placed(region, 0, blocks)[i];
                &&& block == blocks[i]
                &&& in_cuboid(region.size, at)
                &&& coordinate.x == region.origin.x + at.x
                &&& coordinate.y == region.origin.y + at.y
                &&& coordinate.z == region.origin.z + at.z
            },
{
    lemma_header_round_trip(region, body_bytes(blocks));
    lemma_body_round_trip(region, 0, blocks);
    lemma_body_len(blocks);
    lemma_header_len(region);
    if region.wf() && blocks.len() <= region.size.cells() {
        assert forall|i: int| 0 <= i < blocks.len() implies {
            let at = #[trigger] offset_at(region.size, i);
            let (coordinate, block) = placed(region, 0, blocks)[i];
            &&& block == blocks[i]
            &&& in_cuboid(region.size, at)
            &&& coordinate.x == region.origin.x + at.x
            &&& coordinate.y == region.origin.y + at.y
            &&& coordinate.z == region.origin.z + at.z
        } by {
            lemma_offset_in_cuboid(region.size, i);
        }
    }
}

} // verus!
