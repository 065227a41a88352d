//! Region files: a cuboid of blocks stored as a fixed header followed by one
//! record per block, together with the geometry that gives every record its
//! place in the world.

pub mod block;
pub mod error;
pub mod format;
pub mod geometry;
pub mod grammar;
pub mod reader;
pub mod wire;
pub mod writer;

pub use block::{write_block, Block};
pub use error::Error;
pub use format::{check_data_metadata, read_header, write_header, RegionHeader};
pub use grammar::parse_coordinate;
pub use geometry::{
    index_to_offset, normalize, offset_to_coordinate, Coordinate, Offset, Region, Size,
};
pub use reader::{decode_record, read_data, BlockReader, ReaderState, Step};
pub use wire::{read_i32, read_u16, read_u32, try_read_u32, Input};
pub use writer::write_data;
