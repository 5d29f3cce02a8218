//! FlatGeobuf: a magic number, a header table, a packed R-tree over the features'
//! boxes where there is an index, and the features, each a table after its size.
//!
//! Ordinates and double properties are IEEE-754 bit patterns.
use vstd::prelude::*;

use crate::error::{Error, Failure};

pub mod file_search;
pub mod header_back;
pub mod header_extent;
pub mod index;
pub mod placed;
pub mod reader;
pub mod round_trip;
pub mod search;
pub mod shapes_back;
pub mod tables_back;
pub mod writer;

pub use reader::read;


verus! {

/// Geometry types.
pub const UNKNOWN: u8 = 0;

pub const POINT: u8 = 1;

pub const LINESTRING: u8 = 2;

pub const POLYGON: u8 = 3;

pub const MULTIPOINT: u8 = 4;

pub const MULTILINESTRING: u8 = 5;

pub const MULTIPOLYGON: u8 = 6;

pub const GEOMETRYCOLLECTION: u8 = 7;

/// Column types.
pub const COLUMN_BYTE: u8 = 0;

pub const COLUMN_UBYTE: u8 = 1;

pub const COLUMN_BOOL: u8 = 2;

pub const COLUMN_SHORT: u8 = 3;

pub const COLUMN_USHORT: u8 = 4;

pub const COLUMN_INT: u8 = 5;

pub const COLUMN_UINT: u8 = 6;

pub const COLUMN_LONG: u8 = 7;

pub const COLUMN_ULONG: u8 = 8;

pub const COLUMN_FLOAT: u8 = 9;

pub const COLUMN_DOUBLE: u8 = 10;

pub const COLUMN_STRING: u8 = 11;

pub const COLUMN_JSON: u8 = 12;

pub const COLUMN_DATETIME: u8 = 13;

pub const COLUMN_BINARY: u8 = 14;

/// Fields of the header table.
pub const HEADER_NAME: usize = 0;

pub const HEADER_ENVELOPE: usize = 1;

pub const HEADER_GEOMETRY_TYPE: usize = 2;

pub const HEADER_HAS_Z: usize = 3;

pub const HEADER_HAS_M: usize = 4;

pub const HEADER_COLUMNS: usize = 7;

pub const HEADER_FEATURES_COUNT: usize = 8;

pub const HEADER_INDEX_NODE_SIZE: usize = 9;

pub const HEADER_CRS: usize = 10;

pub const HEADER_FIELDS: usize = 11;

/// Fields of a reference system's table.
pub const CRS_ORG: usize = 0;

pub const CRS_CODE: usize = 1;

pub const CRS_WKT: usize = 4;

pub const CRS_FIELDS: usize = 6;

/// Fields of a column's table.
pub const COLUMN_NAME: usize = 0;

pub const COLUMN_TYPE: usize = 1;

pub const COLUMN_FIELDS: usize = 2;

/// Fields of a feature's table.
pub const FEATURE_GEOMETRY: usize = 0;

pub const FEATURE_PROPERTIES: usize = 1;

pub const FEATURE_FIELDS: usize = 2;

/// Fields of a geometry's table.
pub const GEOMETRY_ENDS: usize = 0;

pub const GEOMETRY_XY: usize = 1;

pub const GEOMETRY_Z: usize = 2;

pub const GEOMETRY_M: usize = 3;

pub const GEOMETRY_TYPE: usize = 6;

pub const GEOMETRY_PARTS: usize = 7;

pub const GEOMETRY_FIELDS: usize = 8;

/// The failure that carries this message.
pub open spec fn failure(message: Seq<char>) -> Failure {
    Failure::FlatGeobuf(message)
}

pub(crate) fn err(message: &str) -> (e: Error)
    ensures
        e@ == failure(message@),
{
    Error::FlatGeobuf(String::from_str(message))
}

} // verus!
