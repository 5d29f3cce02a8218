//! GeoPackage: a database with a table for each layer of features.
//!
//! Geometries are WKB after a short header.
pub mod blob;
pub mod foreign;
pub mod layers_back;
pub mod narrow;
pub mod reader;
pub mod round_trip;
pub mod rtree;
pub mod search;
pub mod writer;

pub use reader::read_layers;
