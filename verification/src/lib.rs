//! Geosetta: conversion between geospatial vector formats.
//!
//! Every format spoke decodes to, or encodes from, one feature model. The
//! modules here hold the formats' grammars, byte layouts and rules, each with
//! the contract it is proved to meet. Numbers that are IEEE-754 doubles on
//! disk are carried as their bit patterns; numbers that are decimal text on
//! disk are carried as that text.
pub mod bytes;
pub mod cells;
pub mod cli;
pub mod compress;
pub mod columnar;
pub mod convert;
pub mod crs;
pub mod csv;
pub mod decimal;
pub mod error;
pub mod extent;
pub mod feature;
pub mod flatbuffers;
pub mod flatgeobuf;
pub mod format;
pub mod geojson;
pub mod geometry;
pub mod geopackage;
pub mod json;
pub mod kml;
pub mod number;
pub mod property;
pub mod report;
pub mod reported;
pub mod rows;
pub mod schema;
pub mod sort;
pub mod spatial;
pub mod sqlite;
pub mod text;
pub mod worth;
pub mod xml;

pub use convert::{convert, read_features, reorder_hilbert, write_features};
pub use crs::{Crs, NamedCrs, WGS84_CRS_CODE};
pub use error::Error;
pub use feature::{Feature, FeatureCollection};
pub use format::Format;
pub use geometry::{Bbox, Geometry, Position};
