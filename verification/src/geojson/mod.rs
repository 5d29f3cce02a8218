//! GeoJSON.
pub mod documents;
pub mod reader;
pub mod round_trip;
pub mod writer;

pub use reader::{from_geojson_str, from_json};
pub use writer::to_geojson_string;
