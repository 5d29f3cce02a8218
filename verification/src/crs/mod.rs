//! Coordinate reference systems: what is known of one, carried through unread.
pub mod layout;
pub mod node;
pub mod picked;
pub mod projjson_wkt;
pub mod registry;
pub mod rendered_json;
pub mod said;
pub mod system;
pub mod tree_back;
pub mod wkt;
pub mod wkt1_tables;
pub mod wkt_projjson;
pub mod wkt_said;

pub use projjson_wkt::projjson_to_wkt;
pub use system::{
    crs_from_projjson, crs_from_projjson_text, Crs, NamedCrs, SYNTHETIC_AUTHORITY, WGS84_CRS_CODE,
};
pub use wkt_projjson::wkt_to_projjson;
