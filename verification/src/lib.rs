//! Reader for the property-list dialect in which a tile-based level editor
//! keeps its tile definitions: values, tile records, category headers and
//! whole documents, each with a proved contract.

pub mod category;
pub mod document;
pub mod error;
pub mod header;
pub mod pattern;
pub mod record;
pub mod subfolder;
pub mod text;
pub mod tile;
pub mod value;

pub use category::{TileCategory, TileInit};
pub use document::parse_tile_init;
pub use error::{AppError, DeserError, DeserErrorReports};
pub use header::parse_category_header;
pub use record::{parse_tile_info, parse_tile_info_multiple};
pub use subfolder::{collect_categories_from_subfolders, SubfolderSource};
pub use tile::{TileCell, TileInfo, TileType};
pub use value::LingoData;
