//! Turns tileset definitions into assembled tilesets: registration of every
//! tile image with a loader while keeping the shape of each tile, gathering
//! of the load outcomes, and assembly of the indexed lookup tables.
pub mod tile;
pub mod loader;
pub mod load;
pub mod place;
pub mod tileset;

pub use load::load_tile_handles;
pub use loader::{RecordingLoader, TextureLoader};
pub use place::{gather_outcomes, place_tile, LoadStatus, PlacedTile, Placement, TilesetError};
pub use tile::{
    AnimatedTile, AutoTile, AutoTileRule, ImageId, SimpleTile, Tile, TileDef, TileGroupId,
    TileHandle, TileKind, TilesetId, VariantTile,
};
pub use tileset::{build_tileset, resolve_tiles, Tileset, TilesetDef};
