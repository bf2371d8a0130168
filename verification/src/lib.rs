//! Procedural city map core: a street-graph generator, a rasterizer that
//! turns the graph into a dense tile grid, chunked storage of that grid, and
//! geometry packing of each chunk into flat vertex/color/index arrays.

use vstd::prelude::*;

mod chunk;
mod config;
mod gen;
mod street;
mod tile;
mod world;

pub use chunk::{chunk_colors, chunk_indices, chunk_positions, lemma_geometry_counts, Chunk};
pub use config::Config;
pub use gen::{fill_map, fill_rect, generate, in_rect, lemma_fill_idempotent};
pub use street::{
    east_covers, inter_box_covers, inter_covers, is_street_tile, lemma_cover_union, south_covers,
    spec_intersection, spec_street, ConnectDir, Connection, Grid, Intersection, Street,
};
pub use tile::{spec_color, spec_colors, spec_indices, spec_positions, FloorTileType, Tile, WallTileType};
pub use world::{lemma_chunk_roundtrip, World, WorldError};

verus! {

} // verus!
