//! Tile cache and generation scheduler for streamed, procedurally refined
//! planet-scale terrain.

pub mod heightmap;
pub mod layer;
pub mod node;
pub mod priority;
pub mod provenance;
pub mod tile_cache;
pub mod texture;
pub mod tile;
pub mod tile_lemmas;
pub mod schedule;
pub mod visibility;
pub mod stream;
pub mod landcover;
pub mod shader;
pub mod uniforms;
pub mod generators;
pub mod quadtree;
