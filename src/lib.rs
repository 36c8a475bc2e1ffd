//! A sparse hex-grid tile map: axial coordinates, a catalog of partial-hexagon
//! tiles, a store that maps coordinates to tiles, an autotiling pass that
//! derives wall shapes around floor cells, a brush that edits the store, and a
//! line-oriented text format for saving and loading maps, plus the pillar
//! nodes of the height map, the colour palette and the matching of input
//! conditions to editing intents.

pub mod hex;
pub mod tile;
pub mod store;
pub mod autotile;
pub mod brush;
pub mod load_save;
pub mod theme;
pub mod events;
pub mod node;
