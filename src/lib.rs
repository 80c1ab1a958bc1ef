pub mod board;
pub mod coordinates;
pub mod counting;
pub mod tile_map;
