//! Procedural generation of 2-D dungeon maps: non-overlapping rectangular
//! rooms connected by corridors, grouped into independently generated areas
//! that are packed onto a grid and stitched into one tile set.

pub mod area;
pub mod dungeon;
pub mod generator;
pub mod random;
pub mod room;
pub mod strategy;
pub mod tunnels;
pub mod vectors;

pub use area::Area;
pub use dungeon::Dungeon;
pub use dungeon::GenerateOutcome;
pub use generator::RoomGenerator;
pub use random::RandomSource;
pub use room::Room;
pub use strategy::ConnectionStrategy;
pub use tunnels::Tunneler;
pub use vectors::Vector2Int;
