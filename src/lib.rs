//! Dungeon core: compiles a tile grid into merged wall boundaries and
//! assembles the blocking segments that light and movement are tested against.

pub mod geometry;
pub mod text;
pub mod boundary;
pub mod grid;
pub mod collision;
pub mod light;
pub mod cave;
pub mod outline;
pub mod ids;
