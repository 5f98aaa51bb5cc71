//! Solutions to a set of grid and number puzzles, centred on a deterministic
//! turn-based combat simulator with a power calibration search.

pub mod coords;
pub mod world;
pub mod path;
pub mod battle;
pub mod polymer;
pub mod fuel;
pub mod plants;
pub mod cave;
pub mod opcodes;
pub mod device;
pub mod guards;
pub mod lumber;
