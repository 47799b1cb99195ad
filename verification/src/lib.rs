//! Solvers for a series of daily programming puzzles, built around a lazy
//! algebra of bitmap views over word-packed bit grids.

pub mod bit_grid;
pub mod blizzard;
pub mod calories;
pub mod chamber;
pub mod crates;
pub mod droplet;
pub mod dwarves;
pub mod files;
pub mod hill;
pub mod laws;
pub mod machine;
pub mod mixing;
pub mod monkey;
pub mod packet;
pub mod packet_order;
pub mod pattern;
pub mod plot;
pub mod range;
pub mod riddle;
pub mod rope;
pub mod rps;
pub mod rucksack;
pub mod sand;
pub mod sensor;
pub mod signal;
pub mod snafu;
pub mod spread;
pub mod text;
pub mod trees;
pub mod valves;
pub mod video;
pub mod views;
pub mod walk;
pub mod word;
