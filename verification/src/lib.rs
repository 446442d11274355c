//! Solvers for a set of grid, parsing and search puzzles, with the keypad
//! indirection solver at the centre. Every function carries a contract that
//! Verus proves, but for two: the calls into the crates `regex` (in
//! `wordsearch`) and `num_format` (in `timing`) stand behind functions whose
//! contracts say what those crates do, and are taken on trust.

pub mod antennas;
pub mod claws;
pub mod computer;
pub mod disk;
pub mod equations;
pub mod guard;
pub mod guard_baseline;
pub mod keypad;
pub mod lists;
pub mod locks;
pub mod mazes;
pub mod memory;
pub mod pages;
pub mod parties;
pub mod products;
pub mod race;
pub mod regions;
pub mod reindeer;
pub mod reports;
pub mod robots;
pub mod secrets;
pub mod stones;
pub mod text;
pub mod timing;
pub mod towels;
pub mod trails;
pub mod warehouse;
pub mod wires;
pub mod wordsearch;
