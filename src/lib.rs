//! Solvers for a calendar of daily programming puzzles, each stated as a verified
//! contract: the weighted grid route search with turning rules (`route`), the
//! mirror-grid beams (`beams`), and the parsers and small algorithms of the other
//! days.

pub mod almanac;
pub mod beams;
pub mod calibration;
pub mod camel;
pub mod cubes;
pub mod galaxy;
pub mod input;
pub mod lagoon;
pub mod lenses;
pub mod long_race;
pub mod mirrors;
pub mod network;
pub mod oasis;
pub mod pipes;
pub mod platform;
pub mod races;
pub mod route;
pub mod schematic;
pub mod scratchcards;
pub mod spelled;
pub mod springs;
pub mod text;
