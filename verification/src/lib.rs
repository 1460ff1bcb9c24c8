//! Procedural generation of a square terrain grid: elevation percentiles are
//! classified into provisional categories, categories are segmented into
//! regions, regions are classified into terrain, settlements are linked by
//! roads and every cell receives its content.

pub mod distribution;
pub mod generator;
pub mod generator_error;
pub mod grid;
pub mod open_list;
pub mod pathfinding;
pub mod random;
pub mod roads;
pub mod tile;
pub mod vector2;
pub mod world_gen;
pub mod zone;
pub mod zones;
