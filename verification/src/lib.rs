//! Seed-driven generation of a two-dimensional city: rectangular buildings
//! that keep their distance from one another, each with one door, joined by
//! roads that are searched on the grid.

pub mod building;
pub mod city;
pub mod city_generation;
pub mod growth;
pub mod layout;
pub mod occupancy;
pub mod plan;
pub mod random;
pub mod rescale;
pub mod router;
pub mod seeding;
pub mod sorting;
pub mod upkeep;
