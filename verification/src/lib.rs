//! A small verified library that loads a comma-separated table of world
//! cities into an in-memory store and answers coordinate-ordered queries
//! over a chosen list of city keys.

pub mod cities;
pub mod format;
pub mod text;
