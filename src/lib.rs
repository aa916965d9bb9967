//! Core of an interactive terminal world map: pixel canvases and line
//! drawing, spatial indexes, the land classification grid, the disaster
//! simulation rules and the static-layer render cache.

pub mod hash;
pub mod canvas;
mod text;
pub mod geometry;
pub mod land;
pub mod spatial;
pub mod firegrid;
pub mod sim;
pub mod cache;
