//! Procedural generation of a hexagonal tile grid with its road network,
//! together with the drag state of the sliders that drive it.
//!
//! Everything here works on grid coordinates and indices. Positions on
//! screen, noise samples and thresholds are real-valued and belong to the
//! host that draws the scene: it asks this crate which tiles, which mesh
//! indices and which road candidates exist, and answers back which
//! candidates passed its noise gate.

pub mod grid;
pub mod mesh;
pub mod roads;
pub mod scene;
pub mod slider;
