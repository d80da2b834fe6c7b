//! Core of a map viewer that shows a live position and a loaded GPS track.
//!
//! Two cooperating parts, both verified:
//!
//! * The GPX reader — [`parser::parse`] is a pure function from raw XML
//!   bytes to a structured [`track::TrackDocument`] or a typed
//!   [`track::ParseError`], proved to return exactly what the grammar
//!   spec [`parser::parse_spec`] names. [`order::lemma_parse_order`]
//!   proves it keeps every point in document order, and
//!   [`parser::lemma_parse_valid`] that every accepted coordinate lies
//!   on the globe. [`num`] and [`xml`] are its number and lexical
//!   layers.
//! * The render-sync controller — [`controller::Controller`] owns the
//!   view state (zoom, center, loaded track, surface readiness) and
//!   turns position updates, track loads and zoom changes into explicit
//!   [`render::SurfaceCommand`] lists for the rendering surface to
//!   execute: none before the surface exists, no duplicate surface, no
//!   lost update. What a command list draws is defined once by the
//!   interpreter [`render::surface_run`].
//!
//! Coordinates and elevations are exact integers scaled by 1e9 (see
//! [`geo::Coord`]), so equality, range checks and bounding boxes carry
//! no rounding. [`osm`] holds a small OpenStreetMap document model on
//! the same footing.

pub mod controller;
pub mod geo;
pub mod num;
pub mod order;
pub mod osm;
pub mod parser;
pub mod render;
pub mod track;
pub mod xml;
