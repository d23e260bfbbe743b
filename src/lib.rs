//! Floor plans from hand-drawn room nets.
//!
//! A document holds descriptions of symbols and the unfolded nets of
//! rectangular rooms. This crate reads the nets, indexes where every symbol
//! sits on every face, and places the rooms next to each other by matching
//! the symbol patterns of faces that touch.

pub mod color;
pub mod document;
pub mod grid;
pub mod index;
pub mod layout;
pub mod room;
pub mod shape;
pub mod text;

pub use color::{char_to_color, ColorHsla};
pub use document::{build_floor_plan, parse_document, Descriptions, Document, FloorPlan};
pub use grid::get_letters_in_ascii_grid;
pub use index::{build_index, CharacterIndex};
pub use layout::{solve_layout, MAX_ROOMS};
pub use room::{
    area_matches, decode_net, net_dimensions, parse_room, Face, FormatError, Point, Room,
};
pub use shape::{mirror, shapes_match, GridPos, MAX_EXTENT};
