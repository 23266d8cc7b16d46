//! Edge-based (beam cursor) selections and cursor motions over a rope of text.

pub mod chars;
pub mod graphemes;
pub mod movement;
pub mod normalize;
pub mod search;
pub mod selection;
pub mod surround;
pub mod text;
