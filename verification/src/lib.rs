//! Text extraction from PDF pages.
//!
//! A document is opened from its bytes with [`document`], what a page draws is gathered with
//! [`glyph`], and [`extract`] groups the glyphs into text items: [`segment`] builds one item,
//! [`normalize`] repairs its spacing, and [`dedup`] removes items that show the same thing twice.
//! Coordinates are single-precision numbers carried by [`scalar`]. What a page comes to as a whole
//! is stated in [`layout`], and what rounding means in exact values in [`exact`].
pub mod chars;
pub mod dedup;
pub mod document;
pub mod error;
pub mod exact;
pub mod extract;
pub mod geometry;
pub mod glyph;
pub mod layout;
pub mod normalize;
pub mod rounding;
pub mod scalar;
pub mod segment;
pub mod text;
pub mod types;
