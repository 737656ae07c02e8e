//! Conversion of Japanese plain text into a paginated PostScript document whose
//! glyphs are addressed by the CIDs of a composite font.
pub mod text;
pub mod table;
pub mod encode;
pub mod wrap;
pub mod font;
pub mod page;
pub mod cidmap;
pub mod cmap;
pub mod error;
