//! Converts a raster image into a character-grid rendering for a text
//! terminal: a glyph-brightness index maps measured cell brightness back onto
//! characters, a block averager down-samples the image into cells, a color
//! quantizer picks the nearest ANSI 256-color palette entry, and a renderer
//! emits the grid with run-length-compressed color escape sequences.

pub mod bitmap;
pub mod charset;
pub mod glyph;
pub mod grid;
pub mod palette;
pub mod render;
pub mod sample;

pub use bitmap::{Bitmap, Pixel};
pub use charset::CharacterSet;
pub use glyph::average_brightness;
pub use grid::{convert, map_brightness, ConvertError, Grid};
pub use palette::rgb_to_ansi256;
pub use render::render;
pub use sample::{average_cell, Rgba};
