//! Verified core of the Soul Symphony asset tools: turning glyph coverage
//! bitmaps into merged rectangles, reading MIDI songs into note spans and
//! collectible lanes, shaping phrases, and assembling the game's source.

pub mod coverage;
pub mod midi;
pub mod midi_file;
pub mod names;
pub mod shaping;
pub mod font;
