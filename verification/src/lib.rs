//! Verified core of a Heretic/Doom style engine: reading WAD archives,
//! decoding picture ("patch") lumps, drawing them into a 320x200
//! palettised frame buffer, and the logic of the main menus.

pub mod bytes;
pub mod wad;
pub mod patch;
pub mod vid;
pub mod menu;
pub mod text;
pub mod screen;

use vstd::prelude::*;

verus! {

/// Width of the frame buffer, in pixels.
pub const SCREEN_WIDTH: usize = 320;

/// Height of the frame buffer, in pixels.
pub const SCREEN_HEIGHT: usize = 200;

} // verus!
