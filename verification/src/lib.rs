//! Screen analysis and control decisions for a bot that plays the Dota 2
//! Dark Carnival "Boot Catcher" minigame: choosing the window and the
//! playfield crop, converting captured X images, finding the cart and the
//! moving boot in a frame, and turning steering decisions into key events.

use vstd::prelude::*;

pub mod geometry;
pub mod color;
pub mod cart;
pub mod grid;
pub mod blobs;
pub mod ximage;
pub mod keys;
pub mod png;
pub mod rect_spec;
pub mod text;
pub mod windows;
pub mod cli;

verus! {

} // verus!
