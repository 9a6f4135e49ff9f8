//! A desktop mascot's verified core: its personality modes and activity
//! states, the placeholder drawing into an RGBA frame, and the Aseprite
//! sprite-sheet model with frame blitting and clip animation.

pub mod mascot;
pub mod pixel;
pub mod sprite;
