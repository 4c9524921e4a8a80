//! Rendering and message logic of a desktop companion: a pixel canvas with
//! alpha blending, shape rasterisation, greedy text wrapping, the speech
//! bubble's message queue and layout, decoding and scaling the character's
//! frames, tray helpers, and the program's small decisions on input and
//! time.

pub mod raster;
pub mod shapes;
pub mod text;
pub mod layout;
pub mod speech;
pub mod frames;
pub mod tray;
pub mod sensors;
pub mod input;
