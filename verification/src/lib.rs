//! A vector and UI rendering engine: paths are tessellated once and redrawn
//! as instanced geometry.

pub mod backend;
pub mod bench;
pub mod bez;
pub mod crowd;
pub mod dash;
pub mod ffi;
pub mod hashing;
pub mod hud;
pub mod keyed;
pub mod layers;
pub mod order;
pub mod painter;
pub mod path;
pub mod pen;
pub mod render;
pub mod scalar;
pub mod tess;
