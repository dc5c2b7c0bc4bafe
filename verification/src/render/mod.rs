//! Everything between authored shapes and recorded draw calls: extraction,
//! the geometry cache, layout and batching, and the draw plan of the pass.

pub mod arc;
pub mod batch;
pub mod cache;
pub mod clips;
pub mod extract;
pub mod gpu;
pub mod gradient;
pub mod layout;
pub mod params;
pub mod pass;
pub mod pipeline;
pub mod prepare;
