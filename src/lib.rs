//! Codec for CTE textures: a fixed little-endian header followed by a payload
//! of 8x8 pixel blocks, each block stored in a three-level quadrant traversal
//! and the rows of blocks stored from the bottom of the image upwards.
pub mod codec;
pub mod format;
pub mod order;
pub mod raster;

pub use codec::{CteDecodeError, CteEncodeError, CteImage};
pub use format::CteFormat;
pub use order::{read_in_image_order, traversal_offset, traversal_step};
pub use raster::RasterImage;
