//! Driver logic for an IS31-family LED-matrix controller: a frame buffer laid
//! out as the chip's two LED-data pages, and the paged register protocol that
//! carries commands and frames to the chip over a byte transport.
pub mod frame;
pub mod session;

pub use frame::LedMatrix;
pub use session::{Is31, PageCache, Transport};
