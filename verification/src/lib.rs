//! Hides data inside images: data is mapped onto chunks that either reference
//! runs of elements of an image or carry their elements literally, and the
//! chunks are stored in a key next to the image.
pub mod error;
pub mod streams;

pub mod chunks;
pub mod elems;
pub mod cli;
