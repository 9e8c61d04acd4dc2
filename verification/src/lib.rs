//! Binary-image shape encoding, morphology and the supporting image types.
pub mod bit_vec;
pub mod image;
pub mod math;
pub mod path;
pub mod sampler;
pub mod shape;
pub mod spiral;

pub use bit_vec::BitVec;
pub use image::{BinaryImage, Color, ColorImage, Shape};
pub use sampler::{BinaryImageSampler, GrayscaleSampler, Sampler};
pub use spiral::SpiralWalker;
pub use shape::morphology::erode_interior;
pub use shape::encoding::{ShapeEncoding, ShapeEncodingString};
pub use path::smooth::SubdivideSmooth;
