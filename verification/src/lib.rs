pub mod bits;
pub mod codec;
pub mod compress;
pub mod filter;
pub mod geometry;
pub mod height;
pub mod mipmap;
pub mod raster;
pub mod rasterize;
pub mod serializer;
pub mod stitch;
pub mod watermask;
pub mod world;
