//! Offline asset bundling for a reverse-engineered 1990s console game.
//!
//! The pipeline decodes compressed texture containers (a custom LZSS
//! variant plus indexed-colour raster images), parses fixed-layout 3D
//! model and track binaries, packs rasters into texture atlases, and
//! re-encodes them with a compact lossless pixel codec, producing a
//! content-addressed asset tree ready for archiving.

pub mod util;
pub mod lzss;
pub mod pixmap;
pub mod formats;
pub mod qoit;
pub mod bundle;
pub mod model;
pub mod road;
pub mod atlas;
pub mod archive;
pub mod image_set;
pub mod input;
