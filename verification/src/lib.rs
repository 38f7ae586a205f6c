//! Verified core of a photomosaic generator: tile assignment, the tile-info
//! text format, the feature cache model and the grid geometry.

use vstd::prelude::*;

pub mod tally;
pub mod lap;
pub mod text;
pub mod tile_info;
pub mod assign;
pub mod fair;
pub mod cache;
pub mod raster;
pub mod compose;
pub mod order;
pub mod tile_map;
pub mod html;
pub mod settings;

verus! {

/// Color space in which tile and block colors are compared.
#[derive(Clone, Copy, Debug, PartialEq, Eq, Structural)]
pub enum Colorspace {
    Bgr,
    Lab,
    Hsv,
    Hsl,
    Luv,
}

/// Distance metric between two feature vectors.
#[derive(Clone, Copy, Debug, PartialEq, Eq, Structural)]
pub enum Metric {
    Euclidean,
    Cityblock,
    Chebyshev,
    Cosine,
}

/// How a tile image is brought to the tile size.
#[derive(Clone, Copy, Debug, PartialEq, Eq, Structural)]
pub enum ResizeOpt {
    Center,
    Stretch,
    Fit,
}

/// How the finished mosaic is blended with the destination image.
#[derive(Clone, Copy, Debug, PartialEq, Eq, Structural)]
pub enum Blending {
    Alpha,
    Brightness,
}

} // verus!
