//! Photo mosaics: a target image rebuilt as a grid of tiles, each cell replaced
//! by the library image that is nearest to it under a chosen colour metric.
pub mod grid;
pub mod raster;
pub mod features;
pub mod lab;
pub mod mosaic;
pub mod cli;
