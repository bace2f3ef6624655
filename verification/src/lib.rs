//! Encodes a structured tabular record set as a square raster image whose
//! pixels carry the data as palette colors, framed by fixed alignment
//! markers so that a camera capture of the image can later be decoded.
//!
//! The pipeline: schema-typed rows are packed into a bit-plane-ordered byte
//! stream and wrapped in a versioned container (`data_packer`), a palette
//! determines how many bits each pixel carries (`color_palette`,
//! `color_encoder`), rectangular data regions are laid out around the
//! alignment markers (`data_regions`), and the smallest square image that
//! holds the payload plus palette calibration pixels is searched for and
//! painted (`image_generator`). `api` ties the stages together.

pub mod api;
pub mod cells;
pub mod color_encoder;
pub mod color_palette;
pub mod apriltag;
pub mod constants;
pub mod data_packer;
pub mod data_regions;
pub mod schema;
pub mod raster;
pub mod errors;
pub mod image_generator;
