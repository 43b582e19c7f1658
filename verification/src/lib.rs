//! Decoding of packed voxel-chunk packets, their re-expression as save-file
//! tags, and the partitioning of patch work by region.

pub mod error;
pub mod varint;
pub mod reader;
pub mod chunk;
pub mod palette;
pub mod json;
pub mod resource;
pub mod tag;
pub mod adapter;
pub mod names;
pub mod region;
pub mod work;
pub mod search;
pub mod heightmaps;
pub mod ingest;
