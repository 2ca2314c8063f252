//! Duplicate clustering for geometric feature collections: features with
//! identical attribute fingerprints and adjacent geometries are grouped into
//! clusters, each with one representative parent and its ordered duplicates.

pub mod feature;
pub mod geometry_utils;
pub mod attribute_manager;
pub mod duplicates_manager;
pub mod list_utils;
