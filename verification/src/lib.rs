//! Core of a directory-scoped image gallery: scanning a tree for image files
//! grouped by folder, natural (human) ordering of file names, a capacity-bounded
//! thumbnail cache, and the per-image decode/resize step of the loading pipeline.

pub mod app_config;
pub mod entry;
pub mod image_cache;
pub mod image_entry;
pub mod order;
pub mod progress;
pub mod sorting;
pub mod paths;
pub mod pixel;
