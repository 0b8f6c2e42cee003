//! The decisions of a concurrent batch downloader and archive extractor:
//! which work item starts under a bounded number of permits, which file a
//! response is saved to, where each archive entry may be written, and how the
//! outcomes of a batch are collected in submission order.
pub mod archive;
pub mod batch;
pub mod download;
pub mod header;
pub mod names;
pub mod urls;
pub mod utils;
