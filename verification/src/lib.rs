//! Decision logic of a photo indexer: everything between the bytes that come
//! in (files, web replies, tool output) and the bytes that go out (requests,
//! index rows), with its contracts.

pub mod chunks;
pub mod config;
pub mod csv_text;
pub mod dedup;
pub mod exif_read;
pub mod face;
pub mod facets;
pub mod geocode;
pub mod heic;
pub mod ieee;
pub mod json;
pub mod media;
pub mod number;
pub mod output;
pub mod path;
pub mod picture;
pub mod process;
pub mod resume;
pub mod rows;
pub mod text;
pub mod video;
pub mod vision;
pub mod walk;
