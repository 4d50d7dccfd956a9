//! Verified core of an image viewer with OCR text selection: OCR output
//! parsing, word geometry, the spatial word index, selection, downscale
//! planning, cache keys, configuration precedence and the launch codec.
pub mod cache;
pub mod config;
pub mod fs;
pub mod geometry;
pub mod input;
pub mod ipc;
pub mod ocr;
pub mod text;
pub mod viewer;
