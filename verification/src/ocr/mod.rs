//! OCR output: word models, TSV parsing, selection, spatial index and
//! downscale planning.
pub mod models;
pub mod index;
pub mod select;
pub mod downscale;
pub mod tsv;
pub mod tesseract;
