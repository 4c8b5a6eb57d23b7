//! A gallery-page image scraper library: extracts image references from
//! pages, fingerprints each page's image set, deduplicates against a
//! persistent database, and plans downloads and reconciliation.

pub mod cli;
pub mod codec;
pub mod cookies;
pub mod data;
pub mod digest;
pub mod extract;
pub mod pipeline;
pub mod text;
