//! Diff engine for national drug-registry snapshot exports.
//!
//! The library ingests FHIR-style bundle documents, resolves each product's
//! price as of a reference date, and classifies the differences between two
//! such resolved snapshots into flag-tagged change categories.

pub mod dates;
pub mod diff;
pub mod escape;
pub mod extract;
pub mod filenames;
pub mod gtin;
pub mod json;
pub mod loader;
pub mod model;
pub mod numeric_flags;
pub mod prices;
pub mod text;
