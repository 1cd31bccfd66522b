//! Ingestion of event listings from several sources into one deduplicated catalog:
//! title normalization, similarity scoring, matching, provenance merging, and the
//! per-source extraction of candidate records.
use vstd::prelude::*;

pub mod text;
pub mod normalize;
pub mod similarity;
pub mod matching;
pub mod models;
pub mod ingest;
pub mod scrapers;
pub mod registry;
pub mod queries;

verus! {

} // verus!
