//! Raster to A5 cell aggregation: the verified core.
//!
//! A read resolves its source and its request (`source`, `request`), opens the
//! raster's header (`meta_cache`, `metadata`, `geo`, `dtype`), plans levels,
//! bands, tiles and fetches (`plan`, `read`, `band_fetch`), indexes stripes of
//! decoded tiles into cells (`tile`, `overlay`, with `grid`, `locator`, `mask`
//! and `a5grid`), accumulates them in partitioned stores (`accumulate`,
//! `classes`, `store`, `partition`, `collections`) and turns those into results
//! (`aggregate`, `stats`, `cell_raw`, `parquet_write`). Sampling at cell
//! centroids goes through `sample`.

pub mod text;

pub mod error;

pub mod stats;

pub mod classes;

pub mod collections;

pub mod partition;

pub mod store;

pub mod a5grid;

pub mod grid;

pub mod mask;

pub mod locator;

pub mod accumulate;

pub mod tile;

pub mod overlay;

pub mod tally;

pub mod measure;

pub mod aggregate;

pub mod dtype;

pub mod request;

pub mod plan;

pub mod geo;

pub mod metadata;

pub mod cell_raw;

pub mod band_fetch;

pub mod meta_cache;

pub mod sample;

pub mod source;

pub mod read;

pub mod parquet_write;
