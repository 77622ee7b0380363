# a5px

Aggregates GeoTIFF rasters to cells of the A5 grid. Pixels are looked up in the
grid, accumulated per cell and band, and written as columns or as Parquet.

- `src/` is the library. Everything in it is verified with Verus: each function
  states what it returns, and the laws of the library are proved as public proof
  functions next to the code that they speak of; those of a whole read stand in
  `src/tally.rs` (cells, pixel weights, class weights) and `src/measure.rs` (counts
  and extremes of the accumulators).
- `app/` is what surrounds it: object stores, TIFF decoding, threads, Parquet
  files, and all floating-point arithmetic.
- `tests/` run the library with the real outside crates.

## What is trusted

Calls into outside crates stand behind small wrappers whose contracts are taken
from those crates' sources: `src/a5grid.rs` (cell ids, outlines, projections and
the cell search of `a5`), `src/collections.rs` (`ahash`), `src/geo.rs` (`proj4rs`
and `proj4wkt`), `src/source.rs` (`url` and `object_store`) and `src/text.rs`
(three functions of the standard library).

## Units

Weights are whole numbers of parts of a pixel. A forward read counts pixels; an
overlay read with `k` by `k` sub-points counts sub-points, so that a whole pixel
weighs `k * k`. Weights and pixel counts saturate.

Numbers of GeoTIFF keys are handled as their decimal text, and pixel sizes as
keys that order as the sizes do: floating point stays outside the library.
