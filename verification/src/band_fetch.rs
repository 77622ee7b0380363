//! Which bytes of a planar tile to fetch for a band subset.

use vstd::prelude::*;

use crate::error::{is_invalid, is_unsupported, unsupported, A5CogError};
use crate::text::{decimal, decimal_usize, join2, join3};

verus! {

/// The tile index of an image: the tags as far as they are there.
pub struct TileIndex {
    /// The image was written without a predictor.
    pub no_predictor: bool,
    /// The image was written in the byte order of this machine.
    pub native_order: bool,
    /// The bits of one sample; samples of more than eight have a byte order.
    pub bits: u16,
    pub n_bands: usize,
    pub tile_w: Option<usize>,
    pub tile_h: Option<usize>,
    pub offsets: Option<Vec<u64>>,
    pub byte_counts: Option<Vec<u64>>,
    /// Tiles per row and rows of tiles.
    pub tile_count: Option<(usize, usize)>,
}

impl TileIndex {
    /// The entry of a band's tile: the tiles of a band follow one another row by
    /// row, and the bands follow one another.
    pub open spec fn entry(&self, b: int, tx: int, ty: int) -> int {
        let (per_row, per_col) = self.tile_count->Some_0;
        b * (per_row * per_col) + ty * per_row + tx
    }

    /// The decoded bytes are the samples as they stand: no predictor, and no bytes
    /// to swap.
    pub open spec fn raw_samples(&self) -> bool {
        self.no_predictor && (self.native_order || self.bits <= 8)
    }

    /// All that a band-wise fetch needs is there.
    pub open spec fn complete(&self) -> bool {
        self.raw_samples() && self.tile_w is Some && self.tile_h is Some && self.offsets is Some
            && self.byte_counts is Some && self.tile_count is Some
    }

    /// The index has an entry for tile `(tx, ty)` of every selected band that the
    /// image has, and none of them runs past the largest offset.
    pub open spec fn covers(&self, tx: usize, ty: usize, selected: Seq<usize>) -> bool {
        self.complete() ==> {
            let (per_row, per_col) = self.tile_count->Some_0;
            let offs = self.offsets->Some_0@;
            let counts = self.byte_counts->Some_0@;
            &&& per_row * per_col <= usize::MAX
            &&& forall|k: int|
                0 <= k < selected.len() && (#[trigger] selected[k]) < self.n_bands ==> {
                    let n = self.entry(selected[k] as int, tx as int, ty as int);
                    n < offs.len() && n < counts.len() && offs[n] + counts[n] <= u64::MAX
                }
        }
    }
}

/// The text of the error for samples whose bytes would have to be swapped.
pub open spec fn foreign_order() -> Seq<char> {
    "band-aware fetch requires native byte order for multi-byte samples; falling back"@
}

/// The error for the first thing that is missing.
pub open spec fn missing_tag(ix: TileIndex) -> Seq<char> {
    if !ix.no_predictor {
        "band-aware fetch requires Predictor::None; falling back"@
    } else if !ix.native_order && ix.bits > 8 {
        foreign_order()
    } else if ix.tile_w is None || ix.tile_h is None {
        "not a tiled TIFF"@
    } else if ix.offsets is None {
        "missing TileOffsets"@
    } else if ix.byte_counts is None {
        "missing TileByteCounts"@
    } else {
        "not a tiled TIFF"@
    }
}

proof fn lemma_entry(b: int, tx: int, ty: int, n: int, per_row: int, per_col: int)
    by (nonlinear_arith)
    requires
        0 <= b < n,
        0 <= tx < per_row,
        0 <= ty < per_col,
    ensures
        0 <= ty * per_row + tx < per_row * per_col,
        0 <= b * (per_row * per_col) <= b * (per_row * per_col) + ty * per_row + tx,
        b * (per_row * per_col) + ty * per_row + tx < n * (per_row * per_col),
{
    assert(ty * per_row + tx < per_row * per_col);
    assert((b + 1) * (per_row * per_col) <= n * (per_row * per_col));
}

/// The byte ranges of one tile, for each selected band in turn. An image whose
/// decoded bytes are not its samples is refused: one with a predictor, or with
/// samples of several bytes in the opposite byte order. The first band that the
/// image does not have is an error too.
pub fn planar_ranges(ix: &TileIndex, tx: usize, ty: usize, selected: &Vec<usize>) -> (r: Result<
    Vec<(u64, u64)>,
    A5CogError,
>)
    requires
        ix.covers(tx, ty, selected@),
    ensures
        if !ix.complete() {
            r matches Err(e) && is_unsupported(e, missing_tag(*ix))
        } else {
            match r {
                Ok(v) => {
                    &&& forall|k: int|
                        0 <= k < selected@.len() ==> #[trigger] selected@[k] < ix.n_bands
                    &&& v@.len() == selected@.len()
                    &&& forall|k: int|
                        0 <= k < v@.len() ==> {
                            let n = ix.entry(selected@[k] as int, tx as int, ty as int);
                            (#[trigger] v@[k]).0 == ix.offsets->Some_0@[n] && v@[k].1
                                == ix.offsets->Some_0@[n] + ix.byte_counts->Some_0@[n]
                        }
                },
                Err(e) => exists|k: int|
                    {
                        &&& 0 <= k < selected@.len()
                        &&& #[trigger] selected@[k] >= ix.n_bands
                        &&& forall|j: int| 0 <= j < k ==> #[trigger] selected@[j] < ix.n_bands
                        &&& is_invalid(
                            e,
                            "selected band "@ + decimal(selected@[k] as nat) + " >= total "@
                                + decimal(ix.n_bands as nat),
                        )
                    },
            }
        },
{
    if !ix.no_predictor {
        return Err(unsupported("band-aware fetch requires Predictor::None; falling back"));
    }
    if !ix.native_order && ix.bits > 8 {
        return Err(
            unsupported(
                "band-aware fetch requires native byte order for multi-byte samples; falling back",
            ),
        );
    }
    if ix.tile_w.is_none() || ix.tile_h.is_none() {
        return Err(unsupported("not a tiled TIFF"));
    }
    let offsets = match &ix.offsets {
        Some(v) => v,
        None => {
            return Err(unsupported("missing TileOffsets"));
        },
    };
    let counts = match &ix.byte_counts {
        Some(v) => v,
        None => {
            return Err(unsupported("missing TileByteCounts"));
        },
    };
    let (per_row, per_col) = match ix.tile_count {
        Some(t) => t,
        None => {
            return Err(unsupported("not a tiled TIFF"));
        },
    };
    let mut ranges: Vec<(u64, u64)> = Vec::new();
    for k in 0..selected.len()
        invariant
            ix.complete(),
            ix.covers(tx, ty, selected@),
            *offsets == ix.offsets->Some_0,
            *counts == ix.byte_counts->Some_0,
            (per_row, per_col) == ix.tile_count->Some_0,
            ranges@.len() == k,
            forall|j: int| 0 <= j < k ==> #[trigger] selected@[j] < ix.n_bands,
            forall|j: int|
                0 <= j < k ==> {
                    let n = ix.entry(selected@[j] as int, tx as int, ty as int);
                    (#[trigger] ranges@[j]).0 == offsets@[n] && ranges@[j].1 == offsets@[n]
                        + counts@[n]
                },
    {
        let b: usize = selected[k];
        if b >= ix.n_bands {
            let a = decimal_usize(b);
            let t = decimal_usize(ix.n_bands);
            let head = join3("selected band ", a.as_str(), " >= total ");
            assert(selected@[k as int] >= ix.n_bands);
            return Err(A5CogError::Invalid(join2(head.as_str(), t.as_str())));
        }
        proof {
            let m = ix.entry(selected@[k as int] as int, tx as int, ty as int);
            assert(m < offsets@.len());
            assert(0 <= b * (per_row * per_col) && 0 <= ty * per_row) by (nonlinear_arith)
                requires
                    b >= 0,
                    ty >= 0,
                    per_row >= 0,
                    per_col >= 0,
            ;
            assert(offsets.len() <= usize::MAX);
        }
        let per_band: usize = per_row * per_col;
        let n: usize = b * per_band + ty * per_row + tx;
        assert(n == ix.entry(b as int, tx as int, ty as int));
        assert(offsets@[n as int] + counts@[n as int] <= u64::MAX);
        ranges.push((offsets[n], offsets[n] + counts[n]));
    }
    Ok(ranges)
}

/// No two tiles of an image share an index entry.
pub proof fn tile_entries_are_distinct(
    per_row: int,
    per_col: int,
    b: int,
    tx: int,
    ty: int,
    b2: int,
    tx2: int,
    ty2: int,
)
    requires
        0 <= b,
        0 <= b2,
        0 <= tx < per_row,
        0 <= tx2 < per_row,
        0 <= ty < per_col,
        0 <= ty2 < per_col,
        b * (per_row * per_col) + ty * per_row + tx == b2 * (per_row * per_col) + ty2 * per_row
            + tx2,
    ensures
        b == b2,
        tx == tx2,
        ty == ty2,
{
    lemma_entry(0, tx, ty, 1, per_row, per_col);
    lemma_entry(0, tx2, ty2, 1, per_row, per_col);
    crate::store::lemma_slab_distinct(
        b,
        ty * per_row + tx,
        b2,
        ty2 * per_row + tx2,
        per_row * per_col,
    );
    crate::store::lemma_slab_distinct(ty, tx, ty2, tx2, per_row);
}

/// The bytes of one decoded band: full bytes per sample, for every pixel.
pub open spec fn band_bytes(tile_w: int, tile_h: int, bits: int) -> int {
    tile_w * tile_h * ((bits + 7) / 8)
}

/// The bytes of one decoded band of a tile.
pub fn expected_band_bytes(tile_w: usize, tile_h: usize, bits_per_sample: u16) -> (r: usize)
    requires
        tile_w * tile_h <= usize::MAX,
        band_bytes(tile_w as int, tile_h as int, bits_per_sample as int) <= usize::MAX,
    ensures
        r == band_bytes(tile_w as int, tile_h as int, bits_per_sample as int),
{
    let bytes: usize = (bits_per_sample as usize + 7) / 8;
    tile_w * tile_h * bytes
}

/// Puts decoded bands one after the other. A band of another size than expected
/// is refused.
pub fn join_bands(bands: &Vec<Vec<u8>>, expected: usize) -> (r: Result<Vec<u8>, A5CogError>)
    ensures
        match r {
            Ok(v) => {
                &&& v@.len() == bands@.len() * expected
                &&& forall|b: int|
                    0 <= b < bands@.len() ==> (#[trigger] bands@[b])@.len() == expected
                &&& forall|b: int, i: int|
                    0 <= b < bands@.len() && 0 <= i < expected ==> crate::store::slab(
                        v@,
                        expected as int,
                        b,
                        i,
                    ) == #[trigger] bands@[b]@[i]
            },
            Err(e) => exists|b: int|
                {
                    &&& 0 <= b < bands@.len()
                    &&& (#[trigger] bands@[b])@.len() != expected
                    &&& forall|k: int| 0 <= k < b ==> (#[trigger] bands@[k])@.len() == expected
                    &&& is_unsupported(
                        e,
                        "decoded band size "@ + decimal(bands@[b]@.len()) + " != expected "@
                            + decimal(expected as nat),
                    )
                },
        },
{
    let mut out: Vec<u8> = Vec::new();
    proof {
        crate::store::lemma_slab_grows(0, 0, expected as int);
    }
    for b in 0..bands.len()
        invariant
            out@.len() == b * expected,
            forall|k: int| 0 <= k < b ==> (#[trigger] bands@[k])@.len() == expected,
            forall|k: int, i: int|
                0 <= k < b && 0 <= i < expected ==> crate::store::slab(
                    out@,
                    expected as int,
                    k,
                    i,
                ) == #[trigger] bands@[k]@[i],
    {
        let m: usize = bands[b].len();
        if m != expected {
            let a = decimal_usize(m);
            let x = decimal_usize(expected);
            let head = join3("decoded band size ", a.as_str(), " != expected ");
            assert(bands@[b as int]@.len() != expected);
            return Err(A5CogError::Unsupported(join2(head.as_str(), x.as_str())));
        }
        let ghost before = out@;
        for i in 0..m
            invariant
                b < bands@.len(),
                m == expected,
                m == bands@[b as int]@.len(),
                out@ == before + bands@[b as int]@.take(i as int),
        {
            out.push(bands[b][i]);
            assert(bands@[b as int]@.take(i + 1) == bands@[b as int]@.take(i as int).push(
                bands@[b as int]@[i as int],
            ));
        }
        proof {
            assert(bands@[b as int]@.take(m as int) == bands@[b as int]@);
            assert((b + 1) * expected == b * expected + expected) by (nonlinear_arith);
            assert forall|k: int, i: int|
                0 <= k < b + 1 && 0 <= i < expected implies crate::store::slab(
                out@,
                expected as int,
                k,
                i,
            ) == #[trigger] bands@[k]@[i] by {
                if k < b {
                    crate::store::lemma_slab(k, expected as int, i, b as int);
                    assert(crate::store::slab(out@, expected as int, k, i) == crate::store::slab(
                        before,
                        expected as int,
                        k,
                        i,
                    ));
                }
            }
        }
    }
    Ok(out)
}

/// The index lists the tiles of the first band row by row, from the top left one on,
/// then those of the next band.
pub proof fn entries_run_along_rows_then_bands(ix: TileIndex, b: int, tx: int, ty: int)
    ensures
        ix.entry(0, 0, 0) == 0,
        ix.entry(b, tx + 1, ty) == ix.entry(b, tx, ty) + 1,
        ix.entry(b, tx, ty + 1) == ix.entry(b, tx, ty) + ix.tile_count->Some_0.0,
        ix.entry(b + 1, tx, ty) == ix.entry(b, tx, ty) + ix.tile_count->Some_0.0
            * ix.tile_count->Some_0.1,
{
    let (per_row, per_col) = ix.tile_count->Some_0;
    let n = per_row * per_col;
    assert((b + 1) * n == b * n + n) by (nonlinear_arith);
    assert((ty + 1) * per_row == ty * per_row + per_row) by (nonlinear_arith);
    assert(0 * n == 0 && 0 * per_row == 0) by (nonlinear_arith);
}

/// A decoded band has one sample per pixel, each of as many whole bytes as its bits
/// need.
pub proof fn bands_have_whole_bytes_per_sample(tile_w: int, tile_h: int, bits: int, bytes: int)
    requires
        0 <= bits,
        8 * (bytes - 1) < bits <= 8 * bytes,
    ensures
        band_bytes(tile_w, tile_h, bits) == tile_w * tile_h * bytes,
{
}

/// Bands are fetched one by one only from images whose decoded bytes are the samples: no
/// predictor, and for samples of more than eight bits the byte order of this machine.
pub proof fn only_raw_samples_are_fetched_by_band(ix: TileIndex)
    ensures
        ix.complete() ==> ix.no_predictor && (ix.bits > 8 ==> ix.native_order),
        ix.complete() <==> ix.no_predictor && (ix.bits <= 8 || ix.native_order) && ix.tile_w is Some
            && ix.tile_h is Some && ix.offsets is Some && ix.byte_counts is Some
            && ix.tile_count is Some,
{
}

/// Where bands cannot be fetched by themselves, the message names the first thing that
/// stands against it.
pub proof fn messages_name_the_first_obstacle(ix: TileIndex)
    ensures
        !ix.no_predictor ==> missing_tag(ix)
            == "band-aware fetch requires Predictor::None; falling back"@,
        ix.no_predictor && !ix.native_order && ix.bits > 8 ==> missing_tag(ix)
            == "band-aware fetch requires native byte order for multi-byte samples; falling back"@,
        ix.no_predictor && (ix.native_order || ix.bits <= 8) ==> {
            &&& ix.tile_w is None || ix.tile_h is None ==> missing_tag(ix) == "not a tiled TIFF"@
            &&& ix.tile_w is Some && ix.tile_h is Some && ix.offsets is None ==> missing_tag(ix)
                == "missing TileOffsets"@
            &&& ix.tile_w is Some && ix.tile_h is Some && ix.offsets is Some && ix.byte_counts is None
                ==> missing_tag(ix) == "missing TileByteCounts"@
        },
{
}

} // verus!
