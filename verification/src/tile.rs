//! One decoded tile: its layout, its row stripes, and forward indexing.

use vstd::prelude::*;

use a5::coordinate_systems::Spherical;

use crate::a5grid::MAX_RESOLUTION;
use crate::accumulate::{
    batch_added, batch_fits, batch_wf, batches_join, codes_in, event_values, gives_alike,
    gives_nothing, lemma_batches_join, lemma_batches_overflow, lemma_event_values_join,
    lemma_row_batch_wf, pixels_in, row_batch, row_codes, row_events, row_gives_its_pixels,
    row_pixels, runs_count_pixels, runs_of, runs_touch, selects_cells, values_in, AccEvent, Batch,
    Sample,
};
use crate::classes::too_many_classes;
use crate::error::{is_internal, is_invalid, is_unsupported, A5CogError};
use crate::locator::{cell_for, CellLocator, NO_CELL};
use crate::mask::{in_area, mask_allows, mask_wf, CellMask, MaskCache};
use crate::stats::AccCfg;
use crate::store::{lemma_slab_grows, parts_absorbed, AccLayout, CellStore, PartitionedStore};
use crate::text::join2;

verus! {

// ---------------------------------------------------------------------------
// layout

/// How the bands of a decoded tile are laid out.
pub enum Planar {
    /// Band by band within each pixel.
    Chunky,
    /// One plane per band.
    Separate,
    /// Any other value, as shown to the user.
    Other(String),
}

/// Steps in the decoded buffer from one row, column and band to the next.
#[derive(Clone, Copy)]
pub struct Strides {
    pub row: usize,
    pub col: usize,
    pub band: usize,
}

/// Where the sample of row `r`, column `c` and band `b` stands.
pub open spec fn offset(s: Strides, r: int, c: int, b: int) -> int {
    r * s.row + c * s.col + b * s.band
}

/// The steps for tiles of `tile_w` by `tile_h` pixels with `n_bands` bands.
/// Chunky buffers have the shape `[tile_h, tile_w, n_bands]`, planar ones
/// `[n_bands, tile_h, tile_w]`.
pub fn strides(planar: &Planar, tile_w: usize, tile_h: usize, n_bands: usize) -> (r: Result<
    Strides,
    A5CogError,
>)
    requires
        planar is Chunky ==> tile_w * n_bands <= usize::MAX,
        planar is Separate ==> tile_w * tile_h <= usize::MAX,
    ensures
        match planar {
            Planar::Chunky => r matches Ok(s) && s.row == tile_w * n_bands && s.col == n_bands
                && s.band == 1,
            Planar::Separate => r matches Ok(s) && s.row == tile_w && s.col == 1 && s.band
                == tile_w * tile_h,
            Planar::Other(t) => r matches Err(e) && is_unsupported(
                e,
                "unhandled planar configuration: "@ + t@,
            ),
        },
{
    match planar {
        Planar::Chunky => Ok(Strides { row: tile_w * n_bands, col: n_bands, band: 1 }),
        Planar::Separate => Ok(Strides { row: tile_w, col: 1, band: tile_w * tile_h }),
        Planar::Other(t) => Err(
            A5CogError::Unsupported(join2("unhandled planar configuration: ", t.as_str())),
        ),
    }
}

proof fn lemma_mixed_radix(a: int, b: int, c: int, na: int, nb: int, nc: int)
    by (nonlinear_arith)
    requires
        0 <= a < na,
        0 <= b < nb,
        0 <= c < nc,
    ensures
        0 <= (a * nb + b) * nc + c < na * nb * nc,
{
    assert(a * nb + b < na * nb);
    assert((a * nb + b) * nc + c < (na * nb) * nc);
}

proof fn lemma_digit_unique(a: int, b: int, x: int, y: int, n: int)
    by (nonlinear_arith)
    requires
        0 <= b < n,
        0 <= y < n,
        a * n + b == x * n + y,
    ensures
        a == x,
        b == y,
{
}

/// Every sample of a tile lies inside the decoded buffer.
pub proof fn samples_lie_in_buffer(
    chunky: bool,
    s: Strides,
    tile_w: int,
    tile_h: int,
    n_bands: int,
    r: int,
    c: int,
    b: int,
)
    requires
        0 <= r < tile_h,
        0 <= c < tile_w,
        0 <= b < n_bands,
        chunky ==> s.row == tile_w * n_bands && s.col == n_bands && s.band == 1,
        !chunky ==> s.row == tile_w && s.col == 1 && s.band == tile_w * tile_h,
    ensures
        0 <= offset(s, r, c, b) < tile_w * tile_h * n_bands,
{
    if chunky {
        lemma_mixed_radix(r, c, b, tile_h, tile_w, n_bands);
        assert((r * tile_w + c) * n_bands + b == r * (tile_w * n_bands) + c * n_bands + b * 1)
            by (nonlinear_arith);
        assert(tile_h * tile_w * n_bands == tile_w * tile_h * n_bands) by (nonlinear_arith);
    } else {
        lemma_mixed_radix(b, r, c, n_bands, tile_h, tile_w);
        assert((b * tile_h + r) * tile_w + c == r * tile_w + c * 1 + b * (tile_w * tile_h))
            by (nonlinear_arith);
        assert(n_bands * tile_h * tile_w == tile_w * tile_h * n_bands) by (nonlinear_arith);
    }
}

/// No two samples of a tile share a place in the decoded buffer.
pub proof fn samples_do_not_overlap(
    chunky: bool,
    s: Strides,
    tile_w: int,
    tile_h: int,
    n_bands: int,
    r: int,
    c: int,
    b: int,
    r2: int,
    c2: int,
    b2: int,
)
    requires
        0 <= r < tile_h,
        0 <= c < tile_w,
        0 <= b < n_bands,
        0 <= r2 < tile_h,
        0 <= c2 < tile_w,
        0 <= b2 < n_bands,
        chunky ==> s.row == tile_w * n_bands && s.col == n_bands && s.band == 1,
        !chunky ==> s.row == tile_w && s.col == 1 && s.band == tile_w * tile_h,
        offset(s, r, c, b) == offset(s, r2, c2, b2),
    ensures
        r == r2,
        c == c2,
        b == b2,
{
    if chunky {
        assert((r * tile_w + c) * n_bands + b == r * (tile_w * n_bands) + c * n_bands + b * 1)
            by (nonlinear_arith);
        assert((r2 * tile_w + c2) * n_bands + b2 == r2 * (tile_w * n_bands) + c2 * n_bands + b2 * 1)
            by (nonlinear_arith);
        lemma_digit_unique(r * tile_w + c, b, r2 * tile_w + c2, b2, n_bands);
        lemma_digit_unique(r, c, r2, c2, tile_w);
    } else {
        assert((b * tile_h + r) * tile_w + c == r * tile_w + c * 1 + b * (tile_w * tile_h))
            by (nonlinear_arith);
        assert((b2 * tile_h + r2) * tile_w + c2 == r2 * tile_w + c2 * 1 + b2 * (tile_w * tile_h))
            by (nonlinear_arith);
        lemma_digit_unique(b * tile_h + r, c, b2 * tile_h + r2, c2, tile_w);
        lemma_digit_unique(b, r, b2, r2, tile_h);
    }
}

/// The sample of row `r`, column `c` and band `b` of a decoded buffer.
pub fn sample_at<T: Copy>(data: &Vec<T>, s: &Strides, r: usize, c: usize, b: usize) -> (v: T)
    requires
        offset(*s, r as int, c as int, b as int) < data@.len(),
    ensures
        v == data@[offset(*s, r as int, c as int, b as int)],
{
    assert(data.len() <= usize::MAX);
    assert(0 <= r * s.row && 0 <= c * s.col && 0 <= b * s.band) by (nonlinear_arith)
        requires
            r >= 0,
            c >= 0,
            b >= 0,
            s.row >= 0,
            s.col >= 0,
            s.band >= 0,
    ;
    data[r * s.row + c * s.col + b * s.band]
}

/// How much of a tile starting at `start` lies within `total`.
pub open spec fn part_within(total: int, start: int, size: int) -> int {
    if start >= total {
        0
    } else if total - start < size {
        total - start
    } else {
        size
    }
}

/// The valid width and height of tile `(tx, ty)`; tiles at the right and
/// bottom edge are partial.
pub fn actual_dims(
    width: usize,
    height: usize,
    tile_w: usize,
    tile_h: usize,
    tx: usize,
    ty: usize,
) -> (r: (usize, usize))
    requires
        tx * tile_w <= usize::MAX,
        ty * tile_h <= usize::MAX,
    ensures
        r.0 == part_within(width as int, tx * tile_w, tile_w as int),
        r.1 == part_within(height as int, ty * tile_h, tile_h as int),
{
    let w: usize = width.saturating_sub(tx * tile_w);
    let h: usize = height.saturating_sub(ty * tile_h);
    (
        if tile_w < w {
            tile_w
        } else {
            w
        },
        if tile_h < h {
            tile_h
        } else {
            h
        },
    )
}

/// Every pixel of a raster lies in exactly one tile, inside its valid part.
pub proof fn pixel_lies_in_one_tile(width: int, tile_w: int, x: int, tx: int)
    requires
        0 <= x < width,
        tile_w > 0,
        tx >= 0,
    ensures
        0 <= x - tx * tile_w < part_within(width, tx * tile_w, tile_w) <==> tx == x / tile_w,
{
    vstd::arithmetic::div_mod::lemma_fundamental_div_mod(x, tile_w);
    let q = x / tile_w;
    assert(x == tile_w * q + x % tile_w);
    assert(q * tile_w == tile_w * q) by (nonlinear_arith);
    if tx == q {
    } else if tx < q {
        assert((tx + 1) * tile_w <= q * tile_w) by (nonlinear_arith)
            requires
                tx + 1 <= q,
                tile_w > 0,
        ;
        assert((tx + 1) * tile_w == tx * tile_w + tile_w) by (nonlinear_arith);
    } else {
        assert((q + 1) * tile_w <= tx * tile_w) by (nonlinear_arith)
            requires
                q + 1 <= tx,
                tile_w > 0,
        ;
        assert((q + 1) * tile_w == q * tile_w + tile_w) by (nonlinear_arith);
    }
}

// ---------------------------------------------------------------------------
// stripes and hints

/// Rows per unit of indexing work.
pub const STRIPE_ROWS: usize = 64;

/// The first row of stripe `i`, or the end of the tile.
pub open spec fn stripe_start(height: int, i: int) -> int {
    if i * STRIPE_ROWS < height {
        i * STRIPE_ROWS
    } else {
        height
    }
}

/// The rows of a tile in stripes, from the top.
pub fn stripes(height: usize) -> (r: Vec<(usize, usize)>)
    ensures
        r@.len() == (height + STRIPE_ROWS - 1) / (STRIPE_ROWS as int),
        forall|i: int|
            0 <= i < r@.len() ==> (#[trigger] r@[i]).0 == stripe_start(height as int, i) && r@[i].1
                == stripe_start(height as int, i + 1) && r@[i].0 < r@[i].1,
{
    let mut out: Vec<(usize, usize)> = Vec::new();
    let mut r0: usize = 0;
    while r0 < height
        invariant
            r0 <= height,
            r0 == stripe_start(height as int, out@.len() as int),
            r0 < height ==> r0 == out@.len() * STRIPE_ROWS,
            r0 == height ==> out@.len() == (height + STRIPE_ROWS - 1) / (STRIPE_ROWS as int),
            forall|i: int|
                0 <= i < out@.len() ==> (#[trigger] out@[i]).0 == stripe_start(height as int, i)
                    && out@[i].1 == stripe_start(height as int, i + 1) && out@[i].0 < out@[i].1,
        decreases height - r0,
    {
        let r1: usize = if height - r0 < STRIPE_ROWS {
            height
        } else {
            r0 + STRIPE_ROWS
        };
        out.push((r0, r1));
        r0 = r1;
    }
    out
}

/// Every row of a tile lies in exactly one stripe.
pub proof fn row_lies_in_one_stripe(height: int, row: int, i: int)
    requires
        0 <= row < height,
        i >= 0,
    ensures
        stripe_start(height, i) <= row < stripe_start(height, i + 1) <==> i == row / (
        STRIPE_ROWS as int),
{
}

/// The cell in column `c` of a row, or [`NO_CELL`] beyond its ends.
pub open spec fn cell_in(row: Seq<u64>, c: int) -> u64 {
    if 0 <= c < row.len() {
        row[c]
    } else {
        NO_CELL
    }
}

/// The hints for column `c`.
pub open spec fn hints_for(row: Seq<u64>, c: int) -> Seq<u64> {
    seq![
        cell_in(row, c),
        cell_in(row, c + 1),
        cell_in(row, c + 2),
        cell_in(row, c + 3),
        cell_in(row, c - 1),
    ]
}

/// The hints for column `c`: the cells above at `c` and the next three columns,
/// then the cell to the left. A row scan moves east, so the cell that starts
/// here was usually met on the row above a little further on.
pub fn row_hints(prev_row: &Vec<u64>, c: usize) -> (r: [u64; 5])
    requires
        c < prev_row@.len(),
    ensures
        r@ == hints_for(prev_row@, c as int),
{
    let w: usize = prev_row.len();
    let h0: u64 = prev_row[c];
    let h1: u64 = if w - c > 1 {
        prev_row[c + 1]
    } else {
        NO_CELL
    };
    let h2: u64 = if w - c > 2 {
        prev_row[c + 2]
    } else {
        NO_CELL
    };
    let h3: u64 = if w - c > 3 {
        prev_row[c + 3]
    } else {
        NO_CELL
    };
    let h4: u64 = if c >= 1 {
        prev_row[c - 1]
    } else {
        NO_CELL
    };
    let r: [u64; 5] = [h0, h1, h2, h3, h4];
    assert(r@ =~= hints_for(prev_row@, c as int));
    r
}

// ---------------------------------------------------------------------------
// forward indexing of a stripe

/// The rows `from..to` of a tile that is `width` pixels wide, and what is
/// accumulated of them.
#[derive(Clone, Copy)]
pub struct Stripe {
    pub width: usize,
    pub from: usize,
    pub to: usize,
    pub n_out: usize,
    pub cfg: AccCfg,
    pub resolution: i32,
    /// The source has a nodata value, so pixels may be without a valid band.
    pub has_nodata: bool,
}

impl Stripe {
    /// The rows are in order, the resolution is one of the grid's, and the
    /// cells of all pixels can be numbered and their slabs addressed.
    pub open spec fn wf(&self) -> bool {
        &&& self.from <= self.to
        &&& -1 <= self.resolution <= MAX_RESOLUTION
        &&& self.width * (self.to - self.from) <= u32::MAX
        &&& (self.width * (self.to - self.from)) * self.n_out <= usize::MAX
    }
}

/// One row as it was read.
#[verifier::reject_recursive_types(V)]
pub struct RowData<V> {
    /// What the lookup gave for each pixel.
    pub located: Seq<u64>,
    /// The cell that each pixel is added to.
    pub cells: Seq<u64>,
    /// The samples, band by band.
    pub vals: Seq<Vec<Option<Sample<V>>>>,
}

/// Some band is valid in column `c`.
pub open spec fn any_valid<V>(vals: Seq<Vec<Option<Sample<V>>>>, c: int) -> bool {
    exists|b: int| 0 <= b < vals.len() && (#[trigger] vals[b])@[c] is Some
}

/// The samples are what reading row `row` gives.
pub open spec fn row_read<V, P: Fn(usize, usize, usize) -> Option<Sample<V>>>(
    st: Stripe,
    sample: P,
    row: usize,
    vals: Seq<Vec<Option<Sample<V>>>>,
) -> bool {
    &&& vals.len() == st.n_out
    &&& forall|b: int| 0 <= b < vals.len() ==> (#[trigger] vals[b])@.len() == st.width
    &&& forall|b: int, c: int|
        0 <= b < vals.len() && 0 <= c < st.width ==> call_ensures(
            sample,
            (row, b as usize, c as usize),
            #[trigger] vals[b]@[c],
        )
}

/// `r` is what looking a point up gives: no cell where there is no point.
pub open spec fn looked_up(at: Option<Spherical>, resolution: i32, r: u64) -> bool {
    match at {
        None => r == NO_CELL,
        Some(p) => cell_for(p, resolution, r),
    }
}

/// Pixel `c` of a row was looked up at its point, or skipped for want of a valid
/// band.
pub open spec fn pixel_located<V, Q: Fn(usize, usize) -> Result<Option<Spherical>, A5CogError>>(
    st: Stripe,
    point: Q,
    row: usize,
    d: RowData<V>,
    c: int,
) -> bool {
    if st.has_nodata && !any_valid(d.vals, c) {
        d.located[c] == NO_CELL
    } else {
        exists|at: Option<Spherical>| #[trigger]
            call_ensures(point, (row, c as usize), Ok(at)) && looked_up(
                at,
                st.resolution,
                d.located[c],
            )
    }
}

/// The first `n` pixels of a row were looked up, or skipped for want of a valid
/// band, and masked.
pub open spec fn row_located<V, Q: Fn(usize, usize) -> Result<Option<Spherical>, A5CogError>>(
    st: Stripe,
    mask: Option<&CellMask>,
    point: Q,
    row: usize,
    d: RowData<V>,
    n: int,
) -> bool {
    &&& forall|c: int| 0 <= c < n ==> #[trigger] pixel_located(st, point, row, d, c)
    &&& forall|c: int|
        0 <= c < n ==> #[trigger] d.cells[c] == (if d.located[c] != NO_CELL && mask_allows(
            mask,
            d.located[c],
            st.resolution,
        ) {
            d.located[c]
        } else {
            NO_CELL
        })
}

/// `rows` are the first rows of the stripe as they were read and looked up.
pub open spec fn rows_processed<
    V,
    P: Fn(usize, usize, usize) -> Option<Sample<V>>,
    Q: Fn(usize, usize) -> Result<Option<Spherical>, A5CogError>,
>(st: Stripe, mask: Option<&CellMask>, sample: P, point: Q, rows: Seq<RowData<V>>) -> bool {
    forall|k: int|
        #![trigger rows[k]]
        0 <= k < rows.len() ==> {
            &&& rows[k].located.len() == st.width
            &&& rows[k].cells.len() == st.width
            &&& row_read(st, sample, (st.from + k) as usize, rows[k].vals)
            &&& row_located(
                st,
                mask,
                point,
                (st.from + k) as usize,
                rows[k],
                st.width as int,
            )
        }
}

/// The runs of a row.
pub open spec fn runs_in<V>(d: RowData<V>) -> Seq<crate::accumulate::Run> {
    runs_of(d.cells, d.cells.len() as int)
}

/// What the first `n` rows give to one band of a cell.
pub open spec fn rows_events<V>(rows: Seq<RowData<V>>, n: int, cell: u64, b: int) -> Seq<
    AccEvent<V>,
>
    decreases n,
{
    if n <= 0 {
        Seq::empty()
    } else {
        rows_events(rows, n - 1, cell, b) + row_events(
            runs_in(rows[n - 1]),
            rows[n - 1].vals[b]@,
            cell,
        )
    }
}

/// The class codes that the first `n` rows give to one band of a cell.
pub open spec fn rows_codes<V>(rows: Seq<RowData<V>>, n: int, cell: u64, b: int) -> Seq<(i32, u64)>
    decreases n,
{
    if n <= 0 {
        Seq::empty()
    } else {
        rows_codes(rows, n - 1, cell, b) + row_codes(
            runs_in(rows[n - 1]),
            rows[n - 1].vals[b]@,
            cell,
        )
    }
}

/// The pixels that the first `n` rows give to a cell.
pub open spec fn rows_pixels<V>(rows: Seq<RowData<V>>, n: int, cell: u64) -> nat
    decreases n,
{
    if n <= 0 {
        0
    } else {
        rows_pixels(rows, n - 1, cell) + row_pixels(runs_in(rows[n - 1]), cell)
    }
}

/// Some of the first `n` rows has a pixel in `cell`.
pub open spec fn rows_touch<V>(rows: Seq<RowData<V>>, n: int, cell: u64) -> bool
    decreases n,
{
    n > 0 && (rows_touch(rows, n - 1, cell) || runs_touch(runs_in(rows[n - 1]), cell))
}

/// What the first `n` rows give to a store.
pub open spec fn rows_batch<V>(rows: Seq<RowData<V>>, n: int) -> Batch<V> {
    Batch {
        events: |cell: u64, b: int| rows_events(rows, n, cell, b),
        codes: |cell: u64, b: int| rows_codes(rows, n, cell, b),
        pixels: |cell: u64| rows_pixels(rows, n, cell),
        touched: |cell: u64| rows_touch(rows, n, cell),
    }
}

proof fn lemma_rows_untouched<V>(rows: Seq<RowData<V>>, n: int, cell: u64, b: int)
    requires
        !rows_touch(rows, n, cell),
    ensures
        rows_events(rows, n, cell, b).len() == 0,
        rows_codes(rows, n, cell, b).len() == 0,
        rows_pixels(rows, n, cell) == 0,
    decreases n,
{
    if n > 0 {
        lemma_rows_untouched(rows, n - 1, cell, b);
        let d = rows[n - 1];
        lemma_row_batch_wf(runs_in(d), d.vals);
        let a = row_batch(runs_in(d), d.vals);
        assert((a.events)(cell, b).len() == 0);
    }
}

pub(crate) proof fn lemma_rows_batch_wf<V>(rows: Seq<RowData<V>>, n: int)
    ensures
        batch_wf(rows_batch(rows, n)),
{
    let a = rows_batch(rows, n);
    assert forall|cell: u64, k: int|
        #![trigger (a.events)(cell, k)]
        #![trigger (a.codes)(cell, k)]
        !(a.touched)(cell) implies (a.events)(cell, k).len() == 0 && (a.codes)(cell, k).len() == 0
        && (a.pixels)(cell) == 0 by {
        lemma_rows_untouched(rows, n, cell, k);
    }
}

/// Later rows do not change what earlier ones gave.
proof fn lemma_rows_prefix<V>(rows: Seq<RowData<V>>, d: RowData<V>, n: int)
    requires
        0 <= n <= rows.len(),
    ensures
        rows_batch(rows.push(d), n) == rows_batch(rows, n),
    decreases n,
{
    let more = rows.push(d);
    let a = rows_batch(more, n);
    let b = rows_batch(rows, n);
    assert forall|cell: u64, k: int| #[trigger] rows_events(more, n, cell, k) == rows_events(
        rows,
        n,
        cell,
        k,
    ) && rows_codes(more, n, cell, k) == rows_codes(rows, n, cell, k) && rows_pixels(more, n, cell)
        == rows_pixels(rows, n, cell) && rows_touch(more, n, cell) == rows_touch(rows, n, cell) by {
        lemma_rows_prefix_at(rows, d, n, cell, k);
    }
    assert forall|cell: u64, k: int| #[trigger] rows_codes(more, n, cell, k) == rows_codes(
        rows,
        n,
        cell,
        k,
    ) by {
        assert(rows_events(more, n, cell, k) == rows_events(rows, n, cell, k));
    }
    assert forall|cell: u64| #[trigger] rows_pixels(more, n, cell) == rows_pixels(rows, n, cell) by {
        assert(rows_events(more, n, cell, 0) == rows_events(rows, n, cell, 0));
    }
    assert forall|cell: u64| #[trigger] rows_touch(more, n, cell) == rows_touch(rows, n, cell) by {
        assert(rows_events(more, n, cell, 0) == rows_events(rows, n, cell, 0));
    }
    assert(a.events =~= b.events);
    assert(a.codes =~= b.codes);
    assert(a.pixels =~= b.pixels);
    assert(a.touched =~= b.touched);
}

proof fn lemma_rows_prefix_at<V>(rows: Seq<RowData<V>>, d: RowData<V>, n: int, cell: u64, k: int)
    requires
        0 <= n <= rows.len(),
    ensures
        rows_events(rows.push(d), n, cell, k) == rows_events(rows, n, cell, k),
        rows_codes(rows.push(d), n, cell, k) == rows_codes(rows, n, cell, k),
        rows_pixels(rows.push(d), n, cell) == rows_pixels(rows, n, cell),
        rows_touch(rows.push(d), n, cell) == rows_touch(rows, n, cell),
    decreases n,
{
    if n > 0 {
        lemma_rows_prefix_at(rows, d, n - 1, cell, k);
        assert(rows.push(d)[n - 1] == rows[n - 1]);
    }
}

proof fn lemma_rows_join<V>(rows: Seq<RowData<V>>, d: RowData<V>)
    ensures
        batches_join(
            rows_batch(rows, rows.len() as int),
            row_batch(runs_in(d), d.vals),
            rows_batch(rows.push(d), (rows.len() + 1) as int),
        ),
{
    let n = rows.len() as int;
    let more = rows.push(d);
    lemma_rows_prefix(rows, d, n);
    let a = rows_batch(rows, n);
    let a2 = rows_batch(more, n);
    let b = row_batch(runs_in(d), d.vals);
    let c = rows_batch(more, n + 1);
    assert(more[n] == d);
    assert(a == a2);
    assert forall|cell: u64, k: int| #[trigger] (c.events)(cell, k) == (a.events)(cell, k) + (
    b.events)(cell, k) by {
        assert((a2.events)(cell, k) == rows_events(more, n, cell, k));
    }
    assert forall|cell: u64, k: int| #[trigger] (c.codes)(cell, k) == (a.codes)(cell, k) + (
    b.codes)(cell, k) by {
        assert((a2.codes)(cell, k) == rows_codes(more, n, cell, k));
    }
    assert forall|cell: u64| #[trigger] (c.pixels)(cell) == (a.pixels)(cell) + (b.pixels)(cell) by {
        assert((a2.pixels)(cell) == rows_pixels(more, n, cell));
    }
    assert forall|cell: u64| #[trigger] (c.touched)(cell) == ((a.touched)(cell) || (b.touched)(
        cell,
    )) by {
        assert((a2.touched)(cell) == rows_touch(more, n, cell));
    }
}

/// The samples of one row, band by band.
fn read_row<V: Copy, P: Fn(usize, usize, usize) -> Option<Sample<V>>>(
    st: &Stripe,
    sample: &P,
    row: usize,
) -> (r: Vec<Vec<Option<Sample<V>>>>)
    requires
        forall|b: usize, c: usize|
            b < st.n_out && c < st.width ==> call_requires(*sample, (row, b, c)),
    ensures
        row_read(*st, *sample, row, r@),
{
    let mut vals: Vec<Vec<Option<Sample<V>>>> = Vec::new();
    for b in 0..st.n_out
        invariant
            forall|b: usize, c: usize|
                b < st.n_out && c < st.width ==> call_requires(*sample, (row, b, c)),
            vals@.len() == b,
            forall|k: int| 0 <= k < b ==> (#[trigger] vals@[k])@.len() == st.width,
            forall|k: int, c: int|
                0 <= k < b && 0 <= c < st.width ==> call_ensures(
                    *sample,
                    (row, k as usize, c as usize),
                    #[trigger] vals@[k]@[c],
                ),
    {
        let mut band: Vec<Option<Sample<V>>> = Vec::new();
        for c in 0..st.width
            invariant
                forall|b: usize, c: usize|
                    b < st.n_out && c < st.width ==> call_requires(*sample, (row, b, c)),
                b < st.n_out,
                band@.len() == c,
                forall|k: int|
                    0 <= k < c ==> call_ensures(
                        *sample,
                        (row, b, k as usize),
                        #[trigger] band@[k],
                    ),
        {
            band.push(sample(row, b, c));
        }
        vals.push(band);
    }
    vals
}

/// Whether some band is valid in column `c`.
fn has_valid<V>(vals: &Vec<Vec<Option<Sample<V>>>>, c: usize) -> (r: bool)
    requires
        forall|b: int| 0 <= b < vals@.len() ==> c < (#[trigger] vals@[b])@.len(),
    ensures
        r == any_valid(vals@, c as int),
{
    let mut b: usize = 0;
    while b < vals.len()
        invariant
            b <= vals@.len(),
            forall|k: int| 0 <= k < vals@.len() ==> c < (#[trigger] vals@[k])@.len(),
            forall|k: int| 0 <= k < b ==> (#[trigger] vals@[k])@[c as int] is None,
        decreases vals@.len() - b,
    {
        if vals[b][c].is_some() {
            assert(vals@[b as int]@[c as int] is Some);
            return true;
        }
        b = b + 1;
    }
    false
}

/// Looks up the cells of one row. `prev_row` holds the cells met so far in each
/// column, which serve as hints, and is brought up to date.
fn locate_row<V: Copy, Q: Fn(usize, usize) -> Result<Option<Spherical>, A5CogError>>(
    st: &Stripe,
    mask: Option<&CellMask>,
    point: &Q,
    row: usize,
    vals: &Vec<Vec<Option<Sample<V>>>>,
    locator: &mut CellLocator,
    prev_row: &mut Vec<u64>,
    cache: &mut MaskCache,
) -> (r: Result<(Vec<u64>, Ghost<RowData<V>>), A5CogError>)
    requires
        mask_wf(mask),
        st.resolution <= MAX_RESOLUTION,
        old(locator).wf(),
        old(locator).resolution == st.resolution,
        old(cache).agrees(mask, st.resolution),
        old(prev_row)@.len() == st.width,
        forall|b: int| 0 <= b < vals@.len() ==> (#[trigger] vals@[b])@.len() == st.width,
        forall|c: usize| c < st.width ==> call_requires(*point, (row, c)),
    ensures
        final(locator).wf(),
        final(locator).resolution == st.resolution,
        final(cache).agrees(mask, st.resolution),
        final(prev_row)@.len() == st.width,
        match r {
            Ok(t) => {
                let d = t.1@;
                &&& d.cells == t.0@
                &&& d.vals == vals@
                &&& d.located.len() == st.width
                &&& d.cells.len() == st.width
                &&& row_located(*st, mask, *point, row, d, st.width as int)
            },
            Err(e) => exists|d: RowData<V>| #[trigger]
                row_failed(*st, mask, *point, row, d, e) && d.vals == vals@,
        },
{
    let ghost mut located: Seq<u64> = Seq::empty();
    let mut cells: Vec<u64> = Vec::new();
    for c in 0..st.width
        invariant
            mask_wf(mask),
            st.resolution <= MAX_RESOLUTION,
            locator.wf(),
            locator.resolution == st.resolution,
            cache.agrees(mask, st.resolution),
            forall|b: int| 0 <= b < vals@.len() ==> (#[trigger] vals@[b])@.len() == st.width,
            forall|c: usize| c < st.width ==> call_requires(*point, (row, c)),
            located.len() == c,
            cells@.len() == c,
            prev_row@.len() == st.width,
            row_located(
                *st,
                mask,
                *point,
                row,
                (RowData { located, cells: cells@, vals: vals@ }),
                c as int,
            ),
    {
        let ghost d0 = RowData { located, cells: cells@, vals: vals@ };
        let mut id: u64 = NO_CELL;
        let skip: bool = st.has_nodata && !has_valid(vals, c);
        let ghost mut given: Option<Spherical> = None;
        if !skip {
            match point(row, c) {
                Err(e) => {
                    assert(row_failed(*st, mask, *point, row, d0, e));
                    return Err(e);
                },
                Ok(at) => {
                    proof {
                        given = at;
                    }
                    if let Some(p) = at {
                        let hints = row_hints(prev_row, c);
                        id = locator.locate_near(p, &hints);
                    }
                },
            }
            assert(call_ensures(*point, (row, c), Ok(given)));
            assert(looked_up(given, st.resolution, id));
        }
        let mut cell: u64 = NO_CELL;
        if id != NO_CELL {
            prev_row.set(c, id);
            if cache.allows(mask, id, st.resolution) {
                cell = id;
            }
        }
        cells.push(cell);
        proof {
            located = located.push(id);
            let d1 = RowData { located, cells: cells@, vals: vals@ };
            assert forall|j: int| 0 <= j < c + 1 implies #[trigger] pixel_located(
                *st,
                *point,
                row,
                d1,
                j,
            ) by {
                if j < c {
                    assert(d1.located[j] == d0.located[j]);
                    assert(pixel_located(*st, *point, row, d0, j));
                }
            }
            assert forall|j: int| 0 <= j < c + 1 implies #[trigger] d1.cells[j] == (
            if d1.located[j] != NO_CELL && mask_allows(mask, d1.located[j], st.resolution) {
                d1.located[j]
            } else {
                NO_CELL
            }) by {
                if j < c {
                    assert(d1.cells[j] == d0.cells[j]);
                    assert(d1.located[j] == d0.located[j]);
                }
            }
        }
    }
    Ok((cells, Ghost(RowData { located, cells: cells@, vals: vals@ })))
}

/// A store of the stripe's shape that has seen nothing.
pub open spec fn is_empty_store<L: AccLayout>(n_out: usize, cfg: AccCfg, e: CellStore<L>) -> bool {
    e.wf() && e.n_out == n_out && e.cfg == cfg && e.cells@.len() == 0
}

/// `store` holds what the rows give to an empty store.
pub open spec fn built_from<L: AccLayout>(
    n_out: usize,
    cfg: AccCfg,
    batch: Batch<L::Value>,
    store: CellStore<L>,
) -> bool {
    exists|e: CellStore<L>| #[trigger]
        is_empty_store(n_out, cfg, e) && batch_added(e, batch, store)
}

/// What the rows give does not fit an empty store.
pub open spec fn overflows<L: AccLayout>(
    n_out: usize,
    cfg: AccCfg,
    batch: Batch<L::Value>,
) -> bool {
    exists|e: CellStore<L>| #[trigger] is_empty_store(n_out, cfg, e) && !batch_fits(e, batch)
}

/// The capacity that a stripe's store starts with: a guess, since tiles at
/// coarse resolutions touch a handful of cells.
pub fn stripe_capacity(n_pixels: usize) -> (r: usize)
    ensures
        r == (if n_pixels / 64 < 16 {
            16
        } else if n_pixels / 64 > 65_536 {
            65_536
        } else {
            n_pixels / 64
        }),
{
    let g: usize = n_pixels / 64;
    if g < 16 {
        16
    } else if g > 65_536 {
        65_536
    } else {
        g
    }
}

/// The samples and lookups of the stripe can be asked for.
pub open spec fn stripe_readable<
    V,
    P: Fn(usize, usize, usize) -> Option<Sample<V>>,
    Q: Fn(usize, usize) -> Result<Option<Spherical>, A5CogError>,
>(st: Stripe, sample: P, point: Q) -> bool {
    &&& forall|r: usize, b: usize, c: usize|
        st.from <= r < st.to && b < st.n_out && c < st.width ==> call_requires(sample, (r, b, c))
    &&& forall|r: usize, c: usize|
        st.from <= r < st.to && c < st.width ==> call_requires(point, (r, c))
}

/// The row failed at the pixel behind those of `d`, which were looked up: its point
/// could not be had. A pixel that is skipped for want of a valid band is not asked
/// for.
pub open spec fn row_failed<V, Q: Fn(usize, usize) -> Result<Option<Spherical>, A5CogError>>(
    st: Stripe,
    mask: Option<&CellMask>,
    point: Q,
    row: usize,
    d: RowData<V>,
    e: A5CogError,
) -> bool {
    let c = d.located.len() as int;
    &&& c < st.width
    &&& d.cells.len() == c
    &&& row_located(st, mask, point, row, d, c)
    &&& st.has_nodata ==> any_valid(d.vals, c)
    &&& call_ensures(point, (row, c as usize), Err(e))
}

/// The stripe failed at the row behind those of `rows`, which were processed: a
/// point of it could not be had.
pub open spec fn point_failed<
    V,
    P: Fn(usize, usize, usize) -> Option<Sample<V>>,
    Q: Fn(usize, usize) -> Result<Option<Spherical>, A5CogError>,
>(
    st: Stripe,
    mask: Option<&CellMask>,
    sample: P,
    point: Q,
    rows: Seq<RowData<V>>,
    e: A5CogError,
) -> bool {
    let row = (st.from + rows.len()) as usize;
    &&& rows.len() < st.to - st.from
    &&& exists|d: RowData<V>| #[trigger]
        row_failed(st, mask, point, row, d, e) && row_read(st, sample, row, d.vals)
}

/// The stripe failed: a pixel's point did, or a class list grew too long.
pub open spec fn stripe_failed<
    L: AccLayout,
    P: Fn(usize, usize, usize) -> Option<Sample<L::Value>>,
    Q: Fn(usize, usize) -> Result<Option<Spherical>, A5CogError>,
>(st: Stripe, mask: Option<&CellMask>, sample: P, point: Q, e: A5CogError) -> bool {
    ||| exists|rows: Seq<RowData<L::Value>>| #[trigger]
        rows_processed(st, mask, sample, point, rows) && point_failed(
            st,
            mask,
            sample,
            point,
            rows,
            e,
        )
    ||| is_invalid(e, too_many_classes()) && exists|rows: Seq<RowData<L::Value>>|
        rows.len() <= st.to - st.from && #[trigger] rows_processed(
            st,
            mask,
            sample,
            point,
            rows,
        ) && overflows::<L>(st.n_out, st.cfg, rows_batch(rows, rows.len() as int))
}

/// Forward (pixel-centre) indexing of the rows of a stripe.
///
/// Each row is read band by band, its valid pixels are looked up and masked,
/// and runs of consecutive pixels in one cell are accumulated. `sample(r, b, c)`
/// is band `b` of the pixel in row `r` and column `c`, none where it is
/// invalid; `point(r, c)` is the point to look up for that pixel, none where it
/// has none or is not wanted.
pub fn index_stripe<L: AccLayout, P, Q>(
    st: &Stripe,
    mask: Option<&CellMask>,
    sample: &P,
    point: &Q,
) -> (r: Result<CellStore<L>, A5CogError>) where
    P: Fn(usize, usize, usize) -> Option<Sample<L::Value>>,
    Q: Fn(usize, usize) -> Result<Option<Spherical>, A5CogError>,

    requires
        st.wf(),
        mask_wf(mask),
        stripe_readable(*st, *sample, *point),
    ensures
        match r {
            Ok(store) => {
                &&& store.wf()
                &&& store.n_out == st.n_out
                &&& store.cfg == st.cfg
                &&& store.cells@.len() <= st.width * (st.to - st.from)
                &&& exists|rows: Seq<RowData<L::Value>>|
                    rows.len() == st.to - st.from && #[trigger] rows_processed(
                        *st,
                        mask,
                        *sample,
                        *point,
                        rows,
                    ) && built_from(
                        st.n_out,
                        st.cfg,
                        rows_batch(rows, rows.len() as int),
                        store,
                    )
            },
            Err(e) => stripe_failed::<L, P, Q>(*st, mask, *sample, *point, e),
        },
{
    let n: usize = st.width * (st.to - st.from);
    let mut store: CellStore<L> = CellStore::new(st.n_out, st.cfg, stripe_capacity(n));
    let ghost empty = store;
    let mut prev_row: Vec<u64> = Vec::new();
    prev_row.resize(st.width, NO_CELL);
    let mut locator = CellLocator::new(st.resolution);
    let mut cache = MaskCache::new();
    let ghost mut rows: Seq<RowData<L::Value>> = Seq::empty();
    proof {
        assert(is_empty_store(st.n_out, st.cfg, empty));
        lemma_nothing_added(empty, rows);
        assert(0 * st.width == 0);
    }
    for r in st.from..st.to
        invariant
            st.wf(),
            mask_wf(mask),
            stripe_readable(*st, *sample, *point),
            is_empty_store(st.n_out, st.cfg, empty),
            store.wf(),
            store.n_out == st.n_out,
            store.cfg == st.cfg,
            store.cells@.len() <= st.width * (r - st.from),
            rows.len() == r - st.from,
            rows_processed(*st, mask, *sample, *point, rows),
            batch_added(empty, rows_batch(rows, rows.len() as int), store),
            locator.wf(),
            locator.resolution == st.resolution,
            prev_row@.len() == st.width,
            cache.agrees(mask, st.resolution),
    {
        let vals = read_row(st, sample, r);
        let res = locate_row(
            st,
            mask,
            point,
            r,
            &vals,
            &mut locator,
            &mut prev_row,
            &mut cache,
        );
        match res {
            Err(e) => {
                proof {
                    let d = choose|d: RowData<L::Value>| #[trigger]
                        row_failed(*st, mask, *point, r, d, e) && d.vals == vals@;
                    assert(row_failed(*st, mask, *point, r, d, e));
                    assert(point_failed(*st, mask, *sample, *point, rows, e));
                }
                return Err(e);
            },
            Ok((cells, d)) => {
                let ghost d = d@;
                let ghost more = rows.push(d);
                let ghost before = store;
                proof {
                    let done = (r - st.from) as int;
                    let total = st.to - st.from;
                    assert(st.width * done + st.width <= st.width * total) by (nonlinear_arith)
                        requires
                            done + 1 <= total,
                            0 <= st.width,
                    ;
                    assert(st.width * (done + 1) == st.width * done + st.width) by (nonlinear_arith);
                    lemma_slab_grows(
                        (store.cells@.len() + st.width) as int,
                        st.width * total,
                        st.n_out as int,
                    );
                    lemma_row_added_to(*st, mask, *sample, *point, rows, d);
                    lemma_rows_join(rows, d);
                    lemma_row_batch_wf(runs_in(d), d.vals);
                    lemma_rows_batch_wf(rows, rows.len() as int);
                }
                match store.accumulate_row(&cells, &vals) {
                    Err(e) => {
                        proof {
                            lemma_batches_overflow(
                                empty,
                                rows_batch(rows, rows.len() as int),
                                before,
                                row_batch(runs_in(d), d.vals),
                                rows_batch(more, more.len() as int),
                            );
                            assert(rows_processed(*st, mask, *sample, *point, more));
                            assert(is_empty_store(st.n_out, st.cfg, empty));
                        }
                        return Err(e);
                    },
                    Ok(_) => {},
                }
                proof {
                    lemma_batches_join(
                        empty,
                        rows_batch(rows, rows.len() as int),
                        before,
                        row_batch(runs_in(d), d.vals),
                        store,
                        rows_batch(more, more.len() as int),
                    );
                    crate::accumulate::lemma_last_run(cells@, cells@.len() as int);
                    crate::accumulate::lemma_new_run_cells(before, runs_in(d), 0);
                    lemma_rows_prefix(rows, d, rows.len() as int);
                    rows = more;
                }
            },
        }
    }
    proof {
        assert(is_empty_store(st.n_out, st.cfg, empty));
        assert(built_from(st.n_out, st.cfg, rows_batch(rows, rows.len() as int), store));
    }
    Ok(store)
}

proof fn lemma_nothing_added<L: AccLayout>(e: CellStore<L>, rows: Seq<RowData<L::Value>>)
    requires
        e.wf(),
        e.cells@.len() == 0,
        rows.len() == 0,
    ensures
        batch_added(e, rows_batch(rows, 0), e),
{
    let batch = rows_batch(rows, 0);
    assert forall|cell: u64| #[trigger] e.has(cell) == (e.has(cell) || (batch.touched)(cell)) by {}
    assert forall|cell: u64| !e.has(cell) by {}
}

proof fn lemma_row_added_to<
    V,
    P: Fn(usize, usize, usize) -> Option<Sample<V>>,
    Q: Fn(usize, usize) -> Result<Option<Spherical>, A5CogError>,
>(
    st: Stripe,
    mask: Option<&CellMask>,
    sample: P,
    point: Q,
    rows: Seq<RowData<V>>,
    d: RowData<V>,
)
    requires
        rows_processed(st, mask, sample, point, rows),
        d.located.len() == st.width,
        d.cells.len() == st.width,
        row_read(st, sample, (st.from + rows.len()) as usize, d.vals),
        row_located(
            st,
            mask,
            point,
            (st.from + rows.len()) as usize,
            d,
            st.width as int,
        ),
    ensures
        rows_processed(st, mask, sample, point, rows.push(d)),
{
    let more = rows.push(d);
    assert forall|k: int|
        #![trigger more[k]]
        0 <= k < more.len() implies {
        &&& more[k].located.len() == st.width
        &&& more[k].cells.len() == st.width
        &&& row_read(st, sample, (st.from + k) as usize, more[k].vals)
        &&& row_located(
            st,
            mask,
            point,
            (st.from + k) as usize,
            more[k],
            st.width as int,
        )
    } by {
        lemma_rows_prefix(rows, d, k);
        if k < rows.len() {
            assert(more[k] == rows[k]);
        } else {
            assert(more[k] == d);
        }
    }
}

/// Forward indexing of the rows of a stripe, merged into the partitions.
pub fn process_tile<L: AccLayout, P, Q>(
    st: &Stripe,
    mask: Option<&CellMask>,
    sample: &P,
    point: &Q,
    parts: &mut PartitionedStore<L>,
) -> (r: Result<(), A5CogError>) where
    P: Fn(usize, usize, usize) -> Option<Sample<L::Value>>,
    Q: Fn(usize, usize) -> Result<Option<Spherical>, A5CogError>,

    requires
        st.wf(),
        mask_wf(mask),
        stripe_readable(*st, *sample, *point),
        old(parts).wf(),
        old(parts).parts@[0].n_out == st.n_out,
        old(parts).parts@[0].cfg == st.cfg,
    ensures
        final(parts).wf(),
        final(parts).log2p == old(parts).log2p,
        r is Ok ==> exists|rows: Seq<RowData<L::Value>>, store: CellStore<L>|
            rows.len() == st.to - st.from && #[trigger] rows_processed(
                *st,
                mask,
                *sample,
                *point,
                rows,
            ) && #[trigger] built_from(
                st.n_out,
                st.cfg,
                rows_batch(rows, rows.len() as int),
                store,
            ) && parts_absorbed(*old(parts), store, *final(parts)),
        r matches Err(e) ==> stripe_failed::<L, P, Q>(*st, mask, *sample, *point, e) || exists|
            rows: Seq<RowData<L::Value>>,
            store: CellStore<L>,
        |
            rows.len() == st.to - st.from && #[trigger] rows_processed(
                *st,
                mask,
                *sample,
                *point,
                rows,
            ) && #[trigger] built_from(
                st.n_out,
                st.cfg,
                rows_batch(rows, rows.len() as int),
                store,
            ) && absorb_refused(*old(parts), store, e),
{
    match index_stripe::<L, P, Q>(st, mask, sample, point) {
        Err(e) => Err(e),
        Ok(store) => {
            if !parts.can_absorb(&store) {
                return Err(A5CogError::Internal("too many cells".to_owned()));
            }
            parts.absorb(&store)
        },
    }
}

/// The error says that `store` cannot be merged into `parts`: they have no room
/// for its cells, or a class list would grow too long.
pub open spec fn absorb_refused<L: AccLayout>(
    parts: PartitionedStore<L>,
    store: CellStore<L>,
    e: A5CogError,
) -> bool {
    if parts.room_for(store) {
        is_invalid(e, too_many_classes()) && !parts.mergeable_with(store)
    } else {
        is_internal(e, "too many cells"@)
    }
}

// ---------------------------------------------------------------------------
// laws

/// Pixel `c` of a row was located in `cell`, which the mask allows, and has a
/// valid band where the source has a nodata value.
pub open spec fn pixel_counts<V>(
    st: Stripe,
    mask: Option<&CellMask>,
    d: RowData<V>,
    c: int,
    cell: u64,
) -> bool {
    &&& 0 <= c < st.width
    &&& d.located[c] == cell
    &&& cell != NO_CELL
    &&& mask_allows(mask, cell, st.resolution)
    &&& st.has_nodata ==> any_valid(d.vals, c)
}

proof fn lemma_touching_row<V>(rows: Seq<RowData<V>>, n: int, cell: u64) -> (k: int)
    requires
        rows_touch(rows, n, cell),
    ensures
        0 <= k < n,
        runs_touch(runs_in(rows[k]), cell),
    decreases n,
{
    if runs_touch(runs_in(rows[n - 1]), cell) {
        n - 1
    } else {
        lemma_touching_row(rows, n - 1, cell)
    }
}

/// A forward read stores a cell only where a pixel counts for it: pixels without
/// a valid band, and cells that the mask does not allow, leave no trace.
pub proof fn stored_cells_have_pixels<
    L: AccLayout,
    P: Fn(usize, usize, usize) -> Option<Sample<L::Value>>,
    Q: Fn(usize, usize) -> Result<Option<Spherical>, A5CogError>,
>(
    st: Stripe,
    mask: Option<&CellMask>,
    sample: P,
    point: Q,
    rows: Seq<RowData<L::Value>>,
    store: CellStore<L>,
    cell: u64,
)
    requires
        rows_processed(st, mask, sample, point, rows),
        built_from(st.n_out, st.cfg, rows_batch(rows, rows.len() as int), store),
        store.has(cell),
    ensures
        exists|k: int, c: int|
            0 <= k < rows.len() && #[trigger] pixel_counts(st, mask, rows[k], c, cell),
{
    let n = rows.len() as int;
    let e = choose|e: CellStore<L>| #[trigger]
        is_empty_store(st.n_out, st.cfg, e) && batch_added(e, rows_batch(rows, n), store);
    assert(!e.has(cell));
    assert((rows_batch(rows, n).touched)(cell));
    assert(rows_touch(rows, n, cell));
    let k = lemma_touching_row(rows, n, cell);
    let d = rows[k];
    let runs = runs_in(d);
    let t = choose|t: int| 0 <= t < runs.len() && (#[trigger] runs[t]).cell == cell;
    let c = runs[t].from as int;
    assert(d.cells.len() == st.width);
    crate::accumulate::lemma_last_run(d.cells, d.cells.len() as int);
    assert(runs[t].from < runs[t].to <= d.cells.len());
    crate::accumulate::runs_cover_row(d.cells, d.cells.len() as int, c);
    assert(d.cells[c] == cell);
    assert(pixel_located(
        st,
        point,
        (st.from + k) as usize,
        d,
        c,
    ));
    assert(pixel_counts(st, mask, rows[k], c, cell));
}

/// The same rows were read and looked up alike, whatever was then masked.
pub open spec fn same_lookups<V>(a: Seq<RowData<V>>, b: Seq<RowData<V>>) -> bool {
    &&& a.len() == b.len()
    &&& forall|k: int|
        0 <= k < a.len() ==> (#[trigger] a[k]).located == b[k].located && a[k].vals == b[k].vals
}

proof fn lemma_gives_alike<V>(a: Seq<RowData<V>>, b: Seq<RowData<V>>, n: int, cell: u64, band: int)
    requires
        cell != NO_CELL,
        0 <= n <= a.len(),
        a.len() == b.len(),
        forall|k: int|
            #![trigger a[k]]
            0 <= k < a.len() ==> {
                &&& a[k].vals == b[k].vals
                &&& a[k].cells.len() == b[k].cells.len()
                &&& a[k].cells.len() <= usize::MAX
                &&& forall|c: int|
                    0 <= c < a[k].cells.len() ==> (#[trigger] a[k].cells[c] == cell) == (
                    b[k].cells[c] == cell)
            },
    ensures
        rows_touch(a, n, cell) == rows_touch(b, n, cell),
        rows_pixels(a, n, cell) == rows_pixels(b, n, cell),
        rows_events(a, n, cell, band) == rows_events(b, n, cell, band),
        rows_codes(a, n, cell, band) == rows_codes(b, n, cell, band),
    decreases n,
{
    if n > 0 {
        lemma_gives_alike(a, b, n - 1, cell, band);
        assert(a[n - 1].vals == b[n - 1].vals);
        crate::accumulate::row_gives_by_pixel(
            a[n - 1].cells,
            b[n - 1].cells,
            a[n - 1].vals[band]@,
            cell,
        );
    }
}

proof fn lemma_masked_out<V>(
    st: Stripe,
    rows: Seq<RowData<V>>,
    n: int,
    cell: u64,
)
    requires
        0 <= n <= rows.len(),
        forall|k: int, c: int|
            0 <= k < rows.len() && 0 <= c < st.width ==> #[trigger] rows[k].cells[c] != cell,
        forall|k: int| 0 <= k < rows.len() ==> (#[trigger] rows[k]).cells.len() == st.width,
    ensures
        !rows_touch(rows, n, cell),
    decreases n,
{
    if n > 0 {
        lemma_masked_out(st, rows, n - 1, cell);
        let d = rows[n - 1];
        let runs = runs_in(d);
        if runs_touch(runs, cell) {
            let t = choose|t: int| 0 <= t < runs.len() && (#[trigger] runs[t]).cell == cell;
            assert(d.cells.len() == st.width);
            crate::accumulate::lemma_last_run(d.cells, d.cells.len() as int);
            assert(runs[t].from < runs[t].to <= d.cells.len());
            crate::accumulate::runs_cover_row(d.cells, d.cells.len() as int, runs[t].from as int);
            assert(rows[n - 1].cells[runs[t].from as int] == cell);
        }
    }
}

/// A masked stripe gives every cell of the mask what the unmasked one gives it,
/// and other cells nothing: a cell of the mask receives all its valid pixels.
pub proof fn mask_selects_cells<
    V,
    P: Fn(usize, usize, usize) -> Option<Sample<V>>,
    Q: Fn(usize, usize) -> Result<Option<Spherical>, A5CogError>,
>(
    st: Stripe,
    mask: &CellMask,
    sample: P,
    point: Q,
    all: Seq<RowData<V>>,
    masked: Seq<RowData<V>>,
)
    requires
        rows_processed(st, None, sample, point, all),
        rows_processed(st, Some(mask), sample, point, masked),
        same_lookups(all, masked),
    ensures
        selects_cells(
            rows_batch(all, all.len() as int),
            rows_batch(masked, masked.len() as int),
            mask,
            st.resolution,
        ),
{
    let n = all.len() as int;
    let a = rows_batch(all, n);
    let b = rows_batch(masked, n);
    assert forall|k: int, c: int| 0 <= k < n && 0 <= c < st.width implies #[trigger] all[k].cells[c]
        == all[k].located[c] by {
        assert(row_located(st, None, point, (st.from + k) as usize, all[k], st.width as int));
    }
    assert forall|k: int, c: int| 0 <= k < n && 0 <= c < st.width implies #[trigger] masked[k].cells[c]
        == (if all[k].located[c] != NO_CELL && in_area(
        mask.members(),
        all[k].located[c],
        st.resolution,
    ) {
        all[k].located[c]
    } else {
        NO_CELL
    }) by {
        assert(all[k].located == masked[k].located);
        assert(row_located(
            st,
            Some(mask),
            point,
            (st.from + k) as usize,
            masked[k],
            st.width as int,
        ));
    }
    assert forall|cell: u64|
        #![trigger in_area(mask.members(), cell, st.resolution)]
        cell != NO_CELL implies if in_area(mask.members(), cell, st.resolution) {
        gives_alike(a, b, cell)
    } else {
        gives_nothing(b, cell)
    } by {
        if in_area(mask.members(), cell, st.resolution) {
            assert forall|k: int|
                #![trigger all[k]]
                0 <= k < n implies {
                &&& all[k].vals == masked[k].vals
                &&& all[k].cells.len() == masked[k].cells.len()
                &&& all[k].cells.len() <= usize::MAX
                &&& forall|c: int|
                    0 <= c < all[k].cells.len() ==> (#[trigger] all[k].cells[c] == cell) == (
                    masked[k].cells[c] == cell)
            } by {
                assert(masked[k].cells.len() == st.width);
            }
            assert forall|k: int| #[trigger] (a.events)(cell, k) == (b.events)(cell, k) by {
                lemma_gives_alike(all, masked, n, cell, k);
            }
            assert forall|k: int| #[trigger] (a.codes)(cell, k) == (b.codes)(cell, k) by {
                lemma_gives_alike(all, masked, n, cell, k);
            }
            lemma_gives_alike(all, masked, n, cell, 0);
        } else {
            lemma_masked_out(st, masked, n, cell);
            assert forall|k: int| (#[trigger] (b.events)(cell, k)).len() == 0 by {
                lemma_rows_untouched(masked, n, cell, k);
            }
            assert forall|k: int| (#[trigger] (b.codes)(cell, k)).len() == 0 by {
                lemma_rows_untouched(masked, n, cell, k);
            }
            lemma_rows_untouched(masked, n, cell, 0);
        }
    }
}

/// Rows `from..to` of a stripe.
pub open spec fn rows_within(st: Stripe, from: usize, to: usize) -> Stripe {
    Stripe { from, to, ..st }
}

/// Indexing rows `from..mid` and rows `mid..to` is indexing rows `from..to`: what
/// was read and looked up is one after the other, and so is what it gives.
pub proof fn rows_split_anywhere<
    V,
    P: Fn(usize, usize, usize) -> Option<Sample<V>>,
    Q: Fn(usize, usize) -> Result<Option<Spherical>, A5CogError>,
>(
    st: Stripe,
    mid: usize,
    mask: Option<&CellMask>,
    sample: P,
    point: Q,
    first: Seq<RowData<V>>,
    second: Seq<RowData<V>>,
)
    requires
        st.from <= mid <= st.to,
        first.len() == mid - st.from,
        second.len() == st.to - mid,
        rows_processed(rows_within(st, st.from, mid), mask, sample, point, first),
        rows_processed(rows_within(st, mid, st.to), mask, sample, point, second),
    ensures
        rows_processed(st, mask, sample, point, first + second),
        batches_join(
            rows_batch(first, first.len() as int),
            rows_batch(second, second.len() as int),
            rows_batch(first + second, (first + second).len() as int),
        ),
{
    let both = first + second;
    assert forall|k: int|
        #![trigger both[k]]
        0 <= k < both.len() implies {
        &&& both[k].located.len() == st.width
        &&& both[k].cells.len() == st.width
        &&& row_read(st, sample, (st.from + k) as usize, both[k].vals)
        &&& row_located(
            st,
            mask,
            point,
            (st.from + k) as usize,
            both[k],
            st.width as int,
        )
    } by {
        let row = (st.from + k) as usize;
        let d = both[k];
        if k < first.len() {
            assert(d == first[k]);
            lemma_row_of_part(st, st.from, mid, mask, sample, point, row, d);
        } else {
            assert(d == second[k - first.len()]);
            assert(row == (mid + (k - first.len())) as usize);
            lemma_row_of_part(st, mid, st.to, mask, sample, point, row, d);
        }
    }
    lemma_batches_of(first, second);
}

proof fn lemma_row_of_part<
    V,
    P: Fn(usize, usize, usize) -> Option<Sample<V>>,
    Q: Fn(usize, usize) -> Result<Option<Spherical>, A5CogError>,
>(
    st: Stripe,
    from: usize,
    to: usize,
    mask: Option<&CellMask>,
    sample: P,
    point: Q,
    row: usize,
    d: RowData<V>,
)
    requires
        row_read(rows_within(st, from, to), sample, row, d.vals),
        row_located(rows_within(st, from, to), mask, point, row, d, st.width as int),
    ensures
        row_read(st, sample, row, d.vals),
        row_located(st, mask, point, row, d, st.width as int),
{
    let part = rows_within(st, from, to);
    assert forall|c: int| 0 <= c < st.width implies #[trigger] pixel_located(
        st,
        point,
        row,
        d,
        c,
    ) by {
        assert(pixel_located(part, point, row, d, c));
    }
}

proof fn lemma_batches_of<V>(first: Seq<RowData<V>>, second: Seq<RowData<V>>)
    ensures
        batches_join(
            rows_batch(first, first.len() as int),
            rows_batch(second, second.len() as int),
            rows_batch(first + second, (first + second).len() as int),
        ),
{
    let n = second.len() as int;
    let a = rows_batch(first, first.len() as int);
    let b = rows_batch(second, n);
    let c = rows_batch(first + second, (first + second).len() as int);
    assert forall|cell: u64, k: int| #[trigger] (c.events)(cell, k) == (a.events)(cell, k) + (
    b.events)(cell, k) by {
        lemma_rows_of_both(first, second, n, cell, k);
    }
    assert forall|cell: u64, k: int| #[trigger] (c.codes)(cell, k) == (a.codes)(cell, k) + (
    b.codes)(cell, k) by {
        lemma_rows_of_both(first, second, n, cell, k);
    }
    assert forall|cell: u64| #[trigger] (c.pixels)(cell) == (a.pixels)(cell) + (b.pixels)(cell) by {
        lemma_rows_of_both(first, second, n, cell, 0);
    }
    assert forall|cell: u64| #[trigger] (c.touched)(cell) == ((a.touched)(cell) || (b.touched)(
        cell,
    )) by {
        lemma_rows_of_both(first, second, n, cell, 0);
    }
}

proof fn lemma_rows_of_both<V>(
    first: Seq<RowData<V>>,
    second: Seq<RowData<V>>,
    n: int,
    cell: u64,
    b: int,
)
    requires
        0 <= n <= second.len(),
    ensures
        ({
            let m = first.len() as int;
            let both = first + second;
            &&& rows_events(both, m + n, cell, b) == rows_events(first, m, cell, b) + rows_events(
                second,
                n,
                cell,
                b,
            )
            &&& rows_codes(both, m + n, cell, b) == rows_codes(first, m, cell, b) + rows_codes(
                second,
                n,
                cell,
                b,
            )
            &&& rows_pixels(both, m + n, cell) == rows_pixels(first, m, cell) + rows_pixels(
                second,
                n,
                cell,
            )
            &&& rows_touch(both, m + n, cell) == (rows_touch(first, m, cell) || rows_touch(
                second,
                n,
                cell,
            ))
        }),
    decreases n,
{
    let m = first.len() as int;
    let both = first + second;
    if n == 0 {
        lemma_rows_front(first, second, m, cell, b);
        assert(rows_events(both, m, cell, b) =~= rows_events(first, m, cell, b) + rows_events(
            second,
            0,
            cell,
            b,
        ));
        assert(rows_codes(both, m, cell, b) =~= rows_codes(first, m, cell, b) + rows_codes(
            second,
            0,
            cell,
            b,
        ));
    } else {
        lemma_rows_of_both(first, second, n - 1, cell, b);
        assert(both[m + n - 1] == second[n - 1]);
        assert(rows_events(both, m + n, cell, b) =~= rows_events(first, m, cell, b) + rows_events(
            second,
            n,
            cell,
            b,
        ));
        assert(rows_codes(both, m + n, cell, b) =~= rows_codes(first, m, cell, b) + rows_codes(
            second,
            n,
            cell,
            b,
        ));
    }
}

proof fn lemma_rows_front<V>(
    first: Seq<RowData<V>>,
    second: Seq<RowData<V>>,
    n: int,
    cell: u64,
    b: int,
)
    requires
        0 <= n <= first.len(),
    ensures
        rows_events(first + second, n, cell, b) == rows_events(first, n, cell, b),
        rows_codes(first + second, n, cell, b) == rows_codes(first, n, cell, b),
        rows_pixels(first + second, n, cell) == rows_pixels(first, n, cell),
        rows_touch(first + second, n, cell) == rows_touch(first, n, cell),
    decreases n,
{
    if n > 0 {
        lemma_rows_front(first, second, n - 1, cell, b);
        assert((first + second)[n - 1] == first[n - 1]);
    }
}

// ---------------------------------------------------------------------------
// what a forward read gives, sample by sample

/// A pixel that is valid in any one band is looked up at its point, whatever its other
/// bands hold: it has no cell exactly where it has no point or the lookup gives none.
pub proof fn pixels_valid_in_a_band_are_looked_up<
    V,
    P: Fn(usize, usize, usize) -> Option<Sample<V>>,
    Q: Fn(usize, usize) -> Result<Option<Spherical>, A5CogError>,
>(
    st: Stripe,
    mask: Option<&CellMask>,
    sample: P,
    point: Q,
    rows: Seq<RowData<V>>,
    k: int,
    b: int,
    c: int,
)
    requires
        rows_processed(st, mask, sample, point, rows),
        0 <= k < rows.len(),
        0 <= b < st.n_out,
        0 <= c < st.width,
        rows[k].vals[b]@[c] is Some,
    ensures
        call_ensures(sample, ((st.from + k) as usize, b as usize, c as usize), rows[k].vals[b]@[c]),
        exists|at: Option<Spherical>| #[trigger]
            call_ensures(point, ((st.from + k) as usize, c as usize), Ok(at)) && match at {
                None => rows[k].located[c] == NO_CELL,
                Some(p) => cell_for(p, st.resolution, rows[k].located[c]),
            },
        mask is None ==> rows[k].cells[c] == rows[k].located[c],
        mask matches Some(m) ==> rows[k].cells[c] == (if rows[k].located[c] != NO_CELL && in_area(
            m.members(),
            rows[k].located[c],
            st.resolution,
        ) {
            rows[k].located[c]
        } else {
            NO_CELL
        }),
{
    let d = rows[k];
    let row = (st.from + k) as usize;
    assert(row_read(st, sample, row, d.vals));
    assert(d.vals[b]@.len() == st.width);
    assert(call_ensures(sample, (row, b as usize, c as usize), d.vals[b]@[c]));
    assert(any_valid(d.vals, c)) by {
        assert(d.vals[b]@[c] is Some);
    }
    assert(pixel_located(st, point, row, d, c));
    let at = choose|at: Option<Spherical>| #[trigger]
        call_ensures(point, (row, c as usize), Ok(at)) && looked_up(
            at,
            st.resolution,
            d.located[c],
        );
    assert(call_ensures(point, (row, c as usize), Ok(at)));
    assert(d.cells[c] == (if d.located[c] != NO_CELL && mask_allows(
        mask,
        d.located[c],
        st.resolution,
    ) {
        d.located[c]
    } else {
        NO_CELL
    }));
}

/// A pixel without a valid band is skipped where the source has a nodata value, and is
/// looked up like any other where it has none.
pub proof fn pixels_without_a_valid_band_are_skipped<
    V,
    P: Fn(usize, usize, usize) -> Option<Sample<V>>,
    Q: Fn(usize, usize) -> Result<Option<Spherical>, A5CogError>,
>(
    st: Stripe,
    mask: Option<&CellMask>,
    sample: P,
    point: Q,
    rows: Seq<RowData<V>>,
    k: int,
    c: int,
)
    requires
        rows_processed(st, mask, sample, point, rows),
        0 <= k < rows.len(),
        0 <= c < st.width,
        forall|b: int| 0 <= b < st.n_out ==> (#[trigger] rows[k].vals[b])@[c] is None,
    ensures
        st.has_nodata ==> rows[k].located[c] == NO_CELL && rows[k].cells[c] == NO_CELL,
        !st.has_nodata ==> exists|at: Option<Spherical>| #[trigger]
            call_ensures(point, ((st.from + k) as usize, c as usize), Ok(at)) && match at {
                None => rows[k].located[c] == NO_CELL,
                Some(p) => cell_for(p, st.resolution, rows[k].located[c]),
            },
{
    let d = rows[k];
    let row = (st.from + k) as usize;
    assert(row_read(st, sample, row, d.vals));
    assert(!any_valid(d.vals, c));
    assert(pixel_located(st, point, row, d, c));
    assert(d.cells[c] == (if d.located[c] != NO_CELL && mask_allows(
        mask,
        d.located[c],
        st.resolution,
    ) {
        d.located[c]
    } else {
        NO_CELL
    }));
}

/// The values of one band of a cell over the first `n` rows: those of its pixels that
/// are valid in the band, row by row and in order.
pub open spec fn band_values<V>(rows: Seq<RowData<V>>, n: int, cell: u64, b: int) -> Seq<V>
    decreases n,
{
    if n <= 0 {
        Seq::empty()
    } else {
        band_values(rows, n - 1, cell, b) + values_in(
            rows[n - 1].cells,
            rows[n - 1].vals[b]@,
            cell,
            rows[n - 1].cells.len() as int,
        )
    }
}

/// How many pixels of the first `n` rows are valid in a band and have a cell.
pub open spec fn band_located<V>(rows: Seq<RowData<V>>, n: int, b: int) -> nat
    decreases n,
{
    if n <= 0 {
        0
    } else {
        band_located(rows, n - 1, b) + row_located_valid(
            rows[n - 1].cells,
            rows[n - 1].vals[b]@,
            rows[n - 1].cells.len() as int,
        )
    }
}

/// How many of the first `n` pixels of a row are valid and have a cell.
pub open spec fn row_located_valid<V>(
    cells: Seq<u64>,
    vals: Seq<Option<Sample<V>>>,
    n: int,
) -> nat
    decreases n,
{
    if n <= 0 {
        0
    } else {
        row_located_valid(cells, vals, n - 1) + if cells[n - 1] != NO_CELL && vals[n - 1] is Some {
            1nat
        } else {
            0
        }
    }
}

/// A band of a cell is given the values of all its pixels that are valid in that band,
/// each once and in order, and nothing else.
pub proof fn cells_get_their_pixels<V>(rows: Seq<RowData<V>>, n: int, cell: u64, b: int)
    requires
        cell != NO_CELL,
        0 <= n <= rows.len(),
        forall|k: int| 0 <= k < rows.len() ==> (#[trigger] rows[k]).cells.len() <= usize::MAX,
    ensures
        event_values((rows_batch(rows, n).events)(cell, b)) == band_values(rows, n, cell, b),
        (rows_batch(rows, n).touched)(cell) <==> exists|k: int, c: int|
            0 <= k < n && 0 <= c < rows[k].cells.len() && #[trigger] rows[k].cells[c] == cell,
    decreases n,
{
    if n > 0 {
        cells_get_their_pixels(rows, n - 1, cell, b);
        let d = rows[n - 1];
        row_gives_its_pixels(d.cells, d.vals[b]@, cell, d.cells.len() as int);
        lemma_event_values_join(
            rows_events(rows, n - 1, cell, b),
            row_events(runs_in(d), d.vals[b]@, cell),
        );
        assert((rows_batch(rows, n - 1).touched)(cell) == rows_touch(rows, n - 1, cell));
        assert((rows_batch(rows, n).touched)(cell) == rows_touch(rows, n, cell));
        if runs_touch(runs_in(d), cell) {
            let c = choose|c: int| 0 <= c < d.cells.len() && #[trigger] d.cells[c] == cell;
            assert(rows[n - 1].cells[c] == cell);
        }
        if exists|k: int, c: int|
            0 <= k < n && 0 <= c < rows[k].cells.len() && #[trigger] rows[k].cells[c] == cell {
            let (k, c) = choose|k: int, c: int|
                0 <= k < n && 0 <= c < rows[k].cells.len() && #[trigger] rows[k].cells[c] == cell;
            if k == n - 1 {
                assert(d.cells[c] == cell);
            }
        }
    }
}

/// The number of values that these cells are given in a band.
pub open spec fn values_given<V>(rows: Seq<RowData<V>>, n: int, cells: Seq<u64>, b: int) -> nat
    decreases cells.len(),
{
    if cells.len() == 0 {
        0
    } else {
        values_given(rows, n, cells.drop_last(), b) + event_values(
            (rows_batch(rows, n).events)(cells.last(), b),
        ).len()
    }
}

/// The number of values of a row in these cells.
pub open spec fn row_given<V>(
    cells: Seq<u64>,
    vals: Seq<Option<Sample<V>>>,
    n: int,
    list: Seq<u64>,
) -> nat
    decreases list.len(),
{
    if list.len() == 0 {
        0
    } else {
        row_given(cells, vals, n, list.drop_last()) + values_in(cells, vals, list.last(), n).len()
    }
}

proof fn lemma_row_given_step<V>(
    cells: Seq<u64>,
    vals: Seq<Option<Sample<V>>>,
    n: int,
    list: Seq<u64>,
)
    requires
        0 < n,
        list.no_duplicates(),
    ensures
        row_given(cells, vals, n, list) == row_given(cells, vals, n - 1, list) + (
        if vals[n - 1] is Some && list.contains(cells[n - 1]) {
            1nat
        } else {
            0
        }),
    decreases list.len(),
{
    if list.len() > 0 {
        let front = list.drop_last();
        let last = list.last();
        lemma_row_given_step(cells, vals, n, front);
        assert(list[list.len() - 1] == last);
        if front.contains(cells[n - 1]) {
            let i = choose|i: int| 0 <= i < front.len() && front[i] == cells[n - 1];
            assert(list[i] == cells[n - 1]);
            assert(list[i] != list[list.len() - 1]);
        }
        if list.contains(cells[n - 1]) && cells[n - 1] != last {
            let i = choose|i: int| 0 <= i < list.len() && list[i] == cells[n - 1];
            assert(front[i] == cells[n - 1]);
        }
    }
}

proof fn lemma_row_given<V>(
    cells: Seq<u64>,
    vals: Seq<Option<Sample<V>>>,
    n: int,
    list: Seq<u64>,
)
    requires
        0 <= n <= cells.len(),
        list.no_duplicates(),
        !list.contains(NO_CELL),
        forall|c: int|
            0 <= c < cells.len() && #[trigger] cells[c] != NO_CELL ==> list.contains(cells[c]),
    ensures
        row_given(cells, vals, n, list) == row_located_valid(cells, vals, n),
    decreases n,
{
    if n > 0 {
        lemma_row_given(cells, vals, n - 1, list);
        lemma_row_given_step(cells, vals, n, list);
    } else {
        lemma_row_given_none(cells, vals, list);
    }
}

proof fn lemma_row_given_none<V>(cells: Seq<u64>, vals: Seq<Option<Sample<V>>>, list: Seq<u64>)
    ensures
        row_given(cells, vals, 0, list) == 0,
    decreases list.len(),
{
    if list.len() > 0 {
        lemma_row_given_none(cells, vals, list.drop_last());
    }
}

proof fn lemma_values_given_step<V>(rows: Seq<RowData<V>>, n: int, list: Seq<u64>, b: int)
    requires
        0 < n <= rows.len(),
        !list.contains(NO_CELL),
        forall|k: int| 0 <= k < rows.len() ==> (#[trigger] rows[k]).cells.len() <= usize::MAX,
    ensures
        values_given(rows, n, list, b) == values_given(rows, n - 1, list, b) + row_given(
            rows[n - 1].cells,
            rows[n - 1].vals[b]@,
            rows[n - 1].cells.len() as int,
            list,
        ),
    decreases list.len(),
{
    if list.len() > 0 {
        let front = list.drop_last();
        assert(!front.contains(NO_CELL)) by {
            if front.contains(NO_CELL) {
                let i = choose|i: int| 0 <= i < front.len() && front[i] == NO_CELL;
                assert(list[i] == NO_CELL);
            }
        }
        lemma_values_given_step(rows, n, front, b);
        assert(list[list.len() - 1] != NO_CELL) by {
            assert(list.contains(list[list.len() - 1]));
        }
        cells_get_their_pixels(rows, n, list.last(), b);
        cells_get_their_pixels(rows, n - 1, list.last(), b);
    }
}

proof fn lemma_values_given_none<V>(rows: Seq<RowData<V>>, list: Seq<u64>, b: int)
    ensures
        values_given(rows, 0, list, b) == 0,
    decreases list.len(),
{
    if list.len() > 0 {
        lemma_values_given_none(rows, list.drop_last(), b);
        assert((rows_batch(rows, 0).events)(list.last(), b).len() == 0);
    }
}

proof fn lemma_values_conserved<V>(rows: Seq<RowData<V>>, n: int, list: Seq<u64>, b: int)
    requires
        0 <= n <= rows.len(),
        list.no_duplicates(),
        !list.contains(NO_CELL),
        forall|k: int| 0 <= k < rows.len() ==> (#[trigger] rows[k]).cells.len() <= usize::MAX,
        forall|k: int, c: int|
            0 <= k < rows.len() && 0 <= c < rows[k].cells.len() && #[trigger] rows[k].cells[c]
                != NO_CELL ==> list.contains(rows[k].cells[c]),
    ensures
        values_given(rows, n, list, b) == band_located(rows, n, b),
    decreases n,
{
    if n > 0 {
        lemma_values_conserved(rows, n - 1, list, b);
        lemma_values_given_step(rows, n, list, b);
        let d = rows[n - 1];
        assert forall|c: int|
            0 <= c < d.cells.len() && #[trigger] d.cells[c] != NO_CELL implies list.contains(
            d.cells[c],
        ) by {
            assert(rows[n - 1].cells[c] != NO_CELL);
        }
        lemma_row_given(d.cells, d.vals[b]@, d.cells.len() as int, list);
    } else {
        lemma_values_given_none(rows, list, b);
    }
}

/// A forward stripe conserves the samples of every single band: the values that the
/// cells of its store are given in a band are as many as its pixels that are valid in
/// that band and have a cell, whatever the other bands hold.
pub proof fn forward_stripe_conserves_bands<
    L: AccLayout,
    P: Fn(usize, usize, usize) -> Option<Sample<L::Value>>,
    Q: Fn(usize, usize) -> Result<Option<Spherical>, A5CogError>,
>(
    st: Stripe,
    mask: Option<&CellMask>,
    sample: P,
    point: Q,
    rows: Seq<RowData<L::Value>>,
    store: CellStore<L>,
    b: int,
)
    requires
        rows_processed(st, mask, sample, point, rows),
        store.wf(),
        built_from(st.n_out, st.cfg, rows_batch(rows, rows.len() as int), store),
        0 <= b < st.n_out,
    ensures
        values_given(rows, rows.len() as int, store.cells@, b) == band_located(
            rows,
            rows.len() as int,
            b,
        ),
{
    let n = rows.len() as int;
    let list = store.cells@;
    let batch = rows_batch(rows, n);
    let e = choose|e: CellStore<L>| #[trigger]
        is_empty_store(st.n_out, st.cfg, e) && batch_added(e, batch, store);
    assert forall|i: int, j: int| 0 <= i < list.len() && 0 <= j < list.len() && i != j implies list[i]
        != list[j] by {
        assert(store.slot_of(list[i]) == i && store.slot_of(list[j]) == j);
    }
    assert forall|k: int| 0 <= k < rows.len() implies (#[trigger] rows[k]).cells.len()
        <= usize::MAX by {
        assert(rows[k].cells.len() == st.width);
    }
    assert(!list.contains(NO_CELL)) by {
        if list.contains(NO_CELL) {
            let i = choose|i: int| 0 <= i < list.len() && list[i] == NO_CELL;
            assert(store.has(list[i]));
            assert(!e.has(NO_CELL));
            assert((batch.touched)(NO_CELL));
            let k = lemma_touching_row(rows, n, NO_CELL);
            crate::accumulate::lemma_last_run(rows[k].cells, rows[k].cells.len() as int);
        }
    }
    assert forall|k: int, c: int|
        0 <= k < rows.len() && 0 <= c < rows[k].cells.len() && #[trigger] rows[k].cells[c]
            != NO_CELL implies list.contains(rows[k].cells[c]) by {
        let cell = rows[k].cells[c];
        cells_get_their_pixels(rows, n, cell, b);
        assert(store.has(cell));
        assert(list[store.slot_of(cell)] == cell);
    }
    lemma_values_conserved(rows, n, list, b);
}

/// In a chunky buffer the bands of a pixel stand together and the pixels follow one
/// another along the rows; in a planar one each band is such a row of pixels by itself.
pub proof fn buffers_run_along_rows(
    chunky: bool,
    s: Strides,
    tile_w: int,
    tile_h: int,
    n_bands: int,
    r: int,
    c: int,
    b: int,
)
    requires
        chunky ==> s.row == tile_w * n_bands && s.col == n_bands && s.band == 1,
        !chunky ==> s.row == tile_w && s.col == 1 && s.band == tile_w * tile_h,
    ensures
        offset(s, 0, 0, 0) == 0,
        chunky ==> offset(s, r, c, b + 1) == offset(s, r, c, b) + 1,
        chunky ==> offset(s, r, c + 1, 0) == offset(s, r, c, 0) + n_bands,
        !chunky ==> offset(s, r, c + 1, b) == offset(s, r, c, b) + 1,
        !chunky ==> offset(s, 0, 0, b + 1) == offset(s, 0, 0, b) + tile_w * tile_h,
        offset(s, r + 1, 0, b) == offset(s, r, tile_w, b),
{
    assert((b + 1) * s.band == b * s.band + s.band) by (nonlinear_arith);
    assert((c + 1) * s.col == c * s.col + s.col) by (nonlinear_arith);
    assert((r + 1) * s.row == r * s.row + s.row) by (nonlinear_arith);
    assert(0 * s.row == 0 && 0 * s.col == 0 && 0 * s.band == 0) by (nonlinear_arith);
}

/// Stripes are of 64 rows, but for the last one of a tile, which ends with the tile.
pub proof fn stripes_are_of_64_rows(height: int, i: int)
    requires
        0 <= i,
        0 <= height,
    ensures
        stripe_start(height, 0) == 0 || height == 0,
        64 * (i + 1) <= height ==> stripe_start(height, i + 1) == stripe_start(height, i) + 64,
        64 * i <= height < 64 * (i + 1) ==> stripe_start(height, i) == 64 * i && stripe_start(
            height,
            i + 1,
        ) == height,
        height < 64 * i ==> stripe_start(height, i) == height,
{
}

/// Of a tile that starts at `start` as much is valid as the raster reaches into it.
pub proof fn tiles_are_valid_as_far_as_the_raster(total: int, start: int, size: int, x: int)
    requires
        0 <= start,
        0 <= size,
    ensures
        0 <= x < part_within(total, start, size) <==> 0 <= x < size && start + x < total,
{
}

/// The cells of a row that serve as hints for a pixel: those of its own column, the three
/// to the right and the one to the left, as far as the row reaches.
pub proof fn hints_are_taken_around_the_column(row: Seq<u64>, c: int, k: int)
    requires
        0 <= k < 5,
    ensures
        hints_for(row, c).len() == 5,
        ({
            let at = if k < 4 {
                c + k
            } else {
                c - 1
            };
            hints_for(row, c)[k] == (if 0 <= at < row.len() {
                row[at]
            } else {
                NO_CELL
            })
        }),
{
}

/// The class codes that the first `n` rows have for `cell` in band `b`, pixel by pixel.
pub open spec fn band_codes<V>(rows: Seq<RowData<V>>, n: int, cell: u64, b: int) -> Seq<(i32, u64)>
    decreases n,
{
    if n <= 0 {
        Seq::empty()
    } else {
        band_codes(rows, n - 1, cell, b) + codes_in(
            rows[n - 1].cells,
            rows[n - 1].vals[b]@,
            cell,
            rows[n - 1].cells.len() as int,
        )
    }
}

/// The number of pixels that the first `n` rows have in `cell`.
pub open spec fn cell_pixels<V>(rows: Seq<RowData<V>>, n: int, cell: u64) -> nat
    decreases n,
{
    if n <= 0 {
        0
    } else {
        cell_pixels(rows, n - 1, cell) + pixels_in(
            rows[n - 1].cells,
            cell,
            rows[n - 1].cells.len() as int,
        )
    }
}

/// A cell counts every pixel that lies in it, whichever bands are valid there, and gets
/// the class code of each that is valid in a band, with a weight of one.
pub proof fn cells_count_their_pixels_and_classes<V>(
    rows: Seq<RowData<V>>,
    n: int,
    cell: u64,
    b: int,
)
    requires
        cell != NO_CELL,
        0 <= n <= rows.len(),
        forall|k: int| 0 <= k < rows.len() ==> (#[trigger] rows[k]).cells.len() <= usize::MAX,
    ensures
        (rows_batch(rows, n).codes)(cell, b) == band_codes(rows, n, cell, b),
        (rows_batch(rows, n).pixels)(cell) == cell_pixels(rows, n, cell),
    decreases n,
{
    if n > 0 {
        cells_count_their_pixels_and_classes(rows, n - 1, cell, b);
        let d = rows[n - 1];
        row_gives_its_pixels(d.cells, d.vals[b]@, cell, d.cells.len() as int);
        runs_count_pixels(d.cells, cell, d.cells.len() as int);
        assert((rows_batch(rows, n - 1).codes)(cell, b) == rows_codes(rows, n - 1, cell, b));
        assert((rows_batch(rows, n).codes)(cell, b) == rows_codes(rows, n, cell, b));
        assert((rows_batch(rows, n - 1).pixels)(cell) == rows_pixels(rows, n - 1, cell));
        assert((rows_batch(rows, n).pixels)(cell) == rows_pixels(rows, n, cell));
    }
}

/// Every pixel of a row is read in every band at its own row and column, and one without
/// a cell counts nowhere. Where nothing can be missing, every pixel is looked up.
pub proof fn rows_are_read_pixel_by_pixel<
    V,
    P: Fn(usize, usize, usize) -> Option<Sample<V>>,
    Q: Fn(usize, usize) -> Result<Option<Spherical>, A5CogError>,
>(
    st: Stripe,
    mask: Option<&CellMask>,
    sample: P,
    point: Q,
    rows: Seq<RowData<V>>,
    k: int,
    b: int,
    c: int,
)
    requires
        rows_processed(st, mask, sample, point, rows),
        0 <= k < rows.len(),
        0 <= b < st.n_out,
        0 <= c < st.width,
    ensures
        rows[k].vals.len() == st.n_out,
        rows[k].vals[b]@.len() == st.width,
        rows[k].cells.len() == st.width,
        call_ensures(sample, ((st.from + k) as usize, b as usize, c as usize), rows[k].vals[b]@[c]),
        rows[k].located[c] == NO_CELL ==> rows[k].cells[c] == NO_CELL,
        !st.has_nodata ==> exists|at: Option<Spherical>| #[trigger]
            call_ensures(point, ((st.from + k) as usize, c as usize), Ok(at)) && match at {
                None => rows[k].located[c] == NO_CELL,
                Some(p) => cell_for(p, st.resolution, rows[k].located[c]),
            },
{
    let d = rows[k];
    let row = (st.from + k) as usize;
    assert(row_read(st, sample, row, d.vals));
    assert(d.vals[b]@.len() == st.width);
    assert(call_ensures(sample, (row, b as usize, c as usize), d.vals[b]@[c]));
    assert(pixel_located(st, point, row, d, c));
    assert(d.cells[c] == (if d.located[c] != NO_CELL && mask_allows(
        mask,
        d.located[c],
        st.resolution,
    ) {
        d.located[c]
    } else {
        NO_CELL
    }));
    if !st.has_nodata {
        let at = choose|at: Option<Spherical>| #[trigger]
            call_ensures(point, (row, c as usize), Ok(at)) && looked_up(
                at,
                st.resolution,
                d.located[c],
            );
        assert(call_ensures(point, (row, c as usize), Ok(at)));
    }
}

/// A sample of the pixel in some band is valid.
pub open spec fn read_in_some_band<V, P: Fn(usize, usize, usize) -> Option<Sample<V>>>(
    st: Stripe,
    sample: P,
    row: usize,
    c: usize,
) -> bool {
    exists|b: usize, x: Sample<V>|
        b < st.n_out && #[trigger] call_ensures(sample, (row, b, c), Some(x))
}

/// A stripe fails only with the failure of a point of a pixel in it, one that is valid in
/// some band where samples can be missing, or for a cell with too many classes.
pub proof fn stripes_fail_for_points_or_classes<
    L: AccLayout,
    P: Fn(usize, usize, usize) -> Option<Sample<L::Value>>,
    Q: Fn(usize, usize) -> Result<Option<Spherical>, A5CogError>,
>(st: Stripe, mask: Option<&CellMask>, sample: P, point: Q, e: A5CogError)
    requires
        stripe_failed::<L, P, Q>(st, mask, sample, point, e),
        st.wf(),
    ensures
        (exists|row: usize, c: usize|
            st.from <= row < st.to && c < st.width && #[trigger] call_ensures(
                point,
                (row, c),
                Err(e),
            ) && (st.has_nodata ==> read_in_some_band(st, sample, row, c))) || (e is Invalid
            && st.cfg.has_cat && crate::error::error_payload(e)
            == "more than 4096 distinct classes in a single cell; majority/fractions require a categorical raster"@),
{
    if exists|rows: Seq<RowData<L::Value>>| #[trigger]
        rows_processed(st, mask, sample, point, rows) && point_failed(
            st,
            mask,
            sample,
            point,
            rows,
            e,
        ) {
        let rows = choose|rows: Seq<RowData<L::Value>>| #[trigger]
            rows_processed(st, mask, sample, point, rows) && point_failed(
                st,
                mask,
                sample,
                point,
                rows,
                e,
            );
        let row = (st.from + rows.len()) as usize;
        let d = choose|d: RowData<L::Value>| #[trigger]
            row_failed(st, mask, point, row, d, e) && row_read(st, sample, row, d.vals);
        let c = d.located.len() as usize;
        assert(st.from <= row < st.to && c < st.width);
        if st.has_nodata {
            let b = choose|b: int| 0 <= b < d.vals.len() && (#[trigger] d.vals[b])@[c as int] is Some;
            assert(d.vals[b]@.len() == st.width);
            assert(call_ensures(sample, (row, b as usize, c), d.vals[b]@[c as int]));
            let x = d.vals[b]@[c as int]->Some_0;
            assert(call_ensures(sample, (row, b as usize, c), Some(x)));
            assert(read_in_some_band(st, sample, row, c));
        }
        assert(call_ensures(point, (row, c), Err::<Option<Spherical>, A5CogError>(e)));
    }
}

/// A store is refused for want of room with one message, and where there is room for
/// its classes with another.
pub proof fn stores_are_refused_for_cells_or_classes<L: AccLayout>(
    parts: PartitionedStore<L>,
    store: CellStore<L>,
    e: A5CogError,
)
    requires
        absorb_refused(parts, store, e),
    ensures
        e is Internal <==> exists|p: int|
            0 <= p < parts.parts@.len() && !(#[trigger] parts.parts@[p]).room_for(
                store.cells@.len() as int,
            ),
        e is Internal ==> crate::error::error_payload(e) == "too many cells"@,
        !(e is Internal) ==> e is Invalid && crate::error::error_payload(e)
            == "more than 4096 distinct classes in a single cell; majority/fractions require a categorical raster"@,
{
}

} // verus!
