//! Reading a raster: from its header to the tiles that are fetched.

use vstd::prelude::*;

use proj4rs::Proj;

use crate::dtype::{
    dtype_label, dtype_name, dtype_refused, dtype_suits, validate_dtype, DataType, DequantLut,
};
use crate::error::{invalid, is_invalid, is_missing_geokey, is_unsupported, A5CogError};
use crate::geo::{
    build_src_proj, extract_geotransform, src_proj_built, transform_read, GeoKeys, TransformTags,
};
use crate::plan::{
    all_tiles, are_band_names, band_names_or_default, bands_resolved, beside, can_use_strips,
    channel_depth, fetch_tasks, first_named, held_log2, held_within, list_overviews, overviews,
    partition_exponent, plan_strips, projected_tile_range, resolve_bands, strips_of,
    tile_range_covers_box, tile_rows, tile_size, tiles_are_listed, tiles_in_range, views, BoxPixels, Level, STRIP_BLOCKS,
};
use crate::sample::check_samplable;
use crate::text::{lower, to_lower};
use crate::tile::Planar;

verus! {

// ---------------------------------------------------------------------------
// header

/// What a raster's header says of its values and its place on the ground.
pub struct Header<T> {
    /// Its images, the full-resolution one first.
    pub levels: Vec<Level>,
    pub dtype: Option<DataType>,
    pub geo: Option<GeoKeys>,
    pub transformation: Option<Vec<T>>,
    pub scale: Option<Vec<T>>,
    pub tie: Option<Vec<T>>,
}

/// The coordinate system of a raster and its geotransform.
pub struct GeoReference<T> {
    pub proj: Proj,
    pub transform: TransformTags<T>,
}

/// `r` joins a coordinate system with a geotransform; the error of the former
/// comes first.
pub open spec fn joined<T>(
    p: Result<Proj, A5CogError>,
    t: Result<TransformTags<T>, A5CogError>,
    r: Result<GeoReference<T>, A5CogError>,
) -> bool {
    match p {
        Err(e) => r == Err::<GeoReference<T>, A5CogError>(e),
        Ok(proj) => match t {
            Err(e) => r == Err::<GeoReference<T>, A5CogError>(e),
            Ok(transform) => r == Ok::<GeoReference<T>, A5CogError>(
                GeoReference { proj, transform },
            ),
        },
    }
}

/// `r` is the place on the ground that a header can give.
pub open spec fn georeferenced<T: Copy>(
    h: Header<T>,
    r: Result<GeoReference<T>, A5CogError>,
) -> bool {
    match h.geo {
        None => r matches Err(e) && is_missing_geokey(e, "GeoKeyDirectory"@),
        Some(g) => exists|p: Result<Proj, A5CogError>, t: Result<TransformTags<T>, A5CogError>|
            src_proj_built(g, p) && transform_read(h.transformation, h.scale, h.tie, t)
                && #[trigger] joined(p, t, r),
    }
}

/// Where a raster lies on the ground: its coordinate system, then its
/// geotransform.
pub fn georeference<T: Copy>(h: &Header<T>) -> (r: Result<GeoReference<T>, A5CogError>)
    ensures
        if h.levels@.len() == 0 {
            r matches Err(e) && is_invalid(e, "no IFDs"@)
        } else {
            georeferenced(*h, r)
        },
{
    if h.levels.len() == 0 {
        return Err(invalid("no IFDs"));
    }
    match &h.geo {
        None => Err(A5CogError::MissingGeoKey("GeoKeyDirectory".to_owned())),
        Some(g) => {
            let p = build_src_proj(g);
            let t = extract_geotransform(&h.transformation, &h.scale, &h.tie);
            let ghost (p0, t0) = (p, t);
            let r = match p {
                Err(e) => Err(e),
                Ok(proj) => match t {
                    Err(e) => Err(e),
                    Ok(transform) => Ok(GeoReference { proj, transform }),
                },
            };
            assert(joined(p0, t0, r));
            r
        },
    }
}

/// Opens a raster for a read: it must have an image, its sample type must suit
/// what the read does with it, and it must lie somewhere on the ground.
pub fn open_raster<T: Copy, D: Copy>(
    h: &Header<T>,
    dequant: Option<&DequantLut<D>>,
    has_cat: bool,
) -> (r: Result<GeoReference<T>, A5CogError>)
    requires
        dequant matches Some(dq) ==> i64::MIN <= dq.last() <= i64::MAX,
    ensures
        if h.levels@.len() == 0 {
            r matches Err(e) && is_invalid(e, "no IFDs"@)
        } else if !dtype_suits(h.dtype, dequant, has_cat) {
            r matches Err(e) && dtype_refused(h.dtype, dequant, e)
        } else {
            georeferenced(*h, r)
        },
{
    if h.levels.len() == 0 {
        return Err(invalid("no IFDs"));
    }
    match validate_dtype(h.dtype, dequant, has_cat) {
        Err(e) => Err(e),
        Ok(_) => georeference(h),
    }
}

// ---------------------------------------------------------------------------
// bands and tiles

/// `names` are the names of the selected bands.
pub open spec fn are_selected_names(
    all: Seq<String>,
    bands: Seq<usize>,
    names: Seq<String>,
) -> bool {
    &&& names.len() == bands.len()
    &&& forall|k: int| 0 <= k < bands.len() ==> (#[trigger] names[k])@ == all[bands[k] as int]@
}

fn select_names(all: &Vec<String>, bands: &Vec<usize>) -> (r: Vec<String>)
    requires
        forall|k: int| 0 <= k < bands@.len() ==> (#[trigger] bands@[k]) < all@.len(),
    ensures
        are_selected_names(all@, bands@, r@),
{
    let mut names: Vec<String> = Vec::new();
    for k in 0..bands.len()
        invariant
            forall|k: int| 0 <= k < bands@.len() ==> (#[trigger] bands@[k]) < all@.len(),
            names@.len() == k,
            forall|j: int| 0 <= j < k ==> (#[trigger] names@[j])@ == all@[bands@[j] as int]@,
    {
        let b: usize = bands[k];
        names.push(all[b].clone());
    }
    names
}

/// `r` lists the tiles that a read touches: those of a box, none where the box
/// lies beside the raster, or all tiles where there is no box.
pub open spec fn tiles_selected(
    b: Option<&BoxPixels>,
    l: Level,
    tile_w: usize,
    tile_h: usize,
    counts: (usize, usize),
    r: Result<Option<Vec<(usize, usize)>>, A5CogError>,
) -> bool {
    match b {
        None => r matches Ok(Some(v)) && v@ == tile_rows(0, counts.0 as int, 0, counts.1 as int),
        Some(BoxPixels::Unordered(shown)) => r matches Err(e) && is_invalid(
            e,
            "bbox must satisfy xmin<xmax & ymin<ymax; got "@ + shown@,
        ),
        Some(BoxPixels::Unprojectable) => r matches Err(e) && is_invalid(
            e,
            "could not reproject bbox into raster CRS (all points NaN)"@,
        ),
        Some(BoxPixels::Rotated) => r matches Err(e) && is_unsupported(
            e,
            "rotated geotransform with bbox is not yet supported"@,
        ),
        Some(BoxPixels::Pixels { col_lo, col_hi, row_lo, row_hi }) => if beside(
            *col_lo as int,
            *col_hi as int,
            l.width as int,
        ) || beside(*row_lo as int, *row_hi as int, l.height as int) {
            r matches Ok(None)
        } else {
            r matches Ok(Some(v)) && v@ == tile_rows(
                held_within(*col_lo as int, l.width as int) / tile_w as int,
                held_within(*col_hi as int, l.width as int) / tile_w as int + 1,
                held_within(*row_lo as int, l.height as int) / tile_h as int,
                held_within(*row_hi as int, l.height as int) / tile_h as int + 1,
            )
        },
    }
}

fn select_tiles(
    b: Option<&BoxPixels>,
    l: &Level,
    tile_w: usize,
    tile_h: usize,
    counts: (usize, usize),
) -> (r: Result<Option<Vec<(usize, usize)>>, A5CogError>)
    requires
        tile_w > 0,
        tile_h > 0,
        b matches Some(BoxPixels::Pixels { col_lo, col_hi, row_lo, row_hi }) ==> *col_lo <= *col_hi
            && *row_lo <= *row_hi,
    ensures
        tiles_selected(b, *l, tile_w, tile_h, counts, r),
{
    match b {
        None => Ok(Some(all_tiles(counts.0, counts.1))),
        Some(b) => match projected_tile_range(b, l.width, l.height, tile_w, tile_h) {
            Err(e) => Err(e),
            Ok(None) => Ok(None),
            Ok(Some(t)) => Ok(Some(tiles_in_range(&t))),
        },
    }
}

/// Every pixel of an image that a box reaches lies in a tile that the read of the
/// box touches.
pub proof fn selected_tiles_cover_the_box(
    b: &BoxPixels,
    l: Level,
    tile_w: usize,
    tile_h: usize,
    counts: (usize, usize),
    r: Result<Option<Vec<(usize, usize)>>, A5CogError>,
    x: int,
    y: int,
)
    requires
        tile_w > 0,
        tile_h > 0,
        tiles_selected(Some(b), l, tile_w, tile_h, counts, r),
        0 <= x < l.width,
        0 <= y < l.height,
        b matches BoxPixels::Pixels { col_lo, col_hi, row_lo, row_hi } && *col_lo <= x <= *col_hi
            && *row_lo <= y <= *row_hi,
    ensures
        r matches Ok(Some(v)) && v@.contains(
            ((x / tile_w as int) as usize, (y / tile_h as int) as usize),
        ),
{
    if let BoxPixels::Pixels { col_lo, col_hi, row_lo, row_hi } = b {
        let (c0, c1, r0, r1) = (*col_lo as int, *col_hi as int, *row_lo as int, *row_hi as int);
        let (w, h) = (l.width as int, l.height as int);
        let (tw, th) = (tile_w as int, tile_h as int);
        tile_range_covers_box(c0, c1, w, x, tw);
        tile_range_covers_box(r0, r1, h, y, th);
        vstd::arithmetic::div_mod::lemma_div_pos_is_pos(held_within(c0, w), tw);
        vstd::arithmetic::div_mod::lemma_div_pos_is_pos(held_within(r0, h), th);
        vstd::arithmetic::div_mod::lemma_div_nonincreasing(held_within(c1, w), tw);
        vstd::arithmetic::div_mod::lemma_div_nonincreasing(held_within(r1, h), th);
        tiles_are_listed(
            held_within(c0, w) / tw,
            held_within(c1, w) / tw + 1,
            held_within(r0, h) / th,
            held_within(r1, h) / th + 1,
            (x / tw) as usize,
            (y / th) as usize,
        );
    }
}

/// What a read takes from one image: the tiles' size, the bands with their names,
/// and the tiles, none where the read touches nothing.
pub struct ReadPlan {
    pub tile_w: usize,
    pub tile_h: usize,
    pub bands: Vec<usize>,
    pub names: Vec<String>,
    pub tiles: Option<Vec<(usize, usize)>>,
}

/// What is taken from a raster before any place in it is known: the tiles' size and
/// the bands with their names.
pub struct BandPlan {
    pub tile_w: usize,
    pub tile_h: usize,
    pub bands: Vec<usize>,
    pub names: Vec<String>,
}

/// `r` takes the resolved bands.
pub open spec fn bands_planned(
    tile: (usize, usize),
    all_names: Seq<String>,
    bands: Result<Vec<usize>, A5CogError>,
    r: Result<BandPlan, A5CogError>,
) -> bool {
    match bands {
        Err(e) => r == Err::<BandPlan, A5CogError>(e),
        Ok(v) => r matches Ok(plan) && plan.tile_w == tile.0 && plan.tile_h == tile.1 && plan.bands
            == v && are_selected_names(all_names, v@, plan.names@),
    }
}

/// `r` takes the bands that were asked for from an image with these tiles.
pub open spec fn bands_taken(
    l: Level,
    tile: (usize, usize),
    described: Seq<String>,
    bands_idx: Seq<i32>,
    bands_names: Seq<String>,
    r: Result<BandPlan, A5CogError>,
) -> bool {
    exists|all_names: Seq<String>, bands: Result<Vec<usize>, A5CogError>|
        are_band_names(described, l.n_bands, all_names) && bands_resolved(
            bands_idx,
            bands_names,
            l.n_bands,
            all_names,
            bands,
        ) && #[trigger] bands_planned(tile, all_names, bands, r)
}

fn take_bands(
    l: &Level,
    tile: (usize, usize),
    described: Vec<String>,
    bands_idx: &Vec<i32>,
    bands_names: &Vec<String>,
) -> (r: Result<BandPlan, A5CogError>)
    requires
        described@.len() == 0 || described@.len() == l.n_bands,
    ensures
        bands_taken(*l, tile, described@, bands_idx@, bands_names@, r),
{
    let (tile_w, tile_h) = tile;
    let all = band_names_or_default(described, l.n_bands);
    let bands = resolve_bands(bands_idx, bands_names, l.n_bands, &all);
    let ghost bands0 = bands;
    let r = match bands {
        Err(e) => Err(e),
        Ok(v) => {
            assert forall|k: int| 0 <= k < v@.len() implies (#[trigger] v@[k]) < all@.len() by {
                if bands_idx@.len() == 0 && bands_names@.len() > 0 {
                    assert(first_named(all@, bands_names@[k]@, v@[k] as int));
                }
            }
            let names = select_names(&all, &v);
            Ok(BandPlan { tile_w, tile_h, bands: v, names })
        },
    };
    assert(bands_planned(tile, all@, bands0, r));
    r
}

/// Plans the bands of a read of one image: it must be tiled, and the requested bands
/// must exist. `described` are the band descriptions of the raster.
pub fn plan_bands(
    l: &Level,
    described: Vec<String>,
    bands_idx: &Vec<i32>,
    bands_names: &Vec<String>,
) -> (r: Result<BandPlan, A5CogError>)
    requires
        described@.len() == 0 || described@.len() == l.n_bands,
    ensures
        match l.tile {
            None => r matches Err(e) && is_unsupported(
                e,
                "MVP requires tiled TIFF; strip-based not yet supported"@,
            ),
            Some(tile) => bands_taken(*l, tile, described@, bands_idx@, bands_names@, r),
        },
{
    match tile_size(l) {
        Err(e) => Err(e),
        Ok(t) => take_bands(l, t, described, bands_idx, bands_names),
    }
}

/// `r` reads the planned bands from the selected tiles.
pub open spec fn planned(
    p: BandPlan,
    tiles: Result<Option<Vec<(usize, usize)>>, A5CogError>,
    r: Result<ReadPlan, A5CogError>,
) -> bool {
    match tiles {
        Err(e) => r == Err::<ReadPlan, A5CogError>(e),
        Ok(t) => r matches Ok(plan) && plan.tile_w == p.tile_w && plan.tile_h == p.tile_h
            && plan.bands == p.bands && plan.names == p.names && plan.tiles == t,
    }
}

/// Plans the read of one image whose bands are planned: the box, if there is one,
/// must be projectable. `counts` are the numbers of tiles across and down.
pub fn plan_read(
    p: BandPlan,
    l: &Level,
    counts: (usize, usize),
    b: Option<&BoxPixels>,
) -> (r: Result<ReadPlan, A5CogError>)
    requires
        p.tile_w > 0,
        p.tile_h > 0,
        b matches Some(BoxPixels::Pixels { col_lo, col_hi, row_lo, row_hi }) ==> *col_lo <= *col_hi
            && *row_lo <= *row_hi,
    ensures
        exists|tiles: Result<Option<Vec<(usize, usize)>>, A5CogError>|
            tiles_selected(b, *l, p.tile_w, p.tile_h, counts, tiles) && #[trigger] planned(
                p,
                tiles,
                r,
            ),
{
    let tiles = select_tiles(b, l, p.tile_w, p.tile_h, counts);
    let ghost tiles0 = tiles;
    let ghost p0 = p;
    let r = match tiles {
        Err(e) => Err(e),
        Ok(t) => Ok(
            ReadPlan {
                tile_w: p.tile_w,
                tile_h: p.tile_h,
                bands: p.bands,
                names: p.names,
                tiles: t,
            },
        ),
    };
    assert(planned(p0, tiles0, r));
    r
}

/// Plans sampling at cell centroids: the raster must not be rotated and must be
/// tiled, and the requested bands must exist.
pub fn plan_sampling(
    l: &Level,
    rotated: bool,
    described: Vec<String>,
    bands_idx: &Vec<i32>,
    bands_names: &Vec<String>,
) -> (r: Result<BandPlan, A5CogError>)
    requires
        described@.len() == 0 || described@.len() == l.n_bands,
    ensures
        if rotated {
            r matches Err(e) && is_unsupported(
                e,
                "rotated geotransform is not supported in centroid mode"@,
            )
        } else {
            match l.tile {
                None => r matches Err(e) && is_unsupported(
                    e,
                    "centroid mode requires a tiled TIFF"@,
                ),
                Some(tile) => bands_taken(*l, tile, described@, bands_idx@, bands_names@, r),
            }
        },
{
    match check_samplable(rotated, l.tile) {
        Err(e) => Err(e),
        Ok(t) => take_bands(l, t, described, bands_idx, bands_names),
    }
}

// ---------------------------------------------------------------------------
// fetching

/// How a read fetches and decodes its tiles.
pub struct FetchPlan {
    /// Blocks are fetched in runs and decoded from their raw bytes.
    pub use_strips: bool,
    /// What each fetch task carries.
    pub units: Vec<Vec<(usize, usize)>>,
    /// Fetch tasks in flight.
    pub tasks: usize,
    /// Tiles that wait between fetching and decoding.
    pub depth: usize,
    /// The partitions of the result, as an exponent of two.
    pub log2p: u32,
}

/// Each tile by itself.
pub open spec fn singles(tiles: Seq<(usize, usize)>) -> Seq<Seq<(usize, usize)>> {
    Seq::new(tiles.len(), |i: int| seq![tiles[i]])
}

fn single_units(tiles: &Vec<(usize, usize)>) -> (r: Vec<Vec<(usize, usize)>>)
    ensures
        views(r@) == singles(tiles@),
{
    let mut out: Vec<Vec<(usize, usize)>> = Vec::new();
    for k in 0..tiles.len()
        invariant
            out@.len() == k,
            forall|j: int| 0 <= j < k ==> (#[trigger] out@[j])@ == seq![tiles@[j]],
    {
        let mut one: Vec<(usize, usize)> = Vec::new();
        one.push(tiles[k]);
        assert(one@ =~= seq![tiles@[k as int]]);
        out.push(one);
    }
    assert(views(out@) =~= singles(tiles@));
    out
}

/// Plans how tiles are fetched: in runs of neighbours where blocks can be decoded
/// from their raw bytes, else one by one.
pub fn plan_fetch(
    tiles: &Vec<(usize, usize)>,
    planar: &Planar,
    native_order: bool,
    no_predictor: bool,
    io_concurrency: usize,
    cpu_workers: usize,
) -> (r: FetchPlan)
    requires
        cpu_workers * 2 <= usize::MAX,
    ensures
        r.use_strips == (native_order && no_predictor && !(planar is Other)),
        views(r.units@) == (if r.use_strips {
            strips_of(tiles@, STRIP_BLOCKS as int, tiles@.len() as int)
        } else {
            singles(tiles@)
        }),
        r.tasks == (if r.use_strips {
            if io_concurrency / STRIP_BLOCKS < 2 {
                2
            } else {
                io_concurrency / STRIP_BLOCKS
            }
        } else if io_concurrency < 1 {
            1
        } else {
            io_concurrency
        }),
        r.depth == (if cpu_workers * 2 < 4 {
            4
        } else {
            cpu_workers * 2
        }),
        r.log2p == (if cpu_workers <= 1 {
            0
        } else {
            held_log2(cpu_workers * 4)
        }),
{
    let use_strips: bool = can_use_strips(native_order, no_predictor, planar);
    let units = if use_strips {
        plan_strips(tiles, STRIP_BLOCKS)
    } else {
        single_units(tiles)
    };
    FetchPlan {
        use_strips,
        units,
        tasks: fetch_tasks(use_strips, io_concurrency),
        depth: channel_depth(cpu_workers),
        log2p: partition_exponent(cpu_workers),
    }
}

/// How the selected bands lie in a decoded buffer: the number of its bands, and
/// where among them each selected band is. A buffer that was fetched band by band
/// holds the selected bands alone.
pub fn buffer_bands(selected: &Vec<usize>, n_bands: usize, by_band: bool) -> (r: (usize, Vec<usize>))
    ensures
        by_band ==> r.0 == selected@.len() && r.1@.len() == selected@.len() && forall|k: int|
            0 <= k < r.1@.len() ==> #[trigger] r.1@[k] == k,
        !by_band ==> r.0 == n_bands && r.1@ == selected@,
{
    let mut offsets: Vec<usize> = Vec::new();
    for k in 0..selected.len()
        invariant
            offsets@.len() == k,
            forall|j: int|
                0 <= j < k ==> #[trigger] offsets@[j] == (if by_band {
                    j
                } else {
                    selected@[j] as int
                }),
    {
        offsets.push(
            if by_band {
                k
            } else {
                selected[k]
            },
        );
    }
    if by_band {
        (selected.len(), offsets)
    } else {
        assert(offsets@ =~= selected@);
        (n_bands, offsets)
    }
}

// ---------------------------------------------------------------------------
// description

/// An overview of a raster.
#[derive(Clone, Copy, Debug, PartialEq, Eq)]
pub struct Overview {
    /// Its place in the file.
    pub level: usize,
    pub width: usize,
    pub height: usize,
    /// Width and height of its blocks.
    pub block: (usize, usize),
}

/// The overview that image `i` is.
pub open spec fn overview_at(levels: Seq<Level>, i: usize) -> Overview {
    Overview {
        level: i,
        width: levels[i as int].width,
        height: levels[i as int].height,
        block: levels[i as int].tile->Some_0,
    }
}

/// The usable overviews are images of the file that are tiled.
proof fn lemma_overviews(levels: Seq<Level>, full_w: usize, full_h: usize, n_bands: usize, n: int)
    requires
        n <= levels.len() <= usize::MAX,
    ensures
        forall|k: int|
            0 <= k < overviews(levels, full_w, full_h, n_bands, n).len() ==> (
            #[trigger] overviews(levels, full_w, full_h, n_bands, n)[k]) < levels.len()
                && levels[overviews(levels, full_w, full_h, n_bands, n)[k] as int].tile is Some,
    decreases n,
{
    if n > 1 {
        lemma_overviews(levels, full_w, full_h, n_bands, n - 1);
        let rest = overviews(levels, full_w, full_h, n_bands, n - 1);
        let now = overviews(levels, full_w, full_h, n_bands, n);
        assert forall|k: int| 0 <= k < now.len() implies (#[trigger] now[k]) < levels.len()
            && levels[now[k] as int].tile is Some by {
            if k < rest.len() {
                assert(now[k] == rest[k]);
            }
        }
    }
}

/// The usable overviews with their sizes, in file order.
pub fn overview_sizes(levels: &Vec<Level>, full_w: usize, full_h: usize, n_bands: usize) -> (r: Vec<
    Overview,
>)
    ensures
        r@ == overviews(levels@, full_w, full_h, n_bands, levels@.len() as int).map_values(
            |i: usize| overview_at(levels@, i),
        ),
{
    let at = list_overviews(levels, full_w, full_h, n_bands);
    assert(levels.len() <= usize::MAX);
    proof {
        lemma_overviews(levels@, full_w, full_h, n_bands, levels@.len() as int);
    }
    let mut out: Vec<Overview> = Vec::new();
    for k in 0..at.len()
        invariant
            at@ == overviews(levels@, full_w, full_h, n_bands, levels@.len() as int),
            forall|j: int|
                0 <= j < at@.len() ==> (#[trigger] at@[j]) < levels@.len()
                    && levels@[at@[j] as int].tile is Some,
            out@.len() == k,
            forall|j: int| 0 <= j < k ==> #[trigger] out@[j] == overview_at(levels@, at@[j]),
    {
        let i: usize = at[k];
        let l = levels[i];
        if let Some(block) = l.tile {
            out.push(Overview { level: i, width: l.width, height: l.height, block });
        }
    }
    assert(out@ =~= at@.map_values(|i: usize| overview_at(levels@, i)));
    out
}

/// What a raster is, without reading its values.
pub struct RasterInfo {
    pub width: usize,
    pub height: usize,
    pub n_bands: usize,
    pub dtype: String,
    pub band_names: Vec<String>,
    pub interleave: &'static str,
    pub compression: String,
    /// Width and height of its blocks, zero where it is not tiled.
    pub block: (usize, usize),
    /// Blocks across and down, zero where it is not tiled.
    pub n_blocks: (usize, usize),
    /// The usable overviews, in file order.
    pub overviews: Vec<Overview>,
}

/// How the bands are laid out.
pub open spec fn interleave_name(planar: Planar) -> Seq<char> {
    match planar {
        Planar::Chunky => "pixel"@,
        Planar::Separate => "band"@,
        Planar::Other(_) => "unknown"@,
    }
}

/// Describes a raster. `compression` is the name of its compression, `counts` the
/// numbers of tiles across and down.
pub fn describe_raster<T>(
    h: &Header<T>,
    counts: Option<(usize, usize)>,
    described: Vec<String>,
    planar: &Planar,
    compression: &str,
) -> (r: RasterInfo)
    requires
        h.levels@.len() > 0,
    ensures
        r.width == h.levels@[0].width,
        r.height == h.levels@[0].height,
        r.n_bands == h.levels@[0].n_bands,
        r.dtype@ == (match h.dtype {
            Some(d) => lower(dtype_name(d)),
            None => "mixed"@,
        }),
        are_band_names(described@, h.levels@[0].n_bands, r.band_names@),
        r.interleave@ == interleave_name(*planar),
        r.compression@ == lower(compression@),
        r.block == (match h.levels@[0].tile {
            Some(t) => t,
            None => (0, 0),
        }),
        r.n_blocks == (match counts {
            Some(c) => c,
            None => (0, 0),
        }),
        r.overviews@ == overviews(
            h.levels@,
            r.width,
            r.height,
            r.n_bands,
            h.levels@.len() as int,
        ).map_values(|i: usize| overview_at(h.levels@, i)),
{
    let l = h.levels[0];
    let block: (usize, usize) = match l.tile {
        Some(t) => t,
        None => (0, 0),
    };
    let n_blocks: (usize, usize) = match counts {
        Some(c) => c,
        None => (0, 0),
    };
    let interleave: &'static str = match planar {
        Planar::Chunky => "pixel",
        Planar::Separate => "band",
        Planar::Other(_) => "unknown",
    };
    RasterInfo {
        width: l.width,
        height: l.height,
        n_bands: l.n_bands,
        dtype: dtype_label(h.dtype),
        band_names: band_names_or_default(described, l.n_bands),
        interleave,
        compression: to_lower(compression),
        block,
        n_blocks,
        overviews: overview_sizes(&h.levels, l.width, l.height, l.n_bands),
    }
}

// ---------------------------------------------------------------------------
// laws

/// The bands of a read are named by their own names, in the order in which they were
/// asked for.
pub proof fn selected_bands_keep_their_names(
    all: Seq<String>,
    bands: Seq<usize>,
    names: Seq<String>,
    k: int,
)
    requires
        are_selected_names(all, bands, names),
        0 <= k < bands.len(),
    ensures
        names.len() == bands.len(),
        names[k]@ == all[bands[k] as int]@,
{
}

/// A layout is reported as `pixel` where the bands of a pixel stand together, as `band`
/// where each band stands by itself.
pub proof fn layouts_are_reported_by_what_stands_together(p: Planar)
    ensures
        p is Chunky ==> interleave_name(p) == "pixel"@,
        p is Separate ==> interleave_name(p) == "band"@,
        p is Other ==> interleave_name(p) == "unknown"@,
{
}

/// A read without a box takes every tile; one with a box takes, of the tiles of the
/// raster, exactly those with a pixel of the raster that the box reaches.
pub proof fn boxes_take_the_tiles_that_they_reach(
    l: Level,
    tile_w: usize,
    tile_h: usize,
    counts: (usize, usize),
    b: Option<&BoxPixels>,
    r: Result<Option<Vec<(usize, usize)>>, A5CogError>,
    tx: usize,
    ty: usize,
)
    requires
        tile_w > 0,
        tile_h > 0,
        l.width > 0,
        l.height > 0,
        b matches Some(BoxPixels::Pixels { col_lo, col_hi, row_lo, row_hi }) ==> *col_lo <= *col_hi
            && *row_lo <= *row_hi,
        tiles_selected(b, l, tile_w, tile_h, counts, r),
    ensures
        b is None ==> (r matches Ok(Some(v)) && (v@.contains((tx, ty)) <==> tx < counts.0 && ty
            < counts.1)),
        b matches Some(BoxPixels::Pixels { col_lo, col_hi, row_lo, row_hi }) ==> {
            let reached = (exists|x: int|
                #![trigger x / (tile_w as int)]
                *col_lo <= x <= *col_hi && 0 <= x < l.width && x / (tile_w as int) == tx) && (
            exists|y: int|
                #![trigger y / (tile_h as int)]
                *row_lo <= y <= *row_hi && 0 <= y < l.height && y / (tile_h as int) == ty);
            &&& r is Ok
            &&& r matches Ok(Some(v)) ==> (v@.contains((tx, ty)) <==> reached)
            &&& r matches Ok(None) ==> !reached
        },
{
    match b {
        None => {
            tiles_are_listed(0, counts.0 as int, 0, counts.1 as int, tx, ty);
        },
        Some(BoxPixels::Pixels { col_lo, col_hi, row_lo, row_hi }) => {
            let (c0, c1, w, tw) = (*col_lo as int, *col_hi as int, l.width as int, tile_w as int);
            let (r0, r1, h, th) = (*row_lo as int, *row_hi as int, l.height as int, tile_h as int);
            lemma_reached(c0, c1, w, tw, tx as int);
            lemma_reached(r0, r1, h, th, ty as int);
            if !beside(c0, c1, w) && !beside(r0, r1, h) {
                let (a, z) = (held_within(c0, w), held_within(c1, w));
                let (p, q) = (held_within(r0, h), held_within(r1, h));
                lemma_held_tiles(a, z, tw, w);
                lemma_held_tiles(p, q, th, h);
                tiles_are_listed(a / tw, z / tw + 1, p / th, q / th + 1, tx, ty);
            }
        },
        _ => {},
    }
}

proof fn lemma_held_tiles(lo: int, hi: int, tile: int, size: int)
    requires
        0 <= lo <= hi < size <= usize::MAX,
        tile > 0,
    ensures
        0 <= lo / tile <= hi / tile + 1 <= usize::MAX,
{
    vstd::arithmetic::div_mod::lemma_div_is_ordered(lo, hi, tile);
    vstd::arithmetic::div_mod::lemma_div_pos_is_pos(lo, tile);
    vstd::arithmetic::div_mod::lemma_div_nonincreasing(hi, tile);
}

/// The positions from `lo` to `hi` reach a tile exactly where the raster holds one of
/// them that lies in it.
proof fn lemma_reached(lo: int, hi: int, size: int, tile: int, t: int)
    requires
        lo <= hi,
        size > 0,
        tile > 0,
    ensures
        (exists|x: int|
            #![trigger x / tile]
            lo <= x <= hi && 0 <= x < size && x / tile == t) <==> !beside(lo, hi, size)
            && held_within(lo, size) / tile <= t <= held_within(hi, size) / tile,
{
    if exists|x: int|
        #![trigger x / tile]
        lo <= x <= hi && 0 <= x < size && x / tile == t {
        let x = choose|x: int|
            #![trigger x / tile]
            lo <= x <= hi && 0 <= x < size && x / tile == t;
        tile_range_covers_box(lo, hi, size, x, tile);
    }
    if !beside(lo, hi, size) {
        let (a, z) = (held_within(lo, size), held_within(hi, size));
        if a / tile <= t <= z / tile {
            // the first position of the tile that is not before `a`
            let x = if t * tile < a {
                a
            } else {
                t * tile
            };
            assert(a == tile * (a / tile) + a % tile) by {
                vstd::arithmetic::div_mod::lemma_fundamental_div_mod(a, tile);
            }
            assert(z == tile * (z / tile) + z % tile) by {
                vstd::arithmetic::div_mod::lemma_fundamental_div_mod(z, tile);
            }
            vstd::arithmetic::div_mod::lemma_mod_bound(a, tile);
            vstd::arithmetic::div_mod::lemma_mod_bound(z, tile);
            assert(t * tile <= (z / tile) * tile) by (nonlinear_arith)
                requires
                    t <= z / tile,
                    tile > 0,
            ;
            assert((z / tile) * tile == tile * (z / tile)) by (nonlinear_arith);
            assert((a / tile) * tile == tile * (a / tile)) by (nonlinear_arith);
            if t * tile < a {
                assert(t == a / tile) by (nonlinear_arith)
                    requires
                        t * tile < a,
                        a / tile <= t,
                        a == tile * (a / tile) + a % tile,
                        0 <= a % tile < tile,
                        tile > 0,
                ;
                assert(x / tile == t);
            } else {
                vstd::arithmetic::div_mod::lemma_div_multiples_vanish(t, tile);
                assert(tile * t == t * tile) by (nonlinear_arith);
                assert(x / tile == t);
            }
            assert(a <= x <= z);
            assert(lo <= x <= hi && 0 <= x < size && x / tile == t);
        }
    }
}

/// A raster without geo keys has no place on the globe; otherwise its place takes the
/// projection and the transform of its own tags, and the first failure of the two.
pub proof fn places_take_projection_and_transform<T: Copy>(
    h: Header<T>,
    r: Result<GeoReference<T>, A5CogError>,
)
    requires
        georeferenced(h, r),
    ensures
        h.geo is None ==> (r matches Err(e) && e is MissingGeoKey && crate::error::error_payload(e)
            == "GeoKeyDirectory"@),
        h.geo matches Some(g) ==> (r matches Ok(v) ==> src_proj_built(
            g,
            Ok::<Proj, A5CogError>(v.proj),
        ) && transform_read(
            h.transformation,
            h.scale,
            h.tie,
            Ok::<TransformTags<T>, A5CogError>(v.transform),
        )),
        h.geo matches Some(g) ==> (r matches Err(e) ==> src_proj_built(
            g,
            Err::<Proj, A5CogError>(e),
        ) || transform_read(
            h.transformation,
            h.scale,
            h.tie,
            Err::<TransformTags<T>, A5CogError>(e),
        )),
{
    if let Some(g) = h.geo {
        let (p, t) = choose|p: Result<Proj, A5CogError>, t: Result<TransformTags<T>, A5CogError>|
            src_proj_built(g, p) && transform_read(h.transformation, h.scale, h.tie, t)
                && #[trigger] joined(p, t, r);
        assert(joined(p, t, r));
    }
}

/// A plan holds the block size of the raster, the bands that were resolved with their
/// names, and the tiles that were selected; a failure of either step is its own.
pub proof fn plans_hold_bands_and_tiles(
    tile: (usize, usize),
    all_names: Seq<String>,
    bands: Result<Vec<usize>, A5CogError>,
    b: Result<BandPlan, A5CogError>,
    tiles: Result<Option<Vec<(usize, usize)>>, A5CogError>,
    r: Result<ReadPlan, A5CogError>,
    k: int,
)
    requires
        bands_planned(tile, all_names, bands, b),
        b matches Ok(p) ==> planned(p, tiles, r),
    ensures
        bands is Err ==> (b is Err && b->Err_0 == bands->Err_0),
        bands matches Ok(v) ==> b is Ok,
        bands is Ok && tiles is Err ==> r is Err && r->Err_0 == tiles->Err_0,
        bands matches Ok(v) ==> (tiles matches Ok(t) ==> (r matches Ok(plan) && plan.tile_w == tile.0
            && plan.tile_h == tile.1 && plan.bands@ == v@ && plan.tiles == t && plan.names@.len()
            == v@.len() && (0 <= k < v@.len() ==> plan.names@[k]@ == all_names[v@[k] as int]@))),
{
}

/// An overview is described by the size and the blocks of its own level.
pub proof fn overviews_are_described_by_their_level(levels: Seq<Level>, i: usize)
    requires
        i < levels.len(),
    ensures
        overview_at(levels, i).level == i,
        overview_at(levels, i).width == levels[i as int].width,
        overview_at(levels, i).height == levels[i as int].height,
        levels[i as int].tile matches Some(t) ==> overview_at(levels, i).block == t,
{
}

/// Without strips every tile is read by itself, in the order of the tiles.
pub proof fn single_tiles_are_read_one_by_one(tiles: Seq<(usize, usize)>, k: int)
    requires
        0 <= k < tiles.len(),
    ensures
        singles(tiles).len() == tiles.len(),
        singles(tiles)[k].len() == 1,
        singles(tiles)[k][0] == tiles[k],
        crate::plan::joined(singles(tiles)) == tiles,
{
    lemma_singles_join(tiles);
}

proof fn lemma_singles_join(tiles: Seq<(usize, usize)>)
    ensures
        crate::plan::joined(singles(tiles)) == tiles,
    decreases tiles.len(),
{
    if tiles.len() > 0 {
        let front = tiles.drop_last();
        lemma_singles_join(front);
        assert(singles(tiles).drop_last() =~= singles(front));
        assert(front + seq![tiles.last()] =~= tiles);
    } else {
        assert(singles(tiles).len() == 0);
        assert(crate::plan::joined(singles(tiles)) =~= tiles);
    }
}

/// The bands that are read are those that were asked for, by number or by name, and they
/// keep their names and the blocks of the raster.
pub proof fn bands_are_read_as_they_were_asked_for(
    l: Level,
    tile: (usize, usize),
    described: Seq<String>,
    bands_idx: Seq<i32>,
    bands_names: Seq<String>,
    r: Result<BandPlan, A5CogError>,
    k: int,
)
    requires
        bands_taken(l, tile, described, bands_idx, bands_names, r),
        0 <= k,
    ensures
        r matches Ok(plan) ==> {
            &&& plan.tile_w == tile.0 && plan.tile_h == tile.1
            &&& plan.names@.len() == plan.bands@.len()
            &&& k < bands_idx.len() ==> plan.bands@.len() == bands_idx.len() && plan.bands@[k] + 1
                == bands_idx[k]
            &&& bands_idx.len() == 0 && k < bands_names.len() ==> plan.bands@.len()
                == bands_names.len() && plan.names@[k]@ == bands_names[k]@
            &&& bands_idx.len() == 0 && bands_names.len() == 0 ==> plan.bands@.len() == l.n_bands && (
            k < l.n_bands ==> plan.bands@[k] == k)
            &&& described.len() > 0 && k < plan.bands@.len() ==> plan.names@[k]@
                == described[plan.bands@[k] as int]@
        },
        k < bands_idx.len() && (bands_idx[k] < 1 || bands_idx[k] > l.n_bands) ==> r is Err,
        bands_idx.len() == 0 && bands_names.len() == 0 ==> r is Ok,
{
    let (all, bands) = choose|all: Seq<String>, bands: Result<Vec<usize>, A5CogError>|
        are_band_names(described, l.n_bands, all) && bands_resolved(
            bands_idx,
            bands_names,
            l.n_bands,
            all,
            bands,
        ) && #[trigger] bands_planned(tile, all, bands, r);
    assert(bands_planned(tile, all, bands, r));
    crate::plan::bands_are_found_by_number_or_name(bands_idx, bands_names, l.n_bands, all, bands, k);
    if let Ok(plan) = r {
        if k < plan.bands@.len() {
            assert(plan.names@[k]@ == all[plan.bands@[k] as int]@);
        }
    }
}

} // verus!
