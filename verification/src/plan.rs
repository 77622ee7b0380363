//! Planning a read: which level, bands and tiles, in which fetch units.

use vstd::prelude::*;
use vstd::seq_lib::lemma_multiset_commutative;

use crate::error::{invalid, is_invalid, is_unsupported, unsupported, A5CogError};
use crate::text::{
    decimal, decimal_i64, decimal_u64, decimal_usize, join2, join3, quote, quoted, signed_decimal,
    str_eq,
};
use crate::tile::Planar;

verus! {

// ---------------------------------------------------------------------------
// overview levels

/// The dimensions of one image of a TIFF file.
#[derive(Clone, Copy)]
pub struct Level {
    pub width: usize,
    pub height: usize,
    pub n_bands: usize,
    /// Width and height of its tiles, none for an image in strips.
    pub tile: Option<(usize, usize)>,
    /// The subfile type tag.
    pub subfile_type: Option<u32>,
}

/// Bit 0 of a subfile type marks a reduced-resolution image.
pub open spec fn is_reduced(st: u32) -> bool {
    st & 0x1 != 0
}

/// Bit 2 of a subfile type marks a transparency mask.
pub open spec fn is_mask(st: u32) -> bool {
    st & 0x4 != 0
}

/// The image can stand in for the full-resolution one: it is not marked as
/// anything but a reduced image, is smaller in both directions without being
/// empty, has all bands, and is tiled.
pub open spec fn usable_overview(l: Level, full_w: usize, full_h: usize, n_bands: usize) -> bool {
    &&& l.subfile_type matches Some(st) ==> is_reduced(st) && !is_mask(st)
    &&& 0 < l.width < full_w
    &&& 0 < l.height < full_h
    &&& l.n_bands == n_bands
    &&& l.tile is Some
}

/// Whether an image can stand in for the full-resolution one.
pub fn is_usable_overview(l: &Level, full_w: usize, full_h: usize, n_bands: usize) -> (r: bool)
    ensures
        r == usable_overview(*l, full_w, full_h, n_bands),
{
    if let Some(st) = l.subfile_type {
        if st & 0x1 == 0 || st & 0x4 != 0 {
            return false;
        }
    }
    l.width != 0 && l.height != 0 && l.width < full_w && l.height < full_h && l.n_bands == n_bands
        && l.tile.is_some()
}

/// The indices of the usable overviews among the first `n` images, in file
/// order. Image 0 is the full-resolution one.
pub open spec fn overviews(
    levels: Seq<Level>,
    full_w: usize,
    full_h: usize,
    n_bands: usize,
    n: int,
) -> Seq<usize>
    decreases n,
{
    if n <= 1 {
        Seq::empty()
    } else {
        let rest = overviews(levels, full_w, full_h, n_bands, n - 1);
        if usable_overview(levels[n - 1], full_w, full_h, n_bands) {
            rest.push((n - 1) as usize)
        } else {
            rest
        }
    }
}

/// The usable overviews, in file order.
pub fn list_overviews(levels: &Vec<Level>, full_w: usize, full_h: usize, n_bands: usize) -> (r: Vec<
    usize,
>)
    ensures
        r@ == overviews(levels@, full_w, full_h, n_bands, levels@.len() as int),
{
    let mut out: Vec<usize> = Vec::new();
    let mut i: usize = 1;
    while i < levels.len()
        invariant
            1 <= i,
            i <= levels@.len() || i == 1,
            out@ == overviews(levels@, full_w, full_h, n_bands, i as int),
        decreases levels@.len() - i,
    {
        if is_usable_overview(&levels[i], full_w, full_h, n_bands) {
            out.push(i);
        }
        i = i + 1;
    }
    assert(levels@.len() <= 1 ==> out@ =~= overviews(
        levels@,
        full_w,
        full_h,
        n_bands,
        levels@.len() as int,
    ));
    out
}

/// Image `i` is a usable overview whose pixel is fine enough.
pub open spec fn is_candidate(
    levels: Seq<Level>,
    sizes: Seq<Option<u64>>,
    full_w: usize,
    full_h: usize,
    n_bands: usize,
    i: int,
) -> bool {
    1 <= i < levels.len() && usable_overview(levels[i], full_w, full_h, n_bands) && sizes[i] is Some
}

/// The image to read for a target cell size, zero for the full-resolution one.
///
/// `sizes[i]` orders the images by ground pixel size; it is none where the pixel
/// is not fine enough for the target. The coarsest usable overview that is fine
/// enough wins, the first of several.
pub fn select_overview_level(
    levels: &Vec<Level>,
    sizes: &Vec<Option<u64>>,
    full_w: usize,
    full_h: usize,
    n_bands: usize,
    enabled: bool,
) -> (r: usize)
    requires
        sizes@.len() == levels@.len(),
    ensures
        !enabled ==> r == 0,
        enabled ==> (r == 0 <==> forall|i: int|
            !is_candidate(levels@, sizes@, full_w, full_h, n_bands, i)),
        r != 0 ==> is_candidate(levels@, sizes@, full_w, full_h, n_bands, r as int) && forall|i: int|
            is_candidate(levels@, sizes@, full_w, full_h, n_bands, i) ==> sizes@[i]->Some_0
                <= sizes@[r as int]->Some_0 && (sizes@[i]->Some_0 == sizes@[r as int]->Some_0 ==> r
                <= i),
{
    if !enabled {
        return 0;
    }
    let mut best: usize = 0;
    let mut best_size: u64 = 0;
    let mut i: usize = 1;
    while i < levels.len()
        invariant
            1 <= i,
            i <= levels@.len() || i == 1,
            sizes@.len() == levels@.len(),
            best < i,
            best == 0 ==> forall|k: int|
                k < i ==> !is_candidate(levels@, sizes@, full_w, full_h, n_bands, k),
            best != 0 ==> is_candidate(
                levels@,
                sizes@,
                full_w,
                full_h,
                n_bands,
                best as int,
            ) && best_size == sizes@[best as int]->Some_0,
            best != 0 ==> forall|k: int|
                k < i && is_candidate(levels@, sizes@, full_w, full_h, n_bands, k)
                    ==> sizes@[k]->Some_0 <= best_size && (sizes@[k]->Some_0 == best_size ==> best
                    <= k),
        decreases levels@.len() - i,
    {
        if is_usable_overview(&levels[i], full_w, full_h, n_bands) {
            if let Some(s) = sizes[i] {
                assert(is_candidate(levels@, sizes@, full_w, full_h, n_bands, i as int));
                if best == 0 || s > best_size {
                    best = i;
                    best_size = s;
                }
            }
        }
        i = i + 1;
    }
    best
}

// ---------------------------------------------------------------------------
// bands

/// The name of the `i`-th band of a raster without descriptions: `band_` and
/// its number, with a leading zero below ten.
pub open spec fn default_band_name(i: nat) -> Seq<char> {
    if i + 1 < 10 {
        "band_0"@ + decimal(i + 1)
    } else {
        "band_"@ + decimal(i + 1)
    }
}

/// `names` are the names of the bands: their descriptions, or default names
/// where the raster has none.
pub open spec fn are_band_names(
    described: Seq<String>,
    n_bands: usize,
    names: Seq<String>,
) -> bool {
    if described.len() > 0 {
        names == described
    } else {
        names.len() == n_bands && forall|i: int|
            0 <= i < n_bands ==> (#[trigger] names[i])@ == default_band_name(i as nat)
    }
}

/// The names of the bands: their descriptions, or default names where the
/// raster has none.
pub fn band_names_or_default(described: Vec<String>, n_bands: usize) -> (r: Vec<String>)
    ensures
        are_band_names(described@, n_bands, r@),
{
    if described.len() > 0 {
        return described;
    }
    let mut names: Vec<String> = Vec::new();
    for i in 0..n_bands
        invariant
            names@.len() == i,
            forall|k: int| 0 <= k < i ==> (#[trigger] names@[k])@ == default_band_name(k as nat),
    {
        let n = decimal_u64(i as u64 + 1);
        let name = if i < 9 {
            join2("band_0", n.as_str())
        } else {
            join2("band_", n.as_str())
        };
        names.push(name);
    }
    names
}

/// The first band of that name.
pub open spec fn first_named(names: Seq<String>, name: Seq<char>, i: int) -> bool {
    0 <= i < names.len() && names[i]@ == name && forall|k: int|
        0 <= k < i ==> (#[trigger] names[k])@ != name
}

/// No band has that name.
pub open spec fn none_named(names: Seq<String>, name: Seq<char>) -> bool {
    forall|k: int| 0 <= k < names.len() ==> (#[trigger] names[k])@ != name
}

fn find_band(names: &Vec<String>, name: &str) -> (r: Option<usize>)
    ensures
        match r {
            Some(i) => first_named(names@, name@, i as int),
            None => none_named(names@, name@),
        },
{
    let mut i: usize = 0;
    while i < names.len()
        invariant
            i <= names@.len(),
            forall|k: int| 0 <= k < i ==> (#[trigger] names@[k])@ != name@,
        decreases names@.len() - i,
    {
        if str_eq(names[i].as_str(), name) {
            return Some(i);
        }
        i = i + 1;
    }
    None
}

/// A list of strings as `{:?}` shows it: quoted, in square brackets, separated
/// by commas.
pub open spec fn quoted_items(items: Seq<String>, n: int) -> Seq<char>
    decreases n,
{
    if n <= 0 {
        Seq::empty()
    } else if n == 1 {
        quoted(items[0]@)
    } else {
        quoted_items(items, n - 1) + ", "@ + quoted(items[n - 1]@)
    }
}

fn quote_list(items: &Vec<String>) -> (r: String)
    ensures
        r@ == "["@ + quoted_items(items@, items@.len() as int) + "]"@,
{
    let mut s = String::new();
    for i in 0..items.len()
        invariant
            s@ == quoted_items(items@, i as int),
    {
        let q = quote(items[i].as_str());
        s = if i == 0 {
            q
        } else {
            join3(s.as_str(), ", ", q.as_str())
        };
    }
    join3("[", s.as_str(), "]")
}

/// The text of the error for a band number that the raster does not have.
pub open spec fn band_out_of_range(i: int, n_bands: nat) -> Seq<char> {
    "band index "@ + signed_decimal(i) + " out of range 1..="@ + decimal(n_bands)
}

/// The text of the error for a band name that the raster does not have.
pub open spec fn band_not_found(name: Seq<char>, names: Seq<String>) -> Seq<char> {
    "band name "@ + quoted(name) + " not found; available: "@ + ("["@ + quoted_items(
        names,
        names.len() as int,
    ) + "]"@)
}

/// `i` is a band number from 1 to `n_bands`.
pub open spec fn valid_band(i: int, n_bands: int) -> bool {
    1 <= i <= n_bands
}

/// `r` is what a band selection resolves to: the bands counted from zero in the
/// requested order, by number, by name, or all of them; or the error for the
/// first number or name that the raster does not have.
pub open spec fn bands_resolved(
    bands_idx: Seq<i32>,
    bands_names: Seq<String>,
    n_bands: usize,
    all_names: Seq<String>,
    r: Result<Vec<usize>, A5CogError>,
) -> bool {
    if bands_idx.len() > 0 {
        match r {
            Ok(v) => v@.len() == bands_idx.len() && forall|k: int|
                0 <= k < v@.len() ==> valid_band(bands_idx[k] as int, n_bands as int)
                    && #[trigger] v@[k] == bands_idx[k] - 1,
            Err(e) => exists|k: int|
                {
                    &&& 0 <= k < bands_idx.len()
                    &&& !valid_band(#[trigger] bands_idx[k] as int, n_bands as int)
                    &&& forall|j: int|
                        0 <= j < k ==> valid_band(#[trigger] bands_idx[j] as int, n_bands as int)
                    &&& is_invalid(e, band_out_of_range(bands_idx[k] as int, n_bands as nat))
                },
        }
    } else if bands_names.len() > 0 {
        match r {
            Ok(v) => v@.len() == bands_names.len() && forall|k: int|
                0 <= k < v@.len() ==> first_named(
                    all_names,
                    bands_names[k]@,
                    #[trigger] v@[k] as int,
                ),
            Err(e) => exists|k: int|
                {
                    &&& 0 <= k < bands_names.len()
                    &&& none_named(all_names, #[trigger] bands_names[k]@)
                    &&& forall|j: int|
                        0 <= j < k ==> !none_named(all_names, #[trigger] bands_names[j]@)
                    &&& is_invalid(e, band_not_found(bands_names[k]@, all_names))
                },
        }
    } else {
        r matches Ok(v) && v@.len() == n_bands && forall|k: int|
            0 <= k < v@.len() ==> #[trigger] v@[k] == k
    }
}

/// The bands to read, counted from zero, in the requested order: by number, by
/// name, or all of them. The first number or name that the raster does not have
/// is the error.
pub fn resolve_bands(
    bands_idx: &Vec<i32>,
    bands_names: &Vec<String>,
    n_bands: usize,
    all_names: &Vec<String>,
) -> (r: Result<Vec<usize>, A5CogError>)
    ensures
        bands_resolved(bands_idx@, bands_names@, n_bands, all_names@, r),
{
    let mut out: Vec<usize> = Vec::new();
    if bands_idx.len() > 0 {
        for k in 0..bands_idx.len()
            invariant
                bands_idx@.len() > 0,
                out@.len() == k,
                forall|j: int|
                    0 <= j < k ==> valid_band(#[trigger] bands_idx@[j] as int, n_bands as int),
                forall|j: int| 0 <= j < k ==> #[trigger] out@[j] == bands_idx@[j] - 1,
        {
            let i: i32 = bands_idx[k];
            if i < 1 || (i as u64) > (n_bands as u64) {
                let a = decimal_i64(i as i64);
                let b = decimal_usize(n_bands);
                let head = join3("band index ", a.as_str(), " out of range 1..=");
                assert(!valid_band(bands_idx@[k as int] as int, n_bands as int));
                return Err(A5CogError::Invalid(join2(head.as_str(), b.as_str())));
            }
            out.push((i - 1) as usize);
        }
        return Ok(out);
    }
    if bands_names.len() > 0 {
        for k in 0..bands_names.len()
            invariant
                bands_idx@.len() == 0,
                bands_names@.len() > 0,
                out@.len() == k,
                forall|j: int|
                    0 <= j < k ==> !none_named(all_names@, #[trigger] bands_names@[j]@),
                forall|j: int|
                    0 <= j < k ==> first_named(
                        all_names@,
                        bands_names@[j]@,
                        #[trigger] out@[j] as int,
                    ),
        {
            match find_band(all_names, bands_names[k].as_str()) {
                Some(i) => {
                    out.push(i);
                },
                None => {
                    let q = quote(bands_names[k].as_str());
                    let l = quote_list(all_names);
                    let head = join3("band name ", q.as_str(), " not found; available: ");
                    assert(none_named(all_names@, bands_names@[k as int]@));
                    return Err(A5CogError::Invalid(join2(head.as_str(), l.as_str())));
                },
            }
        }
        return Ok(out);
    }
    for k in 0..n_bands
        invariant
            bands_idx@.len() == 0,
            bands_names@.len() == 0,
            out@.len() == k,
            forall|j: int| 0 <= j < k ==> #[trigger] out@[j] == j,
    {
        out.push(k);
    }
    Ok(out)
}

// ---------------------------------------------------------------------------
// tiles

/// Columns and rows of tiles, both ends counted in.
#[derive(Clone, Copy)]
pub struct TileRange {
    pub tx_lo: usize,
    pub ty_lo: usize,
    pub tx_hi: usize,
    pub ty_hi: usize,
}

/// What projecting a bounding box into the raster's pixel grid gave.
pub enum BoxPixels {
    /// The box is empty or inverted; its four numbers as shown to the user.
    Unordered(String),
    /// No point of its outline could be projected.
    Unprojectable,
    /// The raster is rotated against its coordinate system.
    Rotated,
    /// The box reaches from these columns and rows to those, whether or not the
    /// raster has them.
    Pixels { col_lo: i64, col_hi: i64, row_lo: i64, row_hi: i64 },
}

/// The positions `lo` to `hi` lie beside a raster of `size` positions.
pub open spec fn beside(lo: int, hi: int, size: int) -> bool {
    hi < 0 || lo >= size
}

/// The nearest position of a raster of `size` positions, zero if it has none.
pub open spec fn held_within(x: int, size: int) -> int {
    if x < 0 || size <= 0 {
        0
    } else if x >= size {
        size - 1
    } else {
        x
    }
}

fn hold_within(x: i64, size: usize) -> (r: usize)
    ensures
        r == held_within(x as int, size as int),
{
    if x < 0 || size == 0 {
        0
    } else if x as u64 >= size as u64 {
        size - 1
    } else {
        x as usize
    }
}

/// The tiles that a bounding box touches, none where it lies beside the raster.
pub fn projected_tile_range(
    b: &BoxPixels,
    width: usize,
    height: usize,
    tile_w: usize,
    tile_h: usize,
) -> (r: Result<Option<TileRange>, A5CogError>)
    requires
        tile_w > 0,
        tile_h > 0,
        b matches BoxPixels::Pixels { col_lo, col_hi, row_lo, row_hi } ==> *col_lo <= *col_hi
            && *row_lo <= *row_hi,
    ensures
        match b {
            BoxPixels::Unordered(shown) => r matches Err(e) && is_invalid(
                e,
                "bbox must satisfy xmin<xmax & ymin<ymax; got "@ + shown@,
            ),
            BoxPixels::Unprojectable => r matches Err(e) && is_invalid(
                e,
                "could not reproject bbox into raster CRS (all points NaN)"@,
            ),
            BoxPixels::Rotated => r matches Err(e) && is_unsupported(
                e,
                "rotated geotransform with bbox is not yet supported"@,
            ),
            BoxPixels::Pixels { col_lo, col_hi, row_lo, row_hi } => if beside(
                *col_lo as int,
                *col_hi as int,
                width as int,
            ) || beside(*row_lo as int, *row_hi as int, height as int) {
                r matches Ok(None)
            } else {
                r matches Ok(Some(t)) && t.tx_lo == held_within(*col_lo as int, width as int)
                    / tile_w as int && t.tx_hi == held_within(*col_hi as int, width as int)
                    / tile_w as int && t.ty_lo == held_within(*row_lo as int, height as int)
                    / tile_h as int && t.ty_hi == held_within(*row_hi as int, height as int)
                    / tile_h as int
            },
        },
        r matches Ok(Some(t)) ==> t.tx_lo <= t.tx_hi < usize::MAX && t.ty_lo <= t.ty_hi
            < usize::MAX,
{
    match b {
        BoxPixels::Unordered(shown) => Err(
            A5CogError::Invalid(
                join2("bbox must satisfy xmin<xmax & ymin<ymax; got ", shown.as_str()),
            ),
        ),
        BoxPixels::Unprojectable => Err(
            invalid("could not reproject bbox into raster CRS (all points NaN)"),
        ),
        BoxPixels::Rotated => Err(unsupported("rotated geotransform with bbox is not yet supported")),
        BoxPixels::Pixels { col_lo, col_hi, row_lo, row_hi } => {
            if *col_hi < 0 || *row_hi < 0 || (*col_lo >= 0 && *col_lo as u64 >= width as u64) || (
            *row_lo >= 0 && *row_lo as u64 >= height as u64) {
                return Ok(None);
            }
            let c0: usize = hold_within(*col_lo, width);
            let c1: usize = hold_within(*col_hi, width);
            let r0: usize = hold_within(*row_lo, height);
            let r1: usize = hold_within(*row_hi, height);
            proof {
                lemma_tile_order(c0 as int, c1 as int, tile_w as int);
                lemma_tile_order(r0 as int, r1 as int, tile_h as int);
            }
            Ok(
                Some(
                    TileRange {
                        tx_lo: c0 / tile_w,
                        ty_lo: r0 / tile_h,
                        tx_hi: c1 / tile_w,
                        ty_hi: r1 / tile_h,
                    },
                ),
            )
        },
    }
}

proof fn lemma_tile_order(lo: int, hi: int, tile: int)
    requires
        0 <= lo <= hi,
        tile > 0,
    ensures
        0 <= lo / tile <= hi / tile <= hi,
{
    vstd::arithmetic::div_mod::lemma_div_is_ordered(lo, hi, tile);
    vstd::arithmetic::div_mod::lemma_div_pos_is_pos(lo, tile);
    vstd::arithmetic::div_mod::lemma_div_nonincreasing(hi, tile);
}

/// Every pixel of the raster that a box reaches lies in a tile of its range, and
/// the box does not lie beside the raster.
pub proof fn tile_range_covers_box(lo: int, hi: int, size: int, x: int, tile: int)
    requires
        lo <= x <= hi,
        0 <= x < size,
        tile > 0,
    ensures
        !beside(lo, hi, size),
        held_within(lo, size) / tile <= x / tile <= held_within(hi, size) / tile,
{
    vstd::arithmetic::div_mod::lemma_div_is_ordered(held_within(lo, size), x, tile);
    vstd::arithmetic::div_mod::lemma_div_is_ordered(x, held_within(hi, size), tile);
}

/// The tiles of columns `x0..x1` in the rows `y0..y`, row by row.
pub open spec fn tile_rows(x0: int, x1: int, y0: int, y: int) -> Seq<(usize, usize)>
    decreases y - y0,
{
    if y <= y0 {
        Seq::empty()
    } else {
        tile_rows(x0, x1, y0, y - 1) + Seq::new(
            (x1 - x0) as nat,
            |i: int| ((x0 + i) as usize, (y - 1) as usize),
        )
    }
}

/// The tiles of columns `x0..x1` and rows `y0..y1`, row by row.
fn list_tiles(x0: usize, x1: usize, y0: usize, y1: usize) -> (r: Vec<(usize, usize)>)
    requires
        x0 <= x1,
        y0 <= y1,
    ensures
        r@ == tile_rows(x0 as int, x1 as int, y0 as int, y1 as int),
{
    let mut v: Vec<(usize, usize)> = Vec::new();
    for ty in y0..y1
        invariant
            x0 <= x1,
            v@ == tile_rows(x0 as int, x1 as int, y0 as int, ty as int),
    {
        let ghost before = v@;
        let ghost row = Seq::new(
            (x1 - x0) as nat,
            |i: int| ((x0 + i) as usize, ty),
        );
        for tx in x0..x1
            invariant
                x0 <= x1,
                row == Seq::new((x1 - x0) as nat, |i: int| ((x0 + i) as usize, ty)),
                v@ == before + row.take(tx - x0),
        {
            v.push((tx, ty));
            assert(row.take(tx - x0 + 1) == row.take(tx - x0).push((tx, ty)));
        }
        assert(row.take(x1 - x0) == row);
        assert(v@ =~= tile_rows(x0 as int, x1 as int, y0 as int, ty + 1));
    }
    v
}

/// The tiles of a range, row by row.
pub fn tiles_in_range(t: &TileRange) -> (r: Vec<(usize, usize)>)
    requires
        t.tx_lo <= t.tx_hi < usize::MAX,
        t.ty_lo <= t.ty_hi < usize::MAX,
    ensures
        r@ == tile_rows(t.tx_lo as int, t.tx_hi + 1, t.ty_lo as int, t.ty_hi + 1),
{
    list_tiles(t.tx_lo, t.tx_hi + 1, t.ty_lo, t.ty_hi + 1)
}

/// All tiles of a level, row by row.
pub fn all_tiles(n_tiles_x: usize, n_tiles_y: usize) -> (r: Vec<(usize, usize)>)
    ensures
        r@ == tile_rows(0, n_tiles_x as int, 0, n_tiles_y as int),
{
    list_tiles(0, n_tiles_x, 0, n_tiles_y)
}

/// A tile is listed exactly where its column and row are in range.
pub proof fn tiles_are_listed(x0: int, x1: int, y0: int, y1: int, tx: usize, ty: usize)
    requires
        0 <= x0 <= x1 <= usize::MAX,
        0 <= y0 <= y1 <= usize::MAX,
    ensures
        tile_rows(x0, x1, y0, y1).contains((tx, ty)) == (x0 <= tx < x1 && y0 <= ty < y1),
    decreases y1 - y0,
{
    if y0 < y1 {
        tiles_are_listed(x0, x1, y0, y1 - 1, tx, ty);
        let rest = tile_rows(x0, x1, y0, y1 - 1);
        let row = Seq::new((x1 - x0) as nat, |i: int| ((x0 + i) as usize, (y1 - 1) as usize));
        let all = tile_rows(x0, x1, y0, y1);
        assert(all == rest + row);
        if rest.contains((tx, ty)) {
            let k = choose|k: int| 0 <= k < rest.len() && rest[k] == (tx, ty);
            assert(all[k] == (tx, ty));
        }
        if x0 <= tx < x1 && ty == y1 - 1 {
            assert(row[tx - x0] == (tx, ty));
            assert(all[rest.len() + (tx - x0)] == (tx, ty));
        }
        if all.contains((tx, ty)) {
            let k = choose|k: int| 0 <= k < all.len() && all[k] == (tx, ty);
            if k < rest.len() {
                assert(rest[k] == (tx, ty));
            } else {
                assert(row[k - rest.len()] == (tx, ty));
            }
        }
    }
}

/// The points of a tile that may represent it, in half pixels: the centre of its
/// first pixel, its middle, and the centre of its last pixel.
pub open spec fn tile_candidate(tx: int, ty: int, tile_w: int, tile_h: int, k: int) -> (int, int) {
    let (x, y) = (2 * (tx * tile_w), 2 * (ty * tile_h));
    if k == 0 {
        (x + 1, y + 1)
    } else if k == 1 {
        (x + tile_w, y + tile_h)
    } else {
        (x + 2 * tile_w - 1, y + 2 * tile_h - 1)
    }
}

/// The points of a tile that may represent it, in half pixels.
pub fn tile_candidates(tx: usize, ty: usize, tile_w: usize, tile_h: usize) -> (r: [(u64, u64); 3])
    requires
        0 < tile_w,
        0 < tile_h,
        2 * ((tx + 1) * tile_w) <= u64::MAX,
        2 * ((ty + 1) * tile_h) <= u64::MAX,
    ensures
        forall|k: int|
            0 <= k < 3 ==> (#[trigger] r@[k]).0 == tile_candidate(
                tx as int,
                ty as int,
                tile_w as int,
                tile_h as int,
                k,
            ).0 && r@[k].1 == tile_candidate(tx as int, ty as int, tile_w as int, tile_h as int, k).1,
{
    assert((tx + 1) * tile_w == tx * tile_w + tile_w) by (nonlinear_arith);
    assert((ty + 1) * tile_h == ty * tile_h + tile_h) by (nonlinear_arith);
    let (w, h): (u64, u64) = (tile_w as u64, tile_h as u64);
    let x: u64 = 2 * (tx as u64 * w);
    let y: u64 = 2 * (ty as u64 * h);
    [(x + 1, y + 1), (x + w, y + h), (x + 2 * w - 1, y + 2 * h - 1)]
}

/// The points that may represent a tile lie inside it.
pub proof fn candidates_lie_in_tile(tx: int, ty: int, tile_w: int, tile_h: int, k: int)
    requires
        0 < tile_w,
        0 < tile_h,
        0 <= k < 3,
    ensures
        2 * (tx * tile_w) < tile_candidate(tx, ty, tile_w, tile_h, k).0 < 2 * ((tx + 1) * tile_w),
        2 * (ty * tile_h) < tile_candidate(tx, ty, tile_w, tile_h, k).1 < 2 * ((ty + 1) * tile_h),
{
    assert((tx + 1) * tile_w == tx * tile_w + tile_w) by (nonlinear_arith);
    assert((ty + 1) * tile_h == ty * tile_h + tile_h) by (nonlinear_arith);
}

/// A point in degrees, as keys that order as the numbers do: longitude, latitude.
pub type KeyPoint = (i64, i64);

/// A box in degrees, as keys that order as the numbers do.
#[derive(Clone, Copy)]
pub struct KeyBox {
    pub west: i64,
    pub south: i64,
    pub east: i64,
    pub north: i64,
}

/// The points that may represent a tile, none where one cannot be projected.
pub type TilePoints = [Option<KeyPoint>; 3];

/// The point lies in the box, whose upper edges do not belong to it.
pub open spec fn in_key_box(b: KeyBox, p: KeyPoint) -> bool {
    b.west <= p.0 < b.east && b.south <= p.1 < b.north
}

/// The tile's representative: the first point that can be projected.
pub open spec fn representative(p: TilePoints) -> Option<KeyPoint> {
    if p@[0] is Some {
        p@[0]
    } else if p@[1] is Some {
        p@[1]
    } else {
        p@[2]
    }
}

/// The tile's representative is in the box.
pub open spec fn owned(p: TilePoints, b: KeyBox) -> bool {
    representative(p) matches Some(q) && in_key_box(b, q)
}

/// The first `n` tiles whose representative is in the box.
pub open spec fn owned_tiles(
    tiles: Seq<(usize, usize)>,
    points: Seq<TilePoints>,
    b: KeyBox,
    n: int,
) -> Seq<(usize, usize)>
    decreases n,
{
    if n <= 0 {
        Seq::empty()
    } else {
        let rest = owned_tiles(tiles, points, b, n - 1);
        if owned(points[n - 1], b) {
            rest.push(tiles[n - 1])
        } else {
            rest
        }
    }
}

/// Keeps the tiles whose representative point is in the box. The box is
/// half-open at its upper edges, so boxes that share edges own each tile once.
pub fn filter_tiles_by_origin(
    tiles: &Vec<(usize, usize)>,
    points: &Vec<TilePoints>,
    b: &KeyBox,
) -> (r: Vec<(usize, usize)>)
    requires
        points@.len() == tiles@.len(),
    ensures
        r@ == owned_tiles(tiles@, points@, *b, tiles@.len() as int),
{
    let mut v: Vec<(usize, usize)> = Vec::new();
    for k in 0..tiles.len()
        invariant
            points@.len() == tiles@.len(),
            v@ == owned_tiles(tiles@, points@, *b, k as int),
    {
        let p = points[k];
        let rep: Option<KeyPoint> = match p[0] {
            Some(x) => Some(x),
            None => match p[1] {
                Some(x) => Some(x),
                None => p[2],
            },
        };
        let own: bool = match rep {
            Some((x, y)) => b.west <= x && x < b.east && b.south <= y && y < b.north,
            None => false,
        };
        if own {
            v.push(tiles[k]);
        }
    }
    v
}

/// The boxes lie in the whole, have no point in common, and leave out none of its
/// points.
pub open spec fn tiles_box(whole: KeyBox, boxes: Seq<KeyBox>) -> bool {
    &&& forall|p: KeyPoint| #[trigger]
        in_key_box(whole, p) ==> exists|i: int| 0 <= i < boxes.len() && in_key_box(boxes[i], p)
    &&& forall|p: KeyPoint, i: int|
        0 <= i < boxes.len() && #[trigger] in_key_box(boxes[i], p) ==> in_key_box(whole, p)
    &&& forall|p: KeyPoint, i: int, j: int|
        0 <= i < boxes.len() && 0 <= j < boxes.len() && #[trigger] in_key_box(boxes[i], p)
            && #[trigger] in_key_box(boxes[j], p) ==> i == j
}

/// A box that is cut along a meridian is tiled by its two halves.
pub proof fn meridian_cuts_tile(whole: KeyBox, at: i64)
    requires
        whole.west <= at <= whole.east,
    ensures
        tiles_box(
            whole,
            seq![(KeyBox { east: at, ..whole }), (KeyBox { west: at, ..whole })],
        ),
{
    let boxes = seq![KeyBox { east: at, ..whole }, KeyBox { west: at, ..whole }];
    assert forall|p: KeyPoint| #[trigger] in_key_box(whole, p) implies exists|i: int|
        0 <= i < boxes.len() && in_key_box(boxes[i], p) by {
        if p.0 < at {
            assert(in_key_box(boxes[0], p));
        } else {
            assert(in_key_box(boxes[1], p));
        }
    }
}

/// A box that is cut along a parallel is tiled by its two halves.
pub proof fn parallel_cuts_tile(whole: KeyBox, at: i64)
    requires
        whole.south <= at <= whole.north,
    ensures
        tiles_box(
            whole,
            seq![(KeyBox { north: at, ..whole }), (KeyBox { south: at, ..whole })],
        ),
{
    let boxes = seq![KeyBox { north: at, ..whole }, KeyBox { south: at, ..whole }];
    assert forall|p: KeyPoint| #[trigger] in_key_box(whole, p) implies exists|i: int|
        0 <= i < boxes.len() && in_key_box(boxes[i], p) by {
        if p.1 < at {
            assert(in_key_box(boxes[0], p));
        } else {
            assert(in_key_box(boxes[1], p));
        }
    }
}

/// The tiles that the first `k` boxes own, box by box.
pub open spec fn gathered(
    tiles: Seq<(usize, usize)>,
    points: Seq<TilePoints>,
    boxes: Seq<KeyBox>,
    n: int,
    k: int,
) -> Seq<(usize, usize)>
    decreases k,
{
    if k <= 0 {
        Seq::empty()
    } else {
        gathered(tiles, points, boxes, n, k - 1) + owned_tiles(tiles, points, boxes[k - 1], n)
    }
}

proof fn lemma_gathered_step(
    tiles: Seq<(usize, usize)>,
    points: Seq<TilePoints>,
    boxes: Seq<KeyBox>,
    n: int,
    k: int,
)
    requires
        0 < n,
        0 <= k <= boxes.len(),
        forall|p: KeyPoint, i: int, j: int|
            0 <= i < boxes.len() && 0 <= j < boxes.len() && #[trigger] in_key_box(boxes[i], p)
                && #[trigger] in_key_box(boxes[j], p) ==> i == j,
    ensures
        gathered(tiles, points, boxes, n, k).to_multiset() == (if exists|i: int|
            0 <= i < k && owned(points[n - 1], #[trigger] boxes[i]) {
            gathered(tiles, points, boxes, n - 1, k).to_multiset().insert(tiles[n - 1])
        } else {
            gathered(tiles, points, boxes, n - 1, k).to_multiset()
        }),
    decreases k,
{
    if k > 0 {
        lemma_gathered_step(tiles, points, boxes, n, k - 1);
        let p = points[n - 1];
        let front = gathered(tiles, points, boxes, n, k - 1);
        let front0 = gathered(tiles, points, boxes, n - 1, k - 1);
        let own = owned_tiles(tiles, points, boxes[k - 1], n);
        let own0 = owned_tiles(tiles, points, boxes[k - 1], n - 1);
        lemma_multiset_commutative(front, own);
        lemma_multiset_commutative(front0, own0);
        own0.to_multiset_ensures();
        if owned(p, boxes[k - 1]) {
            assert(own == own0.push(tiles[n - 1]));
            assert forall|i: int| 0 <= i < k - 1 implies !owned(p, #[trigger] boxes[i]) by {
                if owned(p, boxes[i]) {
                    let q = representative(p)->Some_0;
                    assert(in_key_box(boxes[i], q) && in_key_box(boxes[k - 1], q));
                }
            }
            assert(front.to_multiset() == front0.to_multiset());
            assert(gathered(tiles, points, boxes, n, k).to_multiset() =~= gathered(
                tiles,
                points,
                boxes,
                n - 1,
                k,
            ).to_multiset().insert(tiles[n - 1]));
        } else {
            assert(own == own0);
            if exists|i: int| 0 <= i < k && owned(p, #[trigger] boxes[i]) {
                let i = choose|i: int| 0 <= i < k && owned(p, #[trigger] boxes[i]);
                assert(0 <= i < k - 1);
                assert(gathered(tiles, points, boxes, n, k).to_multiset() =~= gathered(
                    tiles,
                    points,
                    boxes,
                    n - 1,
                    k,
                ).to_multiset().insert(tiles[n - 1]));
            } else {
                assert(front.to_multiset() == front0.to_multiset());
            }
        }
    }
}

/// Boxes that tile a whole own its tiles between them: every tile that the whole
/// owns is owned by exactly one of the boxes, and they own no other. No tile is lost
/// or doubled at a shared edge.
pub proof fn tiling_boxes_share_out_the_tiles(
    tiles: Seq<(usize, usize)>,
    points: Seq<TilePoints>,
    whole: KeyBox,
    boxes: Seq<KeyBox>,
    n: int,
)
    requires
        tiles_box(whole, boxes),
        0 <= n <= tiles.len(),
        points.len() == tiles.len(),
    ensures
        gathered(tiles, points, boxes, n, boxes.len() as int).to_multiset() == owned_tiles(
            tiles,
            points,
            whole,
            n,
        ).to_multiset(),
        forall|k: int|
            0 <= k < n ==> (owned(#[trigger] points[k], whole) <==> exists|i: int|
                0 <= i < boxes.len() && owned(points[k], #[trigger] boxes[i])),
        forall|k: int, i: int, j: int|
            0 <= k < n && 0 <= i < boxes.len() && 0 <= j < boxes.len() && #[trigger] owned(
                points[k],
                boxes[i],
            ) && #[trigger] owned(points[k], boxes[j]) ==> i == j,
    decreases n,
{
    let m = boxes.len() as int;
    if n > 0 {
        tiling_boxes_share_out_the_tiles(tiles, points, whole, boxes, n - 1);
        lemma_gathered_step(tiles, points, boxes, n, m);
        let p = points[n - 1];
        if owned(p, whole) {
            let q = representative(p)->Some_0;
            assert(in_key_box(whole, q));
            let i = choose|i: int| 0 <= i < m && in_key_box(boxes[i], q);
            assert(owned(p, boxes[i]));
        }
        if exists|i: int| 0 <= i < m && owned(p, #[trigger] boxes[i]) {
            let i = choose|i: int| 0 <= i < m && owned(p, #[trigger] boxes[i]);
            assert(in_key_box(boxes[i], representative(p)->Some_0));
        }
        owned_tiles(tiles, points, whole, n - 1).to_multiset_ensures();
        assert forall|i: int, j: int|
            0 <= i < m && 0 <= j < m && #[trigger] owned(p, boxes[i]) && #[trigger] owned(
                p,
                boxes[j],
            ) implies i == j by {
            let q = representative(p)->Some_0;
            assert(in_key_box(boxes[i], q) && in_key_box(boxes[j], q));
        }
    } else {
        lemma_gathered_none(tiles, points, boxes, m);
    }
}

proof fn lemma_gathered_none(
    tiles: Seq<(usize, usize)>,
    points: Seq<TilePoints>,
    boxes: Seq<KeyBox>,
    k: int,
)
    ensures
        gathered(tiles, points, boxes, 0, k) == Seq::<(usize, usize)>::empty(),
    decreases k,
{
    if k > 0 {
        lemma_gathered_none(tiles, points, boxes, k - 1);
        assert(gathered(tiles, points, boxes, 0, k) =~= Seq::<(usize, usize)>::empty());
    }
}

// ---------------------------------------------------------------------------
// fetch units

/// Blocks per fetch task when runs of blocks are fetched together.
pub const STRIP_BLOCKS: usize = 4;

/// `b` is the tile right of `a` in the same row.
pub open spec fn follows(a: (usize, usize), b: (usize, usize)) -> bool {
    a.1 == b.1 && a.0 + 1 == b.0
}

/// The first `n` tiles in runs of at most `max_len` neighbours.
pub open spec fn strips_of(tiles: Seq<(usize, usize)>, max_len: int, n: int) -> Seq<
    Seq<(usize, usize)>,
>
    decreases n,
{
    if n <= 0 {
        Seq::empty()
    } else {
        let rest = strips_of(tiles, max_len, n - 1);
        let t = tiles[n - 1];
        if rest.len() > 0 && rest.last().len() < max_len && rest.last().len() > 0 && follows(
            rest.last().last(),
            t,
        ) {
            rest.update(rest.len() - 1, rest.last().push(t))
        } else {
            rest.push(seq![t])
        }
    }
}

/// The views of a list of lists.
pub open spec fn views(v: Seq<Vec<(usize, usize)>>) -> Seq<Seq<(usize, usize)>> {
    Seq::new(v.len(), |i: int| v[i]@)
}

/// Groups the tiles into fetch units: runs of up to `max_len` neighbours in one
/// tile row, in planning order.
pub fn plan_strips(tiles: &Vec<(usize, usize)>, max_len: usize) -> (r: Vec<Vec<(usize, usize)>>)
    ensures
        views(r@) == strips_of(tiles@, max_len as int, tiles@.len() as int),
{
    let mut out: Vec<Vec<(usize, usize)>> = Vec::new();
    assert(views(out@) =~= strips_of(tiles@, max_len as int, 0));
    for k in 0..tiles.len()
        invariant
            views(out@) == strips_of(tiles@, max_len as int, k as int),
    {
        let t = tiles[k];
        let ghost before = out@;
        let n: usize = out.len();
        let mut joins: bool = false;
        if n > 0 {
            let m: usize = out[n - 1].len();
            if m > 0 && m < max_len {
                let (x, y) = out[n - 1][m - 1];
                joins = y == t.1 && x < usize::MAX && x + 1 == t.0;
            }
        }
        assert(n > 0 ==> views(before).last() == before[n - 1]@);
        if joins {
            out[n - 1].push(t);
            assert(views(out@) =~= views(before).update(
                n - 1,
                views(before).last().push(t),
            ));
        } else {
            let mut run: Vec<(usize, usize)> = Vec::new();
            run.push(t);
            let ghost one = run@;
            assert(one =~= seq![t]);
            out.push(run);
            assert(views(out@) =~= views(before).push(seq![t]));
        }
    }
    out
}

/// The lists one after the other.
pub open spec fn joined(runs: Seq<Seq<(usize, usize)>>) -> Seq<(usize, usize)>
    decreases runs.len(),
{
    if runs.len() == 0 {
        Seq::empty()
    } else {
        joined(runs.drop_last()) + runs.last()
    }
}

/// The fetch units hold the planned tiles, each once and in order; none is
/// empty or longer than allowed, and each is a run of neighbours.
pub proof fn strips_hold_the_tiles(tiles: Seq<(usize, usize)>, max_len: int, n: int)
    requires
        0 <= n <= tiles.len(),
        max_len >= 1,
    ensures
        joined(strips_of(tiles, max_len, n)) == tiles.take(n),
        forall|i: int|
            0 <= i < strips_of(tiles, max_len, n).len() ==> 1 <= (#[trigger] strips_of(
                tiles,
                max_len,
                n,
            )[i]).len() <= max_len,
        forall|i: int, j: int|
            0 <= i < strips_of(tiles, max_len, n).len() && 0 <= j < strips_of(
                tiles,
                max_len,
                n,
            )[i].len() - 1 ==> #[trigger] follows(
                strips_of(tiles, max_len, n)[i][j],
                strips_of(tiles, max_len, n)[i][j + 1],
            ),
    decreases n,
{
    if n > 0 {
        strips_hold_the_tiles(tiles, max_len, n - 1);
        let rest = strips_of(tiles, max_len, n - 1);
        let now = strips_of(tiles, max_len, n);
        let t = tiles[n - 1];
        assert(tiles.take(n) == tiles.take(n - 1).push(t));
        if rest.len() > 0 && rest.last().len() < max_len && rest.last().len() > 0 && follows(
            rest.last().last(),
            t,
        ) {
            assert(now.drop_last() == rest.drop_last());
            assert(now.last() == rest.last().push(t));
            assert(joined(now) == joined(rest).push(t));
            assert forall|i: int, j: int|
                0 <= i < now.len() && 0 <= j < now[i].len() - 1 implies #[trigger] follows(
                now[i][j],
                now[i][j + 1],
            ) by {
                if i < now.len() - 1 {
                    assert(now[i] == rest[i]);
                    assert(follows(rest[i][j], rest[i][j + 1]));
                } else if j + 1 < now[i].len() - 1 {
                    assert(follows(rest[i][j], rest[i][j + 1]));
                }
            }
        } else {
            assert(now.drop_last() == rest);
            assert(joined(now) == joined(rest) + seq![t]);
            assert forall|i: int, j: int|
                0 <= i < now.len() && 0 <= j < now[i].len() - 1 implies #[trigger] follows(
                now[i][j],
                now[i][j + 1],
            ) by {
                assert(now[i] == rest[i]);
                assert(follows(rest[i][j], rest[i][j + 1]));
            }
        }
    } else {
        assert(tiles.take(0) =~= Seq::empty());
    }
}

/// Blocks can be decoded from their raw bytes: native byte order, no predictor,
/// and a layout that is known.
pub fn can_use_strips(native_order: bool, no_predictor: bool, planar: &Planar) -> (r: bool)
    ensures
        r == (native_order && no_predictor && !(planar is Other)),
{
    let known: bool = match planar {
        Planar::Other(_) => false,
        _ => true,
    };
    native_order && no_predictor && known
}

/// Fetch tasks in flight for `io_concurrency` blocks in flight.
pub fn fetch_tasks(use_strips: bool, io_concurrency: usize) -> (r: usize)
    ensures
        r == (if use_strips {
            if io_concurrency / STRIP_BLOCKS < 2 {
                2
            } else {
                io_concurrency / STRIP_BLOCKS
            }
        } else if io_concurrency < 1 {
            1
        } else {
            io_concurrency
        }),
{
    if use_strips {
        let n: usize = io_concurrency / STRIP_BLOCKS;
        if n < 2 {
            2
        } else {
            n
        }
    } else if io_concurrency < 1 {
        1
    } else {
        io_concurrency
    }
}

/// The number of tiles that wait between fetching and decoding.
pub fn channel_depth(cpu_workers: usize) -> (r: usize)
    requires
        cpu_workers * 2 <= usize::MAX,
    ensures
        r == (if cpu_workers * 2 < 4 {
            4
        } else {
            cpu_workers * 2
        }),
{
    if cpu_workers * 2 < 4 {
        4
    } else {
        cpu_workers * 2
    }
}

/// The exponent of the smallest power of two that is at least `n`, held between
/// 2 and 6.
pub open spec fn held_log2(n: int) -> u32 {
    if n <= 4 {
        2
    } else if n <= 8 {
        3
    } else if n <= 16 {
        4
    } else if n <= 32 {
        5
    } else {
        6
    }
}

/// How many partitions a read uses, as an exponent of two: four per worker,
/// between 4 and 64. One worker runs its stripes in order, so it uses a single
/// partition and its sums are reproducible.
pub fn partition_exponent(cpu_workers: usize) -> (r: u32)
    ensures
        r == (if cpu_workers <= 1 {
            0
        } else {
            held_log2(cpu_workers * 4)
        }),
        r <= crate::partition::MAX_LOG2P,
{
    if cpu_workers <= 1 {
        0
    } else if cpu_workers <= 2 {
        3
    } else if cpu_workers <= 4 {
        4
    } else if cpu_workers <= 8 {
        5
    } else {
        6
    }
}

/// The box that selects tiles: the user's, else the envelope of the area of
/// interest.
pub fn tile_selection_box<B>(bbox: Option<B>, tile_bbox: Option<B>) -> (r: Option<B>)
    ensures
        r == (match bbox {
            Some(b) => Some(b),
            None => tile_bbox,
        }),
{
    match bbox {
        Some(b) => Some(b),
        None => tile_bbox,
    }
}

/// The box that filters pixels: the user's, unless whole blocks are taken.
pub fn pixel_filter_box<B>(bbox: Option<B>, align_block: bool) -> (r: Option<B>)
    ensures
        r == (if align_block {
            None
        } else {
            bbox
        }),
{
    if align_block {
        None
    } else {
        bbox
    }
}

/// Width and height of the tiles of a level; images in strips are refused.
pub fn tile_size(l: &Level) -> (r: Result<(usize, usize), A5CogError>)
    ensures
        match l.tile {
            Some(t) => r == Ok::<(usize, usize), A5CogError>(t),
            None => r matches Err(e) && is_unsupported(
                e,
                "MVP requires tiled TIFF; strip-based not yet supported"@,
            ),
        },
{
    match l.tile {
        Some(t) => Ok(t),
        None => Err(unsupported("MVP requires tiled TIFF; strip-based not yet supported")),
    }
}

// ---------------------------------------------------------------------------
// laws

/// An image stands in for the full one exactly where it is smaller both ways and not
/// empty, has as many bands, is tiled, and, if its kind is marked at all, is marked as
/// reduced (bit 0) and not as a mask (bit 2).
pub proof fn overviews_are_smaller_tiled_images(l: Level, full_w: usize, full_h: usize, n: usize)
    ensures
        usable_overview(l, full_w, full_h, n) ==> 1 <= l.width && l.width < full_w && 1 <= l.height
            && l.height < full_h && l.n_bands == n && l.tile is Some,
        l.subfile_type matches Some(t) ==> usable_overview(l, full_w, full_h, n) ==> t & 1 == 1
            && t & 4 == 0,
        1 <= l.width && l.width < full_w && 1 <= l.height && l.height < full_h && l.n_bands == n
            && l.tile is Some && (l.subfile_type is None || (l.subfile_type->Some_0 & 1 == 1
            && l.subfile_type->Some_0 & 4 == 0)) ==> usable_overview(l, full_w, full_h, n),
{
    if let Some(t) = l.subfile_type {
        assert(t & 1 == 0 || t & 1 == 1) by (bit_vector);
    }
}

/// The overviews that are listed are the usable images behind the first, each once and in
/// file order.
pub proof fn every_usable_overview_is_listed(
    levels: Seq<Level>,
    full_w: usize,
    full_h: usize,
    n_bands: usize,
    n: int,
    i: usize,
)
    requires
        0 <= n <= levels.len() <= usize::MAX,
    ensures
        overviews(levels, full_w, full_h, n_bands, n).contains(i) <==> 1 <= i < n
            && usable_overview(levels[i as int], full_w, full_h, n_bands),
        forall|a: int, b: int|
            0 <= a < b < overviews(levels, full_w, full_h, n_bands, n).len() ==> (
            #[trigger] overviews(levels, full_w, full_h, n_bands, n)[a]) < (#[trigger] overviews(
                levels,
                full_w,
                full_h,
                n_bands,
                n,
            )[b]),
        forall|a: int|
            0 <= a < overviews(levels, full_w, full_h, n_bands, n).len() ==> (
            #[trigger] overviews(levels, full_w, full_h, n_bands, n)[a]) < n,
    decreases n,
{
    if n > 1 {
        every_usable_overview_is_listed(levels, full_w, full_h, n_bands, n - 1, i);
        let rest = overviews(levels, full_w, full_h, n_bands, n - 1);
        let now = overviews(levels, full_w, full_h, n_bands, n);
        if rest.contains(i) {
            let k = choose|k: int| 0 <= k < rest.len() && rest[k] == i;
            assert(now[k] == i);
        }
        if now.contains(i) {
            let k = choose|k: int| 0 <= k < now.len() && now[k] == i;
            if k < rest.len() {
                assert(rest[k] == i);
            }
        }
        if i == n - 1 && usable_overview(levels[n - 1], full_w, full_h, n_bands) {
            assert(now[rest.len() as int] == i);
        }
    }
}

/// Bands without a description are called `band_` and their number from one on, in at
/// least two digits.
pub proof fn bands_are_numbered_from_one(i: nat)
    ensures
        i + 1 < 10 ==> default_band_name(i) == "band_"@ + seq!['0'] + decimal(i + 1),
        i + 1 >= 10 ==> default_band_name(i) == "band_"@ + decimal(i + 1),
{
    reveal_strlit("band_0");
    reveal_strlit("band_");
    assert("band_0"@ =~= "band_"@ + seq!['0']);
}

/// Bands that are asked for by number are those of one less, counted from zero; by name,
/// the first of that name; and all of them, in file order, where none is asked for.
pub proof fn bands_are_found_by_number_or_name(
    bands_idx: Seq<i32>,
    bands_names: Seq<String>,
    n_bands: usize,
    all_names: Seq<String>,
    r: Result<Vec<usize>, A5CogError>,
    k: int,
)
    requires
        bands_resolved(bands_idx, bands_names, n_bands, all_names, r),
        0 <= k,
    ensures
        k < bands_idx.len() ==> {
            &&& r matches Ok(v) ==> v@.len() == bands_idx.len() && v@[k] + 1 == bands_idx[k] && 1
                <= bands_idx[k] <= n_bands
            &&& bands_idx[k] < 1 || bands_idx[k] > n_bands ==> (r matches Err(e) && e is Invalid)
        },
        bands_idx.len() > 0 && (forall|j: int|
            0 <= j < bands_idx.len() ==> 1 <= #[trigger] bands_idx[j] <= n_bands) ==> r is Ok,
        bands_idx.len() == 0 && k < bands_names.len() ==> {
            &&& r matches Ok(v) ==> {
                &&& v@.len() == bands_names.len()
                &&& v@[k] < all_names.len()
                &&& all_names[v@[k] as int]@ == bands_names[k]@
                &&& forall|j: int| 0 <= j < v@[k] ==> (#[trigger] all_names[j])@ != bands_names[k]@
            }
            &&& (forall|j: int|
                0 <= j < all_names.len() ==> (#[trigger] all_names[j])@ != bands_names[k]@) ==> (
            r matches Err(e) && e is Invalid)
        },
        bands_idx.len() == 0 && bands_names.len() == 0 ==> (r matches Ok(v) && v@.len() == n_bands
            && (k < n_bands ==> v@[k] == k)),
{
    if k < bands_idx.len() {
        if let Ok(v) = r {
            assert(v@[k] == bands_idx[k] - 1);
            assert(valid_band(bands_idx[k] as int, n_bands as int));
        }
    } else if bands_idx.len() == 0 && k < bands_names.len() {
        if let Ok(v) = r {
            assert(first_named(all_names, bands_names[k]@, v@[k] as int));
        }
    }
    if bands_idx.len() > 0 && r is Err {
        let e = r->Err_0;
        let j = choose|j: int|
            {
                &&& 0 <= j < bands_idx.len()
                &&& !valid_band(#[trigger] bands_idx[j] as int, n_bands as int)
                &&& forall|i: int|
                    0 <= i < j ==> valid_band(#[trigger] bands_idx[i] as int, n_bands as int)
                &&& is_invalid(e, band_out_of_range(bands_idx[j] as int, n_bands as nat))
            };
        assert(!(1 <= bands_idx[j] <= n_bands));
    }
}

/// A tile is represented by the centre of its top left pixel, else by its middle, else
/// by the centre of its bottom right pixel, in half pixels.
pub proof fn tiles_are_represented_from_the_top_left(tx: int, ty: int, w: int, h: int)
    ensures
        tile_candidate(tx, ty, w, h, 0) == (2 * (tx * w) + 1, 2 * (ty * h) + 1),
        2 * tile_candidate(tx, ty, w, h, 1).0 == tile_candidate(tx, ty, w, h, 0).0
            + tile_candidate(tx, ty, w, h, 2).0,
        2 * tile_candidate(tx, ty, w, h, 1).1 == tile_candidate(tx, ty, w, h, 0).1
            + tile_candidate(tx, ty, w, h, 2).1,
        tile_candidate(tx, ty, w, h, 2) == (2 * ((tx + 1) * w) - 1, 2 * ((ty + 1) * h) - 1),
{
    assert((tx + 1) * w == tx * w + w) by (nonlinear_arith);
    assert((ty + 1) * h == ty * h + h) by (nonlinear_arith);
}

/// A point belongs to a box from its west and south edge on, up to but not on its east
/// and north edge; a tile belongs where the first of its points that can be projected
/// does.
pub proof fn boxes_are_open_to_the_east_and_north(b: KeyBox, p: KeyPoint, t: TilePoints)
    ensures
        in_key_box(b, p) <==> b.west <= p.0 && p.0 < b.east && b.south <= p.1 && p.1 < b.north,
        p.0 == b.east || p.1 == b.north ==> !in_key_box(b, p),
        t@[0] matches Some(q) ==> owned(t, b) == in_key_box(b, q),
        t@[0] is None ==> (t@[1] matches Some(q) ==> owned(t, b) == in_key_box(b, q)),
        t@[0] is None && t@[1] is None ==> (t@[2] matches Some(q) ==> owned(t, b) == in_key_box(
            b,
            q,
        )),
        t@[0] is None && t@[1] is None && t@[2] is None ==> !owned(t, b),
{
}

/// A read uses a power of two of partitions, at least as many as asked for up to 64, and
/// no more than twice as many, but at least four.
pub proof fn partitions_are_rounded_up(n: int)
    ensures
        2 <= held_log2(n) <= 6,
        n <= 64 ==> n <= vstd::arithmetic::power2::pow2(held_log2(n) as nat),
        n > 4 ==> vstd::arithmetic::power2::pow2(held_log2(n) as nat) < 2 * n,
        n > 32 ==> held_log2(n) == 6,
        n <= 4 ==> held_log2(n) == 2,
{
    vstd::arithmetic::power2::lemma2_to64();
}

/// Fetch units are as long as they may be: a unit that is not full is not followed by the
/// right neighbour of its last tile.
pub proof fn strips_are_as_long_as_allowed(tiles: Seq<(usize, usize)>, max_len: int, n: int, i: int)
    requires
        0 <= n <= tiles.len(),
        max_len >= 1,
        0 <= i < strips_of(tiles, max_len, n).len() - 1,
    ensures
        ({
            let a = strips_of(tiles, max_len, n)[i];
            let b = strips_of(tiles, max_len, n)[i + 1];
            a.len() > 0 && b.len() > 0 && (a.len() >= max_len || !(a.last().1 == b[0].1
                && a.last().0 + 1 == b[0].0))
        }),
    decreases n,
{
    strips_hold_the_tiles(tiles, max_len, n);
    let now = strips_of(tiles, max_len, n);
    assert(1 <= now[i].len() && 1 <= now[i + 1].len());
    if n > 0 {
        strips_hold_the_tiles(tiles, max_len, n - 1);
        let rest = strips_of(tiles, max_len, n - 1);
        if i < rest.len() - 1 {
            strips_are_as_long_as_allowed(tiles, max_len, n - 1, i);
            assert(now[i] == rest[i]);
            assert(1 <= rest[i + 1].len());
            assert(now[i + 1][0] == rest[i + 1][0]);
        } else {
            assert(now[i] == rest.last());
            assert(now[i + 1] == seq![tiles[n - 1]]);
        }
    }
}

/// Bands have the names that describe them, or else their default names, one for each.
pub proof fn undescribed_bands_have_default_names(
    described: Seq<String>,
    n_bands: usize,
    names: Seq<String>,
    i: int,
)
    requires
        are_band_names(described, n_bands, names),
        0 <= i < names.len(),
    ensures
        described.len() > 0 ==> names == described,
        described.len() == 0 ==> names.len() == n_bands,
        described.len() == 0 && i < 9 ==> names[i]@ == "band_0"@ + decimal((i + 1) as nat),
        described.len() == 0 && i >= 9 ==> names[i]@ == "band_"@ + decimal((i + 1) as nat),
{
}

/// An unknown band is reported with what was asked for first and what there is behind
/// it: the range of the numbers, or the names in their order.
pub proof fn unknown_bands_are_reported_with_what_there_is(
    i: int,
    n_bands: nat,
    name: Seq<char>,
    names: Seq<String>,
    n: int,
)
    requires
        1 <= n < names.len(),
    ensures
        band_out_of_range(i, n_bands) == "band index "@ + (signed_decimal(i) + (
        " out of range 1..="@ + decimal(n_bands))),
        band_not_found(name, names) == "band name "@ + (quoted(name) + (" not found; available: "@
            + ("["@ + (quoted_items(names, names.len() as int) + "]"@)))),
        quoted_items(names, 1) == quoted(names[0]@),
        quoted_items(names, n + 1) == quoted_items(names, n) + (", "@ + quoted(names[n]@)),
{
    assert(band_out_of_range(i, n_bands) =~= "band index "@ + (signed_decimal(i) + (
    " out of range 1..="@ + decimal(n_bands))));
    assert(band_not_found(name, names) =~= "band name "@ + (quoted(name) + (
    " not found; available: "@ + ("["@ + (quoted_items(names, names.len() as int) + "]"@)))));
    assert(quoted_items(names, n + 1) =~= quoted_items(names, n) + (", "@ + quoted(names[n]@)));
}

/// An overview can be taken where it is usable and the size of its pixels is known.
pub proof fn overviews_are_taken_where_their_size_is_known(
    levels: Seq<Level>,
    sizes: Seq<Option<u64>>,
    full_w: usize,
    full_h: usize,
    n_bands: usize,
    i: int,
)
    ensures
        is_candidate(levels, sizes, full_w, full_h, n_bands, i) ==> sizes[i] is Some && 0 < i
            < levels.len() && 0 < levels[i].width < full_w && 0 < levels[i].height < full_h
            && levels[i].n_bands == n_bands && levels[i].tile is Some,
        0 < i < levels.len() && sizes[i] is Some && usable_overview(
            levels[i],
            full_w,
            full_h,
            n_bands,
        ) ==> is_candidate(levels, sizes, full_w, full_h, n_bands, i),
{
}

/// A column or row is held within the raster: it stays where it lies in it, and goes to
/// the nearest edge where it does not.
pub proof fn places_are_held_at_the_edges(x: int, size: int)
    requires
        0 < size,
    ensures
        0 <= held_within(x, size) < size,
        0 <= x < size ==> held_within(x, size) == x,
        x < 0 ==> held_within(x, size) == 0,
        x >= size ==> held_within(x, size) == size - 1,
{
}

/// The tiles of a strip stand side by side in one row, from west to east.
pub proof fn strips_run_along_rows(tiles: Seq<(usize, usize)>, max_len: int, i: int, j: int)
    requires
        max_len >= 1,
        0 <= i < strips_of(tiles, max_len, tiles.len() as int).len(),
        0 <= j < strips_of(tiles, max_len, tiles.len() as int)[i].len() - 1,
    ensures
        ({
            let s = strips_of(tiles, max_len, tiles.len() as int)[i];
            s[j + 1].0 == s[j].0 + 1 && s[j + 1].1 == s[j].1
        }),
{
    let n = tiles.len() as int;
    strips_hold_the_tiles(tiles, max_len, n);
    assert(follows(strips_of(tiles, max_len, n)[i][j], strips_of(tiles, max_len, n)[i][j + 1]));
}

} // verus!
