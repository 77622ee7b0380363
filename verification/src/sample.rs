//! Cell-driven (centroid) sampling: which tiles hold the pixels that a cell's
//! sample is computed from.
//!
//! Each cell's centroid has a stencil of pixels around it. A stencil that
//! crosses tile edges is split: every tile gives the pixels that it holds, and
//! the parts add up to the whole.

use vstd::prelude::*;

use ahash::AHashMap;

use crate::collections::{slot_map, slots_get, slots_insert, slots_with_capacity, MAX_CAPACITY};
use crate::error::{is_invalid, is_unsupported, unsupported, A5CogError};
use crate::store::{index_wf, lemma_slab_distinct, slab};
use crate::text::{join3, quote, quoted, str_eq};
use crate::tile::{part_within, Planar};

verus! {

// ---------------------------------------------------------------------------
// kernels

/// Resampling kernel of a centroid sample. Weights are renormalised over the
/// valid pixels, so partial stencils stay unbiased. The larger kernels have
/// negative lobes, which renormalising would amplify: where their stencil is
/// incomplete, the bilinear kernel takes their place.
#[derive(Clone, Copy, Debug, PartialEq, Eq, Structural)]
pub enum Interp {
    Nearest,
    Bilinear,
    Bicubic,
    Lanczos,
}

/// The kernel of a given name.
pub open spec fn interp_of(name: Seq<char>) -> Option<Interp> {
    if name == "nearest"@ {
        Some(Interp::Nearest)
    } else if name == "bilinear"@ {
        Some(Interp::Bilinear)
    } else if name == "bicubic"@ {
        Some(Interp::Bicubic)
    } else if name == "lanczos"@ {
        Some(Interp::Lanczos)
    } else {
        None
    }
}

/// The first offset and the number of pixels of a stencil along one axis,
/// relative to the last pixel whose centre is at or before the point.
pub open spec fn footprint_of(k: Interp) -> (i64, usize) {
    match k {
        Interp::Nearest => (0i64, 1usize),
        Interp::Bilinear => (0i64, 2usize),
        Interp::Bicubic => (-1i64, 4usize),
        Interp::Lanczos => (-2i64, 6usize),
    }
}

impl Interp {
    /// The kernel of this name; an unknown name is refused.
    pub fn parse(s: &str) -> (r: Result<Interp, A5CogError>)
        ensures
            match interp_of(s@) {
                Some(k) => r == Ok::<Interp, A5CogError>(k),
                None => r matches Err(e) && is_invalid(
                    e,
                    "unknown interp: "@ + quoted(s@)
                        + " (expected nearest/bilinear/bicubic/lanczos)"@,
                ),
            },
    {
        if str_eq(s, "nearest") {
            Ok(Interp::Nearest)
        } else if str_eq(s, "bilinear") {
            Ok(Interp::Bilinear)
        } else if str_eq(s, "bicubic") {
            Ok(Interp::Bicubic)
        } else if str_eq(s, "lanczos") {
            Ok(Interp::Lanczos)
        } else {
            let q = quote(s);
            Err(
                A5CogError::Invalid(
                    join3(
                        "unknown interp: ",
                        q.as_str(),
                        " (expected nearest/bilinear/bicubic/lanczos)",
                    ),
                ),
            )
        }
    }

    /// The first offset and the number of pixels of a stencil along one axis.
    pub fn footprint(&self) -> (r: (i64, usize))
        ensures
            r == footprint_of(*self),
    {
        match self {
            Interp::Nearest => (0, 1),
            Interp::Bilinear => (0, 2),
            Interp::Bicubic => (-1, 4),
            Interp::Lanczos => (-2, 6),
        }
    }
}

/// The first pixel and the number of pixels of a stencil along one axis.
/// `pixel` is the pixel that contains the point, `base` the last one whose
/// centre is at or before it.
pub fn stencil_start(interp: Interp, pixel: i64, base: i64) -> (r: (i64, usize))
    requires
        base >= i64::MIN + 2,
    ensures
        r == (if interp == Interp::Nearest {
            (pixel, 1usize)
        } else {
            ((base + footprint_of(interp).0) as i64, footprint_of(interp).1)
        }),
{
    if interp == Interp::Nearest {
        return (pixel, 1);
    }
    let (off, n) = interp.footprint();
    (base + off, n)
}

/// The kernel has negative lobes and needs a complete stencil.
pub open spec fn needs_whole(k: Interp) -> bool {
    k == Interp::Bicubic || k == Interp::Lanczos
}

/// Which pixel of the bilinear stencil the `j`-th pixel of an axis is.
pub open spec fn bilinear_place(k: Interp, j: int) -> Option<int> {
    let d = j + footprint_of(k).0;
    if 0 <= d < 2 && k != Interp::Nearest {
        Some(d)
    } else {
        None
    }
}

/// Which pixel of the bilinear stencil the `j`-th pixel of an axis is.
pub fn bilinear_part(interp: Interp, j: usize) -> (r: Option<usize>)
    requires
        j < footprint_of(interp).1,
    ensures
        match bilinear_place(interp, j as int) {
            Some(d) => r == Some(d as usize),
            None => r is None,
        },
{
    if interp == Interp::Nearest {
        return None;
    }
    let (off, _) = interp.footprint();
    let d: i64 = j as i64 + off;
    if d >= 0 && d < 2 {
        Some(d as usize)
    } else {
        None
    }
}

/// Every stencil but the nearest pixel holds the bilinear one: its pixel `d` is
/// the stencil's pixel `d - footprint_of(k).0`.
pub proof fn stencils_hold_the_bilinear_one(k: Interp, base: int, d: int)
    requires
        k != Interp::Nearest,
        0 <= d < 2,
    ensures
        ({
            let j = d - footprint_of(k).0;
            &&& 0 <= j < footprint_of(k).1
            &&& bilinear_place(k, j) == Some(d)
            &&& base + footprint_of(k).0 + j == base + footprint_of(Interp::Bilinear).0 + d
        }),
{
}

/// The sample of one band: that of the kernel, or the bilinear one where the
/// kernel needs a complete stencil and has fewer valid pixels.
pub open spec fn chosen<V>(k: Interp, n_valid: int, whole: Option<V>, part: Option<V>) -> Option<V> {
    if needs_whole(k) && n_valid < footprint_of(k).1 * footprint_of(k).1 {
        part
    } else {
        whole
    }
}

/// The samples of all cells and bands. `n_valid` counts the valid pixels of each
/// stencil; `whole` are the kernel's samples and `part` the bilinear ones, none
/// where their valid pixels have no weight.
pub fn choose_samples<V: Copy>(
    interp: Interp,
    n_valid: &Vec<u32>,
    whole: &Vec<Option<V>>,
    part: &Vec<Option<V>>,
) -> (r: Vec<Option<V>>)
    requires
        whole@.len() == n_valid@.len(),
        part@.len() == n_valid@.len(),
    ensures
        r@.len() == n_valid@.len(),
        forall|i: int|
            0 <= i < r@.len() ==> #[trigger] r@[i] == chosen(
                interp,
                n_valid@[i] as int,
                whole@[i],
                part@[i],
            ),
{
    let (_, n) = interp.footprint();
    let needed: u32 = (n * n) as u32;
    let picky: bool = interp == Interp::Bicubic || interp == Interp::Lanczos;
    let mut out: Vec<Option<V>> = Vec::new();
    for i in 0..n_valid.len()
        invariant
            whole@.len() == n_valid@.len(),
            part@.len() == n_valid@.len(),
            picky == needs_whole(interp),
            needed == footprint_of(interp).1 * footprint_of(interp).1,
            out@.len() == i,
            forall|k: int|
                0 <= k < i ==> #[trigger] out@[k] == chosen(
                    interp,
                    n_valid@[k] as int,
                    whole@[k],
                    part@[k],
                ),
    {
        let v: Option<V> = if picky && n_valid[i] < needed {
            part[i]
        } else {
            whole[i]
        };
        out.push(v);
    }
    out
}

/// A complete stencil keeps the kernel's own sample.
pub proof fn complete_stencils_keep_their_kernel<V>(
    k: Interp,
    whole: Option<V>,
    part: Option<V>,
)
    ensures
        chosen(k, footprint_of(k).1 * footprint_of(k).1, whole, part) == whole,
{
}

// ---------------------------------------------------------------------------
// stencils and tiles

/// The pixels that one cell's sample is computed from: columns `sx..sx + nx`
/// and rows `sy..sy + ny`, some of them perhaps beside the raster.
#[derive(Clone, Copy)]
pub struct Stencil {
    pub sx: i64,
    pub nx: usize,
    pub sy: i64,
    pub ny: usize,
}

/// The first pixel of an axis that lies in the raster.
pub open spec fn axis_lo(start: int) -> int {
    if start < 0 {
        0
    } else {
        start
    }
}

/// The last pixel of an axis that lies in a raster of `size` pixels.
pub open spec fn axis_hi(start: int, n: int, size: int) -> int {
    if start + n - 1 < size - 1 {
        start + n - 1
    } else {
        size - 1
    }
}

/// The raster that is sampled, and its tiles.
#[derive(Clone, Copy)]
pub struct Grid {
    pub width: usize,
    pub height: usize,
    pub tile_w: usize,
    pub tile_h: usize,
}

impl Grid {
    /// Tiles are not empty, and pixels and tiles can be numbered.
    pub open spec fn wf(&self) -> bool {
        &&& 0 < self.tile_w
        &&& 0 < self.tile_h
        &&& self.width <= i64::MAX
        &&& self.height <= i64::MAX
        &&& self.width + self.tile_w <= usize::MAX
        &&& self.height + self.tile_h <= usize::MAX
        &&& self.width * self.height <= u64::MAX
    }

    /// Tiles per row.
    pub open spec fn tiles_x(&self) -> int {
        (self.width + self.tile_w - 1) / (self.tile_w as int)
    }
}

/// The stencil has a pixel in the raster.
pub open spec fn in_raster(g: Grid, s: Stencil) -> bool {
    axis_lo(s.sx as int) <= axis_hi(s.sx as int, s.nx as int, g.width as int) && axis_lo(
        s.sy as int,
    ) <= axis_hi(s.sy as int, s.ny as int, g.height as int)
}

/// The stencil has a pixel of the raster in tile `(tx, ty)`.
pub open spec fn touches(g: Grid, s: Stencil, tx: int, ty: int) -> bool {
    &&& in_raster(g, s)
    &&& axis_lo(s.sx as int) / (g.tile_w as int) <= tx <= axis_hi(
        s.sx as int,
        s.nx as int,
        g.width as int,
    ) / (g.tile_w as int)
    &&& axis_lo(s.sy as int) / (g.tile_h as int) <= ty <= axis_hi(
        s.sy as int,
        s.ny as int,
        g.height as int,
    ) / (g.tile_h as int)
}

/// The in-raster part of an axis, both ends counted in; none where it is empty.
fn axis_span(start: i64, n: usize, size: usize) -> (r: Option<(usize, usize)>)
    requires
        size <= i64::MAX,
        start + n <= i64::MAX,
    ensures
        match r {
            Some((lo, hi)) => lo == axis_lo(start as int) && hi == axis_hi(
                start as int,
                n as int,
                size as int,
            ) && lo <= hi && hi < size,
            None => axis_lo(start as int) > axis_hi(start as int, n as int, size as int),
        },
{
    let lo: i128 = if start < 0 {
        0
    } else {
        start as i128
    };
    let end: i128 = start as i128 + n as i128 - 1;
    let last: i128 = size as i128 - 1;
    let hi: i128 = if end < last {
        end
    } else {
        last
    };
    if lo <= hi {
        Some((lo as usize, hi as usize))
    } else {
        None
    }
}

/// The cells whose stencils touch one tile, by their position in the input.
pub struct TileTask {
    pub tx: usize,
    pub ty: usize,
    pub entries: Vec<usize>,
}

/// The number of a tile, row by row.
pub open spec fn tile_key(g: Grid, tx: int, ty: int) -> int {
    ty * g.tiles_x() + tx
}

/// The tile numbers of tasks.
pub open spec fn task_keys(g: Grid, tasks: Seq<TileTask>) -> Seq<u64> {
    Seq::new(tasks.len(), |t: int| tile_key(g, tasks[t].tx as int, tasks[t].ty as int) as u64)
}

/// The positions in an entry list ascend strictly.
pub open spec fn strictly_ascending(e: Seq<usize>) -> bool {
    forall|a: int, b: int| 0 <= a < b < e.len() ==> #[trigger] e[a] < #[trigger] e[b]
}

/// The tile is one of the raster's.
pub open spec fn is_tile(g: Grid, tx: int, ty: int) -> bool {
    0 <= tx < g.tiles_x() && 0 <= ty < g.height
}

/// The tasks hold exactly the pairs of a cell and a tile that `pairs` tells,
/// each once, one task per tile.
pub open spec fn tasks_hold(
    g: Grid,
    tasks: Seq<TileTask>,
    pairs: spec_fn(int, int, int) -> bool,
) -> bool {
    &&& forall|t: int|
        0 <= t < tasks.len() ==> is_tile(
            g,
            (#[trigger] tasks[t]).tx as int,
            tasks[t].ty as int,
        ) && strictly_ascending(tasks[t].entries@) && tasks[t].entries@.len() > 0
    &&& forall|t: int, u: int|
        0 <= t < u < tasks.len() ==> ((#[trigger] tasks[t]).tx, tasks[t].ty) != ((
        #[trigger] tasks[u]).tx, tasks[u].ty)
    &&& forall|t: int, i: usize|
        0 <= t < tasks.len() ==> #[trigger] tasks[t].entries@.contains(i) == pairs(
            i as int,
            tasks[t].tx as int,
            tasks[t].ty as int,
        )
    &&& forall|i: int, tx: int, ty: int| #[trigger]
        pairs(i, tx, ty) ==> exists|t: int|
            0 <= t < tasks.len() && (#[trigger] tasks[t]).tx == tx && tasks[t].ty == ty
}

/// Tasks with an index by tile number.
pub struct Buckets {
    pub index: AHashMap<u64, u32>,
    pub tasks: Vec<TileTask>,
}

impl Buckets {
    /// The index gives each task its position.
    pub open spec fn wf(&self, g: Grid) -> bool {
        index_wf(slot_map(self.index), task_keys(g, self.tasks@))
    }
}

proof fn lemma_tile_key(g: Grid, tx: int, ty: int)
    requires
        g.wf(),
        is_tile(g, tx, ty),
    ensures
        0 <= tile_key(g, tx, ty) < g.width * g.height,
        0 < g.tiles_x() <= g.width,
{
    let n = g.tiles_x();
    let w = g.width as int;
    let tw = g.tile_w as int;
    assert(0 <= n);
    if w == 0 {
        assert((tw - 1) / tw == 0) by (nonlinear_arith)
            requires
                tw > 0,
        ;
    }
    assert(w > 0);
    assert((w + tw - 1) / tw <= w) by (nonlinear_arith)
        requires
            w > 0,
            tw > 0,
    ;
    assert(ty * n + tx < w * (g.height as int)) by (nonlinear_arith)
        requires
            0 <= tx < n,
            n <= w,
            0 <= ty < g.height as int,
    ;
    assert(0 <= ty * n) by (nonlinear_arith)
        requires
            0 <= ty,
            0 <= n,
    ;
}

/// The pairs with one more.
pub open spec fn with_pair(
    pairs: spec_fn(int, int, int) -> bool,
    i: int,
    tx: int,
    ty: int,
) -> spec_fn(int, int, int) -> bool {
    |a: int, x: int, y: int| pairs(a, x, y) || (a == i && x == tx && y == ty)
}

impl Buckets {
    /// Adds a cell to the task of a tile.
    fn add_entry(
        &mut self,
        g: &Grid,
        tiles_x: u64,
        tx: usize,
        ty: usize,
        i: usize,
        pairs: Ghost<spec_fn(int, int, int) -> bool>,
    )
        requires
            g.wf(),
            tiles_x == g.tiles_x(),
            is_tile(*g, tx as int, ty as int),
            old(self).wf(*g),
            old(self).tasks@.len() < u32::MAX,
            tasks_hold(*g, old(self).tasks@, pairs@),
            !pairs@(i as int, tx as int, ty as int),
            forall|a: int, x: int, y: int| #[trigger] pairs@(a, x, y) ==> a <= i,
        ensures
            final(self).wf(*g),
            final(self).tasks@.len() <= old(self).tasks@.len() + 1,
            tasks_hold(
                *g,
                final(self).tasks@,
                with_pair(pairs@, i as int, tx as int, ty as int),
            ),
    {
        let ghost before = *self;
        let ghost more = with_pair(pairs@, i as int, tx as int, ty as int);
        proof {
            lemma_tile_key(*g, tx as int, ty as int);
            assert(0 <= ty * g.tiles_x()) by (nonlinear_arith)
                requires
                    0 <= ty,
                    0 <= g.tiles_x(),
            ;
        }
        let key: u64 = ty as u64 * tiles_x + tx as u64;
        assert(key == tile_key(*g, tx as int, ty as int));
        match slots_get(&self.index, key) {
            Some(s) => {
                let p: usize = s as usize;
                let ghost task = before.tasks@[p as int];
                proof {
                    assert(task_keys(*g, before.tasks@)[p as int] == key);
                    lemma_tile_key(*g, task.tx as int, task.ty as int);
                    lemma_slab_distinct(
                        task.ty as int,
                        task.tx as int,
                        ty as int,
                        tx as int,
                        g.tiles_x(),
                    );
                    assert(task.entries@.contains(i) == pairs@(
                        i as int,
                        task.tx as int,
                        task.ty as int,
                    ));
                }
                self.tasks[p].entries.push(i);
                proof {
                    let after = self.tasks@;
                    assert(task_keys(*g, after) =~= task_keys(*g, before.tasks@));
                    let e0 = task.entries@;
                    let e1 = after[p as int].entries@;
                    assert(e1 == e0.push(i));
                    assert forall|a: int, b: int| 0 <= a < b < e1.len() implies #[trigger] e1[a]
                        < #[trigger] e1[b] by {
                        if b == e0.len() {
                            assert(e0.contains(e0[a]));
                            assert(pairs@(e0[a] as int, task.tx as int, task.ty as int));
                            assert(e0[a] != i);
                        }
                    }
                    assert forall|t: int, k: usize|
                        0 <= t < after.len() implies #[trigger] after[t].entries@.contains(k)
                        == more(k as int, after[t].tx as int, after[t].ty as int) by {
                        assert(before.tasks@[t].entries@.contains(k) == pairs@(
                            k as int,
                            before.tasks@[t].tx as int,
                            before.tasks@[t].ty as int,
                        ));
                        if t == p {
                            if e0.contains(k) {
                                let j = choose|j: int| 0 <= j < e0.len() && e0[j] == k;
                                assert(e1[j] == k);
                            }
                            if k == i {
                                assert(e1[e0.len() as int] == k);
                            }
                            if e1.contains(k) && k != i {
                                let j = choose|j: int| 0 <= j < e1.len() && e1[j] == k;
                                assert(e0[j] == k);
                            }
                        } else {
                            assert(after[t] == before.tasks@[t]);
                            let lo = if t < p {
                                t
                            } else {
                                p as int
                            };
                            let hi = if t < p {
                                p as int
                            } else {
                                t
                            };
                            assert((before.tasks@[lo].tx, before.tasks@[lo].ty) != (
                                before.tasks@[hi].tx,
                                before.tasks@[hi].ty,
                            ));
                        }
                    }
                    assert forall|a: int, x: int, y: int| #[trigger] more(a, x, y) implies exists|
                        t: int,
                    | 0 <= t < after.len() && (#[trigger] after[t]).tx == x && after[t].ty == y by {
                        if pairs@(a, x, y) {
                            let t = choose|t: int|
                                0 <= t < before.tasks@.len() && (#[trigger] before.tasks@[t]).tx
                                    == x && before.tasks@[t].ty == y;
                            assert(after[t].tx == x && after[t].ty == y);
                        } else {
                            assert(after[p as int].tx == x && after[p as int].ty == y);
                        }
                    }
                    assert forall|t: int, u: int| 0 <= t < u < after.len() implies ((
                    #[trigger] after[t]).tx, after[t].ty) != ((#[trigger] after[u]).tx, after[u].ty) by {
                        assert((before.tasks@[t].tx, before.tasks@[t].ty) != (
                            before.tasks@[u].tx,
                            before.tasks@[u].ty,
                        ));
                    }
                    assert forall|t: int| 0 <= t < after.len() implies is_tile(
                        *g,
                        (#[trigger] after[t]).tx as int,
                        after[t].ty as int,
                    ) && strictly_ascending(after[t].entries@) && after[t].entries@.len() > 0 by {
                        assert(is_tile(
                            *g,
                            before.tasks@[t].tx as int,
                            before.tasks@[t].ty as int,
                        ));
                    }
                }
            },
            None => {
                let p: usize = self.tasks.len();
                let mut entries: Vec<usize> = Vec::new();
                entries.push(i);
                let ghost e1 = entries@;
                slots_insert(&mut self.index, key, p as u32);
                self.tasks.push(TileTask { tx, ty, entries });
                proof {
                    let after = self.tasks@;
                    assert(task_keys(*g, after) =~= task_keys(*g, before.tasks@).push(key));
                    assert forall|t: int| 0 <= t < p implies !((#[trigger] before.tasks@[t]).tx
                        == tx && before.tasks@[t].ty == ty) by {
                        assert(slot_map(before.index).contains_key(
                            task_keys(*g, before.tasks@)[t],
                        ));
                    }
                    assert(e1 =~= seq![i]);
                    assert forall|t: int, k: usize|
                        0 <= t < after.len() implies #[trigger] after[t].entries@.contains(k)
                        == more(k as int, after[t].tx as int, after[t].ty as int) by {
                        if t < p {
                            assert(after[t] == before.tasks@[t]);
                            assert(before.tasks@[t].entries@.contains(k) == pairs@(
                                k as int,
                                before.tasks@[t].tx as int,
                                before.tasks@[t].ty as int,
                            ));
                        } else {
                            if pairs@(k as int, tx as int, ty as int) {
                                let u = choose|u: int|
                                    0 <= u < before.tasks@.len() && (#[trigger] before.tasks@[u]).tx
                                        == tx && before.tasks@[u].ty == ty;
                                assert(false);
                            }
                            if k == i {
                                assert(e1[0] == k);
                            }
                        }
                    }
                    assert forall|a: int, x: int, y: int| #[trigger] more(a, x, y) implies exists|
                        t: int,
                    | 0 <= t < after.len() && (#[trigger] after[t]).tx == x && after[t].ty == y by {
                        if pairs@(a, x, y) {
                            let t = choose|t: int|
                                0 <= t < before.tasks@.len() && (#[trigger] before.tasks@[t]).tx
                                    == x && before.tasks@[t].ty == y;
                            assert(after[t].tx == x && after[t].ty == y);
                        } else {
                            assert(after[p as int].tx == x && after[p as int].ty == y);
                        }
                    }
                    assert forall|t: int, u: int| 0 <= t < u < after.len() implies ((
                    #[trigger] after[t]).tx, after[t].ty) != ((#[trigger] after[u]).tx, after[u].ty) by {
                        if u < p {
                            assert((before.tasks@[t].tx, before.tasks@[t].ty) != (
                                before.tasks@[u].tx,
                                before.tasks@[u].ty,
                            ));
                        } else {
                            assert(after[t] == before.tasks@[t]);
                        }
                    }
                    assert forall|t: int| 0 <= t < after.len() implies is_tile(
                        *g,
                        (#[trigger] after[t]).tx as int,
                        after[t].ty as int,
                    ) && strictly_ascending(after[t].entries@) && after[t].entries@.len() > 0 by {
                        if t < p {
                            assert(after[t] == before.tasks@[t]);
                        }
                    }
                }
            },
        }
    }
}

/// Two ways to tell the same pairs.
proof fn lemma_same_pairs(
    g: Grid,
    tasks: Seq<TileTask>,
    p: spec_fn(int, int, int) -> bool,
    q: spec_fn(int, int, int) -> bool,
)
    requires
        tasks_hold(g, tasks, p),
        forall|a: int, x: int, y: int| #[trigger] p(a, x, y) == q(a, x, y),
    ensures
        tasks_hold(g, tasks, q),
{
    assert forall|t: int, i: usize|
        0 <= t < tasks.len() implies #[trigger] tasks[t].entries@.contains(i) == q(
        i as int,
        tasks[t].tx as int,
        tasks[t].ty as int,
    ) by {
        assert(p(i as int, tasks[t].tx as int, tasks[t].ty as int) == q(
            i as int,
            tasks[t].tx as int,
            tasks[t].ty as int,
        ));
    }
    assert forall|a: int, x: int, y: int| #[trigger] q(a, x, y) implies exists|t: int|
        0 <= t < tasks.len() && (#[trigger] tasks[t]).tx == x && tasks[t].ty == y by {
        assert(p(a, x, y) == q(a, x, y));
    }
}

/// Cell `i` is among the first `n` and its stencil touches the tile.
pub open spec fn touching(g: Grid, stencils: Seq<Option<Stencil>>, n: int) -> spec_fn(
    int,
    int,
    int,
) -> bool {
    |i: int, tx: int, ty: int|
        0 <= i < n && (stencils[i] matches Some(s) && touches(g, s, tx, ty))
}

/// As `touching` the first `n` cells, with the tiles of cell `n` that come before
/// `(tx, ty)` row by row.
pub open spec fn touching_partly(
    g: Grid,
    stencils: Seq<Option<Stencil>>,
    n: int,
    tx: int,
    ty: int,
) -> spec_fn(int, int, int) -> bool {
    |i: int, x: int, y: int|
        (0 <= i < n && (stencils[i] matches Some(s) && touches(g, s, x, y))) || (i == n && (
        stencils[n] matches Some(s) && touches(g, s, x, y)) && (y < ty || (y == ty && x < tx)))
}

/// The text of the error for more tiles than can be numbered.
pub open spec fn too_many_tiles() -> Seq<char> {
    "too many tiles"@
}

/// Groups the cells by the tiles that their stencils touch, one task per tile;
/// cells without a stencil are left out.
///
/// A cell whose stencil crosses tile edges appears in the task of each tile that
/// it touches. Only a raster whose touched tiles cannot be numbered is refused.
pub fn bucket_cells(g: &Grid, stencils: &Vec<Option<Stencil>>) -> (r: Result<
    Vec<TileTask>,
    A5CogError,
>)
    requires
        g.wf(),
        forall|i: int|
            0 <= i < stencils@.len() ==> (#[trigger] stencils@[i] matches Some(s) ==> s.sx + s.nx
                <= i64::MAX && s.sy + s.ny <= i64::MAX),
    ensures
        match r {
            Ok(v) => tasks_hold(*g, v@, touching(*g, stencils@, stencils@.len() as int)),
            Err(e) => crate::error::is_internal(e, too_many_tiles()) && exists|tasks: Seq<TileTask>|
                #![trigger task_keys(*g, tasks)]
                tasks.len() >= u32::MAX && exists|p: spec_fn(int, int, int) -> bool| #[trigger]
                    tasks_hold(*g, tasks, p) && forall|a: int, x: int, y: int| #[trigger]
                        p(a, x, y) ==> touching(*g, stencils@, stencils@.len() as int)(a, x, y),
        },
{
    let tiles_x: u64 = ((g.width + g.tile_w - 1) / g.tile_w) as u64;
    let n: usize = stencils.len();
    let cap: usize = if n / 16 + 1 < MAX_CAPACITY {
        n / 16 + 1
    } else {
        MAX_CAPACITY
    };
    let mut b = Buckets { index: slots_with_capacity(cap), tasks: Vec::new() };
    assert(task_keys(*g, b.tasks@) =~= Seq::empty());
    for i in 0..n
        invariant
            g.wf(),
            tiles_x == g.tiles_x(),
            n == stencils@.len(),
            forall|i: int|
                0 <= i < stencils@.len() ==> (#[trigger] stencils@[i] matches Some(s) ==> s.sx
                    + s.nx <= i64::MAX && s.sy + s.ny <= i64::MAX),
            b.wf(*g),
            b.tasks@.len() <= u32::MAX,
            tasks_hold(*g, b.tasks@, touching(*g, stencils@, i as int)),
    {
        let ghost so_far = touching(*g, stencils@, i as int);
        let ghost next = touching(*g, stencils@, i + 1);
        match stencils[i] {
            None => {
                proof {
                    assert forall|a: int, x: int, y: int| #[trigger] so_far(a, x, y) == next(
                        a,
                        x,
                        y,
                    ) by {}
                    lemma_same_pairs(*g, b.tasks@, so_far, next);
                }
            },
            Some(s) => {
                assert(s.sx + s.nx <= i64::MAX && s.sy + s.ny <= i64::MAX);
                let xs = axis_span(s.sx, s.nx, g.width);
                let ys = axis_span(s.sy, s.ny, g.height);
                match (xs, ys) {
                    (Some((x_lo, x_hi)), Some((y_lo, y_hi))) => {
                        let tx_lo: usize = x_lo / g.tile_w;
                        let tx_hi: usize = x_hi / g.tile_w;
                        let ty_lo: usize = y_lo / g.tile_h;
                        let ty_hi: usize = y_hi / g.tile_h;
                        proof {
                            lemma_tile_of_pixel(*g, x_hi as int, y_hi as int);
                            vstd::arithmetic::div_mod::lemma_div_is_ordered(
                                x_lo as int,
                                x_hi as int,
                                g.tile_w as int,
                            );
                            vstd::arithmetic::div_mod::lemma_div_is_ordered(
                                y_lo as int,
                                y_hi as int,
                                g.tile_h as int,
                            );
                            let start = touching_partly(
                                *g,
                                stencils@,
                                i as int,
                                tx_lo as int,
                                ty_lo as int,
                            );
                            assert forall|a: int, x: int, y: int| #[trigger] so_far(a, x, y)
                                == start(a, x, y) by {}
                            lemma_same_pairs(*g, b.tasks@, so_far, start);
                        }
                        for ty in ty_lo..ty_hi + 1
                            invariant
                                g.wf(),
                                tiles_x == g.tiles_x(),
                                i < n,
                                n == stencils@.len(),
                                stencils@[i as int] == Some(s),
                                in_raster(*g, s),
                                tx_lo == axis_lo(s.sx as int) / (g.tile_w as int),
                                tx_hi == axis_hi(s.sx as int, s.nx as int, g.width as int) / (
                                g.tile_w as int),
                                ty_lo == axis_lo(s.sy as int) / (g.tile_h as int),
                                ty_hi == axis_hi(s.sy as int, s.ny as int, g.height as int) / (
                                g.tile_h as int),
                                tx_lo <= tx_hi,
                                ty_lo <= ty_hi,
                                is_tile(*g, tx_hi as int, ty_hi as int),
                                b.wf(*g),
                                b.tasks@.len() <= u32::MAX,
                                tasks_hold(
                                    *g,
                                    b.tasks@,
                                    touching_partly(
                                        *g,
                                        stencils@,
                                        i as int,
                                        tx_lo as int,
                                        ty as int,
                                    ),
                                ),
                        {
                            for tx in tx_lo..tx_hi + 1
                                invariant
                                    g.wf(),
                                    tiles_x == g.tiles_x(),
                                    i < n,
                                    n == stencils@.len(),
                                    stencils@[i as int] == Some(s),
                                    in_raster(*g, s),
                                    tx_lo == axis_lo(s.sx as int) / (g.tile_w as int),
                                    tx_hi == axis_hi(s.sx as int, s.nx as int, g.width as int) / (
                                    g.tile_w as int),
                                    ty_lo == axis_lo(s.sy as int) / (g.tile_h as int),
                                    ty_hi == axis_hi(s.sy as int, s.ny as int, g.height as int) / (
                                    g.tile_h as int),
                                    tx_lo <= tx_hi,
                                    ty_lo <= ty <= ty_hi,
                                    is_tile(*g, tx_hi as int, ty_hi as int),
                                    b.wf(*g),
                                    b.tasks@.len() <= u32::MAX,
                                    tasks_hold(
                                        *g,
                                        b.tasks@,
                                        touching_partly(
                                            *g,
                                            stencils@,
                                            i as int,
                                            tx as int,
                                            ty as int,
                                        ),
                                    ),
                            {
                                let ghost part = touching_partly(
                                    *g,
                                    stencils@,
                                    i as int,
                                    tx as int,
                                    ty as int,
                                );
                                if b.tasks.len() >= u32::MAX as usize {
                                    proof {
                                        let all = touching(*g, stencils@, n as int);
                                        assert forall|a: int, x: int, y: int| #[trigger]
                                            part(a, x, y) implies all(a, x, y) by {}
                                        assert(tasks_hold(*g, b.tasks@, part));
                                        assert(task_keys(*g, b.tasks@) == task_keys(
                                            *g,
                                            b.tasks@,
                                        ));
                                    }
                                    return Err(A5CogError::Internal("too many tiles".to_owned()));
                                }
                                b.add_entry(g, tiles_x, tx, ty, i, Ghost(part));
                                proof {
                                    let more = with_pair(part, i as int, tx as int, ty as int);
                                    let then_part = touching_partly(
                                        *g,
                                        stencils@,
                                        i as int,
                                        tx + 1,
                                        ty as int,
                                    );
                                    assert forall|a: int, x: int, y: int| #[trigger] more(a, x, y)
                                        == then_part(a, x, y) by {}
                                    lemma_same_pairs(*g, b.tasks@, more, then_part);
                                }
                            }
                            proof {
                                let row_done = touching_partly(
                                    *g,
                                    stencils@,
                                    i as int,
                                    tx_hi + 1,
                                    ty as int,
                                );
                                let row_next = touching_partly(
                                    *g,
                                    stencils@,
                                    i as int,
                                    tx_lo as int,
                                    ty + 1,
                                );
                                assert forall|a: int, x: int, y: int| #[trigger] row_done(a, x, y)
                                    == row_next(a, x, y) by {}
                                lemma_same_pairs(*g, b.tasks@, row_done, row_next);
                            }
                        }
                        proof {
                            let done = touching_partly(
                                *g,
                                stencils@,
                                i as int,
                                tx_lo as int,
                                ty_hi + 1,
                            );
                            assert forall|a: int, x: int, y: int| #[trigger] done(a, x, y) == next(
                                a,
                                x,
                                y,
                            ) by {}
                            lemma_same_pairs(*g, b.tasks@, done, next);
                        }
                    },
                    _ => {
                        proof {
                            assert(!in_raster(*g, s));
                            assert forall|a: int, x: int, y: int| #[trigger] so_far(a, x, y)
                                == next(a, x, y) by {}
                            lemma_same_pairs(*g, b.tasks@, so_far, next);
                        }
                    },
                }
            },
        }
    }
    Ok(b.tasks)
}

proof fn lemma_tile_of_pixel(g: Grid, x: int, y: int)
    requires
        g.wf(),
        0 <= x < g.width,
        0 <= y < g.height,
    ensures
        is_tile(g, x / (g.tile_w as int), y / (g.tile_h as int)),
        x / (g.tile_w as int) < usize::MAX,
        y / (g.tile_h as int) < usize::MAX,
{
    let tw = g.tile_w as int;
    let th = g.tile_h as int;
    let w = g.width as int;
    vstd::arithmetic::div_mod::lemma_div_is_ordered(x, w - 1, tw);
    assert((w - 1) / tw < (w + tw - 1) / tw) by (nonlinear_arith)
        requires
            w >= 1,
            tw > 0,
    ;
    assert(0 <= x / tw <= x) by (nonlinear_arith)
        requires
            0 <= x,
            tw > 0,
    ;
    assert(0 <= y / th <= y) by (nonlinear_arith)
        requires
            0 <= y,
            th > 0,
    ;
}

// ---------------------------------------------------------------------------
// the part of a stencil that a tile holds

/// A stencil pixel that a tile holds: its place in the stencil, and its column
/// and row in the tile.
#[derive(Clone, Copy)]
pub struct StencilPixel {
    pub jx: usize,
    pub jy: usize,
    pub c: usize,
    pub r: usize,
}

/// Pixel `g0` of an axis lies in the part of the raster that tile `t` holds.
pub open spec fn in_tile(g0: int, size: int, tile: int, t: int) -> bool {
    0 <= g0 - t * tile < part_within(size, t * tile, tile)
}

/// Tile `(tx, ty)` holds pixel `(jx, jy)` of the stencil.
pub open spec fn holds_pixel(g: Grid, s: Stencil, tx: int, ty: int, jx: int, jy: int) -> bool {
    &&& 0 <= jx < s.nx
    &&& 0 <= jy < s.ny
    &&& in_tile(s.sx + jx, g.width as int, g.tile_w as int, tx)
    &&& in_tile(s.sy + jy, g.height as int, g.tile_h as int, ty)
}

/// The pixel `(jx, jy)` of a stencil as a pixel of tile `(tx, ty)`.
pub open spec fn pixel_in_tile(g: Grid, s: Stencil, tx: int, ty: int, jx: int, jy: int) -> StencilPixel {
    StencilPixel {
        jx: jx as usize,
        jy: jy as usize,
        c: (s.sx + jx - tx * g.tile_w) as usize,
        r: (s.sy + jy - ty * g.tile_h) as usize,
    }
}

/// The stencil pixels of one row that the tile holds, among the first `n`.
pub open spec fn held_in_row(g: Grid, s: Stencil, tx: int, ty: int, jy: int, n: int) -> Seq<
    StencilPixel,
>
    decreases n,
{
    if n <= 0 {
        Seq::empty()
    } else if holds_pixel(g, s, tx, ty, n - 1, jy) {
        held_in_row(g, s, tx, ty, jy, n - 1).push(pixel_in_tile(g, s, tx, ty, n - 1, jy))
    } else {
        held_in_row(g, s, tx, ty, jy, n - 1)
    }
}

/// The stencil pixels that the tile holds, among the first `n` rows.
pub open spec fn held_pixels(g: Grid, s: Stencil, tx: int, ty: int, n: int) -> Seq<StencilPixel>
    decreases n,
{
    if n <= 0 {
        Seq::empty()
    } else {
        held_pixels(g, s, tx, ty, n - 1) + held_in_row(g, s, tx, ty, n - 1, s.nx as int)
    }
}

/// The pixel of an axis in the tile that starts at `t0` and holds `part` pixels.
fn place_in_tile(start: i64, j: usize, t0: usize, part: usize) -> (r: Option<usize>)
    requires
        start + j <= i64::MAX,
        t0 <= i64::MAX,
    ensures
        match r {
            Some(c) => c == start + j - t0 && c < part,
            None => !(0 <= start + j - t0 < part),
        },
{
    let g0: i128 = start as i128 + j as i128;
    let d: i128 = g0 - t0 as i128;
    if d >= 0 && d < part as i128 {
        Some(d as usize)
    } else {
        None
    }
}

/// The pixels of a stencil that tile `(tx, ty)` holds, row by row.
pub fn stencil_pixels(g: &Grid, s: &Stencil, tx: usize, ty: usize) -> (r: Vec<StencilPixel>)
    requires
        s.sx + s.nx <= i64::MAX,
        s.sy + s.ny <= i64::MAX,
        tx * g.tile_w <= i64::MAX,
        ty * g.tile_h <= i64::MAX,
        tx * g.tile_w <= usize::MAX,
        ty * g.tile_h <= usize::MAX,
    ensures
        r@ == held_pixels(*g, *s, tx as int, ty as int, s.ny as int),
{
    let (part_w, part_h) = crate::tile::actual_dims(
        g.width,
        g.height,
        g.tile_w,
        g.tile_h,
        tx,
        ty,
    );
    let x0: usize = tx * g.tile_w;
    let y0: usize = ty * g.tile_h;
    let mut out: Vec<StencilPixel> = Vec::new();
    for jy in 0..s.ny
        invariant
            s.sx + s.nx <= i64::MAX,
            s.sy + s.ny <= i64::MAX,
            x0 == tx * g.tile_w,
            y0 == ty * g.tile_h,
            x0 <= i64::MAX,
            y0 <= i64::MAX,
            part_w == part_within(g.width as int, x0 as int, g.tile_w as int),
            part_h == part_within(g.height as int, y0 as int, g.tile_h as int),
            out@ == held_pixels(*g, *s, tx as int, ty as int, jy as int),
    {
        let ghost before = out@;
        let row = place_in_tile(s.sy, jy, y0, part_h);
        for jx in 0..s.nx
            invariant
                s.sx + s.nx <= i64::MAX,
                s.sy + s.ny <= i64::MAX,
                x0 == tx * g.tile_w,
                y0 == ty * g.tile_h,
                x0 <= i64::MAX,
                y0 <= i64::MAX,
                jy < s.ny,
                part_w == part_within(g.width as int, x0 as int, g.tile_w as int),
                part_h == part_within(g.height as int, y0 as int, g.tile_h as int),
                match row {
                    Some(r) => r == s.sy + jy - y0 && r < part_h,
                    None => !(0 <= s.sy + jy - y0 < part_h),
                },
                out@ == before + held_in_row(
                    *g,
                    *s,
                    tx as int,
                    ty as int,
                    jy as int,
                    jx as int,
                ),
        {
            let col = place_in_tile(s.sx, jx, x0, part_w);
            if let (Some(c), Some(r)) = (col, row) {
                out.push(StencilPixel { jx, jy, c, r });
                assert(holds_pixel(*g, *s, tx as int, ty as int, jx as int, jy as int));
            } else {
                assert(!holds_pixel(*g, *s, tx as int, ty as int, jx as int, jy as int));
            }
            assert(out@ =~= before + held_in_row(
                *g,
                *s,
                tx as int,
                ty as int,
                jy as int,
                jx + 1,
            ));
        }
    }
    out
}

/// Every pixel of a stencil that lies in the raster is held by exactly one tile,
/// and that tile is one that the stencil touches: the parts of a split stencil
/// add up to the whole, with no pixel lost or counted twice.
pub proof fn stencil_pixels_are_split(g: Grid, s: Stencil, jx: int, jy: int, tx: int, ty: int)
    requires
        g.wf(),
        0 <= jx < s.nx,
        0 <= jy < s.ny,
        0 <= s.sx + jx < g.width,
        0 <= s.sy + jy < g.height,
        0 <= tx,
        0 <= ty,
    ensures
        holds_pixel(g, s, tx, ty, jx, jy) <==> tx == (s.sx + jx) / (g.tile_w as int) && ty == (s.sy
            + jy) / (g.tile_h as int),
        holds_pixel(g, s, tx, ty, jx, jy) ==> touches(g, s, tx, ty),
{
    let x = s.sx + jx;
    let y = s.sy + jy;
    crate::tile::pixel_lies_in_one_tile(g.width as int, g.tile_w as int, x, tx);
    crate::tile::pixel_lies_in_one_tile(g.height as int, g.tile_h as int, y, ty);
    crate::plan::tile_range_covers_box(
        axis_lo(s.sx as int),
        axis_hi(s.sx as int, s.nx as int, g.width as int),
        g.width as int,
        x,
        g.tile_w as int,
    );
    crate::plan::tile_range_covers_box(
        axis_lo(s.sy as int),
        axis_hi(s.sy as int, s.ny as int, g.height as int),
        g.height as int,
        y,
        g.tile_h as int,
    );
}

/// A tile holds no pixel that lies beside the raster.
pub proof fn no_tile_holds_outside_pixels(g: Grid, s: Stencil, jx: int, jy: int, tx: int, ty: int)
    requires
        g.wf(),
        0 <= tx,
        0 <= ty,
        holds_pixel(g, s, tx, ty, jx, jy),
    ensures
        0 <= s.sx + jx < g.width,
        0 <= s.sy + jy < g.height,
{
    assert(0 <= tx * g.tile_w) by (nonlinear_arith)
        requires
            0 <= tx,
            0 <= g.tile_w,
    ;
    assert(0 <= ty * g.tile_h) by (nonlinear_arith)
        requires
            0 <= ty,
            0 <= g.tile_h,
    ;
}

// ---------------------------------------------------------------------------
// output

/// Some band of cell `i` has a sample.
pub open spec fn has_sample<V>(samples: Seq<Option<V>>, n_out: int, i: int) -> bool {
    exists|b: int| 0 <= b < n_out && (#[trigger] slab(samples, n_out, i, b)) is Some
}

/// The first `n` cells that have a sample.
pub open spec fn sampled_cells<V>(
    cells: Seq<u64>,
    samples: Seq<Option<V>>,
    n_out: int,
    n: int,
) -> Seq<u64>
    decreases n,
{
    if n <= 0 {
        Seq::empty()
    } else if has_sample(samples, n_out, n - 1) {
        sampled_cells(cells, samples, n_out, n - 1).push(cells[n - 1])
    } else {
        sampled_cells(cells, samples, n_out, n - 1)
    }
}

/// The bands of cell `i`.
pub open spec fn cell_bands<V>(samples: Seq<Option<V>>, n_out: int, i: int) -> Seq<Option<V>> {
    Seq::new(n_out as nat, |b: int| slab(samples, n_out, i, b))
}

/// The bands of the first `n` cells that have a sample, cell by cell.
pub open spec fn sampled_values<V>(samples: Seq<Option<V>>, n_out: int, n: int) -> Seq<Option<V>>
    decreases n,
{
    if n <= 0 {
        Seq::empty()
    } else if has_sample(samples, n_out, n - 1) {
        sampled_values(samples, n_out, n - 1) + cell_bands(samples, n_out, n - 1)
    } else {
        sampled_values(samples, n_out, n - 1)
    }
}

/// The cells that have a sample, with their samples cell by cell.
///
/// `samples` holds, cell by cell, the sample of each band, none where the band
/// has none; a cell without any sample is dropped.
pub fn centroid_output<V: Copy>(cells: &Vec<u64>, samples: &Vec<Option<V>>, n_out: usize) -> (r: (
    Vec<u64>,
    Vec<Option<V>>,
))
    requires
        samples@.len() == cells@.len() * n_out,
    ensures
        r.0@ == sampled_cells(cells@, samples@, n_out as int, cells@.len() as int),
        r.1@ == sampled_values(samples@, n_out as int, cells@.len() as int),
{
    let mut out: Vec<u64> = Vec::new();
    let mut flat: Vec<Option<V>> = Vec::new();
    for i in 0..cells.len()
        invariant
            samples@.len() == cells@.len() * n_out,
            out@ == sampled_cells(cells@, samples@, n_out as int, i as int),
            flat@ == sampled_values(samples@, n_out as int, i as int),
    {
        proof {
            crate::store::lemma_slab_grows(i as int, cells@.len() as int, n_out as int);
            assert((i + 1) * n_out == i * n_out + n_out) by (nonlinear_arith);
            crate::store::lemma_slab_grows(i + 1, cells@.len() as int, n_out as int);
            assert(samples.len() <= usize::MAX);
        }
        let base: usize = i * n_out;
        let mut any: bool = false;
        for b in 0..n_out
            invariant
                i < cells@.len(),
                samples@.len() == cells@.len() * n_out,
                base == i * n_out,
                base + n_out <= samples@.len(),
                base + n_out <= usize::MAX,
                any == (exists|k: int|
                    0 <= k < b && (#[trigger] slab(samples@, n_out as int, i as int, k)) is Some),
        {
            assert(slab(samples@, n_out as int, i as int, b as int) == samples@[base + b]);
            any = any || samples[base + b].is_some();
        }
        if any {
            out.push(cells[i]);
            let ghost before = flat@;
            let ghost row = cell_bands(samples@, n_out as int, i as int);
            for b in 0..n_out
                invariant
                    i < cells@.len(),
                    samples@.len() == cells@.len() * n_out,
                    base == i * n_out,
                    base + n_out <= samples@.len(),
                    base + n_out <= usize::MAX,
                    row == cell_bands(samples@, n_out as int, i as int),
                    flat@ == before + row.take(b as int),
            {
                let v: Option<V> = samples[base + b];
                flat.push(v);
                assert(row[b as int] == v);
                assert(row.take(b + 1) =~= row.take(b as int).push(v));
            }
            assert(row.take(n_out as int) =~= row);
        }
    }
    (out, flat)
}

/// Whether only the selected bands of a tile are fetched. Bands fetched so are
/// decoded from their raw bytes, which takes native byte order and no predictor.
pub fn use_band_fetch(
    planar: &Planar,
    n_out: usize,
    n_bands: usize,
    native_order: bool,
    no_predictor: bool,
) -> (r: bool)
    ensures
        r == (planar is Separate && n_out < n_bands && native_order && no_predictor),
{
    let separate: bool = match planar {
        Planar::Separate => true,
        _ => false,
    };
    separate && n_out < n_bands && native_order && no_predictor
}

/// The raster can be sampled: it is not rotated and is tiled.
pub fn check_samplable(rotated: bool, tile: Option<(usize, usize)>) -> (r: Result<
    (usize, usize),
    A5CogError,
>)
    ensures
        if rotated {
            r matches Err(e) && is_unsupported(
                e,
                "rotated geotransform is not supported in centroid mode"@,
            )
        } else {
            match tile {
                None => r matches Err(e) && is_unsupported(
                    e,
                    "centroid mode requires a tiled TIFF"@,
                ),
                Some(t) => r == Ok::<(usize, usize), A5CogError>(t),
            }
        },
{
    if rotated {
        return Err(unsupported("rotated geotransform is not supported in centroid mode"));
    }
    match tile {
        None => Err(unsupported("centroid mode requires a tiled TIFF")),
        Some(t) => Ok(t),
    }
}

// ---------------------------------------------------------------------------
// laws

/// Each kernel is asked for by its own word and no other.
pub proof fn words_mean_their_kernels(name: Seq<char>)
    ensures
        interp_of(name) == Some(Interp::Nearest) <==> name == "nearest"@,
        interp_of(name) == Some(Interp::Bilinear) <==> name == "bilinear"@,
        interp_of(name) == Some(Interp::Bicubic) <==> name == "bicubic"@,
        interp_of(name) == Some(Interp::Lanczos) <==> name == "lanczos"@,
{
    reveal_strlit("nearest");
    reveal_strlit("bilinear");
    reveal_strlit("bicubic");
    reveal_strlit("lanczos");
    assert("nearest"@.len() == 7 && "nearest"@[0] == 'n');
    assert("bilinear"@.len() == 8);
    assert("bicubic"@.len() == 7 && "bicubic"@[0] == 'b');
    assert("lanczos"@.len() == 7 && "lanczos"@[0] == 'l');
}

/// A stencil has 1, 2, 4 or 6 pixels along each axis; but for the nearest pixel it lies
/// evenly around the point, as many pixels before it as behind it.
pub proof fn stencils_lie_evenly_around_the_point(k: Interp)
    ensures
        k == Interp::Nearest <==> footprint_of(k).1 == 1,
        k == Interp::Bilinear <==> footprint_of(k).1 == 2,
        k == Interp::Bicubic <==> footprint_of(k).1 == 4,
        k == Interp::Lanczos <==> footprint_of(k).1 == 6,
        k == Interp::Nearest ==> footprint_of(k).0 == 0,
        k != Interp::Nearest ==> 2 * footprint_of(k).0 + footprint_of(k).1 == 2,
        needs_whole(k) <==> footprint_of(k).1 > 2,
{
}

/// The bilinear stencil is made of the two middle pixels of a wider one, in order.
pub proof fn bilinear_pixels_are_the_middle_ones(k: Interp, j: int)
    ensures
        k == Interp::Bilinear ==> bilinear_place(k, 0) == Some(0int) && bilinear_place(k, 1) == Some(
            1int,
        ),
        k == Interp::Bicubic ==> bilinear_place(k, 1) == Some(0int) && bilinear_place(k, 2) == Some(
            1int,
        ),
        k == Interp::Lanczos ==> bilinear_place(k, 2) == Some(0int) && bilinear_place(k, 3) == Some(
            1int,
        ),
        k == Interp::Nearest ==> bilinear_place(k, j) is None,
        bilinear_place(k, j) matches Some(d) ==> (d == 0 || d == 1) && d == j + footprint_of(k).0,
        k != Interp::Nearest && (j + footprint_of(k).0 < 0 || j + footprint_of(k).0 > 1)
            ==> bilinear_place(k, j) is None,
{
}

/// A cubic or Lanczos kernel is used only where all 16 or 36 pixels of its stencil are
/// valid, and the bilinear one in its place; the others are used on what there is.
pub proof fn incomplete_stencils_fall_back<V>(
    k: Interp,
    n_valid: int,
    whole: Option<V>,
    part: Option<V>,
)
    ensures
        k == Interp::Nearest || k == Interp::Bilinear ==> chosen(k, n_valid, whole, part) == whole,
        k == Interp::Bicubic && n_valid < 16 ==> chosen(k, n_valid, whole, part) == part,
        k == Interp::Bicubic && n_valid >= 16 ==> chosen(k, n_valid, whole, part) == whole,
        k == Interp::Lanczos && n_valid < 36 ==> chosen(k, n_valid, whole, part) == part,
        k == Interp::Lanczos && n_valid >= 36 ==> chosen(k, n_valid, whole, part) == whole,
{
}

/// The positions of an axis that a stencil has in the raster.
proof fn lemma_axis(start: int, n: int, size: int, x: int)
    ensures
        axis_lo(start) <= x <= axis_hi(start, n, size) <==> start <= x < start + n && 0 <= x < size,
{
}

proof fn lemma_axis_tile(start: int, n: int, size: int, tile: int, t: int)
    requires
        tile > 0,
    ensures
        (axis_lo(start) <= axis_hi(start, n, size) && axis_lo(start) / tile <= t <= axis_hi(
            start,
            n,
            size,
        ) / tile) <==> exists|x: int|
            #![trigger x / tile]
            start <= x < start + n && 0 <= x < size && x / tile == t,
{
    let (a, z) = (axis_lo(start), axis_hi(start, n, size));
    if exists|x: int|
        #![trigger x / tile]
        start <= x < start + n && 0 <= x < size && x / tile == t {
        let x = choose|x: int|
            #![trigger x / tile]
            start <= x < start + n && 0 <= x < size && x / tile == t;
        lemma_axis(start, n, size, x);
        vstd::arithmetic::div_mod::lemma_div_is_ordered(a, x, tile);
        vstd::arithmetic::div_mod::lemma_div_is_ordered(x, z, tile);
    }
    if a <= z && a / tile <= t <= z / tile {
        let x = if t * tile < a {
            a
        } else {
            t * tile
        };
        vstd::arithmetic::div_mod::lemma_fundamental_div_mod(a, tile);
        vstd::arithmetic::div_mod::lemma_fundamental_div_mod(z, tile);
        vstd::arithmetic::div_mod::lemma_mod_bound(a, tile);
        vstd::arithmetic::div_mod::lemma_mod_bound(z, tile);
        assert(t * tile <= (z / tile) * tile) by (nonlinear_arith)
            requires
                t <= z / tile,
                tile > 0,
        ;
        assert((z / tile) * tile == tile * (z / tile)) by (nonlinear_arith);
        if t * tile < a {
            assert(t == a / tile) by (nonlinear_arith)
                requires
                    t * tile < a,
                    a / tile <= t,
                    a == tile * (a / tile) + a % tile,
                    0 <= a % tile < tile,
                    tile > 0,
            ;
        } else {
            vstd::arithmetic::div_mod::lemma_div_multiples_vanish(t, tile);
            assert(tile * t == t * tile) by (nonlinear_arith);
        }
        assert(x / tile == t);
        lemma_axis(start, n, size, x);
    }
}

/// A stencil touches a tile exactly where one of its pixels is a pixel of the raster that
/// lies in the tile.
pub proof fn stencils_touch_the_tiles_of_their_pixels(g: Grid, s: Stencil, tx: int, ty: int)
    requires
        g.tile_w > 0,
        g.tile_h > 0,
    ensures
        touches(g, s, tx, ty) <==> (exists|x: int|
            #![trigger x / (g.tile_w as int)]
            s.sx <= x < s.sx + s.nx && 0 <= x < g.width && x / (g.tile_w as int) == tx) && (
        exists|y: int|
            #![trigger y / (g.tile_h as int)]
            s.sy <= y < s.sy + s.ny && 0 <= y < g.height && y / (g.tile_h as int) == ty),
{
    lemma_axis_tile(s.sx as int, s.nx as int, g.width as int, g.tile_w as int, tx);
    lemma_axis_tile(s.sy as int, s.ny as int, g.height as int, g.tile_h as int, ty);
}

/// A tile holds a pixel of a stencil exactly where that is a pixel of the raster in the
/// tile, and holds it in the column and row that remain.
pub proof fn tiles_hold_their_own_pixels(
    g: Grid,
    s: Stencil,
    tx: int,
    ty: int,
    jx: int,
    jy: int,
)
    requires
        g.wf(),
        0 <= tx,
        0 <= ty,
        0 <= jx < s.nx,
        0 <= jy < s.ny,
    ensures
        ({
            let (x, y) = (s.sx + jx, s.sy + jy);
            &&& holds_pixel(g, s, tx, ty, jx, jy) <==> 0 <= x < g.width && 0 <= y < g.height && x / (
            g.tile_w as int) == tx && y / (g.tile_h as int) == ty
            &&& holds_pixel(g, s, tx, ty, jx, jy) ==> {
                let p = pixel_in_tile(g, s, tx, ty, jx, jy);
                p.jx == jx && p.jy == jy && p.c == x % (g.tile_w as int) && p.r == y % (
                g.tile_h as int)
            }
        }),
{
    let (x, y) = (s.sx + jx, s.sy + jy);
    lemma_in_tile(x, g.width as int, g.tile_w as int, tx);
    lemma_in_tile(y, g.height as int, g.tile_h as int, ty);
}

proof fn lemma_in_tile(x: int, size: int, tile: int, t: int)
    requires
        tile > 0,
        0 <= t,
        0 <= size,
    ensures
        in_tile(x, size, tile, t) <==> 0 <= x < size && x / tile == t,
        in_tile(x, size, tile, t) ==> x - t * tile == x % tile,
{
    assert(0 <= t * tile) by (nonlinear_arith)
        requires
            0 <= t,
            0 <= tile,
    ;
    if 0 <= x < size {
        crate::tile::pixel_lies_in_one_tile(size, tile, x, t);
    }
    crate::tile::tiles_are_valid_as_far_as_the_raster(size, t * tile, tile, x - t * tile);
    if in_tile(x, size, tile, t) {
        vstd::arithmetic::div_mod::lemma_fundamental_div_mod(x, tile);
        assert(tile * t == t * tile) by (nonlinear_arith);
    }
}

/// How many of the first `n` cells have a sample in some band.
pub open spec fn sampled_before<V>(samples: Seq<Option<V>>, n_out: int, n: int) -> nat
    decreases n,
{
    if n <= 0 {
        0
    } else {
        sampled_before(samples, n_out, n - 1) + if exists|b: int|
            0 <= b < n_out && (#[trigger] samples[(n - 1) * n_out + b]) is Some {
            1nat
        } else {
            0
        }
    }
}

proof fn lemma_has_sample<V>(samples: Seq<Option<V>>, n_out: int, i: int)
    ensures
        has_sample(samples, n_out, i) <==> exists|b: int|
            0 <= b < n_out && (#[trigger] samples[i * n_out + b]) is Some,
{
    if has_sample(samples, n_out, i) {
        let b = choose|b: int| 0 <= b < n_out && (#[trigger] slab(samples, n_out, i, b)) is Some;
        assert(samples[i * n_out + b] is Some);
    }
    if exists|b: int| 0 <= b < n_out && (#[trigger] samples[i * n_out + b]) is Some {
        let b = choose|b: int| 0 <= b < n_out && (#[trigger] samples[i * n_out + b]) is Some;
        assert(slab(samples, n_out, i, b) is Some);
    }
}

/// A sampling returns exactly the cells that have a sample in any band, in the order in
/// which they were asked for, each with all its bands as they were sampled.
pub proof fn sampled_cells_come_with_their_bands<V>(
    cells: Seq<u64>,
    samples: Seq<Option<V>>,
    n_out: int,
    n: int,
    i: int,
    b: int,
)
    requires
        0 <= i < n <= cells.len(),
        0 <= b < n_out,
    ensures
        sampled_cells(cells, samples, n_out, n).len() == sampled_before(samples, n_out, n),
        sampled_values(samples, n_out, n).len() == n_out * sampled_before(samples, n_out, n),
        samples[i * n_out + b] is Some ==> {
            let k = sampled_before(samples, n_out, i) as int;
            &&& k < sampled_cells(cells, samples, n_out, n).len()
            &&& sampled_cells(cells, samples, n_out, n)[k] == cells[i]
            &&& sampled_values(samples, n_out, n)[n_out * k + b] == samples[i * n_out + b]
        },
    decreases n,
{
    lemma_sampled_len(cells, samples, n_out, n - 1);
    lemma_sampled_len(cells, samples, n_out, n);
    lemma_has_sample(samples, n_out, n - 1);
    let m = sampled_before(samples, n_out, n - 1) as int;
    if i < n - 1 {
        sampled_cells_come_with_their_bands(cells, samples, n_out, n - 1, i, b);
        if samples[i * n_out + b] is Some {
            let k = sampled_before(samples, n_out, i) as int;
            assert(n_out * k + b < n_out * m) by (nonlinear_arith)
                requires
                    0 <= k,
                    k + 1 <= m,
                    0 <= b < n_out,
            ;
            assert(0 <= n_out * k) by (nonlinear_arith)
                requires
                    0 <= k,
                    0 <= n_out,
            ;
        }
    } else if samples[i * n_out + b] is Some {
        assert(has_sample(samples, n_out, n - 1));
        assert(cell_bands(samples, n_out, i)[b] == samples[i * n_out + b]);
    }
}

proof fn lemma_sampled_len<V>(cells: Seq<u64>, samples: Seq<Option<V>>, n_out: int, n: int)
    requires
        0 <= n <= cells.len(),
        0 <= n_out,
    ensures
        sampled_cells(cells, samples, n_out, n).len() == sampled_before(samples, n_out, n),
        sampled_values(samples, n_out, n).len() == n_out * sampled_before(samples, n_out, n),
    decreases n,
{
    if n > 0 {
        lemma_sampled_len(cells, samples, n_out, n - 1);
        lemma_has_sample(samples, n_out, n - 1);
        let m = sampled_before(samples, n_out, n - 1);
        assert(n_out * (m + 1) == n_out * m + n_out) by (nonlinear_arith);
    } else {
        assert(n_out * 0 == 0) by (nonlinear_arith);
    }
}

/// `p` comes before `q`, row by row.
pub open spec fn earlier_pixel(p: StencilPixel, q: StencilPixel) -> bool {
    p.jy < q.jy || (p.jy == q.jy && p.jx < q.jx)
}

proof fn lemma_held_row(g: Grid, s: Stencil, tx: int, ty: int, jy: int, n: int)
    requires
        0 <= jy < s.ny,
        0 <= n <= s.nx,
    ensures
        ({
            let row = held_in_row(g, s, tx, ty, jy, n);
            &&& forall|k: int|
                0 <= k < row.len() ==> (#[trigger] row[k]).jy == jy && row[k].jx < n && holds_pixel(
                    g,
                    s,
                    tx,
                    ty,
                    row[k].jx as int,
                    jy,
                ) && row[k] == pixel_in_tile(g, s, tx, ty, row[k].jx as int, jy)
            &&& forall|a: int, b: int|
                0 <= a < b < row.len() ==> earlier_pixel(#[trigger] row[a], #[trigger] row[b])
            &&& forall|jx: int|
                0 <= jx < n && holds_pixel(g, s, tx, ty, jx, jy) ==> row.contains(
                    #[trigger] pixel_in_tile(g, s, tx, ty, jx, jy),
                )
        }),
    decreases n,
{
    if n > 0 {
        lemma_held_row(g, s, tx, ty, jy, n - 1);
        let rest = held_in_row(g, s, tx, ty, jy, n - 1);
        let row = held_in_row(g, s, tx, ty, jy, n);
        assert forall|jx: int|
            0 <= jx < n && holds_pixel(g, s, tx, ty, jx, jy) implies row.contains(
            #[trigger] pixel_in_tile(g, s, tx, ty, jx, jy),
        ) by {
            let p = pixel_in_tile(g, s, tx, ty, jx, jy);
            if jx < n - 1 {
                assert(rest.contains(p));
                let k = choose|k: int| 0 <= k < rest.len() && rest[k] == p;
                assert(row[k] == p);
            } else {
                assert(row[rest.len() as int] == p);
            }
        }
    }
}

/// The pixels that a tile contributes to a stencil are those that it holds, each once, row
/// by row from the left.
pub proof fn tiles_give_each_pixel_once(g: Grid, s: Stencil, tx: int, ty: int, n: int)
    requires
        0 <= n <= s.ny,
    ensures
        ({
            let all = held_pixels(g, s, tx, ty, n);
            &&& forall|k: int|
                0 <= k < all.len() ==> (#[trigger] all[k]).jy < n && holds_pixel(
                    g,
                    s,
                    tx,
                    ty,
                    all[k].jx as int,
                    all[k].jy as int,
                ) && all[k] == pixel_in_tile(g, s, tx, ty, all[k].jx as int, all[k].jy as int)
            &&& forall|a: int, b: int|
                0 <= a < b < all.len() ==> earlier_pixel(#[trigger] all[a], #[trigger] all[b])
            &&& forall|jx: int, jy: int|
                0 <= jx < s.nx && 0 <= jy < n && holds_pixel(g, s, tx, ty, jx, jy) ==> all.contains(
                    #[trigger] pixel_in_tile(g, s, tx, ty, jx, jy),
                )
        }),
    decreases n,
{
    if n > 0 {
        tiles_give_each_pixel_once(g, s, tx, ty, n - 1);
        lemma_held_row(g, s, tx, ty, n - 1, s.nx as int);
        let rest = held_pixels(g, s, tx, ty, n - 1);
        let row = held_in_row(g, s, tx, ty, n - 1, s.nx as int);
        let all = held_pixels(g, s, tx, ty, n);
        assert forall|a: int, b: int| 0 <= a < b < all.len() implies earlier_pixel(
            #[trigger] all[a],
            #[trigger] all[b],
        ) by {
            if b < rest.len() {
                assert(earlier_pixel(rest[a], rest[b]));
            } else if a < rest.len() {
                assert(rest[a].jy < n - 1 && row[b - rest.len()].jy == n - 1);
            } else {
                assert(earlier_pixel(row[a - rest.len()], row[b - rest.len()]));
            }
        }
        assert forall|k: int| 0 <= k < all.len() implies (#[trigger] all[k]).jy < n && holds_pixel(
            g,
            s,
            tx,
            ty,
            all[k].jx as int,
            all[k].jy as int,
        ) && all[k] == pixel_in_tile(g, s, tx, ty, all[k].jx as int, all[k].jy as int) by {
            if k < rest.len() {
                assert(all[k] == rest[k]);
            } else {
                assert(all[k] == row[k - rest.len()]);
            }
        }
        assert forall|jx: int, jy: int|
            0 <= jx < s.nx && 0 <= jy < n && holds_pixel(g, s, tx, ty, jx, jy) implies all.contains(
            #[trigger] pixel_in_tile(g, s, tx, ty, jx, jy),
        ) by {
            let p = pixel_in_tile(g, s, tx, ty, jx, jy);
            if jy < n - 1 {
                assert(rest.contains(p));
                let k = choose|k: int| 0 <= k < rest.len() && rest[k] == p;
                assert(all[k] == p);
            } else {
                assert(row.contains(p));
                let k = choose|k: int| 0 <= k < row.len() && row[k] == p;
                assert(all[rest.len() + k] == p);
            }
        }
    }
}

/// Every tile that a stencil touches has one task, which lists the cell of that stencil;
/// a task lists no cell whose stencil does not touch its tile, and lists cells in
/// ascending order.
pub proof fn tasks_list_the_cells_that_touch_their_tile(
    g: Grid,
    stencils: Seq<Option<Stencil>>,
    tasks: Seq<TileTask>,
    i: usize,
    s: Stencil,
    tx: int,
    ty: int,
    t: int,
)
    requires
        tasks_hold(g, tasks, touching(g, stencils, stencils.len() as int)),
        i < stencils.len(),
        stencils[i as int] == Some(s),
    ensures
        touches(g, s, tx, ty) ==> exists|u: int|
            0 <= u < tasks.len() && (#[trigger] tasks[u]).tx == tx && tasks[u].ty == ty
                && tasks[u].entries@.contains(i),
        0 <= t < tasks.len() && tasks[t].entries@.contains(i) ==> touches(
            g,
            s,
            tasks[t].tx as int,
            tasks[t].ty as int,
        ),
        0 <= t < tasks.len() ==> forall|a: int, b: int|
            0 <= a < b < tasks[t].entries@.len() ==> #[trigger] tasks[t].entries@[a]
                < #[trigger] tasks[t].entries@[b],
        0 <= t < tasks.len() - 1 ==> (tasks[t].tx, tasks[t].ty) != (tasks[t + 1].tx, tasks[t
            + 1].ty),
{
    let pairs = touching(g, stencils, stencils.len() as int);
    if touches(g, s, tx, ty) {
        assert(pairs(i as int, tx, ty));
        let u = choose|u: int|
            0 <= u < tasks.len() && (#[trigger] tasks[u]).tx == tx && tasks[u].ty == ty;
        assert(tasks[u].entries@.contains(i) == pairs(i as int, tx, ty));
    }
    if 0 <= t < tasks.len() {
        assert(strictly_ascending(tasks[t].entries@));
        assert(tasks[t].entries@.contains(i) == pairs(
            i as int,
            tasks[t].tx as int,
            tasks[t].ty as int,
        ));
        if t < tasks.len() - 1 {
            assert((tasks[t].tx, tasks[t].ty) != (tasks[t + 1].tx, tasks[t + 1].ty));
        }
    }
}

} // verus!
