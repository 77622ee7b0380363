//! Neighbour-first lookup of the A5 cell of a point, for raster scans.
//!
//! Consecutive pixels of a raster row are a few metres apart, so the cell of a
//! pixel is almost always that of the pixel before it, that of the pixel above
//! it, or a neighbour of the former. Those candidates are tested against
//! cached outlines; the general search runs only when all of them fail.

use vstd::prelude::*;

use a5::coordinate_systems::{Face, Spherical};
use a5::geometry::PentagonShape;
use ahash::AHashMap;

use crate::a5grid::{
    at_level, cell_neighbours, cell_outline, counter_clockwise, decode_cell, decoded, inside,
    is_at_level, neighbours_of, outline, project_point, projected, resolution_of, search_cell,
    search_gives, shape_contains, MAX_RESOLUTION,
};
use crate::collections::{slot_map, slots_get, slots_insert, slots_with_capacity};
use crate::store::index_wf;

verus! {

/// Sentinel for "no cell": the lookup failed, or there is no hint.
pub const NO_CELL: u64 = u64::MAX;

/// The cache of outlines is emptied when it holds this many cells.
pub const GEOM_CACHE_MAX: usize = 65_536;

/// The first resolution at which cells follow a Hilbert curve. Below it the
/// search is exact at once, and candidates are not tested.
pub const FIRST_HILBERT_RESOLUTION: i32 = 2;

/// The outline of one cell in its origin's plane.
pub struct CellGeom {
    pub cell: u64,
    pub origin: u8,
    pub shape: PentagonShape,
    /// The neighbours, fetched on the first miss from this cell and kept in
    /// most-recently-hit order.
    pub nbrs: Option<Vec<u64>>,
}

/// The origin and outline of a cell, if its id encodes a cell with one.
pub open spec fn geometry(cell: u64) -> Option<(u8, PentagonShape)> {
    match decoded(cell) {
        None => None,
        Some(code) => if code.resolution < 0 {
            None
        } else {
            match outline(code) {
                None => None,
                Some(shape) => Some((code.origin, shape)),
            }
        },
    }
}

/// The outline of `cell` contains `p`.
pub open spec fn cell_contains(cell: u64, p: Spherical) -> bool {
    match geometry(cell) {
        None => false,
        Some((origin, shape)) => match projected(p, origin) {
            None => false,
            Some(f) => inside(shape, f),
        },
    }
}

/// `order` lists the neighbours of `cell` and nothing else, and they stand for
/// areas of the cell's resolution.
pub open spec fn is_neighbour_order(order: Seq<u64>, cell: u64) -> bool {
    &&& forall|n: u64| order.contains(n) == neighbours_of(cell).contains(n)
    &&& forall|n: u64| neighbours_of(cell).contains(n) ==> at_level(n, resolution_of(cell))
}

impl CellGeom {
    /// The entry describes its cell.
    pub open spec fn wf(&self) -> bool {
        &&& geometry(self.cell) == Some((self.origin, self.shape))
        &&& counter_clockwise(self.shape)
        &&& resolution_of(self.cell) >= 0
        &&& self.nbrs matches Some(v) ==> is_neighbour_order(v@, self.cell)
    }

    fn build(cell: u64) -> (r: Option<CellGeom>)
        ensures
            r is Some <==> geometry(cell) is Some,
            r matches Some(g) ==> g.wf() && g.cell == cell && g.nbrs is None,
    {
        let code = decode_cell(cell)?;
        if code.resolution < 0 {
            return None;
        }
        let shape = cell_outline(code)?;
        Some(CellGeom { cell, origin: code.origin, shape, nbrs: None })
    }
}

/// `n` is a neighbour of `from` that contains `p`.
pub open spec fn neighbour_hit(from: u64, p: Spherical, n: u64) -> bool {
    neighbours_of(from).contains(n) && cell_contains(n, p)
}

/// The number of candidates that a lookup can be handed.
pub const N_HINTS: usize = 5;

/// Hint `k` is the first that is a cell of the resolution and contains `p`.
pub open spec fn first_hint(resolution: i32, hints: Seq<u64>, p: Spherical, k: int) -> bool {
    &&& 0 <= k < hints.len()
    &&& hint_hit(resolution, hints, p, k)
    &&& forall|j: int| 0 <= j < k ==> !hint_hit(resolution, hints, p, j)
}

/// Hint `k` is a cell of the resolution and contains `p`.
pub open spec fn hint_hit(resolution: i32, hints: Seq<u64>, p: Spherical, k: int) -> bool {
    hints[k] != NO_CELL && at_level(hints[k], resolution) && cell_contains(hints[k], p)
}

/// Some hint is a cell of the resolution and contains `p`.
pub open spec fn some_hint(resolution: i32, hints: Seq<u64>, p: Spherical) -> bool {
    exists|k: int| 0 <= k < hints.len() && hint_hit(resolution, hints, p, k)
}

/// The cell that a search found, or [`NO_CELL`].
pub open spec fn searched(found: Option<u64>) -> u64 {
    match found {
        Some(c) => c,
        None => NO_CELL,
    }
}

/// No candidate of a lookup contains the point: not the cell of the lookup
/// before (`last`), no hint, and no neighbour of the former.
pub open spec fn no_candidate(resolution: i32, last: u64, hints: Seq<u64>, p: Spherical) -> bool {
    &&& !(last != NO_CELL && cell_contains(last, p))
    &&& !some_hint(resolution, hints, p)
    &&& !(last != NO_CELL && geometry(last) is Some && exists|n: u64| neighbour_hit(last, p, n))
}

/// `r` is what a lookup of `p` gives, with the cell of the lookup before
/// (`last`), hints, and what the search finds: the first of `last`, the hints
/// and a neighbour of `last` that contains `p`, else what the search finds. A
/// hint of another resolution does not count.
pub open spec fn located(
    direct: bool,
    resolution: i32,
    last: u64,
    hints: Seq<u64>,
    p: Spherical,
    found: Option<u64>,
    r: u64,
) -> bool {
    if direct {
        r == searched(found)
    } else if last != NO_CELL && cell_contains(last, p) {
        r == last
    } else if some_hint(resolution, hints, p) {
        exists|k: int| first_hint(resolution, hints, p, k) && r == hints[k]
    } else if last != NO_CELL && geometry(last) is Some && exists|n: u64|
        neighbour_hit(last, p, n) {
        neighbour_hit(last, p, r)
    } else {
        r == searched(found)
    }
}

/// A search for `p` at the resolution can find this cell of the resolution, or
/// none.
pub open spec fn search_result(p: Spherical, resolution: i32, found: Option<u64>) -> bool {
    search_gives(p, resolution, found) && (found matches Some(c) ==> at_level(c, resolution))
}

/// `r` is a cell of the resolution for `p`, or [`NO_CELL`]: its outline contains
/// `p`, or the search gave it.
pub open spec fn cell_for(p: Spherical, resolution: i32, r: u64) -> bool {
    ||| at_level(r, resolution) && cell_contains(r, p)
    ||| exists|found: Option<u64>| #[trigger]
        search_result(p, resolution, found) && r == searched(found)
}

/// The hints of a lookup with a single one.
pub open spec fn one_hint(hint: u64) -> Seq<u64> {
    seq![hint, NO_CELL, NO_CELL, NO_CELL, NO_CELL]
}

/// The order with entry `i` in front and the first one in its place.
pub open spec fn moved_to_front(order: Seq<u64>, i: int) -> Seq<u64> {
    order.update(0, order[i]).update(i, order[0])
}

/// Looks up the cells of points. One per scan; holds the cell of the lookup
/// before and a cache of the outlines of tested cells.
pub struct CellLocator {
    pub resolution: i32,
    /// The search is exact at once, so candidates are not tested.
    pub direct: bool,
    pub index: AHashMap<u64, u32>,
    pub geoms: Vec<CellGeom>,
    pub last: u64,
}

/// The cells whose outlines are cached.
pub open spec fn cached_cells(geoms: Seq<CellGeom>) -> Seq<u64> {
    Seq::new(geoms.len(), |i: int| geoms[i].cell)
}

impl CellLocator {
    /// The cache's index and entries agree, each entry describes its cell, and the
    /// cell of the lookup before has the locator's resolution.
    pub open spec fn wf(&self) -> bool {
        &&& -1 <= self.resolution <= MAX_RESOLUTION
        &&& self.direct == (self.resolution < FIRST_HILBERT_RESOLUTION)
        &&& self.geoms@.len() <= GEOM_CACHE_MAX
        &&& index_wf(slot_map(self.index), cached_cells(self.geoms@))
        &&& forall|i: int| 0 <= i < self.geoms@.len() ==> (#[trigger] self.geoms@[i]).wf()
        &&& self.last == NO_CELL || at_level(self.last, self.resolution)
    }

    /// The outline of `cell` is cached.
    pub open spec fn caches(&self, cell: u64) -> bool {
        slot_map(self.index).contains_key(cell)
    }

    /// The neighbour order that is remembered for `cell`, if there is one.
    pub open spec fn order_of(&self, cell: u64) -> Option<Seq<u64>> {
        if self.caches(cell) {
            match self.geoms@[slot_map(self.index)[cell] as int].nbrs {
                Some(v) => Some(v@),
                None => None,
            }
        } else {
            None
        }
    }

    /// The entries that stay when `cell` is asked for: all of them, unless it is
    /// new and the cache is full.
    pub open spec fn entries_kept(&self, cell: u64) -> Seq<CellGeom> {
        if self.caches(cell) || self.geoms@.len() < GEOM_CACHE_MAX {
            self.geoms@
        } else {
            Seq::empty()
        }
    }

    /// A locator for cells of one resolution that has looked nothing up yet.
    pub fn new(resolution: i32) -> (r: CellLocator)
        requires
            -1 <= resolution <= MAX_RESOLUTION,
        ensures
            r.wf(),
            r.resolution == resolution,
            r.last == NO_CELL,
    {
        CellLocator {
            resolution,
            direct: resolution < FIRST_HILBERT_RESOLUTION,
            index: slots_with_capacity(1024),
            geoms: Vec::new(),
            last: NO_CELL,
        }
    }

    /// The cache slot of a cell, filled if need be; none where the cell has no
    /// outline.
    fn geom(&mut self, cell: u64) -> (r: Option<usize>)
        requires
            old(self).wf(),
        ensures
            final(self).wf(),
            final(self).resolution == old(self).resolution,
            final(self).last == old(self).last,
            r is Some <==> geometry(cell) is Some,
            r matches Some(s) ==> s < final(self).geoms@.len() && final(self).geoms@[s as int].cell
                == cell,
            old(self).entries_kept(cell).is_prefix_of(final(self).geoms@),
            final(self).geoms@.len() == old(self).entries_kept(cell).len() + (if old(self).caches(
                cell,
            ) || geometry(cell) is None {
                0int
            } else {
                1
            }),
            !old(self).caches(cell) ==> (r matches Some(s)
                ==> final(self).geoms@[s as int].nbrs is None),
    {
        if let Some(s) = slots_get(&self.index, cell) {
            assert(cached_cells(self.geoms@)[s as int] == cell);
            assert(self.geoms@[s as int].wf());
            return Some(s as usize);
        }
        if self.geoms.len() >= GEOM_CACHE_MAX {
            self.index = slots_with_capacity(1024);
            self.geoms = Vec::new();
        }
        let ghost before = *self;
        let g = CellGeom::build(cell)?;
        let s: usize = self.geoms.len();
        slots_insert(&mut self.index, cell, s as u32);
        self.geoms.push(g);
        assert(cached_cells(self.geoms@) == cached_cells(before.geoms@).push(cell));
        Some(s)
    }

    /// Whether the outline of `cell` contains `p`. `memo` is the projection of
    /// `p` that was computed last.
    fn test(&mut self, cell: u64, p: Spherical, memo: &mut ProjMemo) -> (r: bool)
        requires
            old(self).wf(),
            old(memo).wf(p),
        ensures
            final(self).wf(),
            final(self).resolution == old(self).resolution,
            final(self).last == old(self).last,
            final(memo).wf(p),
            r == cell_contains(cell, p),
    {
        match self.geom(cell) {
            None => false,
            Some(s) => {
                let ghost g = self.geoms@[s as int];
                assert(g.wf());
                let origin: u8 = self.geoms[s].origin;
                match memo.project(p, origin) {
                    None => false,
                    Some(f) => shape_contains(&self.geoms[s].shape, f),
                }
            },
        }
    }

    /// The cell of `p` at this locator's resolution, or [`NO_CELL`]. `hint` is a
    /// further candidate, such as the cell of the pixel above; pass [`NO_CELL`]
    /// where there is none.
    pub fn locate(&mut self, p: Spherical, hint: u64) -> (r: u64)
        requires
            old(self).wf(),
        ensures
            final(self).wf(),
            final(self).resolution == old(self).resolution,
            lookup_done(*old(self), one_hint(hint), p, r, *final(self)),
    {
        let hints: [u64; N_HINTS] = [hint, NO_CELL, NO_CELL, NO_CELL, NO_CELL];
        assert(hints@ =~= one_hint(hint));
        self.locate_near(p, &hints)
    }

    /// The cell of `p`, or [`NO_CELL`], with several further candidates.
    pub fn locate_near(&mut self, p: Spherical, hints: &[u64; N_HINTS]) -> (r: u64)
        requires
            old(self).wf(),
        ensures
            final(self).wf(),
            final(self).resolution == old(self).resolution,
            lookup_done(*old(self), hints@, p, r, *final(self)),
    {
        if self.direct {
            let found = search_cell(p, self.resolution);
            let r: u64 = cell_or_none(found);
            assert(search_result(p, self.resolution, found));
            assert(located(true, self.resolution, self.last, hints@, p, found, r));
            return r;
        }
        if let Some(c) = self.candidate(p, hints) {
            assert(located(false, old(self).resolution, old(self).last, hints@, p, None, c));
            self.last = c;
            return c;
        }
        let found = search_cell(p, self.resolution);
        assert(search_result(p, self.resolution, found));
        let r: u64 = self.settle(p, hints, found);
        assert(located(false, old(self).resolution, old(self).last, hints@, p, found, r));
        r
    }

    /// The candidate that contains `p`: the cell of the lookup before, a hint,
    /// or a neighbour of the former.
    fn candidate(&mut self, p: Spherical, hints: &[u64; N_HINTS]) -> (r: Option<u64>)
        requires
            old(self).wf(),
            !old(self).direct,
        ensures
            final(self).wf(),
            final(self).resolution == old(self).resolution,
            final(self).last == old(self).last,
            r matches Some(c) ==> at_level(c, old(self).resolution) && cell_contains(c, p)
                && forall|found: Option<u64>| #[trigger]
                located(false, old(self).resolution, old(self).last, hints@, p, found, c),
            r is None <==> no_candidate(old(self).resolution, old(self).last, hints@, p),
    {
        let mut memo = ProjMemo::new();
        let last: u64 = self.last;
        if last != NO_CELL && self.test(last, p, &mut memo) {
            return Some(last);
        }
        let mut k: usize = 0;
        while k < N_HINTS
            invariant
                k <= N_HINTS,
                self.wf(),
                self.resolution == old(self).resolution,
                self.last == old(self).last,
                last == old(self).last,
                !(last != NO_CELL && cell_contains(last, p)),
                memo.wf(p),
                forall|j: int| 0 <= j < k ==> !hint_hit(self.resolution, hints@, p, j),
            decreases N_HINTS - k,
        {
            let hint: u64 = hints[k];
            if hint != NO_CELL && hint != last && self.test(hint, p, &mut memo) && is_at_level(
                hint,
                self.resolution,
            ) {
                assert(first_hint(self.resolution, hints@, p, k as int));
                assert(hint_hit(self.resolution, hints@, p, k as int));
                return Some(hint);
            }
            k = k + 1;
        }
        assert(!some_hint(self.resolution, hints@, p));
        if last != NO_CELL {
            assert(!hint_hit(self.resolution, hints@, p, 0));
            return self.test_neighbours(last, p, hints[0], &mut memo);
        }
        None
    }

    /// The cell of a lookup whose candidates all failed, from what the search
    /// found.
    pub fn settle(&mut self, p: Spherical, hints: &[u64; N_HINTS], found: Option<u64>) -> (r: u64)
        requires
            old(self).wf(),
            !old(self).direct,
            no_candidate(old(self).resolution, old(self).last, hints@, p),
            found matches Some(c) ==> at_level(c, old(self).resolution),
        ensures
            final(self).wf(),
            final(self).resolution == old(self).resolution,
            r == searched(found),
            located(false, old(self).resolution, old(self).last, hints@, p, found, r),
            final(self).last == (match found {
                Some(c) => c,
                None => old(self).last,
            }),
    {
        if let Some(c) = found {
            self.last = c;
        }
        cell_or_none(found)
    }

    /// A neighbour of `from` that contains `p`, in most-recently-hit order; it
    /// moves to the front. `skip` is no cell of the resolution that contains `p`.
    fn test_neighbours(&mut self, from: u64, p: Spherical, skip: u64, memo: &mut ProjMemo) -> (r:
        Option<u64>)
        requires
            old(self).wf(),
            old(memo).wf(p),
            skip == NO_CELL || !at_level(skip, resolution_of(from)) || !cell_contains(skip, p),
        ensures
            final(self).wf(),
            final(self).resolution == old(self).resolution,
            final(self).last == old(self).last,
            final(memo).wf(p),
            match r {
                Some(n) => geometry(from) is Some && neighbour_hit(from, p, n) && at_level(
                    n,
                    resolution_of(from),
                ),
                None => geometry(from) is None || forall|n: u64| !neighbour_hit(from, p, n),
            },
            r matches Some(n) ==> final(self).order_of(from) matches Some(o) && o.len() > 0 && o[0]
                == n,
    {
        let s: usize = self.geom(from)?;
        assert(self.geoms@[s as int].wf());
        let order: Vec<u64> = match &self.geoms[s].nbrs {
            Some(v) => copy_cells(v),
            None => cell_neighbours(from),
        };
        let n: usize = order.len();
        let mut i: usize = 0;
        while i < n
            invariant
                i <= n,
                n == order@.len(),
                is_neighbour_order(order@, from),
                geometry(from) is Some,
                skip == NO_CELL || !at_level(skip, resolution_of(from)) || !cell_contains(skip, p),
                self.wf(),
                self.resolution == old(self).resolution,
                self.last == old(self).last,
                memo.wf(p),
                forall|j: int| 0 <= j < i ==> !neighbour_hit(from, p, #[trigger] order@[j]),
            decreases n - i,
        {
            let cand: u64 = order[i];
            assert(order@.contains(cand));
            if (cand != skip || skip == NO_CELL) && self.test(cand, p, memo) {
                self.keep_order(from, order, i);
                return Some(cand);
            }
            i = i + 1;
        }
        proof {
            assert forall|x: u64| !neighbour_hit(from, p, x) by {
                if neighbours_of(from).contains(x) {
                    assert(order@.contains(x));
                    let j = choose|j: int| 0 <= j < order@.len() && order@[j] == x;
                    assert(!neighbour_hit(from, p, order@[j]));
                }
            }
        }
        if n > 0 {
            self.keep_order(from, order, 0);
        }
        None
    }

    /// Remembers a neighbour order, entry `i` moved to the front. The other cached
    /// cells keep what is known of them, unless the cache had to be emptied.
    fn keep_order(&mut self, from: u64, order: Vec<u64>, i: usize)
        requires
            old(self).wf(),
            geometry(from) is Some,
            i < order@.len(),
            is_neighbour_order(order@, from),
        ensures
            final(self).wf(),
            final(self).resolution == old(self).resolution,
            final(self).last == old(self).last,
            final(self).order_of(from) == Some(moved_to_front(order@, i as int)),
            final(self).geoms@.len() == old(self).entries_kept(from).len() + (if old(self).caches(
                from,
            ) {
                0int
            } else {
                1
            }),
            forall|j: int|
                0 <= j < old(self).entries_kept(from).len() && old(self).entries_kept(from)[j].cell
                    != from ==> #[trigger] final(self).geoms@[j] == old(self).entries_kept(from)[j],
    {
        let mut v = order;
        let a: u64 = v[0];
        let b: u64 = v[i];
        v.set(0, b);
        v.set(i, a);
        proof {
            assert(v@[0] == b && v@[i as int] == a);
            assert forall|x: u64| v@.contains(x) == neighbours_of(from).contains(x) by {
                assert(order@.contains(x) == neighbours_of(from).contains(x));
                if order@.contains(x) {
                    let k = choose|k: int| 0 <= k < order@.len() && order@[k] == x;
                    if k == 0 {
                        assert(v@[i as int] == x);
                    } else if k == i {
                        assert(v@[0] == x);
                    } else {
                        assert(v@[k] == x);
                    }
                }
                if v@.contains(x) {
                    let k = choose|k: int| 0 <= k < v@.len() && v@[k] == x;
                    if k == i {
                        assert(order@[0] == x);
                    } else if k == 0 {
                        assert(order@[i as int] == x);
                    } else {
                        assert(order@[k] == x);
                    }
                }
            }
        }
        if let Some(s) = self.geom(from) {
            let ghost before = *self;
            assert(self.geoms@[s as int].wf());
            self.geoms[s].nbrs = Some(v);
            assert(cached_cells(self.geoms@) == cached_cells(before.geoms@));
            proof {
                assert(cached_cells(self.geoms@)[s as int] == from);
                assert(v@ =~= moved_to_front(order@, i as int));
                let kept = old(self).entries_kept(from);
                assert forall|j: int| 0 <= j < kept.len() && kept[j].cell != from implies #[trigger]
                    self.geoms@[j] == kept[j] by {
                    assert(before.geoms@[j] == kept[j]);
                }
            }
        }
    }
}

/// A lookup of `p` gave `r` and left the locator as `after`.
pub open spec fn lookup_done(
    before: CellLocator,
    hints: Seq<u64>,
    p: Spherical,
    r: u64,
    after: CellLocator,
) -> bool {
    &&& exists|found: Option<u64>| #[trigger]
        located(before.direct, before.resolution, before.last, hints, p, found, r) && (before.direct
            || no_candidate(before.resolution, before.last, hints, p) ==> search_result(
            p,
            before.resolution,
            found,
        ))
    &&& cell_for(p, before.resolution, r)
    &&& before.direct ==> after.last == before.last
    &&& !before.direct && r != NO_CELL ==> after.last == r
    &&& !before.direct && r == NO_CELL ==> after.last == before.last || after.last == NO_CELL
}

/// The cell, or [`NO_CELL`] where there is none.
fn cell_or_none(found: Option<u64>) -> (r: u64)
    ensures
        r == searched(found),
{
    match found {
        Some(c) => c,
        None => NO_CELL,
    }
}

fn copy_cells(v: &Vec<u64>) -> (r: Vec<u64>)
    ensures
        r@ == v@,
{
    let mut out: Vec<u64> = Vec::new();
    for i in 0..v.len()
        invariant
            out@ == v@.take(i as int),
    {
        out.push(v[i]);
        assert(v@.take(i + 1) == v@.take(i as int).push(v@[i as int]));
    }
    assert(v@.take(v@.len() as int) == v@);
    out
}

/// The last projection of one point: candidates almost always share an origin,
/// so the point is projected once per origin.
pub struct ProjMemo {
    pub last: Option<(u8, Face)>,
}

impl ProjMemo {
    /// The memo holds a projection of `p`.
    pub open spec fn wf(&self, p: Spherical) -> bool {
        self.last matches Some((origin, f)) ==> projected(p, origin) == Some(f)
    }

    fn new() -> (r: ProjMemo)
        ensures
            forall|p: Spherical| r.wf(p),
    {
        ProjMemo { last: None }
    }

    fn project(&mut self, p: Spherical, origin: u8) -> (r: Option<Face>)
        requires
            old(self).wf(p),
        ensures
            final(self).wf(p),
            r == projected(p, origin),
    {
        if let Some((o, f)) = self.last {
            if o == origin {
                return Some(f);
            }
        }
        let f = project_point(p, origin)?;
        self.last = Some((origin, f));
        Some(f)
    }
}

// ---------------------------------------------------------------------------
// laws

/// One cell of the resolution alone contains the point, and the search finds it.
pub open spec fn clear_cell(p: Spherical, resolution: i32, cell: u64) -> bool {
    &&& forall|c: u64| at_level(c, resolution) && cell_contains(c, p) ==> c == cell
    &&& forall|found: Option<u64>|
        search_gives(p, resolution, found) ==> found == Some(cell)
}

/// Where one cell of the resolution alone contains the point and the search finds
/// that cell, a lookup gives it, whatever was looked up before and whatever the
/// hints: they change the cost, not the cell.
pub proof fn lookup_agrees_with_search(
    before: CellLocator,
    hints: Seq<u64>,
    p: Spherical,
    cell: u64,
    r: u64,
    after: CellLocator,
)
    requires
        before.wf(),
        clear_cell(p, before.resolution, cell),
        lookup_done(before, hints, p, r, after),
    ensures
        r == cell,
{
}

/// The lookups of one scan: lookup `i` starts from the locator that the one
/// before it left.
pub open spec fn scanned(
    locators: Seq<CellLocator>,
    hints: Seq<Seq<u64>>,
    points: Seq<Spherical>,
    cells: Seq<u64>,
) -> bool {
    &&& locators.len() == points.len() + 1
    &&& hints.len() == points.len()
    &&& cells.len() == points.len()
    &&& forall|i: int|
        0 <= i < points.len() ==> #[trigger] lookup_done(
            locators[i],
            hints[i],
            points[i],
            cells[i],
            locators[i + 1],
        )
}

/// Two scans over the same points at the same resolution give the same cell at
/// every point that has a clear one, whatever each had looked up before, whatever
/// the hints, and whatever the points without a clear cell gave: the previous hit
/// and the hints change only the cost.
pub proof fn scans_agree(
    resolution: i32,
    locators: Seq<CellLocator>,
    hints: Seq<Seq<u64>>,
    cells: Seq<u64>,
    others: Seq<CellLocator>,
    other_hints: Seq<Seq<u64>>,
    other_cells: Seq<u64>,
    points: Seq<Spherical>,
    i: int,
    cell: u64,
)
    requires
        scanned(locators, hints, points, cells),
        scanned(others, other_hints, points, other_cells),
        forall|k: int| 0 <= k < locators.len() ==> (#[trigger] locators[k]).wf(),
        forall|k: int| 0 <= k < others.len() ==> (#[trigger] others[k]).wf(),
        forall|k: int|
            0 <= k < locators.len() ==> (#[trigger] locators[k]).resolution == resolution,
        forall|k: int| 0 <= k < others.len() ==> (#[trigger] others[k]).resolution == resolution,
        0 <= i < points.len(),
        clear_cell(points[i], resolution, cell),
    ensures
        cells[i] == cell,
        other_cells[i] == cell,
{
    assert(locators[i].wf() && others[i].wf());
    assert(locators[i].resolution == resolution && others[i].resolution == resolution);
    assert(lookup_done(locators[i], hints[i], points[i], cells[i], locators[i + 1]));
    assert(lookup_done(others[i], other_hints[i], points[i], other_cells[i], others[i + 1]));
    lookup_agrees_with_search(
        locators[i],
        hints[i],
        points[i],
        cell,
        cells[i],
        locators[i + 1],
    );
    lookup_agrees_with_search(
        others[i],
        other_hints[i],
        points[i],
        cell,
        other_cells[i],
        others[i + 1],
    );
}

/// A lookup that does not come from the search gives a cell that contains the
/// point.
pub proof fn candidate_contains_point(
    resolution: i32,
    last: u64,
    hints: Seq<u64>,
    p: Spherical,
    found: Option<u64>,
    r: u64,
)
    requires
        located(false, resolution, last, hints, p, found, r),
        !no_candidate(resolution, last, hints, p),
    ensures
        cell_contains(r, p),
{
}

/// A cell contains a point exactly where its id encodes a cell of the grid whose outline,
/// in the plane of its own face, has the point's place in that plane inside.
pub proof fn outlines_are_tested_in_their_own_plane(cell: u64, p: Spherical)
    ensures
        cell_contains(cell, p) <==> {
            &&& decoded(cell) is Some
            &&& decoded(cell)->Some_0.resolution >= 0
            &&& outline(decoded(cell)->Some_0) is Some
            &&& projected(p, decoded(cell)->Some_0.origin) is Some
            &&& inside(
                outline(decoded(cell)->Some_0)->Some_0,
                projected(p, decoded(cell)->Some_0.origin)->Some_0,
            )
        },
{
}

/// What a lookup gives for a point: a cell of the resolution that contains it, or what
/// the search can give for it, and no cell only where the search can give none.
pub proof fn lookups_give_cells_for_the_point(p: Spherical, resolution: i32, r: u64)
    requires
        cell_for(p, resolution, r),
    ensures
        (at_level(r, resolution) && cell_contains(r, p)) || search_gives(p, resolution, Some(r)) || (
        r == NO_CELL && search_gives(p, resolution, None)),
        r != NO_CELL ==> resolution_of(r) == resolution || (resolution == 30 && resolution_of(r)
            == 29),
{
}

/// The cell of the lookup before is kept while it contains the point; the search is
/// asked only where neither it, nor a hint of the resolution, nor one of its neighbours
/// does, and then its answer is given.
pub proof fn candidates_come_before_the_search(
    before: CellLocator,
    hints: Seq<u64>,
    p: Spherical,
    r: u64,
    after: CellLocator,
)
    requires
        before.wf(),
        lookup_done(before, hints, p, r, after),
    ensures
        before.resolution >= 2 && before.last != NO_CELL && cell_contains(before.last, p) ==> r
            == before.last,
        before.resolution >= 2 && !(before.last != NO_CELL && cell_contains(before.last, p)) && (
        exists|k: int|
            0 <= k < hints.len() && hints[k] != NO_CELL && at_level(hints[k], before.resolution)
                && cell_contains(#[trigger] hints[k], p)) ==> hints.contains(r) && cell_contains(
            r,
            p,
        ),
        before.resolution < 2 ==> search_gives(p, before.resolution, Some(r)) || (r == NO_CELL
            && search_gives(p, before.resolution, None)),
        before.resolution >= 2 && r != NO_CELL ==> after.last == r,
{
    if before.resolution >= 2 && exists|k: int|
        0 <= k < hints.len() && hints[k] != NO_CELL && at_level(hints[k], before.resolution)
            && cell_contains(#[trigger] hints[k], p) {
        let k = choose|k: int|
            0 <= k < hints.len() && hints[k] != NO_CELL && at_level(hints[k], before.resolution)
                && cell_contains(#[trigger] hints[k], p);
        assert(hint_hit(before.resolution, hints, p, k));
        assert(some_hint(before.resolution, hints, p));
    }
}

/// The neighbour that was hit and the one in front change places; the others stay.
pub proof fn hit_neighbours_move_to_the_front(order: Seq<u64>, i: int, k: int)
    requires
        0 <= i < order.len(),
        0 <= k < order.len(),
    ensures
        moved_to_front(order, i).len() == order.len(),
        moved_to_front(order, i)[0] == order[i],
        moved_to_front(order, i)[i] == order[0],
        k != 0 && k != i ==> moved_to_front(order, i)[k] == order[k],
{
}

/// Outlines are kept until 65536 of them are there; one more empties the store.
pub proof fn locators_keep_65536_outlines(l: CellLocator, cell: u64)
    requires
        l.wf(),
    ensures
        l.geoms@.len() <= 65536,
        l.geoms@.len() < 65536 || l.caches(cell) ==> l.entries_kept(cell) == l.geoms@,
        l.geoms@.len() == 65536 && !l.caches(cell) ==> l.entries_kept(cell).len() == 0,
        l.direct <==> l.resolution < 2,
{
}

/// Among the hints the first that contains the point is taken. Without one, a neighbour
/// of the last cell that contains it is; without such a neighbour the search decides.
pub proof fn hints_come_in_order_and_neighbours_behind_them(
    before: CellLocator,
    hints: Seq<u64>,
    p: Spherical,
    r: u64,
    after: CellLocator,
    k: int,
)
    requires
        before.wf(),
        lookup_done(before, hints, p, r, after),
        before.resolution >= 2,
        !(before.last != NO_CELL && cell_contains(before.last, p)),
    ensures
        0 <= k < hints.len() && hints[k] != NO_CELL && at_level(hints[k], before.resolution)
            && cell_contains(hints[k], p) && (forall|j: int|
            0 <= j < k ==> !((#[trigger] hints[j]) != NO_CELL && at_level(
                hints[j],
                before.resolution,
            ) && cell_contains(hints[j], p))) ==> r == hints[k],
        (forall|j: int|
            0 <= j < hints.len() ==> !((#[trigger] hints[j]) != NO_CELL && at_level(
                hints[j],
                before.resolution,
            ) && cell_contains(hints[j], p))) ==> {
            ||| before.last != NO_CELL && neighbours_of(before.last).contains(r) && cell_contains(
                r,
                p,
            )
            ||| search_gives(p, before.resolution, Some(r))
            ||| r == NO_CELL && search_gives(p, before.resolution, None)
        },
{
    let found = choose|found: Option<u64>| #[trigger]
        located(before.direct, before.resolution, before.last, hints, p, found, r) && (before.direct
            || no_candidate(before.resolution, before.last, hints, p) ==> search_result(
            p,
            before.resolution,
            found,
        ));
    assert(located(before.direct, before.resolution, before.last, hints, p, found, r));
    if 0 <= k < hints.len() && hints[k] != NO_CELL && at_level(hints[k], before.resolution)
        && cell_contains(hints[k], p) && (forall|j: int|
        0 <= j < k ==> !((#[trigger] hints[j]) != NO_CELL && at_level(hints[j], before.resolution)
            && cell_contains(hints[j], p))) {
        assert(hint_hit(before.resolution, hints, p, k));
        assert(some_hint(before.resolution, hints, p));
        let i = choose|i: int| first_hint(before.resolution, hints, p, i) && r == hints[i];
        assert(first_hint(before.resolution, hints, p, i));
        if i < k {
            assert(!hint_hit(before.resolution, hints, p, i));
        }
        if k < i {
            assert(!hint_hit(before.resolution, hints, p, k));
        }
    }
    if forall|j: int|
        0 <= j < hints.len() ==> !((#[trigger] hints[j]) != NO_CELL && at_level(
            hints[j],
            before.resolution,
        ) && cell_contains(hints[j], p)) {
        assert(!some_hint(before.resolution, hints, p)) by {
            if some_hint(before.resolution, hints, p) {
                let j = choose|j: int|
                    0 <= j < hints.len() && hint_hit(before.resolution, hints, p, j);
                assert(hints[j] != NO_CELL);
            }
        }
    }
}

} // verus!
