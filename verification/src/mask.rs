//! Cell-level area-of-interest mask.
//!
//! The area of interest is a compacted set of A5 cells: a cell is inside when
//! it, or one of its ancestors, is in the set.

use vstd::prelude::*;

use ahash::AHashSet;

use crate::a5grid::{ancestor, cell_ancestor, cell_resolution, resolution_of, MAX_RESOLUTION};
use crate::collections::{cell_set, cells_contains, cells_insert, cells_new};

verus! {

/// The cells of the compacted set, by resolution, ascending.
pub struct CellMask {
    pub levels: Vec<(i32, AHashSet<u64>)>,
}

/// `member` is `cell` itself (a cell of `resolution`) or its ancestor.
pub open spec fn covers(member: u64, cell: u64, resolution: i32) -> bool {
    ||| resolution_of(member) == resolution && member == cell
    ||| resolution_of(member) < resolution && ancestor(cell, resolution_of(member)) == Some(member)
}

/// `cell`, of `resolution`, is in the area that `members` covers.
pub open spec fn in_area(members: Set<u64>, cell: u64, resolution: i32) -> bool {
    exists|m: u64| #[trigger] members.contains(m) && covers(m, cell, resolution)
}

/// The ancestor of `cell` at resolution `q` is a member.
pub open spec fn member_above(members: Set<u64>, cell: u64, q: i32) -> bool {
    ancestor(cell, q) matches Some(a) && members.contains(a)
}

/// `cell`, of `resolution`, is a member, or lies below one: its ancestor at some
/// coarser resolution is a member.
pub open spec fn in_set_or_below(members: Set<u64>, cell: u64, resolution: i32) -> bool {
    members.contains(cell) || exists|q: i32|
        -1 <= q < resolution && member_above(members, cell, q)
}

/// Some level holds `cell`.
pub open spec fn level_holds(levels: Seq<(i32, AHashSet<u64>)>, cell: u64) -> bool {
    exists|i: int| 0 <= i < levels.len() && cell_set((#[trigger] levels[i]).1).contains(cell)
}

/// Each level holds cells of its own resolution; the levels ascend.
pub open spec fn levels_wf(levels: Seq<(i32, AHashSet<u64>)>) -> bool {
    &&& forall|i: int, c: u64|
        0 <= i < levels.len() && #[trigger] cell_set(levels[i].1).contains(c) ==> resolution_of(c)
            == levels[i].0
    &&& forall|i: int, j: int|
        0 <= i < j < levels.len() ==> (#[trigger] levels[i]).0 < (#[trigger] levels[j]).0
    &&& forall|i: int| 0 <= i < levels.len() ==> -1 <= (#[trigger] levels[i]).0 <= MAX_RESOLUTION
}

impl CellMask {
    /// The mask's invariant.
    pub open spec fn wf(&self) -> bool {
        levels_wf(self.levels@)
    }

    /// The cells of the compacted set.
    pub open spec fn members(&self) -> Set<u64> {
        Set::new(|c: u64| level_holds(self.levels@, c))
    }

    /// Adds a cell to its level.
    fn insert(&mut self, cell: u64)
        requires
            old(self).wf(),
        ensures
            final(self).wf(),
            final(self).members() == old(self).members().insert(cell),
    {
        let ghost before = self.levels@;
        let r: i32 = cell_resolution(cell);
        let mut i: usize = 0;
        while i < self.levels.len() && self.levels[i].0 < r
            invariant
                i <= self.levels@.len(),
                self.levels@ == before,
                levels_wf(before),
                forall|j: int| 0 <= j < i ==> (#[trigger] before[j]).0 < r,
            ensures
                i < self.levels@.len() ==> self.levels@[i as int].0 >= r,
            decreases self.levels@.len() - i,
        {
            i = i + 1;
        }
        if i < self.levels.len() && self.levels[i].0 == r {
            cells_insert(&mut self.levels[i].1, cell);
            proof {
                let after = self.levels@;
                assert forall|c: u64| level_holds(after, c) == (level_holds(before, c) || c
                    == cell) by {
                    if level_holds(before, c) {
                        let k = choose|k: int|
                            0 <= k < before.len() && cell_set((#[trigger] before[k]).1).contains(c);
                        assert(cell_set(after[k].1).contains(c));
                    }
                    if c == cell {
                        assert(cell_set(after[i as int].1).contains(c));
                    }
                    if level_holds(after, c) && c != cell {
                        let k = choose|k: int|
                            0 <= k < after.len() && cell_set((#[trigger] after[k]).1).contains(c);
                        assert(cell_set(before[k].1).contains(c));
                    }
                }
            }
        } else {
            let mut set = cells_new();
            cells_insert(&mut set, cell);
            let ghost fresh = set;
            self.levels.insert(i, (r, set));
            proof {
                let after = self.levels@;
                assert(after == before.insert(i as int, (r, fresh)));
                assert forall|c: u64| level_holds(after, c) == (level_holds(before, c) || c
                    == cell) by {
                    if level_holds(before, c) {
                        let k = choose|k: int|
                            0 <= k < before.len() && cell_set((#[trigger] before[k]).1).contains(c);
                        if k < i {
                            assert(after[k] == before[k]);
                        } else {
                            assert(after[k + 1] == before[k]);
                        }
                    }
                    if c == cell {
                        assert(cell_set(after[i as int].1).contains(c));
                    }
                    if level_holds(after, c) && c != cell {
                        let k = choose|k: int|
                            0 <= k < after.len() && cell_set((#[trigger] after[k]).1).contains(c);
                        if k < i {
                            assert(after[k] == before[k]);
                        } else if k > i {
                            assert(after[k] == before[k - 1]);
                        }
                    }
                }
                assert(levels_wf(after)) by {
                    assert forall|k: int| 0 <= k < after.len() implies #[trigger] after[k] == (
                    if k < i {
                        before[k]
                    } else if k == i {
                        (r, fresh)
                    } else {
                        before[k - 1]
                    }) by {}
                }
            }
        }
        assert(self.members() =~= old(self).members().insert(cell));
    }

    /// The mask of a compacted cell set; none where the set is empty.
    pub fn from_cells(cells: &Vec<u64>) -> (r: Option<CellMask>)
        ensures
            r is None <==> cells@.len() == 0,
            r matches Some(m) ==> m.wf() && m.members() == cells@.to_set(),
    {
        if cells.len() == 0 {
            return None;
        }
        let mut mask = CellMask { levels: Vec::new() };
        assert(mask.members() =~= cells@.take(0).to_set());
        for i in 0..cells.len()
            invariant
                mask.wf(),
                mask.members() == cells@.take(i as int).to_set(),
        {
            mask.insert(cells[i]);
            let ghost t = cells@.take(i as int);
            let ghost u = cells@.take(i + 1);
            assert(u == t.push(cells@[i as int]));
            assert(u.to_set() =~= t.to_set().insert(cells@[i as int])) by {
                assert forall|c: u64| u.to_set().contains(c) == t.to_set().insert(
                    cells@[i as int],
                ).contains(c) by {
                    if t.contains(c) {
                        let k = choose|k: int| 0 <= k < t.len() && t[k] == c;
                        assert(u[k] == c);
                    }
                    if c == cells@[i as int] {
                        assert(u[i as int] == c);
                    }
                    if u.contains(c) && c != cells@[i as int] {
                        let k = choose|k: int| 0 <= k < u.len() && u[k] == c;
                        assert(t[k] == c);
                    }
                }
            }
        }
        assert(cells@.take(cells@.len() as int) == cells@);
        Some(mask)
    }

    /// Whether `cell`, of `resolution`, is inside the area of interest.
    pub fn contains(&self, cell: u64, resolution: i32) -> (r: bool)
        requires
            self.wf(),
            resolution <= MAX_RESOLUTION,
        ensures
            r == in_area(self.members(), cell, resolution),
            resolution_of(cell) == resolution ==> r == in_set_or_below(
                self.members(),
                cell,
                resolution,
            ),
    {
        let mut i: usize = 0;
        let mut q: i32 = -1;
        // One resolution after the other, next to the level that holds its cells.
        while q <= resolution
            invariant
                i <= self.levels@.len(),
                -1 <= q,
                q <= resolution + 1 || resolution < -1,
                self.wf(),
                resolution <= MAX_RESOLUTION,
                forall|j: int| 0 <= j < i ==> (#[trigger] self.levels@[j]).0 < q,
                forall|j: int| i <= j < self.levels@.len() ==> (#[trigger] self.levels@[j]).0 >= q,
                forall|m: u64| #[trigger]
                    self.members().contains(m) && resolution_of(m) < q ==> !covers(
                        m,
                        cell,
                        resolution,
                    ),
                resolution_of(cell) == resolution ==> forall|k: i32|
                    -1 <= k < q && k < resolution ==> !member_above(self.members(), cell, k),
            decreases resolution + 1 - q,
        {
            let above: Option<u64> = if q < resolution {
                cell_ancestor(cell, q)
            } else {
                None
            };
            if i < self.levels.len() && self.levels[i].0 == q {
                if let Some(m) = sought_at(q, cell, resolution, above) {
                    if cells_contains(&self.levels[i].1, m) {
                        proof {
                            assert(cell_set(self.levels@[i as int].1).contains(m));
                            assert(self.members().contains(m) && covers(m, cell, resolution));
                            if q < resolution {
                                assert(member_above(self.members(), cell, q));
                            }
                        }
                        return true;
                    }
                }
                i = i + 1;
            }
            proof {
                self.lemma_level(q);
                assert forall|m: u64| #[trigger]
                    self.members().contains(m) && resolution_of(m) < q + 1 implies !covers(
                    m,
                    cell,
                    resolution,
                ) by {
                    if covers(m, cell, resolution) {
                        assert(resolution_of(m) == q);
                        assert(sought(q, cell, resolution, above) == Some(m));
                    }
                }
            }
            q = q + 1;
        }
        proof {
            self.lemma_level(resolution);
            assert forall|m: u64| #[trigger] self.members().contains(m) implies !covers(
                m,
                cell,
                resolution,
            ) by {}
        }
        false
    }

    /// A level of the mask holds its members of that resolution.
    proof fn lemma_level(&self, q: i32)
        requires
            self.wf(),
        ensures
            forall|m: u64| #[trigger]
                self.members().contains(m) && resolution_of(m) == q ==> exists|j: int|
                    0 <= j < self.levels@.len() && (#[trigger] self.levels@[j]).0 == q && cell_set(
                        self.levels@[j].1,
                    ).contains(m),
            forall|m: u64| #[trigger] self.members().contains(m) ==> resolution_of(m) >= -1,
    {
        assert forall|m: u64| #[trigger] self.members().contains(m) implies resolution_of(m) >= -1
            && (resolution_of(m) == q ==> exists|j: int|
            0 <= j < self.levels@.len() && (#[trigger] self.levels@[j]).0 == q && cell_set(
                self.levels@[j].1,
            ).contains(m)) by {
            let j = choose|j: int|
                0 <= j < self.levels@.len() && cell_set((#[trigger] self.levels@[j]).1).contains(m);
            assert(cell_set(self.levels@[j].1).contains(m));
            assert(self.levels@[j].0 == resolution_of(m));
        }
    }
}

/// The cell that covers `cell`, of `resolution`, at a level of the mask, given its
/// ancestor there: the cell itself at its own level, the ancestor at a coarser
/// one, none at a finer one.
pub open spec fn sought(level: i32, cell: u64, resolution: i32, above: Option<u64>) -> Option<u64> {
    if level == resolution {
        Some(cell)
    } else if level < resolution {
        above
    } else {
        None
    }
}

/// The cell that covers `cell` at a level of the mask, given its ancestor there.
pub fn sought_at(level: i32, cell: u64, resolution: i32, above: Option<u64>) -> (r: Option<u64>)
    ensures
        r == sought(level, cell, resolution, above),
{
    if level == resolution {
        Some(cell)
    } else if level < resolution {
        above
    } else {
        None
    }
}

/// `cell` may be accumulated: there is no mask, or it is inside.
pub open spec fn mask_allows(mask: Option<&CellMask>, cell: u64, resolution: i32) -> bool {
    match mask {
        None => true,
        Some(m) => in_area(m.members(), cell, resolution),
    }
}

/// The mask, where there is one, is well formed.
pub open spec fn mask_wf(mask: Option<&CellMask>) -> bool {
    mask matches Some(m) ==> m.wf()
}

/// The last mask decision of a worker: adjacent pixels almost always share a
/// cell, so the ancestor walk runs once per change of cell.
pub struct MaskCache {
    pub last_cell: u64,
    pub last_in: bool,
}

impl MaskCache {
    /// The remembered decision is the one that the mask gives. The sentinel
    /// `u64::MAX`, which is no cell, starts out as outside.
    pub open spec fn agrees(&self, mask: Option<&CellMask>, resolution: i32) -> bool {
        mask is Some && self.last_cell != u64::MAX ==> self.last_in == mask_allows(
            mask,
            self.last_cell,
            resolution,
        )
    }

    /// Nothing decided yet.
    pub fn new() -> (r: MaskCache)
        ensures
            r.last_cell == u64::MAX,
            !r.last_in,
            forall|mask: Option<&CellMask>, resolution: i32| r.agrees(mask, resolution),
    {
        MaskCache { last_cell: u64::MAX, last_in: false }
    }

    /// Whether `cell` may be accumulated.
    pub fn allows(&mut self, mask: Option<&CellMask>, cell: u64, resolution: i32) -> (r: bool)
        requires
            mask_wf(mask),
            resolution <= MAX_RESOLUTION,
            cell != u64::MAX,
            old(self).agrees(mask, resolution),
        ensures
            r == mask_allows(mask, cell, resolution),
            final(self).agrees(mask, resolution),
            mask is None ==> *final(self) == *old(self),
            mask is Some ==> final(self).last_cell == cell,
    {
        match mask {
            None => true,
            Some(m) => {
                if cell != self.last_cell {
                    self.last_cell = cell;
                    self.last_in = m.contains(cell, resolution);
                }
                self.last_in
            },
        }
    }
}

// ---------------------------------------------------------------------------
// laws

/// A member that is finer than a cell never puts the cell into the area.
pub proof fn finer_members_do_not_count(
    members: Set<u64>,
    finer: u64,
    cell: u64,
    resolution: i32,
)
    requires
        resolution_of(finer) > resolution,
    ensures
        in_area(members.insert(finer), cell, resolution) == in_area(members, cell, resolution),
{
    if in_area(members, cell, resolution) {
        let m = choose|m: u64| #[trigger] members.contains(m) && covers(m, cell, resolution);
        assert(members.insert(finer).contains(m));
    }
    if in_area(members.insert(finer), cell, resolution) {
        let m = choose|m: u64| #[trigger]
            members.insert(finer).contains(m) && covers(m, cell, resolution);
        assert(members.contains(m));
    }
}

/// Masks of lists with the same cells decide alike: neither the order of the
/// cells nor how often each is listed matters.
pub proof fn order_and_repeats_do_not_count(
    cells: Seq<u64>,
    others: Seq<u64>,
    mask: CellMask,
    other: CellMask,
    cell: u64,
    resolution: i32,
)
    requires
        mask.members() == cells.to_set(),
        other.members() == others.to_set(),
        forall|c: u64| cells.contains(c) == others.contains(c),
    ensures
        in_area(mask.members(), cell, resolution) == in_area(other.members(), cell, resolution),
{
    assert(cells.to_set() =~= others.to_set());
}

/// A listed cell of the resolution is in the area, and so is every cell below a listed
/// one; a cell with neither itself nor an ancestor in the list is not. Without a mask
/// every cell is allowed, with one those of its area.
pub proof fn area_is_the_listed_cells_and_what_lies_below(
    mask: Option<&CellMask>,
    members: Set<u64>,
    m: u64,
    cell: u64,
    resolution: i32,
)
    ensures
        members.contains(cell) && resolution_of(cell) == resolution ==> in_area(
            members,
            cell,
            resolution,
        ),
        members.contains(m) && resolution_of(m) < resolution && ancestor(cell, resolution_of(m))
            == Some(m) ==> in_area(members, cell, resolution),
        !members.contains(cell) && (forall|x: u64| #[trigger]
            members.contains(x) ==> ancestor(cell, resolution_of(x)) != Some(x)) ==> !in_area(
            members,
            cell,
            resolution,
        ),
        !(exists|x: u64| #[trigger] members.contains(x) && resolution_of(x) <= resolution)
            ==> !in_area(members, cell, resolution),
        mask is None ==> mask_allows(mask, cell, resolution),
        mask matches Some(k) ==> mask_allows(mask, cell, resolution) == in_area(
            k.members(),
            cell,
            resolution,
        ),
{
    if members.contains(cell) && resolution_of(cell) == resolution {
        assert(covers(cell, cell, resolution));
    }
    if members.contains(m) && resolution_of(m) < resolution && ancestor(cell, resolution_of(m))
        == Some(m) {
        assert(covers(m, cell, resolution));
    }
}

} // verus!
