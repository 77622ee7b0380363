//! Accumulators for a set of cells, and their spread over partitions.

use vstd::prelude::*;

use ahash::AHashMap;

use crate::classes::{
    capped_sum, cat_merge, class_weight, classes_merged, classes_wf, merging_conserves_weight,
    too_many_classes, total_weight, ClassWeights,
};
use crate::collections::{slot_map, slots_get, slots_insert, slots_with_capacity, MAX_CAPACITY};
use crate::error::{is_invalid, A5CogError};
use crate::partition::{
    group, group_by_key, lemma_group_has, lemma_group_members, partition, partition_count,
    partition_in_range, partition_of, MAX_LOG2P,
};
use crate::stats::{AccCfg, Stat};

verus! {

/// A running accumulator of one band of one cell.
///
/// The methods take and return the accumulator by value. A weight is a whole
/// number of parts out of `unit`.
pub trait AccLayout: Copy {
    /// A band value.
    type Value: Copy;

    /// The accumulator that has seen nothing.
    fn new() -> Self;

    /// Adds one value of weight `w / unit`.
    fn push(self, v: Self::Value, w: u64, unit: u64) -> Self;

    /// Adds a run of values of weight one (consecutive pixels of one cell).
    fn push_run(self, vals: &Vec<Self::Value>) -> Self;

    /// Takes in what another accumulator has seen.
    fn merge(self, other: Self) -> Self;

    /// The value of a statistic.
    fn finalise(self, stat: Stat) -> Self::Value;
}

/// Accumulators of a set of cells in one slab: `cont[i * n_out + b]` is band
/// `b` of the `i`-th cell first seen. Slots are stable while cells are added.
pub struct CellStore<L: AccLayout> {
    pub n_out: usize,
    pub cfg: AccCfg,
    pub index: AHashMap<u64, u32>,
    pub cells: Vec<u64>,
    pub cont: Vec<L>,
    pub cat: Vec<ClassWeights>,
    /// Weight per cell (pixels with any valid band), when `cfg.has_npix`.
    pub npix: Vec<u64>,
}

/// `len` entries per cell where the part is kept, none otherwise.
pub open spec fn kept(flag: bool, len: int) -> int {
    if flag {
        len
    } else {
        0
    }
}

/// The map gives each listed cell its position, and holds nothing else.
pub open spec fn index_wf(map: Map<u64, u32>, cells: Seq<u64>) -> bool {
    &&& cells.len() <= u32::MAX
    &&& forall|i: int|
        0 <= i < cells.len() ==> map.contains_key(#[trigger] cells[i]) && map[cells[i]] == i
    &&& forall|c: u64| #[trigger]
        map.contains_key(c) ==> map[c] < cells.len() && cells[map[c] as int] == c
}

/// Entry `b` of row `i` in a slab with `n` entries per row.
pub open spec fn slab<T>(s: Seq<T>, n: int, i: int, b: int) -> T {
    s[i * n + b]
}

impl<L: AccLayout> CellStore<L> {
    /// The store's invariant: the index and the cell list agree, the slabs have
    /// their sizes, the class lists are well formed.
    pub open spec fn wf(&self) -> bool {
        &&& index_wf(slot_map(self.index), self.cells@)
        &&& self.cont@.len() == kept(self.cfg.has_cont, self.cells@.len() * self.n_out)
        &&& self.cat@.len() == kept(self.cfg.has_cat, self.cells@.len() * self.n_out)
        &&& self.npix@.len() == kept(self.cfg.has_npix, self.cells@.len() as int)
        &&& forall|k: int| 0 <= k < self.cat@.len() ==> classes_wf((#[trigger] self.cat@[k])@)
    }

    /// The store has seen `cell`.
    #[verifier::inline]
    pub open spec fn has(&self, cell: u64) -> bool {
        slot_map(self.index).contains_key(cell)
    }

    /// The slot of a cell that the store has seen.
    #[verifier::inline]
    pub open spec fn slot_of(&self, cell: u64) -> int {
        slot_map(self.index)[cell] as int
    }

    /// The continuous accumulator of band `b` in slot `i`.
    #[verifier::inline]
    pub open spec fn acc(&self, i: int, b: int) -> L {
        slab(self.cont@, self.n_out as int, i, b)
    }

    /// The class weights of band `b` in slot `i`.
    #[verifier::inline]
    pub open spec fn classes(&self, i: int, b: int) -> Seq<(i32, u64)> {
        slab(self.cat@, self.n_out as int, i, b)@
    }

    /// `more` new cells can still be numbered and their slabs addressed.
    pub open spec fn room_for(&self, more: int) -> bool {
        self.cells@.len() + more <= u32::MAX && (self.cells@.len() + more) * self.n_out
            <= usize::MAX
    }

    /// Two stores accumulate the same things.
    pub open spec fn same_shape(&self, other: &CellStore<L>) -> bool {
        self.n_out == other.n_out && self.cfg == other.cfg
    }
}

/// Slot `i` of `a` holds what slot `j` of `b` holds.
pub open spec fn same_entry<L: AccLayout>(a: CellStore<L>, i: int, b: CellStore<L>, j: int) -> bool {
    &&& a.cfg.has_cont ==> forall|k: int| 0 <= k < a.n_out ==> #[trigger] a.acc(i, k) == b.acc(j, k)
    &&& a.cfg.has_cat ==> forall|k: int|
        0 <= k < a.n_out ==> #[trigger] a.classes(i, k) == b.classes(j, k)
    &&& a.cfg.has_npix ==> a.npix@[i] == b.npix@[j]
}

/// Slot `i` has seen nothing yet.
pub open spec fn fresh_entry<L: AccLayout>(a: CellStore<L>, i: int) -> bool {
    &&& a.cfg.has_cont ==> forall|k: int|
        0 <= k < a.n_out ==> call_ensures(L::new, (), #[trigger] a.acc(i, k))
    &&& a.cfg.has_cat ==> forall|k: int|
        0 <= k < a.n_out ==> #[trigger] a.classes(i, k) == Seq::<(i32, u64)>::empty()
    &&& a.cfg.has_npix ==> a.npix@[i] == 0
}

/// `b` is `a` with perhaps more cells behind those of `a`.
pub open spec fn extends<L: AccLayout>(a: CellStore<L>, b: CellStore<L>) -> bool {
    &&& a.same_shape(&b)
    &&& a.cells@.len() <= b.cells@.len()
    &&& forall|i: int| 0 <= i < a.cells@.len() ==> #[trigger] b.cells@[i] == a.cells@[i]
}

/// `r` is what merging `o` into `prior` gives; into a new accumulator where
/// there is no prior one.
pub open spec fn merged_acc<L: AccLayout>(prior: Option<L>, o: L, r: L) -> bool {
    match prior {
        Some(p) => call_ensures(L::merge, (p, o), r),
        None => exists|z: L|
            call_ensures(L::new, (), z) && #[trigger] call_ensures(L::merge, (z, o), r),
    }
}

impl<L: AccLayout> CellStore<L> {
    /// The accumulator of a cell's band, if the cell was seen.
    pub open spec fn prior_acc(&self, cell: u64, b: int) -> Option<L> {
        if self.has(cell) {
            Some(self.acc(self.slot_of(cell), b))
        } else {
            None
        }
    }

    /// The class weights of a cell's band, empty if the cell was not seen.
    pub open spec fn prior_classes(&self, cell: u64, b: int) -> Seq<(i32, u64)> {
        if self.has(cell) {
            self.classes(self.slot_of(cell), b)
        } else {
            Seq::empty()
        }
    }

    /// The pixel weight of a cell, zero if the cell was not seen.
    pub open spec fn prior_npix(&self, cell: u64) -> u64 {
        if self.has(cell) {
            self.npix@[self.slot_of(cell)]
        } else {
            0
        }
    }
}

/// The class lists of slot `i` of `other` fit into those of the same cell.
pub open spec fn mergeable<L: AccLayout>(
    into: CellStore<L>,
    other: CellStore<L>,
    i: int,
) -> bool {
    into.cfg.has_cat ==> forall|b: int|
        0 <= b < into.n_out ==> classes_merged(
            into.prior_classes(other.cells@[i], b),
            #[trigger] other.classes(i, b),
        ) is Some
}

/// `after` holds, for the cell in slot `i` of `other`, what `before` held of it
/// merged with what `other` holds.
pub open spec fn entry_merged<L: AccLayout>(
    before: CellStore<L>,
    other: CellStore<L>,
    i: int,
    after: CellStore<L>,
) -> bool {
    let cell = other.cells@[i];
    let s = after.slot_of(cell);
    &&& after.has(cell)
    &&& before.cfg.has_cont ==> forall|b: int|
        0 <= b < before.n_out ==> merged_acc(
            before.prior_acc(cell, b),
            other.acc(i, b),
            #[trigger] after.acc(s, b),
        )
    &&& before.cfg.has_cat ==> forall|b: int|
        0 <= b < before.n_out ==> classes_merged(
            before.prior_classes(cell, b),
            other.classes(i, b),
        ) == Some(#[trigger] after.classes(s, b))
    &&& before.cfg.has_npix ==> after.npix@[s] == capped_sum(
        before.prior_npix(cell),
        other.npix@[i],
    )
}

// ---------------------------------------------------------------------------
// slab arithmetic

pub(crate) proof fn lemma_slab(i: int, n: int, b: int, len: int)
    by (nonlinear_arith)
    requires
        0 <= i < len,
        0 <= b < n,
    ensures
        0 <= i * n + b < len * n,
        (i + 1) * n <= len * n,
{
}

pub(crate) proof fn lemma_slab_grows(i: int, j: int, n: int)
    by (nonlinear_arith)
    requires
        0 <= i <= j,
        0 <= n,
    ensures
        0 <= i * n <= j * n,
        i == 0 ==> i * n == 0,
{
}

pub(crate) proof fn lemma_slab_step(i: int, n: int)
    by (nonlinear_arith)
    ensures
        (i + 1) * n == i * n + n,
{
}

pub(crate) proof fn lemma_slab_distinct(i: int, b: int, j: int, c: int, n: int)
    by (nonlinear_arith)
    requires
        0 <= b < n,
        0 <= c < n,
        i * n + b == j * n + c,
    ensures
        i == j,
        b == c,
{
}

impl<L: AccLayout> CellStore<L> {
    /// A store of `n_out` bands without cells, sized for `cap` of them.
    pub fn new(n_out: usize, cfg: AccCfg, cap: usize) -> (r: CellStore<L>)
        requires
            cap <= MAX_CAPACITY,
        ensures
            r.wf(),
            r.n_out == n_out,
            r.cfg == cfg,
            r.cells@.len() == 0,
            forall|c: u64| !r.has(c),
    {
        proof {
            lemma_slab_grows(0, 0, n_out as int);
        }
        CellStore {
            n_out,
            cfg,
            index: slots_with_capacity(cap),
            cells: Vec::new(),
            cont: Vec::new(),
            cat: Vec::new(),
            npix: Vec::new(),
        }
    }

    /// The number of cells seen.
    pub fn len(&self) -> (r: usize)
        ensures
            r == self.cells@.len(),
    {
        self.cells.len()
    }

    /// Whether `more` new cells can be numbered and their slabs addressed.
    pub fn can_take(&self, more: usize) -> (r: bool)
        ensures
            r == self.room_for(more as int),
    {
        match self.cells.len().checked_add(more) {
            None => false,
            Some(n) => n <= u32::MAX as usize && n.checked_mul(self.n_out).is_some(),
        }
    }

    /// The slot of `cell`, added behind the others if it is new.
    pub fn slot(&mut self, cell: u64) -> (r: u32)
        requires
            old(self).wf(),
            old(self).has(cell) || old(self).room_for(1),
        ensures
            final(self).wf(),
            extends(*old(self), *final(self)),
            final(self).has(cell),
            r == final(self).slot_of(cell),
            final(self).cells@ == (if old(self).has(cell) {
                old(self).cells@
            } else {
                old(self).cells@.push(cell)
            }),
            forall|c: u64| final(self).has(c) == (old(self).has(c) || c == cell),
            forall|c: u64| old(self).has(c) ==> final(self).slot_of(c) == old(self).slot_of(c),
            forall|i: int|
                0 <= i < old(self).cells@.len() ==> same_entry(*old(self), i, *final(self), i),
            !old(self).has(cell) ==> r == old(self).cells@.len() && fresh_entry(
                *final(self),
                r as int,
            ),
    {
        if let Some(s) = slots_get(&self.index, cell) {
            return s;
        }
        let ghost before = *self;
        let n: usize = self.cells.len();
        let s: u32 = n as u32;
        self.cells.push(cell);
        slots_insert(&mut self.index, cell, s);
        let n_out: usize = self.n_out;
        proof {
            lemma_slab_step(n as int, n_out as int);
        }
        if self.cfg.has_cont {
            let z = L::new();
            for b in 0..n_out
                invariant
                    call_ensures(L::new, (), z),
                    n_out == before.n_out,
                    self.n_out == before.n_out,
                    self.cfg == before.cfg,
                    self.cells@ == before.cells@.push(cell),
                    self.index == (*self).index,
                    slot_map(self.index) == slot_map(before.index).insert(cell, s),
                    self.cat@ == before.cat@,
                    self.npix@ == before.npix@,
                    self.cont@.len() == before.cont@.len() + b,
                    forall|k: int| 0 <= k < before.cont@.len() ==> self.cont@[k] == before.cont@[k],
                    forall|k: int|
                        before.cont@.len() <= k < self.cont@.len() ==> call_ensures(
                            L::new,
                            (),
                            #[trigger] self.cont@[k],
                        ),
            {
                self.cont.push(z);
            }
        }
        if self.cfg.has_cat {
            for b in 0..n_out
                invariant
                    n_out == before.n_out,
                    self.n_out == before.n_out,
                    self.cfg == before.cfg,
                    self.cells@ == before.cells@.push(cell),
                    slot_map(self.index) == slot_map(before.index).insert(cell, s),
                    self.npix@ == before.npix@,
                    self.cat@.len() == before.cat@.len() + b,
                    forall|k: int| 0 <= k < before.cat@.len() ==> self.cat@[k] == before.cat@[k],
                    forall|k: int|
                        before.cat@.len() <= k < self.cat@.len() ==> (#[trigger] self.cat@[k])@
                            == Seq::<(i32, u64)>::empty(),
                    self.cfg.has_cont ==> {
                        &&& self.cont@.len() == before.cont@.len() + n_out
                        &&& forall|k: int|
                            0 <= k < before.cont@.len() ==> self.cont@[k] == before.cont@[k]
                        &&& forall|k: int|
                            before.cont@.len() <= k < self.cont@.len() ==> call_ensures(
                                L::new,
                                (),
                                #[trigger] self.cont@[k],
                            )
                    },
                    !self.cfg.has_cont ==> self.cont@ == before.cont@,
            {
                self.cat.push(Vec::new());
            }
        }
        if self.cfg.has_npix {
            self.npix.push(0);
        }
        proof {
            let after = *self;
            assert(index_wf(slot_map(after.index), after.cells@));
            assert(after.cont@.len() == kept(after.cfg.has_cont, after.cells@.len() * after.n_out));
            assert(after.cat@.len() == kept(after.cfg.has_cat, after.cells@.len() * after.n_out));
            assert forall|k: int| 0 <= k < after.cat@.len() implies classes_wf((#[trigger] after.cat@[k])@) by {
                if k < before.cat@.len() {
                    assert(after.cat@[k] == before.cat@[k]);
                }
            }
            assert forall|i: int| 0 <= i < before.cells@.len() implies same_entry(
                before,
                i,
                after,
                i,
            ) by {
                if before.cfg.has_cont {
                    assert forall|k: int| 0 <= k < before.n_out implies #[trigger] before.acc(i, k)
                        == after.acc(i, k) by {
                        lemma_slab(i, n_out as int, k, n as int);
                    }
                }
                if before.cfg.has_cat {
                    assert forall|k: int| 0 <= k < before.n_out implies #[trigger] before.classes(
                        i,
                        k,
                    ) == after.classes(i, k) by {
                        lemma_slab(i, n_out as int, k, n as int);
                    }
                }
            }
        }
        s
    }

    /// Adds `w` to the pixel weight of a slot, where pixel weights are kept.
    pub fn add_npix(&mut self, slot: u32, w: u64)
        requires
            old(self).wf(),
            slot < old(self).cells@.len(),
        ensures
            final(self).wf(),
            final(self).same_shape(old(self)),
            final(self).index == old(self).index,
            final(self).cells@ == old(self).cells@,
            final(self).cont@ == old(self).cont@,
            final(self).cat@ == old(self).cat@,
            final(self).npix@ == (if old(self).cfg.has_npix {
                old(self).npix@.update(
                    slot as int,
                    capped_sum(old(self).npix@[slot as int], w),
                )
            } else {
                old(self).npix@
            }),
    {
        if self.cfg.has_npix {
            let p: usize = slot as usize;
            let v: u64 = self.npix[p];
            self.npix.set(p, v.saturating_add(w));
        }
    }

    /// Merges slot `i` of `other` into this store.
    ///
    /// The error comes exactly where a class list would grow too long.
    pub fn merge_cell_from(&mut self, other: &CellStore<L>, i: usize) -> (r: Result<
        (),
        A5CogError,
    >)
        requires
            old(self).wf(),
            other.wf(),
            old(self).same_shape(other),
            i < other.cells@.len(),
            old(self).has(other.cells@[i as int]) || old(self).room_for(1),
        ensures
            final(self).wf(),
            extends(*old(self), *final(self)),
            final(self).cells@ == (if old(self).has(other.cells@[i as int]) {
                old(self).cells@
            } else {
                old(self).cells@.push(other.cells@[i as int])
            }),
            forall|c: u64|
                final(self).has(c) == (old(self).has(c) || c == other.cells@[i as int]),
            forall|c: u64| old(self).has(c) ==> final(self).slot_of(c) == old(self).slot_of(c),
            r is Ok <==> mergeable(*old(self), *other, i as int),
            r matches Err(e) ==> is_invalid(e, too_many_classes()),
            r is Ok ==> entry_merged(*old(self), *other, i as int, *final(self)),
            forall|j: int|
                0 <= j < old(self).cells@.len() && old(self).cells@[j] != other.cells@[i as int]
                    ==> same_entry(*old(self), j, *final(self), j),
    {
        let ghost before = *self;
        let cell: u64 = other.cells[i];
        let n_out: usize = self.n_out;
        let s: usize = self.slot(cell) as usize;
        let ghost mid = *self;
        assert(before.has(cell) ==> same_entry(before, s as int, mid, s as int));
        if self.cfg.has_cont {
            self.merge_cont(other, i, s);
        }
        let ghost mid2 = *self;
        if self.cfg.has_cat {
            match self.merge_cat(other, i, s) {
                Ok(_) => {},
                Err(e) => {
                    proof {
                        lemma_same_off(before, mid, *self, s as int, cell);
                        assert(!mergeable(before, *other, i as int)) by {
                            let b = choose|b: int|
                                0 <= b < n_out && classes_merged(
                                    mid2.classes(s as int, b),
                                    #[trigger] other.classes(i as int, b),
                                ) is None;
                            assert(mid2.classes(s as int, b) == mid.classes(s as int, b));
                            assert(mid.classes(s as int, b) == before.prior_classes(cell, b));
                        }
                    }
                    return Err(e);
                },
            }
        }
        if self.cfg.has_npix {
            let v: u64 = self.npix[s];
            self.npix.set(s, v.saturating_add(other.npix[i]));
        }
        proof {
            lemma_same_off(before, mid, *self, s as int, cell);
            if before.cfg.has_cat {
                assert forall|b: int| 0 <= b < before.n_out implies classes_merged(
                    before.prior_classes(cell, b),
                    other.classes(i as int, b),
                ) == Some(#[trigger] self.classes(s as int, b)) by {
                    assert(mid2.classes(s as int, b) == mid.classes(s as int, b));
                    assert(mid.classes(s as int, b) == before.prior_classes(cell, b));
                }
                assert(mergeable(before, *other, i as int)) by {
                    assert forall|b: int| 0 <= b < before.n_out implies classes_merged(
                        before.prior_classes(cell, b),
                        #[trigger] other.classes(i as int, b),
                    ) is Some by {
                        assert(self.classes(s as int, b) == self.classes(s as int, b));
                    }
                }
            }
            if before.cfg.has_cont {
                assert forall|b: int| 0 <= b < before.n_out implies merged_acc(
                    before.prior_acc(cell, b),
                    other.acc(i as int, b),
                    #[trigger] self.acc(s as int, b),
                ) by {
                    assert(call_ensures(
                        L::merge,
                        (mid.acc(s as int, b), other.acc(i as int, b)),
                        self.acc(s as int, b),
                    ));
                    if before.has(cell) {
                        assert(before.acc(s as int, b) == mid.acc(s as int, b));
                    }
                }
            }
        }
        Ok(())
    }

    fn merge_cont(&mut self, other: &CellStore<L>, i: usize, s: usize)
        requires
            old(self).wf(),
            other.wf(),
            old(self).same_shape(other),
            old(self).cfg.has_cont,
            i < other.cells@.len(),
            s < old(self).cells@.len(),
        ensures
            final(self).wf(),
            final(self).same_shape(old(self)),
            final(self).index == old(self).index,
            final(self).cells@ == old(self).cells@,
            final(self).cat@ == old(self).cat@,
            final(self).npix@ == old(self).npix@,
            forall|b: int|
                0 <= b < old(self).n_out ==> call_ensures(
                    L::merge,
                    (old(self).acc(s as int, b), other.acc(i as int, b)),
                    #[trigger] final(self).acc(s as int, b),
                ),
            forall|j: int, b: int|
                0 <= j < old(self).cells@.len() && j != s && 0 <= b < old(self).n_out
                    ==> #[trigger] final(self).acc(j, b) == old(self).acc(j, b),
    {
        let ghost before = *self;
        let n_out: usize = self.n_out;
        for b in 0..n_out
            invariant
                before.wf(),
                other.wf(),
                before.same_shape(other),
                before.cfg.has_cont,
                i < other.cells@.len(),
                s < before.cells@.len(),
                n_out == before.n_out,
                self.same_shape(&before),
                self.index == before.index,
                self.cells@ == before.cells@,
                self.cat@ == before.cat@,
                self.npix@ == before.npix@,
                self.cont@.len() == before.cont@.len(),
                forall|c: int|
                    0 <= c < b ==> call_ensures(
                        L::merge,
                        (before.acc(s as int, c), other.acc(i as int, c)),
                        #[trigger] self.acc(s as int, c),
                    ),
                forall|c: int| b <= c < n_out ==> #[trigger] self.acc(s as int, c) == before.acc(
                    s as int,
                    c,
                ),
                forall|j: int, c: int|
                    0 <= j < before.cells@.len() && j != s && 0 <= c < n_out
                        ==> #[trigger] self.acc(j, c) == before.acc(j, c),
        {
            let ghost now = *self;
            proof {
                lemma_slab(s as int, n_out as int, b as int, before.cells@.len() as int);
                lemma_slab(i as int, n_out as int, b as int, other.cells@.len() as int);
                lemma_slab_grows(s as int, before.cells@.len() as int, n_out as int);
                lemma_slab_grows(i as int, other.cells@.len() as int, n_out as int);
                assert(before.cont.len() <= usize::MAX && other.cont.len() <= usize::MAX);
            }
            let k: usize = s * n_out + b;
            let m = self.cont[k].merge(other.cont[i * n_out + b]);
            assert(call_ensures(
                L::merge,
                (before.acc(s as int, b as int), other.acc(i as int, b as int)),
                m,
            )) by {
                assert(now.acc(s as int, b as int) == before.acc(s as int, b as int));
            }
            self.cont.set(k, m);
            proof {
                assert forall|j: int, c: int|
                    0 <= j < before.cells@.len() && 0 <= c < n_out && (j != s || c
                        != b) implies #[trigger] self.acc(j, c) == now.acc(j, c) by {
                    lemma_slab(j, n_out as int, c, before.cells@.len() as int);
                    if j * n_out + c == k {
                        lemma_slab_distinct(j, c, s as int, b as int, n_out as int);
                    }
                }
                assert(self.acc(s as int, b as int) == m);
            }
        }
    }

    fn merge_cat(&mut self, other: &CellStore<L>, i: usize, s: usize) -> (r: Result<
        (),
        A5CogError,
    >)
        requires
            old(self).wf(),
            other.wf(),
            old(self).same_shape(other),
            old(self).cfg.has_cat,
            i < other.cells@.len(),
            s < old(self).cells@.len(),
        ensures
            final(self).wf(),
            final(self).same_shape(old(self)),
            final(self).index == old(self).index,
            final(self).cells@ == old(self).cells@,
            final(self).cont@ == old(self).cont@,
            final(self).npix@ == old(self).npix@,
            r matches Err(e) ==> is_invalid(e, too_many_classes()) && exists|b: int|
                0 <= b < old(self).n_out && classes_merged(
                    old(self).classes(s as int, b),
                    #[trigger] other.classes(i as int, b),
                ) is None,
            r is Ok ==> forall|b: int|
                0 <= b < old(self).n_out ==> classes_merged(
                    old(self).classes(s as int, b),
                    other.classes(i as int, b),
                ) == Some(#[trigger] final(self).classes(s as int, b)),
            forall|j: int, b: int|
                0 <= j < old(self).cells@.len() && j != s && 0 <= b < old(self).n_out
                    ==> #[trigger] final(self).classes(j, b) == old(self).classes(j, b),
    {
        let ghost before = *self;
        let n_out: usize = self.n_out;
        for b in 0..n_out
            invariant
                before == *old(self),
                before.wf(),
                other.wf(),
                before.same_shape(other),
                before.cfg.has_cat,
                i < other.cells@.len(),
                s < before.cells@.len(),
                n_out == before.n_out,
                self.same_shape(&before),
                self.index == before.index,
                self.cells@ == before.cells@,
                self.cont@ == before.cont@,
                self.npix@ == before.npix@,
                self.cat@.len() == before.cat@.len(),
                forall|k: int| 0 <= k < self.cat@.len() ==> classes_wf((#[trigger] self.cat@[k])@),
                forall|c: int|
                    0 <= c < b ==> classes_merged(
                        before.classes(s as int, c),
                        other.classes(i as int, c),
                    ) == Some(#[trigger] self.classes(s as int, c)),
                forall|c: int|
                    b <= c < n_out ==> #[trigger] self.classes(s as int, c) == before.classes(
                        s as int,
                        c,
                    ),
                forall|j: int, c: int|
                    0 <= j < before.cells@.len() && j != s && 0 <= c < n_out
                        ==> #[trigger] self.classes(j, c) == before.classes(j, c),
        {
            let ghost now = *self;
            proof {
                lemma_slab(s as int, n_out as int, b as int, before.cells@.len() as int);
                lemma_slab(i as int, n_out as int, b as int, other.cells@.len() as int);
                lemma_slab_grows(s as int, before.cells@.len() as int, n_out as int);
                lemma_slab_grows(i as int, other.cells@.len() as int, n_out as int);
                assert(before.cat.len() <= usize::MAX && other.cat.len() <= usize::MAX);
            }
            let k: usize = s * n_out + b;
            assert(now.classes(s as int, b as int) == before.classes(s as int, b as int));
            let res = cat_merge(&mut self.cat[k], &other.cat[i * n_out + b]);
            proof {
                assert forall|j: int, c: int|
                    0 <= j < before.cells@.len() && 0 <= c < n_out && (j != s || c
                        != b) implies #[trigger] self.classes(j, c) == now.classes(j, c) by {
                    lemma_slab(j, n_out as int, c, before.cells@.len() as int);
                    if j * n_out + c == k {
                        lemma_slab_distinct(j, c, s as int, b as int, n_out as int);
                    }
                }
                assert(self.classes(s as int, b as int) == self.cat@[k as int]@);
                assert(other.classes(i as int, b as int) == other.cat@[i * n_out + b]@);
            }
            match res {
                Ok(_) => {},
                Err(e) => {
                    return Err(e);
                },
            }
        }
        Ok(())
    }
}

/// What a merge into slot `s` leaves alone.
proof fn lemma_same_off<L: AccLayout>(
    before: CellStore<L>,
    mid: CellStore<L>,
    after: CellStore<L>,
    s: int,
    cell: u64,
)
    requires
        before.wf(),
        mid.wf(),
        extends(before, mid),
        after.same_shape(&mid),
        after.index == mid.index,
        after.cells@ == mid.cells@,
        mid.has(cell),
        s == mid.slot_of(cell),
        forall|i: int| 0 <= i < before.cells@.len() ==> same_entry(before, i, mid, i),
        mid.cfg.has_cont ==> forall|j: int, b: int|
            0 <= j < mid.cells@.len() && j != s && 0 <= b < mid.n_out ==> #[trigger] after.acc(j, b)
                == mid.acc(j, b),
        mid.cfg.has_cat ==> forall|j: int, b: int|
            0 <= j < mid.cells@.len() && j != s && 0 <= b < mid.n_out ==> #[trigger] after.classes(
                j,
                b,
            ) == mid.classes(j, b),
        mid.cfg.has_npix ==> after.npix@.len() == mid.npix@.len() && forall|j: int|
            0 <= j < mid.cells@.len() && j != s ==> #[trigger] after.npix@[j] == mid.npix@[j],
    ensures
        forall|j: int|
            0 <= j < before.cells@.len() && before.cells@[j] != cell ==> same_entry(
                before,
                j,
                after,
                j,
            ),
{
    assert forall|j: int|
        0 <= j < before.cells@.len() && before.cells@[j] != cell implies same_entry(
        before,
        j,
        after,
        j,
    ) by {
        assert(same_entry(before, j, mid, j));
        assert(mid.cells@[j] == before.cells@[j]);
        assert(j != s);
        if before.cfg.has_cont {
            assert forall|k: int| 0 <= k < before.n_out implies #[trigger] before.acc(j, k)
                == after.acc(j, k) by {
                assert(after.acc(j, k) == mid.acc(j, k));
            }
        }
        if before.cfg.has_cat {
            assert forall|k: int| 0 <= k < before.n_out implies #[trigger] before.classes(j, k)
                == after.classes(j, k) by {
                assert(after.classes(j, k) == mid.classes(j, k));
            }
        }
    }
}

// ---------------------------------------------------------------------------
// merging a group of cells

/// The cells of a group that `before` has not seen, in the group's order.
pub open spec fn new_cells<L: AccLayout>(
    before: CellStore<L>,
    other: CellStore<L>,
    idxs: Seq<usize>,
) -> Seq<u64>
    decreases idxs.len(),
{
    if idxs.len() == 0 {
        Seq::empty()
    } else {
        let rest = new_cells(before, other, idxs.drop_last());
        let c = other.cells@[idxs.last() as int];
        if before.has(c) {
            rest
        } else {
            rest.push(c)
        }
    }
}

/// `cell` is one of the cells of `other` that the group lists.
pub open spec fn in_group<L: AccLayout>(other: CellStore<L>, idxs: Seq<usize>, cell: u64) -> bool {
    exists|t: int| 0 <= t < idxs.len() && other.cells@[#[trigger] idxs[t] as int] == cell
}

/// `after` is `before` with the listed cells of `other` merged in.
pub open spec fn group_merged<L: AccLayout>(
    before: CellStore<L>,
    other: CellStore<L>,
    idxs: Seq<usize>,
    after: CellStore<L>,
) -> bool {
    &&& extends(before, after)
    &&& after.cells@ == before.cells@ + new_cells(before, other, idxs)
    &&& forall|c: u64| #[trigger] after.has(c) == (before.has(c) || in_group(other, idxs, c))
    &&& forall|t: int|
        0 <= t < idxs.len() ==> entry_merged(before, other, #[trigger] idxs[t] as int, after)
    &&& forall|j: int|
        0 <= j < before.cells@.len() && !in_group(other, idxs, before.cells@[j]) ==> same_entry(
            before,
            j,
            after,
            j,
        )
}

/// Every listed cell of `other` can be merged.
pub open spec fn group_mergeable<L: AccLayout>(
    before: CellStore<L>,
    other: CellStore<L>,
    idxs: Seq<usize>,
) -> bool {
    forall|t: int| 0 <= t < idxs.len() ==> mergeable(before, other, #[trigger] idxs[t] as int)
}

/// The list names slots of `other`, none twice.
pub open spec fn valid_group<L: AccLayout>(other: CellStore<L>, idxs: Seq<usize>) -> bool {
    &&& forall|t: int| 0 <= t < idxs.len() ==> #[trigger] idxs[t] < other.cells@.len()
    &&& forall|t: int, u: int|
        0 <= t < u < idxs.len() ==> #[trigger] idxs[t] != #[trigger] idxs[u]
}

/// A merge of another cell leaves a merged entry as it is.
proof fn lemma_entry_survives<L: AccLayout>(
    before: CellStore<L>,
    other: CellStore<L>,
    i: int,
    now: CellStore<L>,
    next: CellStore<L>,
)
    requires
        before.same_shape(&now),
        entry_merged(before, other, i, now),
        next.has(other.cells@[i]),
        next.slot_of(other.cells@[i]) == now.slot_of(other.cells@[i]),
        same_entry(now, now.slot_of(other.cells@[i]), next, now.slot_of(other.cells@[i])),
    ensures
        entry_merged(before, other, i, next),
{
    let s = now.slot_of(other.cells@[i]);
    if before.cfg.has_cont {
        assert forall|b: int| 0 <= b < before.n_out implies merged_acc(
            before.prior_acc(other.cells@[i], b),
            other.acc(i, b),
            #[trigger] next.acc(s, b),
        ) by {
            assert(now.acc(s, b) == next.acc(s, b));
        }
    }
    if before.cfg.has_cat {
        assert forall|b: int| 0 <= b < before.n_out implies classes_merged(
            before.prior_classes(other.cells@[i], b),
            other.classes(i, b),
        ) == Some(#[trigger] next.classes(s, b)) by {
            assert(now.classes(s, b) == next.classes(s, b));
        }
    }
}

/// Where `now` holds of a cell what `before` held, a merge of that cell is the
/// same from either.
proof fn lemma_entry_from_before<L: AccLayout>(
    before: CellStore<L>,
    now: CellStore<L>,
    other: CellStore<L>,
    i: int,
    next: CellStore<L>,
)
    requires
        before.same_shape(&now),
        ({
            let c = other.cells@[i];
            &&& now.has(c) == before.has(c)
            &&& before.has(c) ==> now.slot_of(c) == before.slot_of(c) && same_entry(
                before,
                before.slot_of(c),
                now,
                before.slot_of(c),
            )
        }),
    ensures
        mergeable(before, other, i) == mergeable(now, other, i),
        entry_merged(now, other, i, next) ==> entry_merged(before, other, i, next),
{
    let c = other.cells@[i];
    if before.cfg.has_cat {
        assert forall|b: int| 0 <= b < before.n_out implies before.prior_classes(c, b)
            == now.prior_classes(c, b) by {
            if before.has(c) {
                assert(before.classes(before.slot_of(c), b) == now.classes(before.slot_of(c), b));
            }
        }
        if mergeable(before, other, i) {
            assert forall|b: int| 0 <= b < before.n_out implies classes_merged(
                now.prior_classes(c, b),
                #[trigger] other.classes(i, b),
            ) is Some by {
                assert(before.prior_classes(c, b) == now.prior_classes(c, b));
            }
        }
        if mergeable(now, other, i) {
            assert forall|b: int| 0 <= b < before.n_out implies classes_merged(
                before.prior_classes(c, b),
                #[trigger] other.classes(i, b),
            ) is Some by {
                assert(before.prior_classes(c, b) == now.prior_classes(c, b));
            }
        }
    }
    if entry_merged(now, other, i, next) {
        let s = next.slot_of(c);
        if before.cfg.has_cont {
            assert forall|b: int| 0 <= b < before.n_out implies merged_acc(
                before.prior_acc(c, b),
                other.acc(i, b),
                #[trigger] next.acc(s, b),
            ) by {
                if before.has(c) {
                    assert(before.acc(before.slot_of(c), b) == now.acc(before.slot_of(c), b));
                }
                assert(before.prior_acc(c, b) == now.prior_acc(c, b));
            }
        }
        if before.cfg.has_cat {
            assert forall|b: int| 0 <= b < before.n_out implies classes_merged(
                before.prior_classes(c, b),
                other.classes(i, b),
            ) == Some(#[trigger] next.classes(s, b)) by {
                assert(before.prior_classes(c, b) == now.prior_classes(c, b));
            }
        }
    }
}

impl<L: AccLayout> CellStore<L> {
    /// Merges the cells of `other` that `order[from..to]` lists, in that order.
    ///
    /// The error comes exactly where some class list would grow too long.
    pub fn absorb_cells(
        &mut self,
        other: &CellStore<L>,
        order: &Vec<usize>,
        from: usize,
        to: usize,
    ) -> (r: Result<(), A5CogError>)
        requires
            old(self).wf(),
            other.wf(),
            old(self).same_shape(other),
            from <= to <= order@.len(),
            valid_group(*other, order@.subrange(from as int, to as int)),
            old(self).room_for(to - from),
        ensures
            final(self).wf(),
            extends(*old(self), *final(self)),
            forall|j: int|
                old(self).cells@.len() <= j < final(self).cells@.len() ==> in_group(
                    *other,
                    order@.subrange(from as int, to as int),
                    #[trigger] final(self).cells@[j],
                ),
            r is Ok <==> group_mergeable(
                *old(self),
                *other,
                order@.subrange(from as int, to as int),
            ),
            r matches Err(e) ==> is_invalid(e, too_many_classes()),
            r is Ok ==> group_merged(
                *old(self),
                *other,
                order@.subrange(from as int, to as int),
                *final(self),
            ),
    {
        let ghost before = *self;
        let ghost idxs = order@.subrange(from as int, to as int);
        let mut k: usize = from;
        while k < to
            invariant
                before == *old(self),
                before.wf(),
                other.wf(),
                before.same_shape(other),
                before.room_for(to - from),
                from <= k <= to <= order@.len(),
                idxs == order@.subrange(from as int, to as int),
                valid_group(*other, idxs),
                self.wf(),
                group_merged(before, *other, idxs.take(k - from), *self),
                group_mergeable(before, *other, idxs.take(k - from)),
                self.cells@.len() <= before.cells@.len() + (k - from),
                forall|c: u64| before.has(c) ==> self.slot_of(c) == before.slot_of(c),
            decreases to - k,
        {
            let i: usize = order[k];
            let ghost done = idxs.take(k - from);
            let ghost now = *self;
            let ghost c = other.cells@[i as int];
            proof {
                assert(idxs[k - from] == i);
                assert forall|t: int| 0 <= t < done.len() implies other.cells@[#[trigger] done[t] as int]
                    != c by {
                    assert(done[t] == idxs[t]);
                }
                assert(!in_group(*other, done, c));
                if before.has(c) {
                    let s = before.slot_of(c);
                    assert(before.cells@[s] == c);
                    assert(same_entry(before, s, now, s));
                }
                lemma_slab_grows(
                    (now.cells@.len() + 1) as int,
                    before.cells@.len() + (to - from),
                    before.n_out as int,
                );
            }
            let res = self.merge_cell_from(other, i);
            let ghost next = *self;
            let ghost grown = idxs.take(k - from + 1);
            proof {
                assert(grown == done.push(i));
                assert(grown.drop_last() == done);
                lemma_entry_from_before(before, now, *other, i as int, next);
                assert forall|x: u64| before.has(x) implies next.slot_of(x) == before.slot_of(x) by {
                    assert(now.has(x));
                    assert(now.slot_of(x) == before.slot_of(x));
                    assert(next.slot_of(x) == now.slot_of(x));
                }
            }
            match res {
                Ok(_) => {},
                Err(e) => {
                    proof {
                        assert(!mergeable(before, *other, idxs[k - from] as int));
                        assert forall|j: int|
                            before.cells@.len() <= j < next.cells@.len() implies in_group(
                            *other,
                            idxs,
                            #[trigger] next.cells@[j],
                        ) by {
                            lemma_tail_in_group(before, *other, grown, next, j, now, i);
                            lemma_in_group_take(*other, idxs, k - from + 1, next.cells@[j]);
                        }
                    }
                    return Err(e);
                },
            }
            proof {
                assert forall|t: int| 0 <= t < grown.len() implies entry_merged(
                    before,
                    *other,
                    #[trigger] grown[t] as int,
                    next,
                ) by {
                    if t < done.len() {
                        assert(grown[t] == done[t]);
                        let ct = other.cells@[done[t] as int];
                        assert(entry_merged(before, *other, done[t] as int, now));
                        let j = now.slot_of(ct);
                        assert(now.cells@[j] == ct);
                        assert(same_entry(now, j, next, j));
                        lemma_entry_survives(before, *other, done[t] as int, now, next);
                    }
                }
                assert forall|t: int| 0 <= t < grown.len() implies mergeable(
                    before,
                    *other,
                    #[trigger] grown[t] as int,
                ) by {
                    if t < done.len() {
                        assert(grown[t] == done[t]);
                    }
                }
                assert forall|x: u64| in_group(*other, grown, x) == (in_group(*other, done, x) || x
                    == c) by {
                    lemma_in_group_push(*other, done, i, x);
                }
                assert forall|j: int|
                    0 <= j < before.cells@.len() && !in_group(
                        *other,
                        grown,
                        before.cells@[j],
                    ) implies same_entry(before, j, next, j) by {
                    let x = before.cells@[j];
                    lemma_in_group_push(*other, done, i, x);
                    assert(same_entry(before, j, now, j));
                    assert(now.cells@[j] == x);
                    assert(same_entry(now, j, next, j));
                    lemma_same_entry_trans(before, now, next, j);
                }
                assert(next.cells@ == before.cells@ + new_cells(before, *other, grown));
                assert forall|x: u64| #[trigger] next.has(x) == (before.has(x) || in_group(
                    *other,
                    grown,
                    x,
                )) by {
                    lemma_in_group_push(*other, done, i, x);
                    assert(now.has(x) == (before.has(x) || in_group(*other, done, x)));
                }
                assert(extends(before, next)) by {
                    assert forall|j: int| 0 <= j < before.cells@.len() implies #[trigger] next.cells@[j]
                        == before.cells@[j] by {
                        assert(now.cells@[j] == before.cells@[j]);
                    }
                }
            }
            k = k + 1;
        }
        proof {
            assert(idxs.take(to - from) == idxs);
            assert forall|j: int| before.cells@.len() <= j < self.cells@.len() implies in_group(
                *other,
                idxs,
                #[trigger] self.cells@[j],
            ) by {
                assert(self.has(self.cells@[j]));
                if before.has(self.cells@[j]) {
                    assert(self.slot_of(self.cells@[j]) == before.slot_of(self.cells@[j]));
                }
            }
        }
        Ok(())
    }
}

pub(crate) proof fn lemma_same_entry_trans<L: AccLayout>(
    a: CellStore<L>,
    b: CellStore<L>,
    c: CellStore<L>,
    j: int,
)
    requires
        a.same_shape(&b),
        same_entry(a, j, b, j),
        same_entry(b, j, c, j),
    ensures
        same_entry(a, j, c, j),
{
    if a.cfg.has_cont {
        assert forall|k: int| 0 <= k < a.n_out implies #[trigger] a.acc(j, k) == c.acc(j, k) by {
            assert(b.acc(j, k) == c.acc(j, k));
        }
    }
    if a.cfg.has_cat {
        assert forall|k: int| 0 <= k < a.n_out implies #[trigger] a.classes(j, k) == c.classes(
            j,
            k,
        ) by {
            assert(b.classes(j, k) == c.classes(j, k));
        }
    }
}

proof fn lemma_in_group_push<L: AccLayout>(
    other: CellStore<L>,
    idxs: Seq<usize>,
    i: usize,
    x: u64,
)
    ensures
        in_group(other, idxs.push(i), x) == (in_group(other, idxs, x) || x == other.cells@[i as int]),
{
    let g = idxs.push(i);
    assert(g[idxs.len() as int] == i);
    assert forall|t: int| 0 <= t < idxs.len() implies idxs[t] == g[t] by {}
}

proof fn lemma_in_group_take<L: AccLayout>(other: CellStore<L>, idxs: Seq<usize>, n: int, x: u64)
    requires
        0 <= n <= idxs.len(),
        in_group(other, idxs.take(n), x),
    ensures
        in_group(other, idxs, x),
{
    let t = choose|t: int|
        0 <= t < n && other.cells@[#[trigger] idxs.take(n)[t] as int] == x;
    assert(idxs[t] == idxs.take(n)[t]);
}

/// What stands behind the cells of `before` came from the group.
proof fn lemma_tail_in_group<L: AccLayout>(
    before: CellStore<L>,
    other: CellStore<L>,
    grown: Seq<usize>,
    next: CellStore<L>,
    j: int,
    now: CellStore<L>,
    i: usize,
)
    requires
        before.wf(),
        next.wf(),
        grown.len() > 0,
        grown.last() == i,
        group_merged(before, other, grown.drop_last(), now),
        forall|c: u64| next.has(c) == (now.has(c) || c == other.cells@[i as int]),
        forall|c: u64| before.has(c) ==> next.slot_of(c) == before.slot_of(c),
        before.cells@.len() <= j < next.cells@.len(),
    ensures
        in_group(other, grown, next.cells@[j]),
{
    let c = next.cells@[j];
    assert(next.has(c));
    if before.has(c) {
        assert(next.slot_of(c) == before.slot_of(c));
    }
    lemma_in_group_push(other, grown.drop_last(), i, c);
    assert(grown == grown.drop_last().push(i));
}

// ---------------------------------------------------------------------------
// partitions

/// The partition of each cell.
pub open spec fn partition_keys(cells: Seq<u64>, log2p: u32) -> Seq<usize> {
    Seq::new(cells.len(), |i: int| partition(cells[i], log2p) as usize)
}

/// The slots of `delta` that belong to partition `p`, ascending.
pub open spec fn partition_group<L: AccLayout>(delta: CellStore<L>, log2p: u32, p: int) -> Seq<
    usize,
> {
    group(partition_keys(delta.cells@, log2p), p, delta.cells@.len() as int)
}

/// Groups the slots of a store by partition: `order[start[p]..start[p + 1]]`
/// lists those of partition `p`, ascending.
pub fn plan_absorb<L: AccLayout>(delta: &CellStore<L>, log2p: u32) -> (r: (Vec<usize>, Vec<usize>))
    requires
        delta.wf(),
        log2p <= MAX_LOG2P,
    ensures
        r.0@.len() == delta.cells@.len(),
        r.1@.len() == partition_count(log2p) + 1,
        forall|p: int, q: int|
            0 <= p <= q <= partition_count(log2p) ==> (#[trigger] r.1@[p]) <= (#[trigger] r.1@[q])
                <= delta.cells@.len(),
        forall|p: int|
            0 <= p < partition_count(log2p) ==> r.0@.subrange(
                (#[trigger] r.1@[p]) as int,
                r.1@[p + 1] as int,
            ) == partition_group(*delta, log2p, p),
{
    proof {
        partition_in_range(0, log2p);
    }
    let np: usize = 1usize << (log2p as usize);
    let mut keys: Vec<usize> = Vec::new();
    for i in 0..delta.cells.len()
        invariant
            log2p <= MAX_LOG2P,
            np == partition_count(log2p),
            keys@.len() == i,
            forall|k: int|
                0 <= k < i ==> #[trigger] keys@[k] == partition(delta.cells@[k], log2p) && keys@[k]
                    < np,
    {
        keys.push(partition_of(delta.cells[i], log2p));
    }
    assert(keys@ == partition_keys(delta.cells@, log2p));
    group_by_key(&keys, np)
}

/// The accumulators of a read, spread over `2^log2p` disjoint stores by a hash
/// of the cell id.
pub struct PartitionedStore<L: AccLayout> {
    pub parts: Vec<CellStore<L>>,
    pub log2p: u32,
}

impl<L: AccLayout> PartitionedStore<L> {
    /// Each partition is a well-formed store of the same shape that holds only
    /// its own cells.
    pub open spec fn wf(&self) -> bool {
        &&& self.log2p <= MAX_LOG2P
        &&& self.parts@.len() == partition_count(self.log2p)
        &&& forall|p: int|
            #![trigger self.parts@[p]]
            0 <= p < self.parts@.len() ==> self.parts@[p].wf() && self.parts@[p].same_shape(
                &self.parts@[0],
            ) && own_cells(self.parts@[p], self.log2p, p)
    }

    /// Every partition has room for all cells of `delta`.
    pub open spec fn room_for(&self, delta: CellStore<L>) -> bool {
        forall|p: int|
            0 <= p < self.parts@.len() ==> (#[trigger] self.parts@[p]).room_for(
                delta.cells@.len() as int,
            )
    }

    /// Every partition can merge its own cells of `delta`.
    pub open spec fn mergeable_with(&self, delta: CellStore<L>) -> bool {
        forall|p: int|
            0 <= p < self.parts@.len() ==> group_mergeable(
                #[trigger] self.parts@[p],
                delta,
                partition_group(delta, self.log2p, p),
            )
    }
}

/// The store holds cells of partition `p` only.
pub open spec fn own_cells<L: AccLayout>(s: CellStore<L>, log2p: u32, p: int) -> bool {
    forall|j: int| 0 <= j < s.cells@.len() ==> partition(#[trigger] s.cells@[j], log2p) == p
}

/// Every partition holds what it held with its own cells of `delta` merged in.
pub open spec fn parts_absorbed<L: AccLayout>(
    before: PartitionedStore<L>,
    delta: CellStore<L>,
    after: PartitionedStore<L>,
) -> bool {
    &&& after.parts@.len() == before.parts@.len()
    &&& forall|p: int|
        0 <= p < before.parts@.len() ==> group_merged(
            before.parts@[p],
            delta,
            partition_group(delta, before.log2p, p),
            #[trigger] after.parts@[p],
        )
}

impl<L: AccLayout> PartitionedStore<L> {
    /// Empty partitions, sized up front for `expected_cells` in all.
    pub fn new(log2p: u32, n_out: usize, cfg: AccCfg, expected_cells: usize) -> (r:
        PartitionedStore<L>)
        requires
            log2p <= MAX_LOG2P,
        ensures
            r.wf(),
            r.log2p == log2p,
            forall|p: int|
                0 <= p < r.parts@.len() ==> (#[trigger] r.parts@[p]).n_out == n_out
                    && r.parts@[p].cfg == cfg && r.parts@[p].cells@.len() == 0,
    {
        proof {
            partition_in_range(0, log2p);
        }
        let np: usize = 1usize << (log2p as usize);
        let whole: usize = (expected_cells / np).saturating_add(expected_cells / (np * 8));
        let per_part: usize = if whole.saturating_add(64) < MAX_CAPACITY {
            whole.saturating_add(64)
        } else {
            MAX_CAPACITY
        };
        let mut parts: Vec<CellStore<L>> = Vec::new();
        for p in 0..np
            invariant
                per_part <= MAX_CAPACITY,
                parts@.len() == p,
                forall|q: int|
                    0 <= q < p ==> (#[trigger] parts@[q]).wf() && parts@[q].n_out == n_out
                        && parts@[q].cfg == cfg && parts@[q].cells@.len() == 0,
        {
            parts.push(CellStore::new(n_out, cfg, per_part));
        }
        PartitionedStore { parts, log2p }
    }

    /// Whether every partition has room for all cells of `delta`.
    pub fn can_absorb(&self, delta: &CellStore<L>) -> (r: bool)
        ensures
            r == self.room_for(*delta),
    {
        let more: usize = delta.cells.len();
        let mut p: usize = 0;
        while p < self.parts.len()
            invariant
                p <= self.parts@.len(),
                more == delta.cells@.len(),
                forall|q: int| 0 <= q < p ==> (#[trigger] self.parts@[q]).room_for(more as int),
            decreases self.parts@.len() - p,
        {
            if !self.parts[p].can_take(more) {
                return false;
            }
            p = p + 1;
        }
        true
    }

    /// Merges a store into the partitions, each cell into its own.
    ///
    /// The error comes exactly where some class list would grow too long.
    pub fn absorb(&mut self, delta: &CellStore<L>) -> (r: Result<(), A5CogError>)
        requires
            old(self).wf(),
            delta.wf(),
            old(self).parts@[0].same_shape(delta),
            old(self).room_for(*delta),
        ensures
            final(self).wf(),
            final(self).log2p == old(self).log2p,
            final(self).parts@[0].same_shape(delta),
            r is Ok <==> old(self).mergeable_with(*delta),
            r matches Err(e) ==> is_invalid(e, too_many_classes()),
            r is Ok ==> parts_absorbed(*old(self), *delta, *final(self)),
    {
        let ghost before = *self;
        let log2p: u32 = self.log2p;
        proof {
            partition_in_range(0, log2p);
        }
        let np: usize = self.parts.len();
        let (order, start) = plan_absorb(delta, log2p);
        for p in 0..np
            invariant
                before == *old(self),
                before.wf(),
                before.room_for(*delta),
                delta.wf(),
                before.parts@[0].same_shape(delta),
                np == before.parts@.len(),
                np == partition_count(log2p),
                log2p == before.log2p,
                self.wf(),
                self.log2p == log2p,
                self.parts@.len() == np,
                self.parts@[0].same_shape(delta),
                order@.len() == delta.cells@.len(),
                start@.len() == np + 1,
                forall|a: int, b: int|
                    0 <= a <= b <= np ==> (#[trigger] start@[a]) <= (#[trigger] start@[b])
                        <= delta.cells@.len(),
                forall|q: int|
                    0 <= q < np ==> order@.subrange(
                        (#[trigger] start@[q]) as int,
                        start@[q + 1] as int,
                    ) == partition_group(*delta, log2p, q),
                forall|q: int|
                    0 <= q < p ==> group_merged(
                        before.parts@[q],
                        *delta,
                        partition_group(*delta, log2p, q),
                        #[trigger] self.parts@[q],
                    ),
                forall|q: int|
                    0 <= q < p ==> group_mergeable(
                        #[trigger] before.parts@[q],
                        *delta,
                        partition_group(*delta, log2p, q),
                    ),
                forall|q: int| p <= q < np ==> #[trigger] self.parts@[q] == before.parts@[q],
        {
            let from: usize = start[p];
            let to: usize = start[p + 1];
            let ghost g = partition_group(*delta, log2p, p as int);
            let ghost now = *self;
            proof {
                assert(order@.subrange(from as int, to as int) == g);
                lemma_partition_group(*delta, log2p, p as int);
                assert(now.parts@[p as int] == before.parts@[p as int]);
                assert(before.parts@[p as int].room_for(delta.cells@.len() as int));
                lemma_slab_grows(
                    before.parts@[p as int].cells@.len() + (to - from),
                    (before.parts@[p as int].cells@.len() + delta.cells@.len()) as int,
                    before.parts@[p as int].n_out as int,
                );
            }
            let res = self.parts[p].absorb_cells(delta, &order, from, to);
            proof {
                let a = self.parts@[p as int];
                assert forall|j: int| 0 <= j < a.cells@.len() implies partition(
                    #[trigger] a.cells@[j],
                    log2p,
                ) == p by {
                    if j >= before.parts@[p as int].cells@.len() {
                        let t = choose|t: int|
                            0 <= t < g.len() && delta.cells@[#[trigger] g[t] as int] == a.cells@[j];
                        assert(partition(delta.cells@[g[t] as int], log2p) == p);
                    } else {
                        assert(a.cells@[j] == before.parts@[p as int].cells@[j]);
                    }
                }
                assert(own_cells(a, log2p, p as int));
                assert forall|q: int|
                    #![trigger self.parts@[q]]
                    0 <= q < self.parts@.len() implies self.parts@[q].wf()
                    && self.parts@[q].same_shape(&self.parts@[0]) && own_cells(
                    self.parts@[q],
                    log2p,
                    q,
                ) by {
                    if q != p {
                        assert(self.parts@[q] == now.parts@[q]);
                    }
                }
            }
            match res {
                Ok(_) => {},
                Err(e) => {
                    return Err(e);
                },
            }
        }
        Ok(())
    }

    /// The partitions, once every worker is done.
    pub fn into_parts(self) -> (r: Vec<CellStore<L>>)
        ensures
            r@ == self.parts@,
    {
        self.parts
    }
}

/// The slots listed for a partition are slots of `delta`, none twice, and their
/// cells belong to that partition.
pub(crate) proof fn lemma_partition_group<L: AccLayout>(delta: CellStore<L>, log2p: u32, p: int)
    requires
        delta.wf(),
        log2p <= MAX_LOG2P,
    ensures
        valid_group(delta, partition_group(delta, log2p, p)),
        forall|t: int|
            0 <= t < partition_group(delta, log2p, p).len() ==> partition(
                delta.cells@[#[trigger] partition_group(delta, log2p, p)[t] as int],
                log2p,
            ) == p,
{
    let keys = partition_keys(delta.cells@, log2p);
    let n = delta.cells@.len() as int;
    lemma_group_members(keys, p, n);
    assert forall|t: int| 0 <= t < partition_group(delta, log2p, p).len() implies partition(
        delta.cells@[#[trigger] partition_group(delta, log2p, p)[t] as int],
        log2p,
    ) == p by {
        let i = group(keys, p, n)[t] as int;
        partition_in_range(delta.cells@[i], log2p);
        assert(keys[i] == p);
    }
}

// ---------------------------------------------------------------------------
// laws

/// No cell stands in two partitions, so no cell is reported twice.
pub proof fn partitions_are_disjoint<L: AccLayout>(s: PartitionedStore<L>, p: int, q: int, cell: u64)
    requires
        s.wf(),
        0 <= p < s.parts@.len(),
        0 <= q < s.parts@.len(),
        s.parts@[p].has(cell),
        s.parts@[q].has(cell),
    ensures
        p == q,
{
    let a = s.parts@[p];
    let b = s.parts@[q];
    assert(a.cells@[a.slot_of(cell)] == cell);
    assert(b.cells@[b.slot_of(cell)] == cell);
    assert(own_cells(a, s.log2p, p) && own_cells(b, s.log2p, q));
}

/// Every cell of an absorbed store is listed in the group of exactly one
/// partition, so its accumulators are merged once.
pub proof fn absorbed_cells_are_grouped_once<L: AccLayout>(
    delta: CellStore<L>,
    log2p: u32,
    i: int,
    p: int,
)
    requires
        delta.wf(),
        log2p <= MAX_LOG2P,
        0 <= i < delta.cells@.len(),
        0 <= p < partition_count(log2p),
    ensures
        partition_group(delta, log2p, p).contains(i as usize) == (p == partition(
            delta.cells@[i],
            log2p,
        )),
{
    let keys = partition_keys(delta.cells@, log2p);
    let n = delta.cells@.len() as int;
    partition_in_range(delta.cells@[i], log2p);
    lemma_group_members(keys, p, n);
    if p == partition(delta.cells@[i], log2p) {
        lemma_group_has(keys, p, n, i);
    } else if partition_group(delta, log2p, p).contains(i as usize) {
        let g = partition_group(delta, log2p, p);
        let t = choose|t: int| 0 <= t < g.len() && g[t] == i as usize;
        assert(keys[g[t] as int] == p);
    }
}

/// The pixel weight that a group of `other` adds to a cell.
pub open spec fn group_npix<L: AccLayout>(other: CellStore<L>, idxs: Seq<usize>, cell: u64) -> u64 {
    if in_group(other, idxs, cell) {
        other.prior_npix(cell)
    } else {
        0
    }
}

/// The class weights that a group of `other` adds to a cell's band.
pub open spec fn group_classes<L: AccLayout>(
    other: CellStore<L>,
    idxs: Seq<usize>,
    cell: u64,
    b: int,
) -> Seq<(i32, u64)> {
    if in_group(other, idxs, cell) {
        other.prior_classes(cell, b)
    } else {
        Seq::empty()
    }
}

/// Merging a group adds to every cell what the group holds of it.
pub proof fn merging_adds_the_group<L: AccLayout>(
    before: CellStore<L>,
    other: CellStore<L>,
    idxs: Seq<usize>,
    after: CellStore<L>,
    cell: u64,
    b: int,
)
    requires
        before.wf(),
        other.wf(),
        after.wf(),
        before.same_shape(&other),
        valid_group(other, idxs),
        group_merged(before, other, idxs, after),
        0 <= b < before.n_out,
    ensures
        after.has(cell) == (before.has(cell) || in_group(other, idxs, cell)),
        before.cfg.has_npix ==> after.prior_npix(cell) == capped_sum(
            before.prior_npix(cell),
            group_npix(other, idxs, cell),
        ),
        before.cfg.has_cat ==> classes_merged(
            before.prior_classes(cell, b),
            group_classes(other, idxs, cell, b),
        ) == Some(after.prior_classes(cell, b)),
{
    if in_group(other, idxs, cell) {
        let t = choose|t: int|
            0 <= t < idxs.len() && other.cells@[#[trigger] idxs[t] as int] == cell;
        assert(entry_merged(before, other, idxs[t] as int, after));
        assert(other.slot_of(cell) == idxs[t]);
        let s = after.slot_of(cell);
        assert(after.classes(s, b) == after.prior_classes(cell, b));
    } else if before.has(cell) {
        let j = before.slot_of(cell);
        assert(before.cells@[j] == cell);
        assert(after.cells@[j] == cell);
        assert(same_entry(before, j, after, j));
        assert(before.classes(j, b) == before.prior_classes(cell, b));
    }
}

pub(crate) proof fn lemma_prior_classes_wf<L: AccLayout>(s: CellStore<L>, cell: u64, b: int)
    requires
        s.wf(),
        s.cfg.has_cat,
        0 <= b < s.n_out,
    ensures
        classes_wf(s.prior_classes(cell, b)),
{
    if s.has(cell) {
        let i = s.slot_of(cell);
        lemma_slab(i, s.n_out as int, b, s.cells@.len() as int);
        assert(classes_wf(s.cat@[i * s.n_out + b]@));
    }
}

/// The order in which two stores are merged into a third changes neither which
/// cells it has, nor a cell's pixel weight, nor the weight of any class.
pub proof fn merge_order_keeps_counts<L: AccLayout>(
    s: CellStore<L>,
    a: CellStore<L>,
    ia: Seq<usize>,
    b: CellStore<L>,
    ib: Seq<usize>,
    s_a: CellStore<L>,
    s_ab: CellStore<L>,
    s_b: CellStore<L>,
    s_ba: CellStore<L>,
    cell: u64,
    band: int,
    class: i32,
)
    requires
        s.wf(),
        a.wf(),
        b.wf(),
        s_a.wf(),
        s_ab.wf(),
        s_b.wf(),
        s_ba.wf(),
        s.same_shape(&a),
        s.same_shape(&b),
        valid_group(a, ia),
        valid_group(b, ib),
        group_merged(s, a, ia, s_a),
        group_merged(s_a, b, ib, s_ab),
        group_merged(s, b, ib, s_b),
        group_merged(s_b, a, ia, s_ba),
        0 <= band < s.n_out,
        s.cfg.has_cat ==> total_weight(s.prior_classes(cell, band)) + total_weight(
            group_classes(a, ia, cell, band),
        ) + total_weight(group_classes(b, ib, cell, band)) <= u64::MAX,
    ensures
        s_ab.has(cell) == s_ba.has(cell),
        s.cfg.has_npix ==> s_ab.prior_npix(cell) == s_ba.prior_npix(cell),
        s.cfg.has_cat ==> class_weight(s_ab.prior_classes(cell, band), class) == class_weight(
            s_ba.prior_classes(cell, band),
            class,
        ),
{
    merging_adds_the_group(s, a, ia, s_a, cell, band);
    merging_adds_the_group(s_a, b, ib, s_ab, cell, band);
    merging_adds_the_group(s, b, ib, s_b, cell, band);
    merging_adds_the_group(s_b, a, ia, s_ba, cell, band);
    if s.cfg.has_cat {
        let m = s.prior_classes(cell, band);
        let ca = group_classes(a, ia, cell, band);
        let cb = group_classes(b, ib, cell, band);
        lemma_prior_classes_wf(s, cell, band);
        lemma_prior_classes_wf(a, cell, band);
        lemma_prior_classes_wf(b, cell, band);
        lemma_prior_classes_wf(s_a, cell, band);
        lemma_prior_classes_wf(s_b, cell, band);
        merging_conserves_weight(m, ca, class);
        merging_conserves_weight(s_a.prior_classes(cell, band), cb, class);
        merging_conserves_weight(m, cb, class);
        merging_conserves_weight(s_b.prior_classes(cell, band), ca, class);
    }
}

/// A store has room for as many more cells as can be numbered with 32 bits and as its
/// slabs can be addressed for.
pub proof fn stores_number_cells_with_32_bits<L: AccLayout>(s: CellStore<L>, more: int)
    ensures
        s.room_for(more) <==> s.cells@.len() + more <= 0xFFFF_FFFF && (s.cells@.len() + more)
            * s.n_out <= usize::MAX,
{
}

/// A merged cell takes the accumulator of its own band from both stores: what the store
/// held, or a new one, with the other's merged into it. Pixels are added.
pub proof fn entries_merge_band_by_band<L: AccLayout>(
    before: CellStore<L>,
    other: CellStore<L>,
    i: int,
    after: CellStore<L>,
    b: int,
)
    requires
        entry_merged(before, other, i, after),
        0 <= b < before.n_out,
    ensures
        ({
            let cell = other.cells@[i];
            let s = after.slot_of(cell);
            &&& slot_map(after.index).contains_key(cell)
            &&& before.cfg.has_cont && before.has(cell) ==> call_ensures(
                L::merge,
                (before.acc(before.slot_of(cell), b), other.acc(i, b)),
                after.acc(s, b),
            )
            &&& before.cfg.has_cont && !before.has(cell) ==> exists|z: L|
                call_ensures(L::new, (), z) && #[trigger] call_ensures(
                    L::merge,
                    (z, other.acc(i, b)),
                    after.acc(s, b),
                )
            &&& before.cfg.has_cat && before.has(cell) ==> classes_merged(
                before.classes(before.slot_of(cell), b),
                other.classes(i, b),
            ) == Some(after.classes(s, b))
            &&& before.cfg.has_cat && !before.has(cell) ==> classes_merged(
                Seq::empty(),
                other.classes(i, b),
            ) == Some(after.classes(s, b))
            &&& before.cfg.has_npix && before.has(cell) && before.npix@[before.slot_of(cell)]
                + other.npix@[i] <= 0xFFFF_FFFF_FFFF_FFFF ==> after.npix@[s]
                == before.npix@[before.slot_of(cell)] + other.npix@[i]
            &&& before.cfg.has_npix && !before.has(cell) ==> after.npix@[s] == other.npix@[i]
        }),
{
    let cell = other.cells@[i];
    let s = after.slot_of(cell);
    if before.cfg.has_cont {
        assert(merged_acc(before.prior_acc(cell, b), other.acc(i, b), after.acc(s, b)));
    }
    if before.cfg.has_cat {
        assert(classes_merged(before.prior_classes(cell, b), other.classes(i, b)) == Some(
            after.classes(s, b),
        ));
    }
}

/// Cells that a store does not have are appended to it in the order of the group.
pub proof fn new_cells_are_appended_in_order<L: AccLayout>(
    before: CellStore<L>,
    other: CellStore<L>,
    idxs: Seq<usize>,
    i: usize,
)
    ensures
        new_cells(before, other, Seq::empty()).len() == 0,
        slot_map(before.index).contains_key(other.cells@[i as int]) ==> new_cells(
            before,
            other,
            idxs.push(i),
        ) == new_cells(before, other, idxs),
        !slot_map(before.index).contains_key(other.cells@[i as int]) ==> new_cells(
            before,
            other,
            idxs.push(i),
        ) == new_cells(before, other, idxs).push(other.cells@[i as int]),
{
    assert(idxs.push(i).drop_last() =~= idxs);
}

/// A new cell starts with fresh accumulators, no classes and no pixels.
pub proof fn new_cells_start_with_nothing<L: AccLayout>(s: CellStore<L>, i: int, b: int)
    requires
        fresh_entry(s, i),
        0 <= b < s.n_out,
    ensures
        s.cfg.has_cont ==> call_ensures(L::new, (), s.cont@[i * s.n_out + b]),
        s.cfg.has_cat ==> s.cat@[i * s.n_out + b]@.len() == 0,
        s.cfg.has_npix ==> s.npix@[i] == 0,
{
    if s.cfg.has_cont {
        assert(call_ensures(L::new, (), s.acc(i, b)));
    }
    if s.cfg.has_cat {
        assert(s.classes(i, b) == Seq::<(i32, u64)>::empty());
    }
}

} // verus!
