//! Overlay (area-weighted) indexing of a stripe.
//!
//! Each pixel contributes to every cell it overlaps, weighted by the overlapped
//! part of its area, which is approximated by `k` by `k` sub-points. A pixel
//! whose four corners share a cell is interior and contributes all of its
//! `k * k` sub-points to that cell without looking them up.

use vstd::prelude::*;

use a5::coordinate_systems::Spherical;

use crate::a5grid::MAX_RESOLUTION;
use crate::accumulate::{
    batch_added, batch_fits, batch_wf, batches_join, capped_add, gives_alike, gives_nothing,
    grown_acc, lemma_batches_join, lemma_batches_overflow, others_kept, pushed, selects_cells,
    stepped, AccEvent, Batch, Sample,
};
use crate::classes::{class_added, classes_merged, too_many_classes};
use crate::error::{is_internal, is_invalid, A5CogError};
use crate::locator::{cell_for, CellLocator, N_HINTS, NO_CELL};
use crate::mask::{in_area, mask_allows, mask_wf, CellMask, MaskCache};
use crate::store::{
    extends, fresh_entry, parts_absorbed, same_entry, AccLayout, CellStore, PartitionedStore,
};
use crate::tile::{
    absorb_refused, built_from, is_empty_store, looked_up, overflows, row_hints, stripe_capacity,
    Stripe,
};

verus! {

// ---------------------------------------------------------------------------
// sub-point counts

/// The cells of sub-points with how many of them each has, by first appearance;
/// sub-points of [`NO_CELL`] are left out.
pub open spec fn touched_of(ids: Seq<u64>, n: int) -> Seq<(u64, u64)>
    decreases n,
{
    if n <= 0 {
        Seq::empty()
    } else {
        let rest = touched_of(ids, n - 1);
        let id = ids[n - 1];
        if id == NO_CELL {
            rest
        } else if exists|i: int| counts_at(rest, id, i) {
            let i = choose|i: int| counts_at(rest, id, i);
            rest.update(i, (id, (rest[i].1 + 1) as u64))
        } else {
            rest.push((id, 1u64))
        }
    }
}

/// Entry `i` counts the sub-points of `id`.
pub open spec fn counts_at(t: Seq<(u64, u64)>, id: u64, i: int) -> bool {
    0 <= i < t.len() && t[i].0 == id
}

/// All counts together.
pub open spec fn total_count(t: Seq<(u64, u64)>) -> nat
    decreases t.len(),
{
    if t.len() == 0 {
        0
    } else {
        total_count(t.drop_last()) + t.last().1 as nat
    }
}

/// How many of the first `n` sub-points have a cell.
pub open spec fn located_count(ids: Seq<u64>, n: int) -> nat
    decreases n,
{
    if n <= 0 {
        0
    } else {
        located_count(ids, n - 1) + if ids[n - 1] != NO_CELL {
            1nat
        } else {
            0
        }
    }
}

proof fn lemma_total_update(t: Seq<(u64, u64)>, i: int, v: (u64, u64))
    requires
        0 <= i < t.len(),
    ensures
        total_count(t.update(i, v)) + t[i].1 == total_count(t) + v.1,
    decreases t.len(),
{
    if i == t.len() - 1 {
        assert(t.update(i, v).drop_last() == t.drop_last());
    } else {
        assert(t.update(i, v).drop_last() == t.drop_last().update(i, v));
        lemma_total_update(t.drop_last(), i, v);
    }
}

proof fn lemma_count_le_total(t: Seq<(u64, u64)>, i: int)
    requires
        0 <= i < t.len(),
    ensures
        t[i].1 <= total_count(t),
    decreases t.len(),
{
    if i < t.len() - 1 {
        assert(t.drop_last()[i] == t[i]);
        lemma_count_le_total(t.drop_last(), i);
    }
}

/// The counts of a pixel's cells add up to its sub-points that have a cell, so
/// none of its weight is lost or counted twice. No cell is listed twice, and
/// none without a sub-point.
pub proof fn overlay_conserves_weight(ids: Seq<u64>, n: int)
    requires
        0 <= n <= ids.len() <= usize::MAX,
    ensures
        total_count(touched_of(ids, n)) == located_count(ids, n),
        located_count(ids, n) <= n,
        touched_of(ids, n).len() <= n,
        forall|i: int, j: int|
            0 <= i < j < touched_of(ids, n).len() ==> (#[trigger] touched_of(ids, n)[i]).0 != (
            #[trigger] touched_of(ids, n)[j]).0,
        forall|i: int|
            0 <= i < touched_of(ids, n).len() ==> (#[trigger] touched_of(ids, n)[i]).0 != NO_CELL
                && 1 <= touched_of(ids, n)[i].1 <= n,
    decreases n,
{
    if n > 0 {
        overlay_conserves_weight(ids, n - 1);
        let rest = touched_of(ids, n - 1);
        let now = touched_of(ids, n);
        let id = ids[n - 1];
        if id == NO_CELL {
        } else if exists|i: int| counts_at(rest, id, i) {
            let i = choose|i: int| counts_at(rest, id, i);
            lemma_count_le_total(rest, i);
            lemma_total_update(rest, i, (id, (rest[i].1 + 1) as u64));
        } else {
            assert(now.drop_last() == rest);
            assert forall|i: int, j: int| 0 <= i < j < now.len() implies (#[trigger] now[i]).0 != (
            #[trigger] now[j]).0 by {
                if j == rest.len() {
                    assert(!counts_at(rest, id, i));
                }
            }
        }
    }
}

/// The entry that counts the sub-points of `id`.
fn count_index(t: &Vec<(u64, u64)>, id: u64) -> (r: Option<usize>)
    ensures
        match r {
            Some(i) => counts_at(t@, id, i as int),
            None => forall|i: int| !counts_at(t@, id, i),
        },
{
    let mut i: usize = 0;
    while i < t.len()
        invariant
            i <= t@.len(),
            forall|j: int| 0 <= j < i ==> !counts_at(t@, id, j),
        decreases t@.len() - i,
    {
        if t[i].0 == id {
            return Some(i);
        }
        i = i + 1;
    }
    None
}

/// The cells of sub-points with how many of them each has.
pub fn touched_cells(ids: &Vec<u64>) -> (r: Vec<(u64, u64)>)
    ensures
        r@ == touched_of(ids@, ids@.len() as int),
{
    let mut t: Vec<(u64, u64)> = Vec::new();
    for k in 0..ids.len()
        invariant
            t@ == touched_of(ids@, k as int),
    {
        let id: u64 = ids[k];
        proof {
            overlay_conserves_weight(ids@, k as int);
        }
        if id != NO_CELL {
            if let Some(i) = count_index(&t, id) {
                let ghost c = choose|c: int| counts_at(t@, id, c);
                assert(c == i) by {
                    if c < i {
                        assert(t@[c].0 != t@[i as int].0);
                    } else if c > i {
                        assert(t@[i as int].0 != t@[c].0);
                    }
                }
                let n: u64 = t[i].1;
                t.set(i, (id, n + 1));
            } else {
                t.push((id, 1));
            }
        }
    }
    t
}

// ---------------------------------------------------------------------------
// weighted contributions

/// One pixel's share in one cell.
#[verifier::reject_recursive_types(V)]
pub struct Contribution<V> {
    pub cell: u64,
    /// The samples band by band, none where the band is invalid.
    pub samples: Seq<Option<Sample<V>>>,
    pub weight: u64,
}

/// What the first `n` contributions give to one band of a cell.
pub open spec fn shares_events<V>(
    cs: Seq<Contribution<V>>,
    n: int,
    unit: u64,
    cell: u64,
    b: int,
) -> Seq<AccEvent<V>>
    decreases n,
{
    if n <= 0 {
        Seq::empty()
    } else {
        let rest = shares_events(cs, n - 1, unit, cell, b);
        let c = cs[n - 1];
        if c.cell != cell {
            rest
        } else {
            match c.samples[b] {
                None => rest,
                Some(x) => rest.push(AccEvent::Weighted(x.value, c.weight, unit)),
            }
        }
    }
}

/// The class codes that the first `n` contributions give to one band of a cell.
pub open spec fn shares_codes<V>(cs: Seq<Contribution<V>>, n: int, cell: u64, b: int) -> Seq<
    (i32, u64),
>
    decreases n,
{
    if n <= 0 {
        Seq::empty()
    } else {
        let rest = shares_codes(cs, n - 1, cell, b);
        let c = cs[n - 1];
        if c.cell != cell {
            rest
        } else {
            match c.samples[b] {
                None => rest,
                Some(x) => rest.push((x.class, c.weight)),
            }
        }
    }
}

/// The weight that the first `n` contributions give to a cell.
pub open spec fn shares_weight<V>(cs: Seq<Contribution<V>>, n: int, cell: u64) -> nat
    decreases n,
{
    if n <= 0 {
        0
    } else {
        shares_weight(cs, n - 1, cell) + if cs[n - 1].cell == cell {
            cs[n - 1].weight as nat
        } else {
            0
        }
    }
}

/// Some of the first `n` contributions is to `cell`.
pub open spec fn shares_touch<V>(cs: Seq<Contribution<V>>, n: int, cell: u64) -> bool
    decreases n,
{
    n > 0 && (shares_touch(cs, n - 1, cell) || cs[n - 1].cell == cell)
}

/// What contributions give to a store.
pub open spec fn shares_batch<V>(cs: Seq<Contribution<V>>, unit: u64) -> Batch<V> {
    let n = cs.len() as int;
    Batch {
        events: |cell: u64, b: int| shares_events(cs, n, unit, cell, b),
        codes: |cell: u64, b: int| shares_codes(cs, n, cell, b),
        pixels: |cell: u64| shares_weight(cs, n, cell),
        touched: |cell: u64| shares_touch(cs, n, cell),
    }
}

proof fn lemma_shares_prefix<V>(
    cs: Seq<Contribution<V>>,
    c: Contribution<V>,
    n: int,
    unit: u64,
    cell: u64,
    b: int,
)
    requires
        0 <= n <= cs.len(),
    ensures
        shares_events(cs.push(c), n, unit, cell, b) == shares_events(cs, n, unit, cell, b),
        shares_codes(cs.push(c), n, cell, b) == shares_codes(cs, n, cell, b),
        shares_weight(cs.push(c), n, cell) == shares_weight(cs, n, cell),
        shares_touch(cs.push(c), n, cell) == shares_touch(cs, n, cell),
    decreases n,
{
    if n > 0 {
        lemma_shares_prefix(cs, c, n - 1, unit, cell, b);
        assert(cs.push(c)[n - 1] == cs[n - 1]);
    }
}

proof fn lemma_shares_untouched<V>(cs: Seq<Contribution<V>>, n: int, unit: u64, cell: u64, b: int)
    requires
        !shares_touch(cs, n, cell),
    ensures
        shares_events(cs, n, unit, cell, b).len() == 0,
        shares_codes(cs, n, cell, b).len() == 0,
        shares_weight(cs, n, cell) == 0,
    decreases n,
{
    if n > 0 {
        lemma_shares_untouched(cs, n - 1, unit, cell, b);
    }
}

proof fn lemma_shares_wf<V>(cs: Seq<Contribution<V>>, unit: u64)
    ensures
        batch_wf(shares_batch(cs, unit)),
{
    let a = shares_batch(cs, unit);
    assert forall|cell: u64, k: int|
        #![trigger (a.events)(cell, k)]
        #![trigger (a.codes)(cell, k)]
        !(a.touched)(cell) implies (a.events)(cell, k).len() == 0 && (a.codes)(cell, k).len() == 0
        && (a.pixels)(cell) == 0 by {
        lemma_shares_untouched(cs, cs.len() as int, unit, cell, k);
    }
}

proof fn lemma_shares_join<V>(cs: Seq<Contribution<V>>, c: Contribution<V>, unit: u64)
    ensures
        batches_join(
            shares_batch(cs, unit),
            shares_batch(seq![c], unit),
            shares_batch(cs.push(c), unit),
        ),
{
    let n = cs.len() as int;
    let a = shares_batch(cs, unit);
    let one = seq![c];
    let b = shares_batch(one, unit);
    let d = shares_batch(cs.push(c), unit);
    assert(cs.push(c)[n] == c);
    assert(one[0] == c);
    assert forall|cell: u64, k: int|
        #![trigger (d.events)(cell, k)]
        #![trigger (d.codes)(cell, k)]
        (d.events)(cell, k) == (a.events)(cell, k) + (b.events)(cell, k) && (d.codes)(cell, k) == (
        a.codes)(cell, k) + (b.codes)(cell, k) by {
        lemma_shares_prefix(cs, c, n, unit, cell, k);
        reveal_with_fuel(shares_events, 2);
        reveal_with_fuel(shares_codes, 2);
    }
    assert forall|cell: u64| #[trigger] (d.pixels)(cell) == (a.pixels)(cell) + (b.pixels)(cell) by {
        lemma_shares_prefix(cs, c, n, unit, cell, 0);
        reveal_with_fuel(shares_weight, 2);
    }
    assert forall|cell: u64| #[trigger] (d.touched)(cell) == ((a.touched)(cell) || (b.touched)(
        cell,
    )) by {
        lemma_shares_prefix(cs, c, n, unit, cell, 0);
        reveal_with_fuel(shares_touch, 2);
    }
}

// ---------------------------------------------------------------------------
// adding one contribution

/// The first `n` bands of slot `s` were given their share, the others not yet.
pub open spec fn bands_shared<L: AccLayout>(
    mid: CellStore<L>,
    now: CellStore<L>,
    s: int,
    one: Seq<Contribution<L::Value>>,
    unit: u64,
    n: int,
) -> bool {
    &&& now.same_shape(&mid)
    &&& now.index == mid.index
    &&& now.cells@ == mid.cells@
    &&& now.npix@ == mid.npix@
    &&& mid.cfg.has_cont ==> forall|j: int, b: int|
        0 <= j < mid.cells@.len() && 0 <= b < mid.n_out ==> if j == s && b < n {
            pushed(
                mid.acc(j, b),
                shares_events(one, 1, unit, one[0].cell, b),
                #[trigger] now.acc(j, b),
            )
        } else {
            now.acc(j, b) == mid.acc(j, b)
        }
    &&& mid.cfg.has_cat ==> forall|j: int, b: int|
        0 <= j < mid.cells@.len() && 0 <= b < mid.n_out ==> if j == s && b < n {
            classes_merged(mid.classes(j, b), shares_codes(one, 1, one[0].cell, b)) == Some(
                #[trigger] now.classes(j, b),
            )
        } else {
            now.classes(j, b) == mid.classes(j, b)
        }
}

proof fn lemma_one_share<V>(one: Seq<Contribution<V>>, unit: u64, b: int)
    requires
        one.len() == 1,
    ensures
        shares_events(one, 1, unit, one[0].cell, b) == (match one[0].samples[b] {
            None => Seq::<AccEvent<V>>::empty(),
            Some(x) => seq![AccEvent::Weighted(x.value, one[0].weight, unit)],
        }),
        shares_codes(one, 1, one[0].cell, b) == (match one[0].samples[b] {
            None => Seq::<(i32, u64)>::empty(),
            Some(x) => seq![(x.class, one[0].weight)],
        }),
{
    reveal_with_fuel(shares_events, 2);
    reveal_with_fuel(shares_codes, 2);
}

proof fn lemma_one_event<L: AccLayout>(start: L, e: AccEvent<L::Value>, end: L)
    requires
        stepped(start, e, end),
    ensures
        pushed(start, seq![e], end),
{
    let s = seq![e];
    assert(s.drop_last().len() == 0);
    assert(pushed(start, s.drop_last(), start));
    assert(stepped(start, s.last(), end));
}

proof fn lemma_one_code(m: Seq<(i32, u64)>, class: i32, w: u64)
    ensures
        classes_merged(m, seq![(class, w)]) == class_added(m, class, w),
{
    let s = seq![(class, w)];
    assert(s.drop_last().len() == 0);
    assert(classes_merged(m, s.drop_last()) == Some(m));
}

impl<L: AccLayout> CellStore<L> {
    /// Gives one pixel's samples, with weight `w / unit`, to the bands of a
    /// slot.
    fn share_bands(
        &mut self,
        s: usize,
        samples: &Vec<Option<Sample<L::Value>>>,
        w: u64,
        unit: u64,
    ) -> (r: Result<(), A5CogError>)
        requires
            old(self).wf(),
            s < old(self).cells@.len(),
            samples@.len() == old(self).n_out,
        ensures
            final(self).wf(),
            final(self).cells@ == old(self).cells@,
            ({
                let c = Contribution { cell: old(self).cells@[s as int], samples: samples@, weight: w };
                &&& r is Ok ==> bands_shared(
                    *old(self),
                    *final(self),
                    s as int,
                    seq![c],
                    unit,
                    samples@.len() as int,
                )
                &&& r matches Err(e) ==> is_invalid(e, too_many_classes()) && old(self).cfg.has_cat
                    && exists|b: int|
                    0 <= b < old(self).n_out && classes_merged(
                        #[trigger] old(self).classes(s as int, b),
                        shares_codes(seq![c], 1, c.cell, b),
                    ) is None
            }),
    {
        let ghost mid = *self;
        let ghost c = Contribution { cell: mid.cells@[s as int], samples: samples@, weight: w };
        let ghost one = seq![c];
        for b in 0..samples.len()
            invariant
                mid == *old(self),
                mid.wf(),
                self.wf(),
                s < mid.cells@.len(),
                samples@.len() == mid.n_out,
                c == (Contribution { cell: mid.cells@[s as int], samples: samples@, weight: w }),
                one == seq![c],
                bands_shared(mid, *self, s as int, one, unit, b as int),
        {
            let ghost now = *self;
            proof {
                lemma_one_share(one, unit, b as int);
                assert(one[0] == c);
            }
            if let Some(x) = samples[b] {
                if self.cfg.has_cont {
                    let old_acc = self.acc_at(s, b);
                    let new_acc = old_acc.push(x.value, w, unit);
                    proof {
                        assert(now.acc(s as int, b as int) == mid.acc(s as int, b as int));
                        let e = AccEvent::Weighted(x.value, w, unit);
                        assert(stepped(old_acc, e, new_acc));
                        lemma_one_event(old_acc, e, new_acc);
                    }
                    self.set_acc(s, b, new_acc);
                }
                let ghost stepped_store = *self;
                if self.cfg.has_cat {
                    proof {
                        assert(now.classes(s as int, b as int) == mid.classes(s as int, b as int));
                        lemma_one_code(mid.classes(s as int, b as int), x.class, w);
                    }
                    match self.add_code(s, b, x.class, w) {
                        Ok(_) => {},
                        Err(e) => {
                            assert(classes_merged(
                                mid.classes(s as int, b as int),
                                shares_codes(one, 1, c.cell, b as int),
                            ) is None);
                            return Err(e);
                        },
                    }
                }
                proof {
                    lemma_band_step(mid, now, stepped_store, *self, s as int, one, unit, b as int);
                }
            } else {
                proof {
                    lemma_band_skip(mid, now, s as int, one, unit, b as int);
                }
            }
        }
        Ok(())
    }
}

proof fn lemma_band_skip<L: AccLayout>(
    mid: CellStore<L>,
    now: CellStore<L>,
    s: int,
    one: Seq<Contribution<L::Value>>,
    unit: u64,
    b: int,
)
    requires
        bands_shared(mid, now, s, one, unit, b),
        0 <= b < mid.n_out,
        0 <= s < mid.cells@.len(),
        one.len() == 1,
        one[0].samples[b] is None,
    ensures
        bands_shared(mid, now, s, one, unit, b + 1),
{
    lemma_one_share(one, unit, b);
    assert(now.cfg.has_cont ==> now.acc(s, b) == mid.acc(s, b));
    assert(now.cfg.has_cat ==> now.classes(s, b) == mid.classes(s, b));
}

proof fn lemma_band_step<L: AccLayout>(
    mid: CellStore<L>,
    now: CellStore<L>,
    half: CellStore<L>,
    next: CellStore<L>,
    s: int,
    one: Seq<Contribution<L::Value>>,
    unit: u64,
    b: int,
)
    requires
        bands_shared(mid, now, s, one, unit, b),
        0 <= b < mid.n_out,
        0 <= s < mid.cells@.len(),
        one.len() == 1,
        if mid.cfg.has_cont {
            &&& others_kept(now, half, s, b)
            &&& half.cat@ == now.cat@
            &&& pushed(mid.acc(s, b), shares_events(one, 1, unit, one[0].cell, b), half.acc(s, b))
        } else {
            half == now
        },
        if mid.cfg.has_cat {
            &&& others_kept(half, next, s, b)
            &&& next.cont@ == half.cont@
            &&& classes_merged(mid.classes(s, b), shares_codes(one, 1, one[0].cell, b)) == Some(
                next.classes(s, b),
            )
        } else {
            next == half
        },
    ensures
        bands_shared(mid, next, s, one, unit, b + 1),
{
    if mid.cfg.has_cont {
        assert forall|j: int, c: int| 0 <= j < mid.cells@.len() && 0 <= c < mid.n_out implies (if j
            == s && c < b + 1 {
            pushed(
                mid.acc(j, c),
                shares_events(one, 1, unit, one[0].cell, c),
                #[trigger] next.acc(j, c),
            )
        } else {
            next.acc(j, c) == mid.acc(j, c)
        }) by {
            assert(next.acc(j, c) == half.acc(j, c));
            if !(j == s && c == b) {
                assert(half.acc(j, c) == now.acc(j, c));
            }
        }
    }
    if mid.cfg.has_cat {
        assert forall|j: int, c: int| 0 <= j < mid.cells@.len() && 0 <= c < mid.n_out implies (if j
            == s && c < b + 1 {
            classes_merged(mid.classes(j, c), shares_codes(one, 1, one[0].cell, c)) == Some(
                #[trigger] next.classes(j, c),
            )
        } else {
            next.classes(j, c) == mid.classes(j, c)
        }) by {
            if !(j == s && c == b) {
                assert(next.classes(j, c) == half.classes(j, c));
                assert(half.classes(j, c) == now.classes(j, c));
            }
        }
    }
}

impl<L: AccLayout> CellStore<L> {
    /// Adds one pixel's samples to a cell with weight `w / unit`.
    ///
    /// The error comes exactly where a class list would grow too long.
    pub fn push_pixel(
        &mut self,
        cell: u64,
        samples: &Vec<Option<Sample<L::Value>>>,
        w: u64,
        unit: u64,
    ) -> (r: Result<(), A5CogError>)
        requires
            old(self).wf(),
            samples@.len() == old(self).n_out,
            old(self).has(cell) || old(self).room_for(1),
        ensures
            final(self).wf(),
            final(self).cells@.len() <= old(self).cells@.len() + 1,
            ({
                let c = Contribution { cell, samples: samples@, weight: w };
                let batch = shares_batch(seq![c], unit);
                &&& r is Ok <==> batch_fits(*old(self), batch)
                &&& r matches Err(e) ==> is_invalid(e, too_many_classes())
                &&& r is Ok ==> batch_added(*old(self), batch, *final(self))
            }),
    {
        let ghost before = *self;
        let slot: u32 = self.slot(cell);
        let ghost mid = *self;
        assert(before.has(cell) ==> same_entry(before, slot as int, mid, slot as int));
        self.add_npix(slot, w);
        let ghost counted = *self;
        let res = self.share_bands(slot as usize, samples, w, unit);
        proof {
            let c = Contribution { cell, samples: samples@, weight: w };
            if res is Ok {
                lemma_share_added(before, mid, counted, *self, slot as int, c, unit);
            } else {
                let one = seq![c];
                let b = choose|b: int|
                    0 <= b < counted.n_out && classes_merged(
                        #[trigger] counted.classes(slot as int, b),
                        shares_codes(one, 1, c.cell, b),
                    ) is None;
                let batch = shares_batch(one, unit);
                assert(counted.classes(slot as int, b) == mid.classes(slot as int, b));
                if before.has(cell) {
                    assert(before.classes(slot as int, b) == mid.classes(slot as int, b));
                } else {
                    assert(mid.classes(slot as int, b) == Seq::<(i32, u64)>::empty());
                }
                assert(one[0].cell == cell);
                assert((batch.touched)(cell));
                assert(classes_merged(before.prior_classes(cell, b), (batch.codes)(cell, b))
                    is None);
            }
        }
        res
    }
}

proof fn lemma_share_added<L: AccLayout>(
    before: CellStore<L>,
    mid: CellStore<L>,
    counted: CellStore<L>,
    after: CellStore<L>,
    s: int,
    c: Contribution<L::Value>,
    unit: u64,
)
    requires
        before.wf(),
        mid.wf(),
        extends(before, mid),
        mid.has(c.cell),
        s == mid.slot_of(c.cell),
        forall|x: u64| mid.has(x) == (before.has(x) || x == c.cell),
        forall|x: u64| before.has(x) ==> mid.slot_of(x) == before.slot_of(x),
        forall|i: int| 0 <= i < before.cells@.len() ==> same_entry(before, i, mid, i),
        !before.has(c.cell) ==> s == before.cells@.len() && fresh_entry(mid, s),
        counted.same_shape(&mid),
        counted.index == mid.index,
        counted.cells@ == mid.cells@,
        counted.cont@ == mid.cont@,
        counted.cat@ == mid.cat@,
        mid.cfg.has_npix ==> counted.npix@ == mid.npix@.update(
            s,
            capped_add(mid.npix@[s], c.weight as nat),
        ),
        bands_shared(counted, after, s, seq![c], unit, before.n_out as int),
    ensures
        batch_added(before, shares_batch(seq![c], unit), after),
        batch_fits(before, shares_batch(seq![c], unit)),
{
    let one = seq![c];
    let batch = shares_batch(one, unit);
    assert(one[0] == c);
    assert forall|x: u64| #[trigger] shares_touch(one, 1, x) == (x == c.cell) by {
        reveal_with_fuel(shares_touch, 2);
    }
    assert forall|x: u64| #[trigger] after.has(x) == (before.has(x) || (batch.touched)(x)) by {
        assert(mid.has(x) == (before.has(x) || x == c.cell));
        assert(shares_touch(one, 1, x) == (x == c.cell));
    }
    assert forall|x: u64, b: int|
        #![trigger (batch.events)(x, b)]
        #![trigger (batch.codes)(x, b)]
        x != c.cell implies (batch.events)(x, b).len() == 0 && (batch.codes)(x, b).len() == 0 && (
    batch.pixels)(x) == 0 by {
        assert(shares_touch(one, 1, x) == (x == c.cell));
        lemma_shares_untouched(one, 1, unit, x, b);
    }
    if before.cfg.has_cont {
        assert forall|x: u64, b: int| after.has(x) && 0 <= b < before.n_out implies grown_acc(
            before.prior_acc(x, b),
            (batch.events)(x, b),
            (#[trigger] after.prior_acc(x, b))->Some_0,
        ) by {
            let j = after.slot_of(x);
            assert(mid.has(x) && mid.cells@[j] == x);
            assert(counted.acc(j, b) == mid.acc(j, b));
            assert(after.acc(j, b) == after.acc(j, b));
            if x == c.cell {
                if before.has(x) {
                    assert(same_entry(before, j, mid, j));
                    assert(before.acc(j, b) == mid.acc(j, b));
                } else {
                    assert(call_ensures(L::new, (), mid.acc(j, b)));
                }
            } else {
                assert(before.has(x));
                assert(mid.slot_of(x) == before.slot_of(x));
                assert(same_entry(before, j, mid, j));
                assert(before.acc(j, b) == mid.acc(j, b));
                assert((batch.events)(x, b).len() == 0);
            }
        }
    }
    if before.cfg.has_cat {
        assert forall|x: u64, b: int| after.has(x) && 0 <= b < before.n_out implies classes_merged(
            before.prior_classes(x, b),
            (batch.codes)(x, b),
        ) == Some(#[trigger] after.prior_classes(x, b)) by {
            let j = after.slot_of(x);
            assert(mid.has(x) && mid.cells@[j] == x);
            assert(counted.classes(j, b) == mid.classes(j, b));
            assert(after.classes(j, b) == after.classes(j, b));
            if x == c.cell {
                if before.has(x) {
                    assert(same_entry(before, j, mid, j));
                    assert(before.classes(j, b) == mid.classes(j, b));
                } else {
                    assert(mid.classes(j, b) == Seq::<(i32, u64)>::empty());
                }
            } else {
                assert(before.has(x));
                assert(mid.slot_of(x) == before.slot_of(x));
                assert(same_entry(before, j, mid, j));
                assert(before.classes(j, b) == mid.classes(j, b));
                assert((batch.codes)(x, b).len() == 0);
            }
        }
        assert forall|x: u64, b: int|
            0 <= b < before.n_out && (batch.touched)(x) implies #[trigger] classes_merged(
            before.prior_classes(x, b),
            (batch.codes)(x, b),
        ) is Some by {
            assert(shares_touch(one, 1, x) == (x == c.cell));
            assert(mid.has(x));
            assert(after.has(x));
            assert(after.prior_classes(x, b) == after.prior_classes(x, b));
        }
    }
    if before.cfg.has_npix {
        assert forall|x: u64| after.has(x) implies #[trigger] after.prior_npix(x) == capped_add(
            before.prior_npix(x),
            (batch.pixels)(x),
        ) by {
            let j = after.slot_of(x);
            assert(mid.has(x) && mid.cells@[j] == x);
            if x == c.cell {
                reveal_with_fuel(shares_weight, 2);
                assert((batch.pixels)(x) == c.weight);
                if before.has(x) {
                    assert(same_entry(before, j, mid, j));
                }
            } else {
                assert(before.has(x));
                assert(mid.slot_of(x) == before.slot_of(x));
                assert(same_entry(before, j, mid, j));
                assert((batch.events)(x, 0).len() == 0);
            }
        }
    }
    assert(extends(before, after)) by {
        assert forall|i: int| 0 <= i < before.cells@.len() implies #[trigger] after.cells@[i]
            == before.cells@[i] by {
            assert(mid.cells@[i] == before.cells@[i]);
        }
    }
}

// ---------------------------------------------------------------------------
// the corner lattice

/// Corner `i` of a lattice row was looked up at its point.
pub open spec fn corner_at<C: Fn(usize, usize) -> Result<(Option<Spherical>, bool), A5CogError>>(
    corner: C,
    resolution: i32,
    row: usize,
    cells: Seq<u64>,
    ins: Seq<bool>,
    i: int,
) -> bool {
    exists|at: Option<Spherical>| #[trigger]
        call_ensures(corner, (row, i as usize), Ok((at, ins[i]))) && looked_up(
            at,
            resolution,
            cells[i],
        )
}

/// Corner `(i, j)` of the lattice was looked up.
pub open spec fn corner_found<C: Fn(usize, usize) -> Result<(Option<Spherical>, bool), A5CogError>>(
    st: Stripe,
    corner: C,
    rows: Seq<Vec<u64>>,
    ins: Seq<Vec<bool>>,
    j: int,
    i: int,
) -> bool {
    corner_at(corner, st.resolution, (st.from + j) as usize, rows[j]@, ins[j]@, i)
}

/// The first `n` lattice rows were looked up.
pub open spec fn corners_found<
    C: Fn(usize, usize) -> Result<(Option<Spherical>, bool), A5CogError>,
>(st: Stripe, corner: C, rows: Seq<Vec<u64>>, ins: Seq<Vec<bool>>) -> bool {
    &&& rows.len() == ins.len()
    &&& forall|j: int| 0 <= j < rows.len() ==> (#[trigger] rows[j])@.len() == st.width + 1
    &&& forall|j: int| 0 <= j < rows.len() ==> (#[trigger] ins[j])@.len() == st.width + 1
    &&& forall|j: int, i: int|
        0 <= j < rows.len() && 0 <= i < st.width + 1 ==> #[trigger] corner_found(
            st,
            corner,
            rows,
            ins,
            j,
            i,
        )
}

/// Looks up one row of the corner lattice. `prev_row` holds the cells met so far
/// in each lattice column, which serve as hints.
fn corner_row<C: Fn(usize, usize) -> Result<(Option<Spherical>, bool), A5CogError>>(
    row: usize,
    cw: usize,
    corner: &C,
    locator: &mut CellLocator,
    prev_row: &mut Vec<u64>,
) -> (r: Result<(Vec<u64>, Vec<bool>), A5CogError>)
    requires
        old(locator).wf(),
        old(prev_row)@.len() == cw,
        forall|i: usize| i < cw ==> call_requires(*corner, (row, i)),
    ensures
        final(locator).wf(),
        final(locator).resolution == old(locator).resolution,
        final(prev_row)@.len() == cw,
        match r {
            Ok(t) => {
                &&& t.0@.len() == cw
                &&& t.1@.len() == cw
                &&& forall|i: int|
                    0 <= i < cw ==> #[trigger] corner_at(
                        *corner,
                        old(locator).resolution,
                        row,
                        t.0@,
                        t.1@,
                        i,
                    )
            },
            Err(e) => exists|i: usize| i < cw && #[trigger] call_ensures(*corner, (row, i), Err(e)),
        },
{
    let ghost resolution = locator.resolution;
    let mut cells: Vec<u64> = Vec::new();
    let mut ins: Vec<bool> = Vec::new();
    for i in 0..cw
        invariant
            locator.wf(),
            locator.resolution == resolution,
            resolution == old(locator).resolution,
            cells@.len() == i,
            ins@.len() == i,
            prev_row@.len() == cw,
            forall|i: usize| i < cw ==> call_requires(*corner, (row, i)),
            forall|k: int|
                0 <= k < i ==> #[trigger] corner_at(*corner, resolution, row, cells@, ins@, k),
    {
        match corner(row, i) {
            Err(e) => {
                return Err(e);
            },
            Ok((at, inside)) => {
                let ghost before = cells@;
                let ghost flags = ins@;
                let mut id: u64 = NO_CELL;
                if let Some(p) = at {
                    let hints = row_hints(prev_row, i);
                    id = locator.locate_near(p, &hints);
                }
                assert(looked_up(at, resolution, id));
                if id != NO_CELL {
                    prev_row.set(i, id);
                }
                cells.push(id);
                ins.push(inside);
                proof {
                    assert forall|k: int| 0 <= k < i + 1 implies #[trigger] corner_at(
                        *corner,
                        resolution,
                        row,
                        cells@,
                        ins@,
                        k,
                    ) by {
                        if k < i {
                            assert(cells@[k] == before[k] && ins@[k] == flags[k]);
                            assert(corner_at(*corner, resolution, row, before, flags, k));
                        } else {
                            assert(call_ensures(*corner, (row, i), Ok((at, ins@[k]))));
                        }
                    }
                }
            },
        }
    }
    Ok((cells, ins))
}

/// Looks up the corners of a stripe's pixels: one row and one column more than
/// it has pixels.
fn corner_lattice<C: Fn(usize, usize) -> Result<(Option<Spherical>, bool), A5CogError>>(
    st: &Stripe,
    corner: &C,
    locator: &mut CellLocator,
) -> (r: Result<(Vec<Vec<u64>>, Vec<Vec<bool>>), A5CogError>)
    requires
        st.from <= st.to < usize::MAX,
        st.width < usize::MAX,
        old(locator).wf(),
        old(locator).resolution == st.resolution,
        forall|j: usize, i: usize|
            st.from <= j <= st.to && i <= st.width ==> call_requires(*corner, (j, i)),
    ensures
        final(locator).wf(),
        final(locator).resolution == st.resolution,
        match r {
            Ok(t) => t.0@.len() == st.to - st.from + 1 && corners_found(*st, *corner, t.0@, t.1@),
            Err(e) => exists|j: usize, i: usize|
                st.from <= j <= st.to && i <= st.width && #[trigger] call_ensures(
                    *corner,
                    (j, i),
                    Err(e),
                ),
        },
{
    let cw: usize = st.width + 1;
    let mut prev_row: Vec<u64> = Vec::new();
    prev_row.resize(cw, NO_CELL);
    let mut rows: Vec<Vec<u64>> = Vec::new();
    let mut ins: Vec<Vec<bool>> = Vec::new();
    for j in st.from..st.to + 1
        invariant
            st.from <= st.to < usize::MAX,
            cw == st.width + 1,
            st.width < usize::MAX,
            locator.wf(),
            locator.resolution == st.resolution,
            forall|j: usize, i: usize|
                st.from <= j <= st.to && i <= st.width ==> call_requires(*corner, (j, i)),
            prev_row@.len() == cw,
            rows@.len() == j - st.from,
            corners_found(*st, *corner, rows@, ins@),
    {
        match corner_row(j, cw, corner, locator, &mut prev_row) {
            Err(e) => {
                return Err(e);
            },
            Ok((cells, flags)) => {
                let ghost before = rows@;
                let ghost before_ins = ins@;
                rows.push(cells);
                ins.push(flags);
                proof {
                    let n = before.len() as int;
                    assert(rows@[n] == cells && ins@[n] == flags);
                    assert forall|k: int, i: int|
                        0 <= k < rows@.len() && 0 <= i < st.width + 1 implies #[trigger] corner_found(
                        *st,
                        *corner,
                        rows@,
                        ins@,
                        k,
                        i,
                    ) by {
                        if k < n {
                            assert(rows@[k] == before[k] && ins@[k] == before_ins[k]);
                            assert(corner_found(*st, *corner, before, before_ins, k, i));
                        } else {
                            assert(corner_at(*corner, st.resolution, j, cells@, flags@, i));
                        }
                    }
                }
            },
        }
    }
    Ok((rows, ins))
}

// ---------------------------------------------------------------------------
// interior and boundary pixels

/// The four corners of pixel `(j, c)` share a cell and lie in the bounding box.
pub open spec fn is_interior(rows: Seq<Vec<u64>>, ins: Seq<Vec<bool>>, j: int, c: int) -> bool {
    let id = rows[j]@[c];
    &&& id != NO_CELL
    &&& rows[j]@[c + 1] == id
    &&& rows[j + 1]@[c] == id
    &&& rows[j + 1]@[c + 1] == id
    &&& ins[j]@[c]
    &&& ins[j]@[c + 1]
    &&& ins[j + 1]@[c]
    &&& ins[j + 1]@[c + 1]
}

/// Some band of the pixel is valid.
pub open spec fn pixel_valid<V>(samples: Seq<Option<Sample<V>>>) -> bool {
    exists|b: int| 0 <= b < samples.len() && #[trigger] samples[b] is Some
}

/// What is known of a stripe under overlay sampling.
#[verifier::reject_recursive_types(V)]
pub struct OverlayData<V> {
    pub width: int,
    /// The cells and box flags of the corner lattice.
    pub rows: Seq<Vec<u64>>,
    pub ins: Seq<Vec<bool>>,
    /// The samples of each pixel, row by row.
    pub px: Seq<Vec<Option<Sample<V>>>>,
}

/// The contributions of the interior pixels among the first `n`: the whole
/// pixel, `unit` sub-points, to the cell of its corners.
pub open spec fn interior_shares<V>(
    d: OverlayData<V>,
    mask: Option<&CellMask>,
    resolution: i32,
    unit: u64,
    n: int,
) -> Seq<Contribution<V>>
    decreases n,
{
    if n <= 0 {
        Seq::empty()
    } else {
        let rest = interior_shares(d, mask, resolution, unit, n - 1);
        let j = (n - 1) / d.width;
        let c = (n - 1) % d.width;
        let id = d.rows[j]@[c];
        if pixel_valid(d.px[n - 1]@) && is_interior(d.rows, d.ins, j, c) && mask_allows(
            mask,
            id,
            resolution,
        ) {
            rest.push(Contribution { cell: id, samples: d.px[n - 1]@, weight: unit })
        } else {
            rest
        }
    }
}

/// The valid pixels among the first `n` that are not interior.
pub open spec fn boundary_pixels<V>(d: OverlayData<V>, n: int) -> Seq<int>
    decreases n,
{
    if n <= 0 {
        Seq::empty()
    } else {
        let rest = boundary_pixels(d, n - 1);
        if pixel_valid(d.px[n - 1]@) && !is_interior(
            d.rows,
            d.ins,
            (n - 1) / d.width,
            (n - 1) % d.width,
        ) {
            rest.push(n - 1)
        } else {
            rest
        }
    }
}

/// The contributions of one boundary pixel: its sub-point counts, masked.
pub open spec fn pixel_shares<V>(
    touched: Seq<(u64, u64)>,
    samples: Seq<Option<Sample<V>>>,
    mask: Option<&CellMask>,
    resolution: i32,
    n: int,
) -> Seq<Contribution<V>>
    decreases n,
{
    if n <= 0 {
        Seq::empty()
    } else {
        let rest = pixel_shares(touched, samples, mask, resolution, n - 1);
        let (cell, count) = touched[n - 1];
        if mask_allows(mask, cell, resolution) {
            rest.push(Contribution { cell, samples, weight: count })
        } else {
            rest
        }
    }
}

/// The contributions of the first `n` boundary pixels, whose sub-points lie in
/// the cells `ids`.
pub open spec fn boundary_shares<V>(
    d: OverlayData<V>,
    boundary: Seq<int>,
    ids: Seq<Vec<u64>>,
    mask: Option<&CellMask>,
    resolution: i32,
    n: int,
) -> Seq<Contribution<V>>
    decreases n,
{
    if n <= 0 {
        Seq::empty()
    } else {
        let t = touched_of(ids[n - 1]@, ids[n - 1]@.len() as int);
        boundary_shares(d, boundary, ids, mask, resolution, n - 1) + pixel_shares(
            t,
            d.px[boundary[n - 1]]@,
            mask,
            resolution,
            t.len() as int,
        )
    }
}

/// `ids` are the cells of these points.
pub open spec fn all_looked_up(at: Seq<Option<Spherical>>, resolution: i32, ids: Seq<u64>) -> bool {
    &&& ids.len() == at.len()
    &&& forall|i: int| 0 <= i < at.len() ==> looked_up(at[i], resolution, #[trigger] ids[i])
}

/// The sub-points of boundary pixel `t` were looked up.
pub open spec fn subpoints_found<
    V,
    S: Fn(usize, usize) -> Result<Vec<Option<Spherical>>, A5CogError>,
>(st: Stripe, d: OverlayData<V>, subpoints: S, boundary: Seq<int>, ids: Seq<Vec<u64>>, t: int) -> bool {
    let j = boundary[t] / d.width;
    let c = boundary[t] % d.width;
    exists|at: Vec<Option<Spherical>>| #[trigger]
        call_ensures(subpoints, ((st.from + j) as usize, c as usize), Ok(at)) && all_looked_up(
            at@,
            st.resolution,
            ids[t]@,
        )
}

/// Looks up the sub-points of a pixel, with the cells of its corners as hints.
fn locate_subpoints(
    at: &Vec<Option<Spherical>>,
    hints: &[u64; N_HINTS],
    locator: &mut CellLocator,
) -> (r: Vec<u64>)
    requires
        old(locator).wf(),
    ensures
        final(locator).wf(),
        final(locator).resolution == old(locator).resolution,
        all_looked_up(at@, old(locator).resolution, r@),
{
    let ghost resolution = locator.resolution;
    let mut ids: Vec<u64> = Vec::new();
    for i in 0..at.len()
        invariant
            locator.wf(),
            locator.resolution == resolution,
            resolution == old(locator).resolution,
            ids@.len() == i,
            forall|k: int| 0 <= k < i ==> looked_up(at@[k], resolution, #[trigger] ids@[k]),
    {
        let id: u64 = match at[i] {
            None => NO_CELL,
            Some(p) => locator.locate_near(p, hints),
        };
        assert(looked_up(at@[i as int], resolution, id));
        ids.push(id);
    }
    ids
}

/// The samples of the pixels are what reading them gives.
pub open spec fn pixels_read<V, P: Fn(usize, usize, usize) -> Option<Sample<V>>>(
    st: Stripe,
    sample: P,
    px: Seq<Vec<Option<Sample<V>>>>,
) -> bool {
    &&& forall|p: int| 0 <= p < px.len() ==> (#[trigger] px[p])@.len() == st.n_out
    &&& forall|p: int, b: int|
        0 <= p < px.len() && 0 <= b < st.n_out ==> call_ensures(
            sample,
            (
                (st.from + p / (st.width as int)) as usize,
                b as usize,
                (p % (st.width as int)) as usize,
            ),
            #[trigger] px[p]@[b],
        )
}

/// `d` and `ids` are what the first pixels of the stripe, and the first of its
/// boundary pixels, gave.
pub open spec fn overlay_read<V, P, C, S>(
    st: Stripe,
    sample: P,
    corner: C,
    subpoints: S,
    d: OverlayData<V>,
    ids: Seq<Vec<u64>>,
) -> bool where
    P: Fn(usize, usize, usize) -> Option<Sample<V>>,
    C: Fn(usize, usize) -> Result<(Option<Spherical>, bool), A5CogError>,
    S: Fn(usize, usize) -> Result<Vec<Option<Spherical>>, A5CogError>,
 {
    &&& d.width == st.width
    &&& d.rows.len() == st.to - st.from + 1
    &&& corners_found(st, corner, d.rows, d.ins)
    &&& d.px.len() <= st.width * (st.to - st.from)
    &&& pixels_read(st, sample, d.px)
    &&& forall|t: int|
        0 <= t < ids.len() ==> #[trigger] subpoints_found(
            st,
            d,
            subpoints,
            boundary_pixels(d, d.px.len() as int),
            ids,
            t,
        )
}

/// All contributions: those of interior pixels, then those of the boundary
/// pixels whose sub-points were looked up.
pub open spec fn all_shares<V>(
    d: OverlayData<V>,
    ids: Seq<Vec<u64>>,
    mask: Option<&CellMask>,
    resolution: i32,
    unit: u64,
) -> Seq<Contribution<V>> {
    interior_shares(d, mask, resolution, unit, d.px.len() as int) + boundary_shares(
        d,
        boundary_pixels(d, d.px.len() as int),
        ids,
        mask,
        resolution,
        ids.len() as int,
    )
}

fn read_pixel<V: Copy, P: Fn(usize, usize, usize) -> Option<Sample<V>>>(
    sample: &P,
    row: usize,
    c: usize,
    n_out: usize,
) -> (r: Vec<Option<Sample<V>>>)
    requires
        forall|b: usize| b < n_out ==> call_requires(*sample, (row, b, c)),
    ensures
        r@.len() == n_out,
        forall|b: int|
            0 <= b < n_out ==> call_ensures(*sample, (row, b as usize, c), #[trigger] r@[b]),
{
    let mut v: Vec<Option<Sample<V>>> = Vec::new();
    for b in 0..n_out
        invariant
            forall|b: usize| b < n_out ==> call_requires(*sample, (row, b, c)),
            v@.len() == b,
            forall|k: int|
                0 <= k < b ==> call_ensures(*sample, (row, k as usize, c), #[trigger] v@[k]),
    {
        v.push(sample(row, b, c));
    }
    v
}

fn has_valid_band<V>(samples: &Vec<Option<Sample<V>>>) -> (r: bool)
    ensures
        r == pixel_valid(samples@),
{
    let mut b: usize = 0;
    while b < samples.len()
        invariant
            b <= samples@.len(),
            forall|k: int| 0 <= k < b ==> #[trigger] samples@[k] is None,
        decreases samples@.len() - b,
    {
        if samples[b].is_some() {
            assert(samples@[b as int] is Some);
            return true;
        }
        b = b + 1;
    }
    false
}

fn interior_cell(rows: &Vec<Vec<u64>>, ins: &Vec<Vec<bool>>, j: usize, c: usize) -> (r: Option<u64>)
    requires
        j + 1 < rows@.len(),
        rows@.len() == ins@.len(),
        forall|k: int| 0 <= k < rows@.len() ==> c + 1 < (#[trigger] rows@[k])@.len(),
        forall|k: int| 0 <= k < ins@.len() ==> c + 1 < (#[trigger] ins@[k])@.len(),
    ensures
        r == (if is_interior(rows@, ins@, j as int, c as int) {
            Some(rows@[j as int]@[c as int])
        } else {
            None
        }),
{
    let n: usize = rows.len();
    let w: usize = rows[j].len();
    assert(j + 1 < n && c + 1 < w);
    let id: u64 = rows[j][c];
    assert(c + 1 < rows@[j as int]@.len() && c + 1 < rows@[j + 1]@.len());
    assert(c + 1 < ins@[j as int]@.len() && c + 1 < ins@[j + 1]@.len());
    if id != NO_CELL && rows[j][c + 1] == id && rows[j + 1][c] == id && rows[j + 1][c + 1] == id
        && ins[j][c] && ins[j][c + 1] && ins[j + 1][c] && ins[j + 1][c + 1] {
        Some(id)
    } else {
        None
    }
}

/// The text of the error for a stripe with more cells than can be numbered.
pub open spec fn stripe_full() -> Seq<char> {
    "too many cells in one stripe"@
}

/// `cs` were added to an empty store; `store` is the result.
pub open spec fn shares_built<L: AccLayout>(
    n_out: usize,
    cfg: crate::stats::AccCfg,
    cs: Seq<Contribution<L::Value>>,
    unit: u64,
    store: CellStore<L>,
) -> bool {
    built_from(n_out, cfg, shares_batch(cs, unit), store)
}

/// Adds one more contribution to a store that holds `cs`.
fn add_share<L: AccLayout>(
    store: &mut CellStore<L>,
    cell: u64,
    samples: &Vec<Option<Sample<L::Value>>>,
    w: u64,
    unit: u64,
    cs: Ghost<Seq<Contribution<L::Value>>>,
) -> (r: Result<(), A5CogError>)
    requires
        old(store).wf(),
        samples@.len() == old(store).n_out,
        shares_built(old(store).n_out, old(store).cfg, cs@, unit, *old(store)),
    ensures
        final(store).wf(),
        ({
            let n_out = old(store).n_out;
            let cfg = old(store).cfg;
            let more = cs@.push(Contribution { cell, samples: samples@, weight: w });
            match r {
                Ok(_) => {
                    &&& final(store).n_out == n_out
                    &&& final(store).cfg == cfg
                    &&& shares_built(n_out, cfg, more, unit, *final(store))
                },
                Err(e) => {
                    ||| is_invalid(e, too_many_classes()) && overflows::<L>(
                        n_out,
                        cfg,
                        shares_batch(more, unit),
                    )
                    ||| is_internal(e, stripe_full()) && !old(store).room_for(1)
                },
            }
        }),
{
    let ghost before = *store;
    let ghost c = Contribution { cell, samples: samples@, weight: w };
    let known: bool = crate::collections::slots_get(&store.index, cell).is_some();
    if !known && !store.can_take(1) {
        return Err(A5CogError::Internal("too many cells in one stripe".to_owned()));
    }
    let ghost e = choose|e: CellStore<L>| #[trigger]
        is_empty_store(before.n_out, before.cfg, e) && batch_added(
            e,
            shares_batch(cs@, unit),
            before,
        );
    let res = store.push_pixel(cell, samples, w, unit);
    proof {
        let more = cs@.push(c);
        lemma_shares_join(cs@, c, unit);
        lemma_shares_wf(cs@, unit);
        lemma_shares_wf(seq![c], unit);
        if res is Ok {
            lemma_batches_join(
                e,
                shares_batch(cs@, unit),
                before,
                shares_batch(seq![c], unit),
                *store,
                shares_batch(more, unit),
            );
            assert(is_empty_store(before.n_out, before.cfg, e));
        } else {
            lemma_batches_overflow(
                e,
                shares_batch(cs@, unit),
                before,
                shares_batch(seq![c], unit),
                shares_batch(more, unit),
            );
            assert(is_empty_store(before.n_out, before.cfg, e));
        }
    }
    res
}

proof fn lemma_more_pixels<V>(
    d: OverlayData<V>,
    x: Vec<Option<Sample<V>>>,
    mask: Option<&CellMask>,
    resolution: i32,
    unit: u64,
    n: int,
)
    requires
        0 <= n <= d.px.len(),
    ensures
        interior_shares(OverlayData { px: d.px.push(x), ..d }, mask, resolution, unit, n)
            == interior_shares(d, mask, resolution, unit, n),
        boundary_pixels(OverlayData { px: d.px.push(x), ..d }, n) == boundary_pixels(d, n),
    decreases n,
{
    if n > 0 {
        lemma_more_pixels(d, x, mask, resolution, unit, n - 1);
        assert(d.px.push(x)[n - 1] == d.px[n - 1]);
    }
}

proof fn lemma_boundary_members<V>(d: OverlayData<V>, n: int)
    requires
        0 <= n,
    ensures
        boundary_pixels(d, n).len() <= n,
        forall|t: int|
            0 <= t < boundary_pixels(d, n).len() ==> 0 <= #[trigger] boundary_pixels(d, n)[t] < n,
    decreases n,
{
    if n > 0 {
        lemma_boundary_members(d, n - 1);
    }
}

proof fn lemma_more_ids<V>(
    d: OverlayData<V>,
    boundary: Seq<int>,
    ids: Seq<Vec<u64>>,
    x: Vec<u64>,
    mask: Option<&CellMask>,
    resolution: i32,
    n: int,
)
    requires
        0 <= n <= ids.len(),
    ensures
        boundary_shares(d, boundary, ids.push(x), mask, resolution, n) == boundary_shares(
            d,
            boundary,
            ids,
            mask,
            resolution,
            n,
        ),
    decreases n,
{
    if n > 0 {
        lemma_more_ids(d, boundary, ids, x, mask, resolution, n - 1);
        assert(ids.push(x)[n - 1] == ids[n - 1]);
    }
}

proof fn lemma_shares_of_prefix<V>(
    touched: Seq<(u64, u64)>,
    samples: Seq<Option<Sample<V>>>,
    mask: Option<&CellMask>,
    resolution: i32,
    m: int,
    n: int,
)
    requires
        0 <= m <= n,
    ensures
        pixel_shares(touched, samples, mask, resolution, m).is_prefix_of(
            pixel_shares(touched, samples, mask, resolution, n),
        ),
    decreases n,
{
    if m < n {
        lemma_shares_of_prefix(touched, samples, mask, resolution, m, n - 1);
    }
}

proof fn lemma_pixel_row(p: int, w: int, h: int)
    by (nonlinear_arith)
    requires
        0 <= p < w * h,
        0 < w,
    ensures
        0 <= p / w < h,
        0 <= p % w < w,
{
}

/// The samples, corners and sub-points of the stripe can be asked for.
pub open spec fn overlay_readable<V, P, C, S>(
    st: Stripe,
    sample: P,
    corner: C,
    subpoints: S,
) -> bool where
    P: Fn(usize, usize, usize) -> Option<Sample<V>>,
    C: Fn(usize, usize) -> Result<(Option<Spherical>, bool), A5CogError>,
    S: Fn(usize, usize) -> Result<Vec<Option<Spherical>>, A5CogError>,
 {
    &&& forall|r: usize, b: usize, c: usize|
        st.from <= r < st.to && b < st.n_out && c < st.width ==> call_requires(sample, (r, b, c))
    &&& forall|j: usize, i: usize|
        st.from <= j <= st.to && i <= st.width ==> call_requires(corner, (j, i))
    &&& forall|r: usize, c: usize|
        st.from <= r < st.to && c < st.width ==> call_requires(subpoints, (r, c))
}

/// The sub-points of the boundary pixel that comes after those of `ids` could not
/// be had.
pub open spec fn subpoints_failed<
    V,
    S: Fn(usize, usize) -> Result<Vec<Option<Spherical>>, A5CogError>,
>(st: Stripe, d: OverlayData<V>, subpoints: S, ids: Seq<Vec<u64>>, e: A5CogError) -> bool {
    let boundary = boundary_pixels(d, d.px.len() as int);
    let p = boundary[ids.len() as int];
    &&& ids.len() < boundary.len()
    &&& call_ensures(
        subpoints,
        ((st.from + p / d.width) as usize, (p % d.width) as usize),
        Err(e),
    )
}

/// The stripe failed: a corner did, the sub-points of a boundary pixel did, a class
/// list grew too long, or the store has no number left for a cell.
pub open spec fn overlay_failed<L: AccLayout, P, C, S>(
    st: Stripe,
    unit: u64,
    mask: Option<&CellMask>,
    sample: P,
    corner: C,
    subpoints: S,
    e: A5CogError,
) -> bool where
    P: Fn(usize, usize, usize) -> Option<Sample<L::Value>>,
    C: Fn(usize, usize) -> Result<(Option<Spherical>, bool), A5CogError>,
    S: Fn(usize, usize) -> Result<Vec<Option<Spherical>>, A5CogError>,
 {
    ||| exists|j: usize, i: usize|
        st.from <= j <= st.to && i <= st.width && #[trigger] call_ensures(corner, (j, i), Err(e))
    ||| exists|d: OverlayData<L::Value>, ids: Seq<Vec<u64>>| #[trigger]
        overlay_read(st, sample, corner, subpoints, d, ids) && d.px.len() == st.width * (st.to
            - st.from) && subpoints_failed(st, d, subpoints, ids, e)
    ||| exists|d: OverlayData<L::Value>, ids: Seq<Vec<u64>>, cs: Seq<Contribution<L::Value>>|
        overlay_read(st, sample, corner, subpoints, d, ids) && cs.is_prefix_of(
            #[trigger] all_shares(d, ids, mask, st.resolution, unit),
        ) && #[trigger] shares_refused::<L>(st.n_out, st.cfg, cs, unit, e)
}

/// The error says that `cs` do not fit an empty store.
pub open spec fn shares_refused<L: AccLayout>(
    n_out: usize,
    cfg: crate::stats::AccCfg,
    cs: Seq<Contribution<L::Value>>,
    unit: u64,
    e: A5CogError,
) -> bool {
    ||| is_invalid(e, too_many_classes()) && overflows::<L>(n_out, cfg, shares_batch(cs, unit))
    ||| is_internal(e, stripe_full()) && cs.len() > 0 && exists|s: CellStore<L>| #[trigger]
        shares_built(n_out, cfg, cs.drop_last(), unit, s) && !s.room_for(1)
}

/// The listed pixels are the boundary pixels met so far, with their samples.
pub open spec fn boundary_kept<V>(
    d: OverlayData<V>,
    bpos: Seq<usize>,
    bsamples: Seq<Vec<Option<Sample<V>>>>,
) -> bool {
    let bl = boundary_pixels(d, d.px.len() as int);
    &&& bpos.len() == bl.len()
    &&& bsamples.len() == bl.len()
    &&& forall|t: int| 0 <= t < bl.len() ==> #[trigger] bpos[t] == bl[t]
    &&& forall|t: int| 0 <= t < bl.len() ==> (#[trigger] bsamples[t])@ == d.px[bl[t]]@
}

proof fn lemma_no_shares<L: AccLayout>(e: CellStore<L>, unit: u64)
    requires
        e.wf(),
        e.cells@.len() == 0,
    ensures
        shares_built(e.n_out, e.cfg, Seq::<Contribution<L::Value>>::empty(), unit, e),
{
    let batch = shares_batch(Seq::<Contribution<L::Value>>::empty(), unit);
    assert forall|cell: u64| #[trigger] e.has(cell) == (e.has(cell) || (batch.touched)(cell)) by {}
    assert(batch_added(e, batch, e));
    assert(is_empty_store(e.n_out, e.cfg, e));
}

proof fn lemma_pixels_read<V, P: Fn(usize, usize, usize) -> Option<Sample<V>>>(
    st: Stripe,
    sample: P,
    px: Seq<Vec<Option<Sample<V>>>>,
    x: Vec<Option<Sample<V>>>,
)
    requires
        pixels_read(st, sample, px),
        x@.len() == st.n_out,
        forall|b: int|
            0 <= b < st.n_out ==> call_ensures(
                sample,
                (
                    (st.from + px.len() as int / (st.width as int)) as usize,
                    b as usize,
                    (px.len() as int % (st.width as int)) as usize,
                ),
                #[trigger] x@[b],
            ),
    ensures
        pixels_read(st, sample, px.push(x)),
{
    let more = px.push(x);
    assert forall|p: int, b: int| 0 <= p < more.len() && 0 <= b < st.n_out implies call_ensures(
        sample,
        (
            (st.from + p / (st.width as int)) as usize,
            b as usize,
            (p % (st.width as int)) as usize,
        ),
        #[trigger] more[p]@[b],
    ) by {
        if p < px.len() {
            assert(more[p] == px[p]);
        } else {
            assert(more[p] == x);
        }
    }
}

/// The interior pixels of a stripe, and the boundary pixels for later.
fn interior_pass<L: AccLayout, P>(
    st: &Stripe,
    n: usize,
    unit: u64,
    mask: Option<&CellMask>,
    sample: &P,
    rows: &Vec<Vec<u64>>,
    ins: &Vec<Vec<bool>>,
) -> (r: Result<
    (CellStore<L>, Vec<usize>, Vec<Vec<Option<Sample<L::Value>>>>, Ghost<OverlayData<L::Value>>),
    A5CogError,
>) where P: Fn(usize, usize, usize) -> Option<Sample<L::Value>>
    requires
        st.from <= st.to,
        n == st.width * (st.to - st.from),
        -1 <= st.resolution <= MAX_RESOLUTION,
        mask_wf(mask),
        forall|r: usize, b: usize, c: usize|
            st.from <= r < st.to && b < st.n_out && c < st.width ==> call_requires(
                *sample,
                (r, b, c),
            ),
        rows@.len() == st.to - st.from + 1,
        ins@.len() == rows@.len(),
        forall|j: int| 0 <= j < rows@.len() ==> (#[trigger] rows@[j])@.len() == st.width + 1,
        forall|j: int| 0 <= j < ins@.len() ==> (#[trigger] ins@[j])@.len() == st.width + 1,
    ensures
        match r {
            Ok(t) => {
                let d = t.3@;
                &&& d.width == st.width
                &&& d.rows == rows@
                &&& d.ins == ins@
                &&& d.px.len() == n
                &&& pixels_read(*st, *sample, d.px)
                &&& t.0.wf()
                &&& t.0.n_out == st.n_out
                &&& t.0.cfg == st.cfg
                &&& shares_built(
                    st.n_out,
                    st.cfg,
                    interior_shares(d, mask, st.resolution, unit, n as int),
                    unit,
                    t.0,
                )
                &&& boundary_kept(d, t.1@, t.2@)
            },
            Err(e) => exists|d: OverlayData<L::Value>|
                {
                    &&& d.width == st.width
                    &&& d.rows == rows@
                    &&& d.ins == ins@
                    &&& d.px.len() <= n
                    &&& pixels_read(*st, *sample, d.px)
                    &&& shares_refused::<L>(
                        st.n_out,
                        st.cfg,
                        #[trigger] interior_shares(
                            d,
                            mask,
                            st.resolution,
                            unit,
                            d.px.len() as int,
                        ),
                        unit,
                        e,
                    )
                },
        },
{
    let mut store: CellStore<L> = CellStore::new(st.n_out, st.cfg, stripe_capacity(n));
    let mut cache = MaskCache::new();
    let mut bpos: Vec<usize> = Vec::new();
    let mut bsamples: Vec<Vec<Option<Sample<L::Value>>>> = Vec::new();
    let ghost mut d: OverlayData<L::Value> = OverlayData {
        width: st.width as int,
        rows: rows@,
        ins: ins@,
        px: Seq::empty(),
    };
    proof {
        lemma_no_shares(store, unit);
        assert(interior_shares(d, mask, st.resolution, unit, 0) =~= Seq::empty());
    }
    for p in 0..n
        invariant
            st.from <= st.to,
            n == st.width * (st.to - st.from),
            -1 <= st.resolution <= MAX_RESOLUTION,
            mask_wf(mask),
            forall|r: usize, b: usize, c: usize|
                st.from <= r < st.to && b < st.n_out && c < st.width ==> call_requires(
                    *sample,
                    (r, b, c),
                ),
            rows@.len() == st.to - st.from + 1,
            ins@.len() == rows@.len(),
            forall|j: int| 0 <= j < rows@.len() ==> (#[trigger] rows@[j])@.len() == st.width + 1,
            forall|j: int| 0 <= j < ins@.len() ==> (#[trigger] ins@[j])@.len() == st.width + 1,
            cache.agrees(mask, st.resolution),
            store.wf(),
            store.n_out == st.n_out,
            store.cfg == st.cfg,
            d.width == st.width,
            d.rows == rows@,
            d.ins == ins@,
            d.px.len() == p,
            pixels_read(*st, *sample, d.px),
            shares_built(
                st.n_out,
                st.cfg,
                interior_shares(d, mask, st.resolution, unit, p as int),
                unit,
                store,
            ),
            boundary_kept(d, bpos@, bsamples@),
    {
        proof {
            assert(st.width > 0) by (nonlinear_arith)
                requires
                    p < n,
                    n == st.width * (st.to - st.from),
                    0 <= st.width,
            ;
            lemma_pixel_row(p as int, st.width as int, st.to - st.from);
        }
        let j: usize = p / st.width;
        let c: usize = p % st.width;
        let samples = read_pixel(sample, st.from + j, c, st.n_out);
        let ghost before = d;
        let ghost cs = interior_shares(d, mask, st.resolution, unit, p as int);
        proof {
            lemma_more_pixels(d, samples, mask, st.resolution, unit, p as int);
            d = OverlayData { px: d.px.push(samples), ..d };
            assert(d.px[p as int] == samples);
            lemma_pixels_read(*st, *sample, before.px, samples);
            lemma_boundary_members(before, p as int);
        }
        let ghost bl = boundary_pixels(d, p + 1);
        if has_valid_band(&samples) {
            match interior_cell(rows, ins, j, c) {
                Some(cell) => {
                    if cache.allows(mask, cell, st.resolution) {
                        let ghost was = store;
                        let res = add_share(&mut store, cell, &samples, unit, unit, Ghost(cs));
                        let ghost more = interior_shares(d, mask, st.resolution, unit, p + 1);
                        assert(more == cs.push(
                            Contribution { cell, samples: samples@, weight: unit },
                        ));
                        match res {
                            Ok(_) => {},
                            Err(e) => {
                                proof {
                                    assert(more.drop_last() == cs);
                                    assert(shares_built(
                                        st.n_out,
                                        st.cfg,
                                        more.drop_last(),
                                        unit,
                                        was,
                                    ));
                                    assert(shares_refused::<L>(
                                        st.n_out,
                                        st.cfg,
                                        interior_shares(
                                            d,
                                            mask,
                                            st.resolution,
                                            unit,
                                            d.px.len() as int,
                                        ),
                                        unit,
                                        e,
                                    ));
                                }
                                return Err(e);
                            },
                        }
                    }
                },
                None => {
                    assert(bl == boundary_pixels(before, p as int).push(p as int));
                    bpos.push(p);
                    bsamples.push(samples);
                },
            }
        }
        assert forall|t: int| 0 <= t < bl.len() implies (#[trigger] bsamples@[t])@
            == d.px[bl[t]]@ by {
            if t < boundary_pixels(before, p as int).len() {
                assert(bl[t] == boundary_pixels(before, p as int)[t]);
                assert(d.px[bl[t]] == before.px[bl[t]]);
            }
        }
    }
    Ok((store, bpos, bsamples, Ghost(d)))
}

/// The contributions of one boundary pixel, added to a store that holds `cs`.
fn share_pixel<L: AccLayout>(
    store: &mut CellStore<L>,
    touched: &Vec<(u64, u64)>,
    samples: &Vec<Option<Sample<L::Value>>>,
    mask: Option<&CellMask>,
    resolution: i32,
    unit: u64,
    cache: &mut MaskCache,
    cs: Ghost<Seq<Contribution<L::Value>>>,
) -> (r: Result<(), A5CogError>)
    requires
        old(store).wf(),
        samples@.len() == old(store).n_out,
        mask_wf(mask),
        resolution <= MAX_RESOLUTION,
        old(cache).agrees(mask, resolution),
        forall|t: int| 0 <= t < touched@.len() ==> (#[trigger] touched@[t]).0 != NO_CELL,
        shares_built(old(store).n_out, old(store).cfg, cs@, unit, *old(store)),
    ensures
        final(store).wf(),
        final(cache).agrees(mask, resolution),
        ({
            let n_out = old(store).n_out;
            let cfg = old(store).cfg;
            let all = pixel_shares(touched@, samples@, mask, resolution, touched@.len() as int);
            match r {
                Ok(_) => final(store).n_out == n_out && final(store).cfg == cfg && shares_built(
                    n_out,
                    cfg,
                    cs@ + all,
                    unit,
                    *final(store),
                ),
                Err(e) => exists|part: Seq<Contribution<L::Value>>|
                    part.is_prefix_of(cs@ + all) && #[trigger] shares_refused::<L>(
                        n_out,
                        cfg,
                        part,
                        unit,
                        e,
                    ),
            }
        }),
{
    let ghost n_out = store.n_out;
    let ghost cfg = store.cfg;
    let ghost all = pixel_shares(touched@, samples@, mask, resolution, touched@.len() as int);
    assert(cs@ + pixel_shares(touched@, samples@, mask, resolution, 0) == cs@);
    for t in 0..touched.len()
        invariant
            n_out == old(store).n_out,
            cfg == old(store).cfg,
            all == pixel_shares(touched@, samples@, mask, resolution, touched@.len() as int),
            store.wf(),
            store.n_out == n_out,
            store.cfg == cfg,
            samples@.len() == n_out,
            mask_wf(mask),
            resolution <= MAX_RESOLUTION,
            cache.agrees(mask, resolution),
            forall|t: int| 0 <= t < touched@.len() ==> (#[trigger] touched@[t]).0 != NO_CELL,
            shares_built(
                n_out,
                cfg,
                cs@ + pixel_shares(touched@, samples@, mask, resolution, t as int),
                unit,
                *store,
            ),
    {
        let (cell, count) = touched[t];
        assert(touched@[t as int].0 != NO_CELL);
        if cache.allows(mask, cell, resolution) {
            let ghost done = cs@ + pixel_shares(touched@, samples@, mask, resolution, t as int);
            let ghost more = cs@ + pixel_shares(touched@, samples@, mask, resolution, t + 1);
            let ghost was = *store;
            assert(more == done.push(Contribution { cell, samples: samples@, weight: count }));
            match add_share(store, cell, samples, count, unit, Ghost(done)) {
                Ok(_) => {},
                Err(e) => {
                    proof {
                        assert(more.drop_last() == done);
                        assert(shares_built(n_out, cfg, more.drop_last(), unit, was));
                        assert(shares_refused::<L>(n_out, cfg, more, unit, e));
                        lemma_shares_of_prefix(
                            touched@,
                            samples@,
                            mask,
                            resolution,
                            t + 1,
                            touched@.len() as int,
                        );
                        assert(more.is_prefix_of(cs@ + all));
                    }
                    return Err(e);
                },
            }
        }
    }
    Ok(())
}

/// Area-weighted indexing of the rows of a stripe with `k` by `k` sub-points.
///
/// `sample(r, b, c)` is band `b` of a pixel, none where it is invalid;
/// `corner(r, i)` is the point of the pixel corner at row line `r` and column
/// line `i`, with whether it lies in the bounding box; `subpoints(r, c)` are the
/// sub-points of a pixel. A point is none where it has no place or is not wanted.
pub fn index_stripe_overlay<L: AccLayout, P, C, S>(
    st: &Stripe,
    k: usize,
    mask: Option<&CellMask>,
    sample: &P,
    corner: &C,
    subpoints: &S,
) -> (r: Result<CellStore<L>, A5CogError>) where
    P: Fn(usize, usize, usize) -> Option<Sample<L::Value>>,
    C: Fn(usize, usize) -> Result<(Option<Spherical>, bool), A5CogError>,
    S: Fn(usize, usize) -> Result<Vec<Option<Spherical>>, A5CogError>,

    requires
        st.from <= st.to < usize::MAX,
        st.width < usize::MAX,
        st.width * (st.to - st.from) <= usize::MAX,
        -1 <= st.resolution <= MAX_RESOLUTION,
        k * k <= usize::MAX,
        mask_wf(mask),
        overlay_readable(*st, *sample, *corner, *subpoints),
    ensures
        match r {
            Ok(store) => {
                &&& store.wf()
                &&& store.n_out == st.n_out
                &&& store.cfg == st.cfg
                &&& exists|d: OverlayData<L::Value>, ids: Seq<Vec<u64>>|
                    overlay_done(*st, *sample, *corner, *subpoints, d, ids) && shares_built(
                        st.n_out,
                        st.cfg,
                        #[trigger] all_shares(d, ids, mask, st.resolution, (k * k) as u64),
                        (k * k) as u64,
                        store,
                    )
            },
            Err(e) => overlay_failed::<L, P, C, S>(
                *st,
                (k * k) as u64,
                mask,
                *sample,
                *corner,
                *subpoints,
                e,
            ),
        },
{
    let n: usize = st.width * (st.to - st.from);
    let unit: u64 = (k * k) as u64;
    let mut locator = CellLocator::new(st.resolution);
    let (rows, ins) = match corner_lattice(st, corner, &mut locator) {
        Ok(t) => t,
        Err(e) => {
            return Err(e);
        },
    };
    let (mut store, bpos, bsamples, d) = match interior_pass::<L, P>(
        st,
        n,
        unit,
        mask,
        sample,
        &rows,
        &ins,
    ) {
        Ok(t) => t,
        Err(e) => {
            proof {
                let d = choose|d: OverlayData<L::Value>|
                    {
                        &&& d.width == st.width
                        &&& d.rows == rows@
                        &&& d.ins == ins@
                        &&& d.px.len() <= n
                        &&& pixels_read(*st, *sample, d.px)
                        &&& shares_refused::<L>(
                            st.n_out,
                            st.cfg,
                            #[trigger] interior_shares(
                                d,
                                mask,
                                st.resolution,
                                unit,
                                d.px.len() as int,
                            ),
                            unit,
                            e,
                        )
                    };
                let ids: Seq<Vec<u64>> = Seq::empty();
                let cs = interior_shares(d, mask, st.resolution, unit, d.px.len() as int);
                assert(all_shares(d, ids, mask, st.resolution, unit) =~= cs);
                assert(overlay_read(*st, *sample, *corner, *subpoints, d, ids));
                assert(cs.is_prefix_of(all_shares(d, ids, mask, st.resolution, unit)));
            }
            return Err(e);
        },
    };
    let ghost d = d@;
    let ghost bl = boundary_pixels(d, n as int);
    let ghost inner = interior_shares(d, mask, st.resolution, unit, n as int);
    let ghost mut ids: Seq<Vec<u64>> = Seq::empty();
    let mut cache = MaskCache::new();
    proof {
        lemma_boundary_members(d, n as int);
        assert(all_shares(d, ids, mask, st.resolution, unit) =~= inner);
    }
    for t in 0..bpos.len()
        invariant
            st.from <= st.to < usize::MAX,
            n == st.width * (st.to - st.from),
            unit == k * k,
            -1 <= st.resolution <= MAX_RESOLUTION,
            mask_wf(mask),
            overlay_readable(*st, *sample, *corner, *subpoints),
            locator.wf(),
            locator.resolution == st.resolution,
            rows@.len() == st.to - st.from + 1,
            corners_found(*st, *corner, rows@, ins@),
            d.width == st.width,
            d.rows == rows@,
            d.ins == ins@,
            d.px.len() == n,
            pixels_read(*st, *sample, d.px),
            bl == boundary_pixels(d, n as int),
            forall|i: int| 0 <= i < bl.len() ==> 0 <= #[trigger] bl[i] < n,
            inner == interior_shares(d, mask, st.resolution, unit, n as int),
            boundary_kept(d, bpos@, bsamples@),
            ids.len() == t,
            overlay_read(*st, *sample, *corner, *subpoints, d, ids),
            cache.agrees(mask, st.resolution),
            store.wf(),
            store.n_out == st.n_out,
            store.cfg == st.cfg,
            shares_built(
                st.n_out,
                st.cfg,
                all_shares(d, ids, mask, st.resolution, unit),
                unit,
                store,
            ),
    {
        let p: usize = bpos[t];
        proof {
            assert(bl[t as int] == p);
            assert(st.width > 0) by (nonlinear_arith)
                requires
                    p < n,
                    n == st.width * (st.to - st.from),
                    0 <= st.width,
            ;
            lemma_pixel_row(p as int, st.width as int, st.to - st.from);
        }
        let j: usize = p / st.width;
        let c: usize = p % st.width;
        let h_rows: usize = rows.len();
        let h_cols: usize = rows[j].len();
        assert(j + 1 < h_rows && c + 1 < h_cols && rows@[j + 1]@.len() == h_cols);
        let hints: [u64; N_HINTS] = [
            rows[j][c],
            rows[j][c + 1],
            rows[j + 1][c],
            rows[j + 1][c + 1],
            NO_CELL,
        ];
        let at = match subpoints(st.from + j, c) {
            Ok(v) => v,
            Err(e) => {
                assert(subpoints_failed(*st, d, *subpoints, ids, e));
                return Err(e);
            },
        };
        let found = locate_subpoints(&at, &hints, &mut locator);
        let touched = touched_cells(&found);
        let ghost cs = all_shares(d, ids, mask, st.resolution, unit);
        let ghost more_ids = ids.push(found);
        let ghost own = pixel_shares(
            touched@,
            bsamples@[t as int]@,
            mask,
            st.resolution,
            touched@.len() as int,
        );
        let ghost more = all_shares(d, more_ids, mask, st.resolution, unit);
        assert(found.len() <= usize::MAX);
        proof {
            overlay_conserves_weight(found@, found@.len() as int);
            lemma_more_ids(d, bl, ids, found, mask, st.resolution, t as int);
            assert(more_ids[t as int] == found);
            assert(bsamples@[t as int]@ == d.px[bl[t as int]]@);
            assert(more =~= cs + own);
            assert forall|i: int| 0 <= i < more_ids.len() implies #[trigger] subpoints_found(
                *st,
                d,
                *subpoints,
                bl,
                more_ids,
                i,
            ) by {
                if i < t {
                    assert(more_ids[i] == ids[i]);
                    assert(subpoints_found(*st, d, *subpoints, bl, ids, i));
                } else {
                    assert(call_ensures(*subpoints, ((st.from + j) as usize, c), Ok(at)));
                }
            }
            assert(overlay_read(*st, *sample, *corner, *subpoints, d, more_ids));
        }
        match share_pixel(
            &mut store,
            &touched,
            &bsamples[t],
            mask,
            st.resolution,
            unit,
            &mut cache,
            Ghost(cs),
        ) {
            Ok(_) => {},
            Err(e) => {
                proof {
                    let part = choose|part: Seq<Contribution<L::Value>>|
                        part.is_prefix_of(cs + own) && #[trigger] shares_refused::<L>(
                            st.n_out,
                            st.cfg,
                            part,
                            unit,
                            e,
                        );
                    assert(part.is_prefix_of(all_shares(d, more_ids, mask, st.resolution, unit)));
                    assert(shares_refused::<L>(st.n_out, st.cfg, part, unit, e));
                }
                return Err(e);
            },
        }
        proof {
            ids = more_ids;
        }
    }
    proof {
        assert(overlay_done(*st, *sample, *corner, *subpoints, d, ids));
    }
    Ok(store)
}

/// The whole stripe was read and looked up.
pub open spec fn overlay_done<V, P, C, S>(
    st: Stripe,
    sample: P,
    corner: C,
    subpoints: S,
    d: OverlayData<V>,
    ids: Seq<Vec<u64>>,
) -> bool where
    P: Fn(usize, usize, usize) -> Option<Sample<V>>,
    C: Fn(usize, usize) -> Result<(Option<Spherical>, bool), A5CogError>,
    S: Fn(usize, usize) -> Result<Vec<Option<Spherical>>, A5CogError>,
 {
    &&& overlay_read(st, sample, corner, subpoints, d, ids)
    &&& d.px.len() == st.width * (st.to - st.from)
    &&& ids.len() == boundary_pixels(d, d.px.len() as int).len()
}

/// Area-weighted indexing of the rows of a stripe, merged into the partitions.
///
/// What a stripe touches is known only once it is indexed, so room in the
/// partitions is checked before they are merged.
pub fn process_tile_overlay<L: AccLayout, P, C, S>(
    st: &Stripe,
    k: usize,
    mask: Option<&CellMask>,
    sample: &P,
    corner: &C,
    subpoints: &S,
    parts: &mut PartitionedStore<L>,
) -> (r: Result<(), A5CogError>) where
    P: Fn(usize, usize, usize) -> Option<Sample<L::Value>>,
    C: Fn(usize, usize) -> Result<(Option<Spherical>, bool), A5CogError>,
    S: Fn(usize, usize) -> Result<Vec<Option<Spherical>>, A5CogError>,

    requires
        st.from <= st.to < usize::MAX,
        st.width < usize::MAX,
        st.width * (st.to - st.from) <= usize::MAX,
        -1 <= st.resolution <= MAX_RESOLUTION,
        k * k <= usize::MAX,
        mask_wf(mask),
        overlay_readable(*st, *sample, *corner, *subpoints),
        old(parts).wf(),
        old(parts).parts@[0].n_out == st.n_out,
        old(parts).parts@[0].cfg == st.cfg,
    ensures
        final(parts).wf(),
        final(parts).log2p == old(parts).log2p,
        match r {
            Ok(_) => exists|d: OverlayData<L::Value>, ids: Seq<Vec<u64>>, store: CellStore<L>| #[trigger]
                stripe_overlaid(*st, (k * k) as u64, mask, *sample, *corner, *subpoints, d, ids, store)
                    && parts_absorbed(*old(parts), store, *final(parts)),
            Err(e) => overlay_failed::<L, P, C, S>(
                *st,
                (k * k) as u64,
                mask,
                *sample,
                *corner,
                *subpoints,
                e,
            ) || exists|d: OverlayData<L::Value>, ids: Seq<Vec<u64>>, store: CellStore<L>| #[trigger]
                stripe_overlaid(*st, (k * k) as u64, mask, *sample, *corner, *subpoints, d, ids, store)
                    && absorb_refused(*old(parts), store, e),
        },
{
    match index_stripe_overlay::<L, P, C, S>(st, k, mask, sample, corner, subpoints) {
        Err(e) => Err(e),
        Ok(store) => {
            proof {
                let unit = (k * k) as u64;
                let (d, ids) = choose|d: OverlayData<L::Value>, ids: Seq<Vec<u64>>|
                    overlay_done(*st, *sample, *corner, *subpoints, d, ids) && shares_built(
                        st.n_out,
                        st.cfg,
                        #[trigger] all_shares(d, ids, mask, st.resolution, unit),
                        unit,
                        store,
                    );
                assert(stripe_overlaid(
                    *st,
                    unit,
                    mask,
                    *sample,
                    *corner,
                    *subpoints,
                    d,
                    ids,
                    store,
                ));
            }
            if !parts.can_absorb(&store) {
                return Err(A5CogError::Internal("too many cells".to_owned()));
            }
            parts.absorb(&store)
        },
    }
}

/// `store` holds the shares of a stripe that was read and looked up.
pub open spec fn stripe_overlaid<L: AccLayout, P, C, S>(
    st: Stripe,
    unit: u64,
    mask: Option<&CellMask>,
    sample: P,
    corner: C,
    subpoints: S,
    d: OverlayData<L::Value>,
    ids: Seq<Vec<u64>>,
    store: CellStore<L>,
) -> bool where
    P: Fn(usize, usize, usize) -> Option<Sample<L::Value>>,
    C: Fn(usize, usize) -> Result<(Option<Spherical>, bool), A5CogError>,
    S: Fn(usize, usize) -> Result<Vec<Option<Spherical>>, A5CogError>,
 {
    &&& overlay_done(st, sample, corner, subpoints, d, ids)
    &&& shares_built(
        st.n_out,
        st.cfg,
        all_shares(d, ids, mask, st.resolution, unit),
        unit,
        store,
    )
}

// ---------------------------------------------------------------------------
// laws

/// The weight of all contributions together.
pub open spec fn total_share<V>(cs: Seq<Contribution<V>>) -> nat
    decreases cs.len(),
{
    if cs.len() == 0 {
        0
    } else {
        total_share(cs.drop_last()) + cs.last().weight as nat
    }
}

/// How many of the first `n` pixels have a valid band.
pub open spec fn valid_pixels<V>(d: OverlayData<V>, n: int) -> nat
    decreases n,
{
    if n <= 0 {
        0
    } else {
        valid_pixels(d, n - 1) + if pixel_valid(d.px[n - 1]@) {
            1nat
        } else {
            0
        }
    }
}

/// How many sub-points of the first `n` boundary pixels have a cell.
pub open spec fn located_total(ids: Seq<Vec<u64>>, n: int) -> nat
    decreases n,
{
    if n <= 0 {
        0
    } else {
        located_total(ids, n - 1) + located_count(ids[n - 1]@, ids[n - 1]@.len() as int)
    }
}

proof fn lemma_total_share_add<V>(a: Seq<Contribution<V>>, b: Seq<Contribution<V>>)
    ensures
        total_share(a + b) == total_share(a) + total_share(b),
    decreases b.len(),
{
    if b.len() == 0 {
        assert(a + b =~= a);
    } else {
        assert((a + b).drop_last() =~= a + b.drop_last());
        lemma_total_share_add(a, b.drop_last());
    }
}

proof fn lemma_interior_weight<V>(d: OverlayData<V>, resolution: i32, unit: u64, n: int)
    requires
        0 <= n,
    ensures
        total_share(interior_shares(d, None, resolution, unit, n)) + unit * boundary_pixels(
            d,
            n,
        ).len() == unit * valid_pixels(d, n),
    decreases n,
{
    if n > 0 {
        lemma_interior_weight(d, resolution, unit, n - 1);
        let rest = interior_shares(d, None, resolution, unit, n - 1);
        let now = interior_shares(d, None, resolution, unit, n);
        let v = valid_pixels(d, n - 1);
        let b = boundary_pixels(d, n - 1).len();
        assert(unit * (v + 1) == unit * v + unit) by (nonlinear_arith);
        assert(unit * (b + 1) == unit * b + unit) by (nonlinear_arith);
        if now != rest {
            assert(now.drop_last() =~= rest);
        }
    } else {
        assert(unit * 0 == 0) by (nonlinear_arith);
    }
}

proof fn lemma_pixel_weight<V>(
    touched: Seq<(u64, u64)>,
    samples: Seq<Option<Sample<V>>>,
    resolution: i32,
    n: int,
)
    requires
        0 <= n <= touched.len(),
    ensures
        total_share(pixel_shares(touched, samples, None, resolution, n)) == total_count(
            touched.take(n),
        ),
    decreases n,
{
    if n > 0 {
        lemma_pixel_weight(touched, samples, resolution, n - 1);
        let rest = pixel_shares(touched, samples, None, resolution, n - 1);
        let now = pixel_shares(touched, samples, None, resolution, n);
        assert(now.drop_last() =~= rest);
        assert(touched.take(n).drop_last() =~= touched.take(n - 1));
    } else {
        assert(touched.take(0) =~= Seq::empty());
    }
}

proof fn lemma_boundary_weight<V>(
    d: OverlayData<V>,
    boundary: Seq<int>,
    ids: Seq<Vec<u64>>,
    resolution: i32,
    n: int,
)
    requires
        0 <= n <= ids.len(),
        forall|t: int| 0 <= t < ids.len() ==> (#[trigger] ids[t])@.len() <= usize::MAX,
    ensures
        total_share(boundary_shares(d, boundary, ids, None, resolution, n)) == located_total(
            ids,
            n,
        ),
    decreases n,
{
    if n > 0 {
        lemma_boundary_weight(d, boundary, ids, resolution, n - 1);
        let found = ids[n - 1]@;
        let t = touched_of(found, found.len() as int);
        let own = pixel_shares(t, d.px[boundary[n - 1]]@, None, resolution, t.len() as int);
        overlay_conserves_weight(found, found.len() as int);
        lemma_pixel_weight(t, d.px[boundary[n - 1]]@, resolution, t.len() as int);
        assert(t.take(t.len() as int) =~= t);
        lemma_total_share_add(
            boundary_shares(d, boundary, ids, None, resolution, n - 1),
            own,
        );
    }
}

proof fn lemma_all_located(ids: Seq<Vec<u64>>, unit: u64, n: int)
    requires
        0 <= n <= ids.len(),
        forall|t: int|
            0 <= t < ids.len() ==> located_count(
                (#[trigger] ids[t])@,
                ids[t]@.len() as int,
            ) == unit,
    ensures
        located_total(ids, n) == unit * n,
    decreases n,
{
    if n > 0 {
        lemma_all_located(ids, unit, n - 1);
        assert(unit * n == unit * (n - 1) + unit) by (nonlinear_arith);
        assert(located_count(ids[n - 1]@, ids[n - 1]@.len() as int) == unit);
    } else {
        assert(unit * 0 == 0) by (nonlinear_arith);
    }
}

/// Without a mask an overlay of a stripe conserves weight: every interior pixel
/// gives its whole weight and every boundary pixel its sub-points that have a
/// cell. Where all of them have one, the contributions add up to the weight of
/// all valid pixels.
pub proof fn stripe_conserves_weight<V>(
    d: OverlayData<V>,
    ids: Seq<Vec<u64>>,
    resolution: i32,
    unit: u64,
)
    requires
        ids.len() == boundary_pixels(d, d.px.len() as int).len(),
        forall|t: int| 0 <= t < ids.len() ==> (#[trigger] ids[t])@.len() <= usize::MAX,
    ensures
        total_share(all_shares(d, ids, None, resolution, unit)) + unit * ids.len() == unit
            * valid_pixels(d, d.px.len() as int) + located_total(ids, ids.len() as int),
        (forall|t: int|
            0 <= t < ids.len() ==> located_count(
                (#[trigger] ids[t])@,
                ids[t]@.len() as int,
            ) == unit) ==> total_share(all_shares(d, ids, None, resolution, unit)) == unit
            * valid_pixels(d, d.px.len() as int),
{
    let n = d.px.len() as int;
    let boundary = boundary_pixels(d, n);
    lemma_interior_weight(d, resolution, unit, n);
    lemma_boundary_weight(d, boundary, ids, resolution, ids.len() as int);
    lemma_total_share_add(
        interior_shares(d, None, resolution, unit, n),
        boundary_shares(d, boundary, ids, None, resolution, ids.len() as int),
    );
    if forall|t: int|
        0 <= t < ids.len() ==> located_count((#[trigger] ids[t])@, ids[t]@.len() as int) == unit {
        lemma_all_located(ids, unit, ids.len() as int);
    }
}

proof fn lemma_touching_share<V>(cs: Seq<Contribution<V>>, n: int, cell: u64) -> (k: int)
    requires
        shares_touch(cs, n, cell),
    ensures
        0 <= k < n,
        cs[k].cell == cell,
    decreases n,
{
    if cs[n - 1].cell == cell {
        n - 1
    } else {
        lemma_touching_share(cs, n - 1, cell)
    }
}

proof fn lemma_interior_allowed<V>(
    d: OverlayData<V>,
    mask: Option<&CellMask>,
    resolution: i32,
    unit: u64,
    n: int,
    k: int,
)
    requires
        0 <= k < interior_shares(d, mask, resolution, unit, n).len(),
    ensures
        mask_allows(mask, interior_shares(d, mask, resolution, unit, n)[k].cell, resolution),
    decreases n,
{
    let rest = interior_shares(d, mask, resolution, unit, n - 1);
    if n > 0 && k < rest.len() {
        lemma_interior_allowed(d, mask, resolution, unit, n - 1, k);
    }
}

proof fn lemma_pixel_allowed<V>(
    touched: Seq<(u64, u64)>,
    samples: Seq<Option<Sample<V>>>,
    mask: Option<&CellMask>,
    resolution: i32,
    n: int,
    k: int,
)
    requires
        0 <= k < pixel_shares(touched, samples, mask, resolution, n).len(),
    ensures
        mask_allows(mask, pixel_shares(touched, samples, mask, resolution, n)[k].cell, resolution),
    decreases n,
{
    let rest = pixel_shares(touched, samples, mask, resolution, n - 1);
    if n > 0 && k < rest.len() {
        lemma_pixel_allowed(touched, samples, mask, resolution, n - 1, k);
    }
}

proof fn lemma_boundary_allowed<V>(
    d: OverlayData<V>,
    boundary: Seq<int>,
    ids: Seq<Vec<u64>>,
    mask: Option<&CellMask>,
    resolution: i32,
    n: int,
    k: int,
)
    requires
        0 <= k < boundary_shares(d, boundary, ids, mask, resolution, n).len(),
    ensures
        mask_allows(
            mask,
            boundary_shares(d, boundary, ids, mask, resolution, n)[k].cell,
            resolution,
        ),
    decreases n,
{
    if n > 0 {
        let rest = boundary_shares(d, boundary, ids, mask, resolution, n - 1);
        if k < rest.len() {
            lemma_boundary_allowed(d, boundary, ids, mask, resolution, n - 1, k);
        } else {
            let t = touched_of(ids[n - 1]@, ids[n - 1]@.len() as int);
            lemma_pixel_allowed(
                t,
                d.px[boundary[n - 1]]@,
                mask,
                resolution,
                t.len() as int,
                k - rest.len(),
            );
        }
    }
}

/// An overlay stores no cell that the mask does not allow.
pub proof fn overlaid_cells_are_allowed<L: AccLayout>(
    st: Stripe,
    d: OverlayData<L::Value>,
    ids: Seq<Vec<u64>>,
    mask: Option<&CellMask>,
    unit: u64,
    store: CellStore<L>,
    cell: u64,
)
    requires
        shares_built(
            st.n_out,
            st.cfg,
            all_shares(d, ids, mask, st.resolution, unit),
            unit,
            store,
        ),
        store.has(cell),
    ensures
        mask_allows(mask, cell, st.resolution),
{
    let cs = all_shares(d, ids, mask, st.resolution, unit);
    let batch = shares_batch(cs, unit);
    let e = choose|e: CellStore<L>| #[trigger]
        is_empty_store(st.n_out, st.cfg, e) && batch_added(e, batch, store);
    assert(!e.has(cell));
    assert((batch.touched)(cell));
    let k = lemma_touching_share(cs, cs.len() as int, cell);
    lemma_share_allowed(d, ids, mask, st.resolution, unit, k);
}

proof fn lemma_share_allowed<V>(
    d: OverlayData<V>,
    ids: Seq<Vec<u64>>,
    mask: Option<&CellMask>,
    resolution: i32,
    unit: u64,
    k: int,
)
    requires
        0 <= k < all_shares(d, ids, mask, resolution, unit).len(),
    ensures
        mask_allows(mask, all_shares(d, ids, mask, resolution, unit)[k].cell, resolution),
{
    let n = d.px.len() as int;
    let inner = interior_shares(d, mask, resolution, unit, n);
    if k < inner.len() {
        lemma_interior_allowed(d, mask, resolution, unit, n, k);
    } else {
        lemma_boundary_allowed(
            d,
            boundary_pixels(d, n),
            ids,
            mask,
            resolution,
            ids.len() as int,
            k - inner.len(),
        );
    }
}

/// The contributions to a cell.
pub open spec fn own_shares<V>(cs: Seq<Contribution<V>>, cell: u64) -> Seq<Contribution<V>>
    decreases cs.len(),
{
    if cs.len() == 0 {
        Seq::empty()
    } else if cs.last().cell == cell {
        own_shares(cs.drop_last(), cell).push(cs.last())
    } else {
        own_shares(cs.drop_last(), cell)
    }
}

proof fn lemma_own_shares_join<V>(a: Seq<Contribution<V>>, b: Seq<Contribution<V>>, cell: u64)
    ensures
        own_shares(a + b, cell) == own_shares(a, cell) + own_shares(b, cell),
    decreases b.len(),
{
    if b.len() == 0 {
        assert(a + b == a);
        assert(own_shares(a, cell) + own_shares(b, cell) =~= own_shares(a, cell));
    } else {
        assert((a + b).drop_last() == a + b.drop_last());
        lemma_own_shares_join(a, b.drop_last(), cell);
        assert(own_shares(a + b, cell) =~= own_shares(a, cell) + own_shares(b, cell));
    }
}

/// What contributions give to a cell comes from those to it.
proof fn lemma_own_shares<V>(cs: Seq<Contribution<V>>, unit: u64, cell: u64, b: int)
    ensures
        ({
            let own = own_shares(cs, cell);
            let m = own.len() as int;
            let n = cs.len() as int;
            &&& shares_events(own, m, unit, cell, b) == shares_events(cs, n, unit, cell, b)
            &&& shares_codes(own, m, cell, b) == shares_codes(cs, n, cell, b)
            &&& shares_weight(own, m, cell) == shares_weight(cs, n, cell)
            &&& shares_touch(own, m, cell) == shares_touch(cs, n, cell)
        }),
    decreases cs.len(),
{
    if cs.len() > 0 {
        let front = cs.drop_last();
        let last = cs.last();
        lemma_own_shares(front, unit, cell, b);
        assert(front.push(last) == cs);
        lemma_shares_prefix(front, last, front.len() as int, unit, cell, b);
        if last.cell == cell {
            let own = own_shares(front, cell);
            lemma_shares_prefix(own, last, own.len() as int, unit, cell, b);
        }
    }
}

proof fn lemma_masked_interior<V>(
    d: OverlayData<V>,
    mask: &CellMask,
    resolution: i32,
    unit: u64,
    n: int,
    cell: u64,
)
    requires
        in_area(mask.members(), cell, resolution),
    ensures
        own_shares(interior_shares(d, Some(mask), resolution, unit, n), cell) == own_shares(
            interior_shares(d, None, resolution, unit, n),
            cell,
        ),
    decreases n,
{
    if n > 0 {
        lemma_masked_interior(d, mask, resolution, unit, n - 1, cell);
        let masked = interior_shares(d, Some(mask), resolution, unit, n - 1);
        let all = interior_shares(d, None, resolution, unit, n - 1);
        let c = Contribution {
            cell: d.rows[(n - 1) / d.width]@[(n - 1) % d.width],
            samples: d.px[n - 1]@,
            weight: unit,
        };
        assert(masked.push(c).drop_last() == masked);
        assert(all.push(c).drop_last() == all);
    }
}

proof fn lemma_masked_pixel<V>(
    touched: Seq<(u64, u64)>,
    samples: Seq<Option<Sample<V>>>,
    mask: &CellMask,
    resolution: i32,
    n: int,
    cell: u64,
)
    requires
        in_area(mask.members(), cell, resolution),
    ensures
        own_shares(pixel_shares(touched, samples, Some(mask), resolution, n), cell) == own_shares(
            pixel_shares(touched, samples, None, resolution, n),
            cell,
        ),
    decreases n,
{
    if n > 0 {
        lemma_masked_pixel(touched, samples, mask, resolution, n - 1, cell);
        let masked = pixel_shares(touched, samples, Some(mask), resolution, n - 1);
        let all = pixel_shares(touched, samples, None, resolution, n - 1);
        let c = Contribution { cell: touched[n - 1].0, samples, weight: touched[n - 1].1 };
        assert(masked.push(c).drop_last() == masked);
        assert(all.push(c).drop_last() == all);
    }
}

proof fn lemma_masked_boundary<V>(
    d: OverlayData<V>,
    boundary: Seq<int>,
    ids: Seq<Vec<u64>>,
    mask: &CellMask,
    resolution: i32,
    n: int,
    cell: u64,
)
    requires
        in_area(mask.members(), cell, resolution),
    ensures
        own_shares(boundary_shares(d, boundary, ids, Some(mask), resolution, n), cell)
            == own_shares(boundary_shares(d, boundary, ids, None, resolution, n), cell),
    decreases n,
{
    if n > 0 {
        lemma_masked_boundary(d, boundary, ids, mask, resolution, n - 1, cell);
        let t = touched_of(ids[n - 1]@, ids[n - 1]@.len() as int);
        let samples = d.px[boundary[n - 1]]@;
        let m = t.len() as int;
        lemma_masked_pixel(t, samples, mask, resolution, m, cell);
        lemma_own_shares_join(
            boundary_shares(d, boundary, ids, Some(mask), resolution, n - 1),
            pixel_shares(t, samples, Some(mask), resolution, m),
            cell,
        );
        lemma_own_shares_join(
            boundary_shares(d, boundary, ids, None, resolution, n - 1),
            pixel_shares(t, samples, None, resolution, m),
            cell,
        );
    }
}

/// A masked overlay of a stripe gives every cell of the mask what the unmasked one
/// gives it, and other cells nothing.
pub proof fn mask_selects_overlaid_cells<V>(
    d: OverlayData<V>,
    ids: Seq<Vec<u64>>,
    mask: &CellMask,
    resolution: i32,
    unit: u64,
)
    ensures
        selects_cells(
            shares_batch(all_shares(d, ids, None, resolution, unit), unit),
            shares_batch(all_shares(d, ids, Some(mask), resolution, unit), unit),
            mask,
            resolution,
        ),
{
    let all = all_shares(d, ids, None, resolution, unit);
    let masked = all_shares(d, ids, Some(mask), resolution, unit);
    let a = shares_batch(all, unit);
    let b = shares_batch(masked, unit);
    let n = d.px.len() as int;
    let boundary = boundary_pixels(d, n);
    assert forall|cell: u64|
        #![trigger in_area(mask.members(), cell, resolution)]
        cell != NO_CELL implies if in_area(mask.members(), cell, resolution) {
        gives_alike(a, b, cell)
    } else {
        gives_nothing(b, cell)
    } by {
        if in_area(mask.members(), cell, resolution) {
            lemma_masked_interior(d, mask, resolution, unit, n, cell);
            lemma_masked_boundary(d, boundary, ids, mask, resolution, ids.len() as int, cell);
            lemma_own_shares_join(
                interior_shares(d, Some(mask), resolution, unit, n),
                boundary_shares(d, boundary, ids, Some(mask), resolution, ids.len() as int),
                cell,
            );
            lemma_own_shares_join(
                interior_shares(d, None, resolution, unit, n),
                boundary_shares(d, boundary, ids, None, resolution, ids.len() as int),
                cell,
            );
            assert(own_shares(all, cell) == own_shares(masked, cell));
            assert forall|k: int| #[trigger] (a.events)(cell, k) == (b.events)(cell, k) by {
                lemma_own_shares(all, unit, cell, k);
                lemma_own_shares(masked, unit, cell, k);
            }
            assert forall|k: int| #[trigger] (a.codes)(cell, k) == (b.codes)(cell, k) by {
                lemma_own_shares(all, unit, cell, k);
                lemma_own_shares(masked, unit, cell, k);
            }
            lemma_own_shares(all, unit, cell, 0);
            lemma_own_shares(masked, unit, cell, 0);
        } else {
            if shares_touch(masked, masked.len() as int, cell) {
                let k = lemma_touching_share(masked, masked.len() as int, cell);
                lemma_share_allowed(d, ids, Some(mask), resolution, unit, k);
            }
            assert forall|k: int| (#[trigger] (b.events)(cell, k)).len() == 0 by {
                lemma_shares_untouched(masked, masked.len() as int, unit, cell, k);
            }
            assert forall|k: int| (#[trigger] (b.codes)(cell, k)).len() == 0 by {
                lemma_shares_untouched(masked, masked.len() as int, unit, cell, k);
            }
            lemma_shares_untouched(masked, masked.len() as int, unit, cell, 0);
        }
    }
}

// ---------------------------------------------------------------------------
// weight of one band

/// The weight of the contributions that are valid in a band.
pub open spec fn band_share<V>(cs: Seq<Contribution<V>>, b: int) -> nat
    decreases cs.len(),
{
    if cs.len() == 0 {
        0
    } else {
        band_share(cs.drop_last(), b) + if cs.last().samples[b] is Some {
            cs.last().weight as nat
        } else {
            0
        }
    }
}

/// How many of the first `n` pixels are valid in a band.
pub open spec fn band_pixels<V>(d: OverlayData<V>, b: int, n: int) -> nat
    decreases n,
{
    if n <= 0 {
        0
    } else {
        band_pixels(d, b, n - 1) + if d.px[n - 1]@[b] is Some {
            1nat
        } else {
            0
        }
    }
}

/// How many of the first `n` boundary pixels are valid in a band.
pub open spec fn band_boundary<V>(d: OverlayData<V>, boundary: Seq<int>, b: int, n: int) -> nat
    decreases n,
{
    if n <= 0 {
        0
    } else {
        band_boundary(d, boundary, b, n - 1) + if d.px[boundary[n - 1]]@[b] is Some {
            1nat
        } else {
            0
        }
    }
}

/// How many sub-points with a cell the first `n` boundary pixels that are valid in
/// a band have.
pub open spec fn band_located<V>(
    d: OverlayData<V>,
    boundary: Seq<int>,
    ids: Seq<Vec<u64>>,
    b: int,
    n: int,
) -> nat
    decreases n,
{
    if n <= 0 {
        0
    } else {
        band_located(d, boundary, ids, b, n - 1) + if d.px[boundary[n - 1]]@[b] is Some {
            located_count(ids[n - 1]@, ids[n - 1]@.len() as int)
        } else {
            0
        }
    }
}

proof fn lemma_band_share_join<V>(a: Seq<Contribution<V>>, c: Seq<Contribution<V>>, b: int)
    ensures
        band_share(a + c, b) == band_share(a, b) + band_share(c, b),
    decreases c.len(),
{
    if c.len() == 0 {
        assert(a + c =~= a);
    } else {
        assert((a + c).drop_last() =~= a + c.drop_last());
        lemma_band_share_join(a, c.drop_last(), b);
    }
}

proof fn lemma_band_boundary_front<V>(
    d: OverlayData<V>,
    boundary: Seq<int>,
    more: int,
    b: int,
    n: int,
)
    requires
        0 <= n <= boundary.len(),
    ensures
        band_boundary(d, boundary.push(more), b, n) == band_boundary(d, boundary, b, n),
    decreases n,
{
    if n > 0 {
        lemma_band_boundary_front(d, boundary, more, b, n - 1);
        assert(boundary.push(more)[n - 1] == boundary[n - 1]);
    }
}

proof fn lemma_band_interior<V>(d: OverlayData<V>, resolution: i32, unit: u64, b: int, n: int)
    requires
        0 <= n <= d.px.len(),
        forall|p: int| 0 <= p < d.px.len() ==> 0 <= b < (#[trigger] d.px[p])@.len(),
    ensures
        band_share(interior_shares(d, None, resolution, unit, n), b) + unit * band_boundary(
            d,
            boundary_pixels(d, n),
            b,
            boundary_pixels(d, n).len() as int,
        ) == unit * band_pixels(d, b, n),
    decreases n,
{
    if n > 0 {
        lemma_band_interior(d, resolution, unit, b, n - 1);
        let rest = interior_shares(d, None, resolution, unit, n - 1);
        let now = interior_shares(d, None, resolution, unit, n);
        let bl = boundary_pixels(d, n - 1);
        let v = band_pixels(d, b, n - 1);
        let w = band_boundary(d, bl, b, bl.len() as int);
        assert(unit * (v + 1) == unit * v + unit) by (nonlinear_arith);
        assert(unit * (w + 1) == unit * w + unit) by (nonlinear_arith);
        lemma_band_boundary_front(d, bl, n - 1, b, bl.len() as int);
        if d.px[n - 1]@[b] is Some {
            assert(pixel_valid(d.px[n - 1]@));
        }
        if now != rest {
            assert(now.drop_last() =~= rest);
        }
    } else {
        assert(unit * 0 == 0) by (nonlinear_arith);
    }
}

proof fn lemma_band_pixel<V>(
    touched: Seq<(u64, u64)>,
    samples: Seq<Option<Sample<V>>>,
    resolution: i32,
    b: int,
    n: int,
)
    requires
        0 <= n <= touched.len(),
    ensures
        band_share(pixel_shares(touched, samples, None, resolution, n), b) == (
        if samples[b] is Some {
            total_count(touched.take(n))
        } else {
            0
        }),
    decreases n,
{
    if n > 0 {
        lemma_band_pixel(touched, samples, resolution, b, n - 1);
        let rest = pixel_shares(touched, samples, None, resolution, n - 1);
        let now = pixel_shares(touched, samples, None, resolution, n);
        assert(now.drop_last() =~= rest);
        assert(touched.take(n).drop_last() =~= touched.take(n - 1));
    } else {
        assert(touched.take(0) =~= Seq::empty());
    }
}

proof fn lemma_band_edges<V>(
    d: OverlayData<V>,
    boundary: Seq<int>,
    ids: Seq<Vec<u64>>,
    resolution: i32,
    b: int,
    n: int,
)
    requires
        0 <= n <= ids.len(),
        forall|t: int| 0 <= t < ids.len() ==> (#[trigger] ids[t])@.len() <= usize::MAX,
    ensures
        band_share(boundary_shares(d, boundary, ids, None, resolution, n), b) == band_located(
            d,
            boundary,
            ids,
            b,
            n,
        ),
    decreases n,
{
    if n > 0 {
        lemma_band_edges(d, boundary, ids, resolution, b, n - 1);
        let found = ids[n - 1]@;
        let t = touched_of(found, found.len() as int);
        let own = pixel_shares(t, d.px[boundary[n - 1]]@, None, resolution, t.len() as int);
        overlay_conserves_weight(found, found.len() as int);
        lemma_band_pixel(t, d.px[boundary[n - 1]]@, resolution, b, t.len() as int);
        assert(t.take(t.len() as int) =~= t);
        lemma_band_share_join(
            boundary_shares(d, boundary, ids, None, resolution, n - 1),
            own,
            b,
        );
    }
}

proof fn lemma_band_all_located<V>(
    d: OverlayData<V>,
    boundary: Seq<int>,
    ids: Seq<Vec<u64>>,
    unit: u64,
    b: int,
    n: int,
)
    requires
        0 <= n <= ids.len(),
        forall|t: int|
            0 <= t < ids.len() ==> located_count(
                (#[trigger] ids[t])@,
                ids[t]@.len() as int,
            ) == unit,
    ensures
        band_located(d, boundary, ids, b, n) == unit * band_boundary(d, boundary, b, n),
    decreases n,
{
    if n > 0 {
        lemma_band_all_located(d, boundary, ids, unit, b, n - 1);
        let w = band_boundary(d, boundary, b, n - 1);
        assert(unit * (w + 1) == unit * w + unit) by (nonlinear_arith);
        assert(located_count(ids[n - 1]@, ids[n - 1]@.len() as int) == unit);
    } else {
        assert(unit * 0 == 0) by (nonlinear_arith);
    }
}

/// Without a mask an overlay of a stripe conserves the weight of every band: an
/// interior pixel that is valid in the band gives its whole weight, a boundary
/// pixel its sub-points that have a cell. Where all of them have one, the
/// contributions to the band add up to the weight of the pixels valid in it.
pub proof fn stripe_conserves_band_weight<V>(
    d: OverlayData<V>,
    ids: Seq<Vec<u64>>,
    resolution: i32,
    unit: u64,
    b: int,
)
    requires
        ids.len() == boundary_pixels(d, d.px.len() as int).len(),
        forall|t: int| 0 <= t < ids.len() ==> (#[trigger] ids[t])@.len() <= usize::MAX,
        forall|p: int| 0 <= p < d.px.len() ==> 0 <= b < (#[trigger] d.px[p])@.len(),
    ensures
        band_share(all_shares(d, ids, None, resolution, unit), b) + unit * band_boundary(
            d,
            boundary_pixels(d, d.px.len() as int),
            b,
            ids.len() as int,
        ) == unit * band_pixels(d, b, d.px.len() as int) + band_located(
            d,
            boundary_pixels(d, d.px.len() as int),
            ids,
            b,
            ids.len() as int,
        ),
        (forall|t: int|
            0 <= t < ids.len() ==> located_count(
                (#[trigger] ids[t])@,
                ids[t]@.len() as int,
            ) == unit) ==> band_share(all_shares(d, ids, None, resolution, unit), b) == unit
            * band_pixels(d, b, d.px.len() as int),
{
    let n = d.px.len() as int;
    let boundary = boundary_pixels(d, n);
    lemma_band_interior(d, resolution, unit, b, n);
    lemma_band_edges(d, boundary, ids, resolution, b, ids.len() as int);
    lemma_band_share_join(
        interior_shares(d, None, resolution, unit, n),
        boundary_shares(d, boundary, ids, None, resolution, ids.len() as int),
        b,
    );
    if forall|t: int|
        0 <= t < ids.len() ==> located_count((#[trigger] ids[t])@, ids[t]@.len() as int) == unit {
        lemma_band_all_located(d, boundary, ids, unit, b, ids.len() as int);
    }
}

// ---------------------------------------------------------------------------
// whole and split pixels

/// A pixel that gives its whole weight to a cell without its sub-points being looked up
/// has all four of its corners in that cell, and all four in the box; it gives the
/// weight of all sub-points, and has a valid band.
pub proof fn whole_pixels_have_their_corners_in_the_cell<V>(
    d: OverlayData<V>,
    mask: Option<&CellMask>,
    resolution: i32,
    unit: u64,
    n: int,
    k: int,
)
    requires
        0 <= k < interior_shares(d, mask, resolution, unit, n).len(),
    ensures
        ({
            let share = interior_shares(d, mask, resolution, unit, n)[k];
            share.cell != NO_CELL && share.weight == unit && exists|p: int|
                #![trigger d.px[p]]
                {
                    let (j, c) = (p / d.width, p % d.width);
                    &&& 0 <= p < n
                    &&& share.samples == d.px[p]@
                    &&& exists|b: int| 0 <= b < d.px[p]@.len() && #[trigger] d.px[p]@[b] is Some
                    &&& d.rows[j]@[c] == share.cell
                    &&& d.rows[j]@[c + 1] == share.cell
                    &&& d.rows[j + 1]@[c] == share.cell
                    &&& d.rows[j + 1]@[c + 1] == share.cell
                    &&& d.ins[j]@[c] && d.ins[j]@[c + 1]
                    &&& d.ins[j + 1]@[c] && d.ins[j + 1]@[c + 1]
                }
        }),
    decreases n,
{
    if n > 0 {
        let rest = interior_shares(d, mask, resolution, unit, n - 1);
        if k < rest.len() {
            whole_pixels_have_their_corners_in_the_cell(d, mask, resolution, unit, n - 1, k);
            assert(interior_shares(d, mask, resolution, unit, n)[k] == rest[k]);
        } else {
            assert(d.px[n - 1]@ == interior_shares(d, mask, resolution, unit, n)[k].samples);
        }
    }
}

/// A pixel with a valid band whose corners do not all lie in one cell, or not all in
/// the box, is split: it is among the pixels whose sub-points are looked up. A pixel
/// without a valid band, or whose corners all lie in one cell and in the box, is not.
pub proof fn pixels_are_split_where_corners_differ<V>(d: OverlayData<V>, n: int, p: int)
    requires
        0 <= p < n,
    ensures
        ({
            let (j, c) = (p / d.width, p % d.width);
            let (a, b) = (d.rows[j]@[c], d.rows[j]@[c + 1]);
            let (e, f) = (d.rows[j + 1]@[c], d.rows[j + 1]@[c + 1]);
            let inside = d.ins[j]@[c] && d.ins[j]@[c + 1] && d.ins[j + 1]@[c] && d.ins[j
                + 1]@[c + 1];
            let valid = exists|i: int| 0 <= i < d.px[p]@.len() && #[trigger] d.px[p]@[i] is Some;
            boundary_pixels(d, n).contains(p) <==> valid && (a != b || a != e || a != f || b != e
                || b != f || e != f || a == NO_CELL || !inside)
        }),
    decreases n,
{
    let rest = boundary_pixels(d, n - 1);
    let now = boundary_pixels(d, n);
    if p < n - 1 {
        pixels_are_split_where_corners_differ(d, n - 1, p);
        if rest.contains(p) {
            let i = choose|i: int| 0 <= i < rest.len() && rest[i] == p;
            assert(now[i] == p);
        }
        if now.contains(p) {
            let i = choose|i: int| 0 <= i < now.len() && now[i] == p;
            if i < rest.len() {
                assert(rest[i] == p);
            }
        }
    } else {
        lemma_boundary_members(d, n - 1);
        assert(!rest.contains(p)) by {
            if rest.contains(p) {
                let i = choose|i: int| 0 <= i < rest.len() && rest[i] == p;
                assert(rest[i] < n - 1);
            }
        }
        if now.len() > rest.len() {
            assert(now[rest.len() as int] == p);
        }
    }
}

/// How many of the first `n` sub-points lie in a cell.
pub open spec fn points_in(ids: Seq<u64>, cell: u64, n: int) -> nat
    decreases n,
{
    if n <= 0 {
        0
    } else {
        points_in(ids, cell, n - 1) + if ids[n - 1] == cell {
            1nat
        } else {
            0
        }
    }
}

/// A split pixel gives each cell as many sub-points as lie in it: a cell is listed
/// exactly where some sub-point lies in it, with their number.
pub proof fn split_pixels_count_their_points(ids: Seq<u64>, cell: u64, n: int)
    requires
        cell != NO_CELL,
        0 <= n <= ids.len() <= usize::MAX,
    ensures
        points_in(ids, cell, n) <= n,
        points_in(ids, cell, n) > 0 <==> exists|i: int| counts_at(touched_of(ids, n), cell, i),
        forall|i: int| #[trigger]
            counts_at(touched_of(ids, n), cell, i) ==> touched_of(ids, n)[i].1 == points_in(
                ids,
                cell,
                n,
            ),
    decreases n,
{
    if n > 0 {
        split_pixels_count_their_points(ids, cell, n - 1);
        overlay_conserves_weight(ids, n - 1);
        overlay_conserves_weight(ids, n);
        let rest = touched_of(ids, n - 1);
        let now = touched_of(ids, n);
        let id = ids[n - 1];
        if id == NO_CELL {
        } else if exists|i: int| counts_at(rest, id, i) {
            let k = choose|i: int| counts_at(rest, id, i);
            assert(counts_at(rest, id, k));
            assert forall|i: int| #[trigger] counts_at(now, cell, i) implies now[i].1 == points_in(
                ids,
                cell,
                n,
            ) by {
                assert(counts_at(rest, cell, i));
                if id == cell && i != k {
                    assert(rest[i].0 != rest[k].0);
                }
            }
            if exists|i: int| counts_at(rest, cell, i) {
                let i = choose|i: int| counts_at(rest, cell, i);
                assert(counts_at(now, cell, i));
            }
            if exists|i: int| counts_at(now, cell, i) {
                let i = choose|i: int| counts_at(now, cell, i);
                assert(counts_at(rest, cell, i));
            }
        } else {
            assert forall|i: int| #[trigger] counts_at(now, cell, i) implies now[i].1 == points_in(
                ids,
                cell,
                n,
            ) by {
                if i < rest.len() {
                    assert(counts_at(rest, cell, i));
                } else {
                    assert(!(exists|i: int| counts_at(rest, id, i)));
                }
            }
            if exists|i: int| counts_at(rest, cell, i) {
                let i = choose|i: int| counts_at(rest, cell, i);
                assert(counts_at(now, cell, i));
            }
            if id == cell {
                assert(counts_at(now, cell, rest.len() as int));
            }
            if exists|i: int| counts_at(now, cell, i) {
                let i = choose|i: int| counts_at(now, cell, i);
                if i < rest.len() {
                    assert(counts_at(rest, cell, i));
                }
            }
        }
    }
}

/// How many of the first `n` pixels have a valid band, all four corners in this cell and
/// all four in the box.
pub open spec fn pixels_inside<V>(d: OverlayData<V>, cell: u64, n: int) -> nat
    decreases n,
{
    if n <= 0 {
        0
    } else {
        let (j, c) = ((n - 1) / d.width, (n - 1) % d.width);
        let valid = exists|b: int| 0 <= b < d.px[n - 1]@.len() && #[trigger] d.px[n - 1]@[b] is Some;
        let corners = d.rows[j]@[c] == cell && d.rows[j]@[c + 1] == cell && d.rows[j + 1]@[c]
            == cell && d.rows[j + 1]@[c + 1] == cell;
        let inside = d.ins[j]@[c] && d.ins[j]@[c + 1] && d.ins[j + 1]@[c] && d.ins[j + 1]@[c + 1];
        pixels_inside(d, cell, n - 1) + if valid && corners && inside {
            1nat
        } else {
            0
        }
    }
}

/// How many sub-points of the first `n` split pixels lie in a cell.
pub open spec fn split_points(ids: Seq<Vec<u64>>, cell: u64, n: int) -> nat
    decreases n,
{
    if n <= 0 {
        0
    } else {
        split_points(ids, cell, n - 1) + points_in(ids[n - 1]@, cell, ids[n - 1]@.len() as int)
    }
}

proof fn lemma_shares_weight_join<V>(
    a: Seq<Contribution<V>>,
    b: Seq<Contribution<V>>,
    n: int,
    cell: u64,
)
    requires
        0 <= n <= b.len(),
    ensures
        shares_weight(a + b, a.len() + n, cell) == shares_weight(a, a.len() as int, cell)
            + shares_weight(b, n, cell),
    decreases n,
{
    if n > 0 {
        lemma_shares_weight_join(a, b, n - 1, cell);
        assert((a + b)[a.len() + n - 1] == b[n - 1]);
    } else {
        lemma_shares_weight_front(a, b, a.len() as int, cell);
    }
}

proof fn lemma_shares_weight_front<V>(
    a: Seq<Contribution<V>>,
    b: Seq<Contribution<V>>,
    n: int,
    cell: u64,
)
    requires
        0 <= n <= a.len(),
    ensures
        shares_weight(a + b, n, cell) == shares_weight(a, n, cell),
    decreases n,
{
    if n > 0 {
        lemma_shares_weight_front(a, b, n - 1, cell);
        assert((a + b)[n - 1] == a[n - 1]);
    }
}

proof fn lemma_interior_cell_weight<V>(
    d: OverlayData<V>,
    resolution: i32,
    unit: u64,
    cell: u64,
    n: int,
)
    requires
        0 <= n,
        cell != NO_CELL,
    ensures
        ({
            let cs = interior_shares(d, None, resolution, unit, n);
            shares_weight(cs, cs.len() as int, cell) == unit * pixels_inside(d, cell, n)
        }),
    decreases n,
{
    if n > 0 {
        lemma_interior_cell_weight(d, resolution, unit, cell, n - 1);
        let rest = interior_shares(d, None, resolution, unit, n - 1);
        let now = interior_shares(d, None, resolution, unit, n);
        let v = pixels_inside(d, cell, n - 1);
        assert(unit * (v + 1) == unit * v + unit) by (nonlinear_arith);
        if now != rest {
            let c = now.last();
            assert(now =~= rest + seq![c]);
            lemma_shares_weight_join(rest, seq![c], 1, cell);
            assert(shares_weight(seq![c], 0, cell) == 0);
        }
    } else {
        assert(unit * 0 == 0) by (nonlinear_arith);
    }
}

proof fn lemma_pixel_cell_weight<V>(
    touched: Seq<(u64, u64)>,
    samples: Seq<Option<Sample<V>>>,
    resolution: i32,
    cell: u64,
    n: int,
)
    requires
        0 <= n <= touched.len(),
        forall|i: int, j: int|
            0 <= i < j < touched.len() ==> (#[trigger] touched[i]).0 != (#[trigger] touched[j]).0,
    ensures
        ({
            let cs = pixel_shares(touched, samples, None, resolution, n);
            &&& (exists|i: int| 0 <= i < n && counts_at(touched, cell, i)) ==> exists|i: int|
                0 <= i < n && #[trigger] counts_at(touched, cell, i) && shares_weight(
                    cs,
                    cs.len() as int,
                    cell,
                ) == touched[i].1
            &&& !(exists|i: int| 0 <= i < n && counts_at(touched, cell, i)) ==> shares_weight(
                cs,
                cs.len() as int,
                cell,
            ) == 0
        }),
    decreases n,
{
    if n > 0 {
        lemma_pixel_cell_weight(touched, samples, resolution, cell, n - 1);
        let rest = pixel_shares(touched, samples, None, resolution, n - 1);
        let now = pixel_shares(touched, samples, None, resolution, n);
        let c = now.last();
        assert(now =~= rest + seq![c]);
        lemma_shares_weight_join(rest, seq![c], 1, cell);
        assert(shares_weight(seq![c], 0, cell) == 0);
        if touched[n - 1].0 == cell {
            assert(counts_at(touched, cell, n - 1));
            if exists|i: int| 0 <= i < n - 1 && counts_at(touched, cell, i) {
                let i = choose|i: int| 0 <= i < n - 1 && counts_at(touched, cell, i);
                assert(touched[i].0 != touched[n - 1].0);
            }
        } else {
            if exists|i: int| 0 <= i < n && counts_at(touched, cell, i) {
                let i = choose|i: int| 0 <= i < n && counts_at(touched, cell, i);
                assert(i < n - 1 && counts_at(touched, cell, i));
            }
        }
    }
}

proof fn lemma_boundary_cell_weight<V>(
    d: OverlayData<V>,
    boundary: Seq<int>,
    ids: Seq<Vec<u64>>,
    resolution: i32,
    cell: u64,
    n: int,
)
    requires
        cell != NO_CELL,
        0 <= n <= ids.len(),
        forall|t: int| 0 <= t < ids.len() ==> (#[trigger] ids[t])@.len() <= usize::MAX,
    ensures
        ({
            let cs = boundary_shares(d, boundary, ids, None, resolution, n);
            shares_weight(cs, cs.len() as int, cell) == split_points(ids, cell, n)
        }),
    decreases n,
{
    if n > 0 {
        lemma_boundary_cell_weight(d, boundary, ids, resolution, cell, n - 1);
        let found = ids[n - 1]@;
        let m = found.len() as int;
        let t = touched_of(found, m);
        let rest = boundary_shares(d, boundary, ids, None, resolution, n - 1);
        let own = pixel_shares(t, d.px[boundary[n - 1]]@, None, resolution, t.len() as int);
        overlay_conserves_weight(found, m);
        split_pixels_count_their_points(found, cell, m);
        lemma_pixel_cell_weight(t, d.px[boundary[n - 1]]@, resolution, cell, t.len() as int);
        lemma_shares_weight_join(rest, own, own.len() as int, cell);
        if points_in(found, cell, m) > 0 {
            let i = choose|i: int| counts_at(t, cell, i);
            assert(0 <= i < t.len() && counts_at(t, cell, i));
        }
    }
}

/// The weight that an unmasked overlay gives a cell: the whole weight of every pixel
/// that has all four corners in the cell and in the box, and one for every sub-point of
/// a split pixel that lies in the cell.
pub proof fn overlay_weighs_cells_by_corners_and_points<V>(
    d: OverlayData<V>,
    ids: Seq<Vec<u64>>,
    resolution: i32,
    unit: u64,
    cell: u64,
)
    requires
        cell != NO_CELL,
        forall|t: int| 0 <= t < ids.len() ==> (#[trigger] ids[t])@.len() <= usize::MAX,
    ensures
        (shares_batch(all_shares(d, ids, None, resolution, unit), unit).pixels)(cell) == unit
            * pixels_inside(d, cell, d.px.len() as int) + split_points(
            ids,
            cell,
            ids.len() as int,
        ),
{
    let n = d.px.len() as int;
    let boundary = boundary_pixels(d, n);
    let a = interior_shares(d, None, resolution, unit, n);
    let b = boundary_shares(d, boundary, ids, None, resolution, ids.len() as int);
    lemma_interior_cell_weight(d, resolution, unit, cell, n);
    lemma_boundary_cell_weight(d, boundary, ids, resolution, cell, ids.len() as int);
    lemma_shares_weight_join(a, b, b.len() as int, cell);
}

/// What a contribution gives to a cell: every band that is valid in it gets its value
/// with its weight out of `unit`, and its class with that weight; other bands get
/// nothing, and other cells neither.
pub proof fn contributions_go_to_every_valid_band<V>(
    cs: Seq<Contribution<V>>,
    c: Contribution<V>,
    unit: u64,
    cell: u64,
    b: int,
)
    ensures
        ({
            let before = shares_batch(cs, unit);
            let after = shares_batch(cs.push(c), unit);
            &&& c.cell == cell && c.samples[b] is Some ==> (after.events)(cell, b) == (
            before.events)(cell, b).push(
                AccEvent::Weighted(c.samples[b]->Some_0.value, c.weight, unit),
            ) && (after.codes)(cell, b) == (before.codes)(cell, b).push(
                (c.samples[b]->Some_0.class, c.weight),
            )
            &&& c.cell != cell || c.samples[b] is None ==> (after.events)(cell, b) == (
            before.events)(cell, b) && (after.codes)(cell, b) == (before.codes)(cell, b)
            &&& (after.pixels)(cell) == (before.pixels)(cell) + (if c.cell == cell {
                c.weight as nat
            } else {
                0
            })
            &&& (after.touched)(cell) == ((before.touched)(cell) || c.cell == cell)
        }),
{
    let n = cs.len() as int;
    let more = cs.push(c);
    lemma_shares_prefix(cs, c, n, unit, cell, b);
    assert(more[n] == c);
    assert(more.len() == n + 1);
}

/// An overlay reads every pixel in every band at its own row and column, and looks up
/// every corner at its own place.
pub proof fn overlays_read_their_own_places<V, P, C, S>(
    st: Stripe,
    sample: P,
    corner: C,
    subpoints: S,
    d: OverlayData<V>,
    ids: Seq<Vec<u64>>,
    j: int,
    c: int,
    b: int,
) where
    P: Fn(usize, usize, usize) -> Option<Sample<V>>,
    C: Fn(usize, usize) -> Result<(Option<Spherical>, bool), A5CogError>,
    S: Fn(usize, usize) -> Result<Vec<Option<Spherical>>, A5CogError>,

    requires
        overlay_done(st, sample, corner, subpoints, d, ids),
        0 <= j <= st.to - st.from,
        0 <= c <= st.width,
        0 <= b < st.n_out,
    ensures
        j < st.to - st.from && c < st.width ==> 0 <= j * st.width + c < d.px.len() && call_ensures(
            sample,
            ((st.from + j) as usize, b as usize, c as usize),
            d.px[j * st.width + c]@[b],
        ),
        exists|at: Option<Spherical>| #[trigger]
            call_ensures(corner, ((st.from + j) as usize, c as usize), Ok((at, d.ins[j]@[c])))
                && match at {
                None => d.rows[j]@[c] == NO_CELL,
                Some(p) => cell_for(p, st.resolution, d.rows[j]@[c]),
            },
{
    let w = st.width as int;
    let p = j * w + c;
    if c < w {
        assert(p / w == j && p % w == c) by (nonlinear_arith)
            requires
                p == j * w + c,
                0 <= c < w,
        ;
        if j < st.to - st.from {
            assert(0 <= p < w * (st.to - st.from)) by (nonlinear_arith)
                requires
                    p == j * w + c,
                    0 <= c < w,
                    0 <= j < st.to - st.from,
            ;
            assert(d.px[p]@.len() == st.n_out);
            assert(call_ensures(
                sample,
                ((st.from + p / w) as usize, b as usize, (p % w) as usize),
                d.px[p]@[b],
            ));
        }
    }
    assert(corner_found(st, corner, d.rows, d.ins, j, c));
    let at = choose|at: Option<Spherical>| #[trigger]
        call_ensures(corner, ((st.from + j) as usize, c as usize), Ok((at, d.ins[j]@[c])))
            && looked_up(at, st.resolution, d.rows[j]@[c]);
    assert(call_ensures(corner, ((st.from + j) as usize, c as usize), Ok((at, d.ins[j]@[c]))));
}

/// A split pixel is taken apart by the cells of its own points.
pub proof fn split_pixels_look_up_their_own_points<V, P, C, S>(
    st: Stripe,
    sample: P,
    corner: C,
    subpoints: S,
    d: OverlayData<V>,
    ids: Seq<Vec<u64>>,
    t: int,
    j: int,
    c: int,
) where
    P: Fn(usize, usize, usize) -> Option<Sample<V>>,
    C: Fn(usize, usize) -> Result<(Option<Spherical>, bool), A5CogError>,
    S: Fn(usize, usize) -> Result<Vec<Option<Spherical>>, A5CogError>,

    requires
        overlay_done(st, sample, corner, subpoints, d, ids),
        0 <= t < boundary_pixels(d, d.px.len() as int).len(),
        boundary_pixels(d, d.px.len() as int)[t] == j * st.width + c,
        0 <= c < st.width,
    ensures
        t < ids.len(),
        exists|at: Vec<Option<Spherical>>| #[trigger]
            call_ensures(subpoints, ((st.from + j) as usize, c as usize), Ok(at)) && at@.len()
                == ids[t]@.len() && forall|i: int|
                0 <= i < at@.len() ==> match #[trigger] at@[i] {
                    None => ids[t]@[i] == NO_CELL,
                    Some(p) => cell_for(p, st.resolution, ids[t]@[i]),
                },
{
    let w = st.width as int;
    let p = j * w + c;
    assert(p / w == j && p % w == c) by (nonlinear_arith)
        requires
            p == j * w + c,
            0 <= c < w,
    ;
    assert(subpoints_found(st, d, subpoints, boundary_pixels(d, d.px.len() as int), ids, t));
    let at = choose|at: Vec<Option<Spherical>>| #[trigger]
        call_ensures(subpoints, ((st.from + j) as usize, c as usize), Ok(at)) && all_looked_up(
            at@,
            st.resolution,
            ids[t]@,
        );
    assert forall|i: int| 0 <= i < at@.len() implies match #[trigger] at@[i] {
        None => ids[t]@[i] == NO_CELL,
        Some(p) => cell_for(p, st.resolution, ids[t]@[i]),
    } by {
        assert(looked_up(at@[i], st.resolution, ids[t]@[i]));
    }
    assert(call_ensures(subpoints, ((st.from + j) as usize, c as usize), Ok(at)));
}

/// The pixels that are split come in their order, each once: those with a valid band
/// that do not lie in one cell.
pub proof fn split_pixels_come_in_order<V>(d: OverlayData<V>, n: int)
    requires
        0 <= n,
    ensures
        ({
            let s = boundary_pixels(d, n);
            &&& forall|t: int, u: int| 0 <= t < u < s.len() ==> #[trigger] s[t] < #[trigger] s[u]
            &&& forall|t: int|
                0 <= t < s.len() ==> 0 <= #[trigger] s[t] < n && exists|b: int|
                    0 <= b < d.px[s[t]]@.len() && #[trigger] d.px[s[t]]@[b] is Some
            &&& forall|p: int, b: int|
                0 <= p < n && 0 <= b < d.px[p]@.len() && #[trigger] d.px[p]@[b] is Some
                    && d.rows[p / d.width]@[p % d.width] == NO_CELL ==> s.contains(p)
        }),
    decreases n,
{
    if n > 0 {
        split_pixels_come_in_order(d, n - 1);
        let rest = boundary_pixels(d, n - 1);
        let s = boundary_pixels(d, n);
        assert forall|p: int, b: int|
            0 <= p < n && 0 <= b < d.px[p]@.len() && #[trigger] d.px[p]@[b] is Some
                && d.rows[p / d.width]@[p % d.width] == NO_CELL implies s.contains(p) by {
            if p < n - 1 {
                assert(rest.contains(p));
                let k = choose|k: int| 0 <= k < rest.len() && rest[k] == p;
                assert(s[k] == p);
            } else {
                assert(pixel_valid(d.px[p]@));
                assert(s[rest.len() as int] == p);
            }
        }
        assert forall|t: int| 0 <= t < s.len() implies 0 <= #[trigger] s[t] < n && exists|b: int|
            0 <= b < d.px[s[t]]@.len() && #[trigger] d.px[s[t]]@[b] is Some by {
            if t < rest.len() {
                assert(s[t] == rest[t]);
            }
        }
    }
}

/// An overlay fails only with the failure of one of its corners or of the points of one
/// of its pixels, for a cell with too many classes, or for too many cells.
pub proof fn overlays_fail_for_points_classes_or_cells<L: AccLayout, P, C, S>(
    st: Stripe,
    unit: u64,
    mask: Option<&CellMask>,
    sample: P,
    corner: C,
    subpoints: S,
    e: A5CogError,
) where
    P: Fn(usize, usize, usize) -> Option<Sample<L::Value>>,
    C: Fn(usize, usize) -> Result<(Option<Spherical>, bool), A5CogError>,
    S: Fn(usize, usize) -> Result<Vec<Option<Spherical>>, A5CogError>,

    requires
        overlay_failed::<L, P, C, S>(st, unit, mask, sample, corner, subpoints, e),
        st.wf(),
    ensures
        (exists|j: usize, i: usize|
            st.from <= j <= st.to && i <= st.width && #[trigger] call_ensures(
                corner,
                (j, i),
                Err(e),
            )) || (exists|j: usize, c: usize|
            st.from <= j < st.to && c < st.width && #[trigger] call_ensures(
                subpoints,
                (j, c),
                Err(e),
            )) || (e is Invalid && st.cfg.has_cat && crate::error::error_payload(e)
            == "more than 4096 distinct classes in a single cell; majority/fractions require a categorical raster"@)
            || (e is Internal && crate::error::error_payload(e) == "too many cells in one stripe"@),
{
    if exists|d: OverlayData<L::Value>, ids: Seq<Vec<u64>>| #[trigger]
        overlay_read(st, sample, corner, subpoints, d, ids) && d.px.len() == st.width * (st.to
            - st.from) && subpoints_failed(st, d, subpoints, ids, e) {
        let (d, ids) = choose|d: OverlayData<L::Value>, ids: Seq<Vec<u64>>| #[trigger]
            overlay_read(st, sample, corner, subpoints, d, ids) && d.px.len() == st.width * (st.to
                - st.from) && subpoints_failed(st, d, subpoints, ids, e);
        let n = d.px.len() as int;
        split_pixels_come_in_order(d, n);
        let p = boundary_pixels(d, n)[ids.len() as int];
        let w = st.width as int;
        let h = st.to - st.from;
        assert(0 <= p / w < h && 0 <= p % w < w) by (nonlinear_arith)
            requires
                0 <= p < w * h,
                0 <= w,
                0 <= h,
        ;
        let j = (st.from + p / w) as usize;
        let c = (p % w) as usize;
        assert(call_ensures(subpoints, (j, c), Err::<Vec<Option<Spherical>>, A5CogError>(e)));
    }
}

} // verus!
