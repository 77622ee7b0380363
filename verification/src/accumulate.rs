//! Adding pixels to a store: runs of a row under forward sampling, weighted
//! pixels under overlay sampling.

use vstd::prelude::*;

use crate::classes::{cat_merge, cat_push, class_added, classes_merged, too_many_classes};
use crate::collections::slot_map;
use crate::error::{is_invalid, A5CogError};
use crate::locator::NO_CELL;
use crate::mask::{in_area, CellMask};
use crate::store::{
    extends, fresh_entry, lemma_same_entry_trans, lemma_slab, lemma_slab_distinct, lemma_slab_grows,
    same_entry, AccLayout, CellStore,
};

verus! {

/// The value of one band of one pixel, with its class code.
#[derive(Clone, Copy)]
pub struct Sample<V> {
    pub value: V,
    pub class: i32,
}

// ---------------------------------------------------------------------------
// what an accumulator has seen

/// One thing that an accumulator was given.
pub enum AccEvent<V> {
    /// Values of weight one.
    Run(Seq<V>),
    /// One value of weight `w / unit`.
    Weighted(V, u64, u64),
}

/// `end` is what one event makes of `start`.
pub open spec fn stepped<L: AccLayout>(start: L, e: AccEvent<L::Value>, end: L) -> bool {
    match e {
        AccEvent::Run(vs) => exists|v: Vec<L::Value>|
            v@ == vs && #[trigger] call_ensures(L::push_run, (start, &v), end),
        AccEvent::Weighted(x, w, unit) => call_ensures(L::push, (start, x, w, unit), end),
    }
}

/// `end` is what the events, in order, make of `start`.
pub open spec fn pushed<L: AccLayout>(start: L, events: Seq<AccEvent<L::Value>>, end: L) -> bool
    decreases events.len(),
{
    if events.len() == 0 {
        end == start
    } else {
        exists|m: L|
            pushed(start, events.drop_last(), m) && #[trigger] stepped(m, events.last(), end)
    }
}

/// `end` is what the events make of the prior accumulator, or of a new one.
pub open spec fn grown_acc<L: AccLayout>(
    prior: Option<L>,
    events: Seq<AccEvent<L::Value>>,
    end: L,
) -> bool {
    match prior {
        Some(p) => pushed(p, events, end),
        None => exists|z: L| call_ensures(L::new, (), z) && #[trigger] pushed(z, events, end),
    }
}

/// A weight with `n` units more, held at the largest representable weight.
pub open spec fn capped_add(a: u64, n: nat) -> u64 {
    if a + n <= u64::MAX {
        (a + n) as u64
    } else {
        u64::MAX
    }
}

/// Everything that a batch of pixels gives to the store, cell by cell.
#[verifier::reject_recursive_types(V)]
pub struct Batch<V> {
    /// What the continuous accumulator of a cell's band is given.
    pub events: spec_fn(u64, int) -> Seq<AccEvent<V>>,
    /// What the class list of a cell's band is given.
    pub codes: spec_fn(u64, int) -> Seq<(i32, u64)>,
    /// The pixel weight that a cell is given.
    pub pixels: spec_fn(u64) -> nat,
    /// The cells that are given anything.
    pub touched: spec_fn(u64) -> bool,
}

/// The class lists of the touched cells have room for the batch.
pub open spec fn batch_fits<L: AccLayout>(before: CellStore<L>, batch: Batch<L::Value>) -> bool {
    before.cfg.has_cat ==> forall|cell: u64, b: int|
        0 <= b < before.n_out && (batch.touched)(cell) ==> #[trigger] classes_merged(
            before.prior_classes(cell, b),
            (batch.codes)(cell, b),
        ) is Some
}

/// `after` is `before` with the batch added.
pub open spec fn batch_added<L: AccLayout>(
    before: CellStore<L>,
    batch: Batch<L::Value>,
    after: CellStore<L>,
) -> bool {
    &&& extends(before, after)
    &&& forall|cell: u64| #[trigger] after.has(cell) == (before.has(cell) || (batch.touched)(cell))
    &&& before.cfg.has_cont ==> forall|cell: u64, b: int|
        after.has(cell) && 0 <= b < before.n_out ==> grown_acc(
            before.prior_acc(cell, b),
            (batch.events)(cell, b),
            (#[trigger] after.prior_acc(cell, b))->Some_0,
        )
    &&& before.cfg.has_cat ==> forall|cell: u64, b: int|
        after.has(cell) && 0 <= b < before.n_out ==> classes_merged(
            before.prior_classes(cell, b),
            (batch.codes)(cell, b),
        ) == Some(#[trigger] after.prior_classes(cell, b))
    &&& before.cfg.has_npix ==> forall|cell: u64|
        after.has(cell) ==> #[trigger] after.prior_npix(cell) == capped_add(
            before.prior_npix(cell),
            (batch.pixels)(cell),
        )
}

// ---------------------------------------------------------------------------
// joining batches

pub(crate) proof fn lemma_pushed_join<L: AccLayout>(
    start: L,
    e: Seq<AccEvent<L::Value>>,
    mid: L,
    f: Seq<AccEvent<L::Value>>,
    end: L,
)
    requires
        pushed(start, e, mid),
        pushed(mid, f, end),
    ensures
        pushed(start, e + f, end),
    decreases f.len(),
{
    if f.len() == 0 {
        assert(e + f == e);
    } else {
        let m = choose|m: L|
            pushed(mid, f.drop_last(), m) && #[trigger] stepped(m, f.last(), end);
        lemma_pushed_join(start, e, mid, f.drop_last(), m);
        assert((e + f).drop_last() == e + f.drop_last());
        assert((e + f).last() == f.last());
        assert(stepped(m, (e + f).last(), end));
    }
}

pub(crate) proof fn lemma_merged_join(m: Seq<(i32, u64)>, a: Seq<(i32, u64)>, b: Seq<(i32, u64)>)
    ensures
        classes_merged(m, a + b) == (match classes_merged(m, a) {
            None => None,
            Some(t) => classes_merged(t, b),
        }),
    decreases b.len(),
{
    if b.len() == 0 {
        assert(a + b == a);
    } else {
        lemma_merged_join(m, a, b.drop_last());
        assert((a + b).drop_last() == a + b.drop_last());
        assert((a + b).last() == b.last());
    }
}

/// `c` gives what `a` gives and then what `b` gives.
pub open spec fn batches_join<V>(a: Batch<V>, b: Batch<V>, c: Batch<V>) -> bool {
    &&& forall|cell: u64, k: int| #[trigger]
        (c.events)(cell, k) == (a.events)(cell, k) + (b.events)(cell, k)
    &&& forall|cell: u64, k: int| #[trigger]
        (c.codes)(cell, k) == (a.codes)(cell, k) + (b.codes)(cell, k)
    &&& forall|cell: u64| #[trigger] (c.pixels)(cell) == (a.pixels)(cell) + (b.pixels)(cell)
    &&& forall|cell: u64| #[trigger]
        (c.touched)(cell) == ((a.touched)(cell) || (b.touched)(cell))
}

/// A batch gives nothing to a cell that it does not touch.
pub open spec fn batch_wf<V>(a: Batch<V>) -> bool {
    forall|cell: u64, k: int|
        #![trigger (a.events)(cell, k)]
        #![trigger (a.codes)(cell, k)]
        !(a.touched)(cell) ==> (a.events)(cell, k).len() == 0 && (a.codes)(cell, k).len() == 0
            && (a.pixels)(cell) == 0
}

/// Both batches give `cell` the same.
pub open spec fn gives_alike<V>(a: Batch<V>, b: Batch<V>, cell: u64) -> bool {
    &&& (a.touched)(cell) == (b.touched)(cell)
    &&& (a.pixels)(cell) == (b.pixels)(cell)
    &&& forall|k: int| #[trigger] (a.events)(cell, k) == (b.events)(cell, k)
    &&& forall|k: int| #[trigger] (a.codes)(cell, k) == (b.codes)(cell, k)
}

/// The batch gives `cell` nothing.
pub open spec fn gives_nothing<V>(a: Batch<V>, cell: u64) -> bool {
    &&& !(a.touched)(cell)
    &&& (a.pixels)(cell) == 0
    &&& forall|k: int| (#[trigger] (a.events)(cell, k)).len() == 0
    &&& forall|k: int| (#[trigger] (a.codes)(cell, k)).len() == 0
}

/// `masked` gives the cells of the mask what `all` gives them, and no other cell
/// anything: masking selects cells, not pixels.
pub open spec fn selects_cells<V>(
    all: Batch<V>,
    masked: Batch<V>,
    mask: &CellMask,
    resolution: i32,
) -> bool {
    forall|cell: u64|
        #![trigger in_area(mask.members(), cell, resolution)]
        cell != NO_CELL ==> if in_area(mask.members(), cell, resolution) {
            gives_alike(all, masked, cell)
        } else {
            gives_nothing(masked, cell)
        }
}

/// Adding one batch and then another is adding both.
pub(crate) proof fn lemma_batches_join<L: AccLayout>(
    s0: CellStore<L>,
    a: Batch<L::Value>,
    s1: CellStore<L>,
    b: Batch<L::Value>,
    s2: CellStore<L>,
    c: Batch<L::Value>,
)
    requires
        batch_added(s0, a, s1),
        batch_added(s1, b, s2),
        batches_join(a, b, c),
        batch_wf(a),
        batch_wf(b),
    ensures
        batch_added(s0, c, s2),
{
    assert(extends(s0, s2)) by {
        assert forall|i: int| 0 <= i < s0.cells@.len() implies #[trigger] s2.cells@[i]
            == s0.cells@[i] by {
            assert(s1.cells@[i] == s0.cells@[i]);
        }
    }
    assert forall|cell: u64| #[trigger] s2.has(cell) == (s0.has(cell) || (c.touched)(cell)) by {
        assert(s1.has(cell) == (s0.has(cell) || (a.touched)(cell)));
    }
    if s0.cfg.has_cont {
        assert forall|cell: u64, k: int|
            s2.has(cell) && 0 <= k < s0.n_out implies grown_acc(
            s0.prior_acc(cell, k),
            (c.events)(cell, k),
            (#[trigger] s2.prior_acc(cell, k))->Some_0,
        ) by {
            let end = s2.prior_acc(cell, k)->Some_0;
            let eb = (b.events)(cell, k);
            let ea = (a.events)(cell, k);
            assert(grown_acc(s1.prior_acc(cell, k), eb, end));
            assert(s1.has(cell) == (s0.has(cell) || (a.touched)(cell)));
            if s1.has(cell) {
                let mid = s1.acc(s1.slot_of(cell), k);
                assert(s1.prior_acc(cell, k) == Some(mid));
                assert(grown_acc(s0.prior_acc(cell, k), ea, mid));
                if s0.has(cell) {
                    lemma_pushed_join(s0.acc(s0.slot_of(cell), k), ea, mid, eb, end);
                } else {
                    let z = choose|z: L| call_ensures(L::new, (), z) && #[trigger] pushed(z, ea, mid);
                    lemma_pushed_join(z, ea, mid, eb, end);
                }
            } else {
                assert(ea + eb == eb);
            }
        }
    }
    if s0.cfg.has_cat {
        assert forall|cell: u64, k: int|
            s2.has(cell) && 0 <= k < s0.n_out implies classes_merged(
            s0.prior_classes(cell, k),
            (c.codes)(cell, k),
        ) == Some(#[trigger] s2.prior_classes(cell, k)) by {
            let ca = (a.codes)(cell, k);
            let cb = (b.codes)(cell, k);
            lemma_merged_join(s0.prior_classes(cell, k), ca, cb);
            assert(s1.has(cell) == (s0.has(cell) || (a.touched)(cell)));
            if s1.has(cell) {
                assert(s1.prior_classes(cell, k) == s1.classes(s1.slot_of(cell), k));
            } else {
                assert(ca + cb == cb);
            }
        }
    }
    if s0.cfg.has_npix {
        assert forall|cell: u64|
            s2.has(cell) implies #[trigger] s2.prior_npix(cell) == capped_add(
            s0.prior_npix(cell),
            (c.pixels)(cell),
        ) by {
            assert(s1.has(cell) == (s0.has(cell) || (a.touched)(cell)));
            if s1.has(cell) {
                assert(s1.prior_npix(cell) == s1.npix@[s1.slot_of(cell)]);
            } else {
                assert((a.events)(cell, 0).len() == 0);
            }
        }
    }
}

/// Where the second batch does not fit after the first, both together do not.
pub(crate) proof fn lemma_batches_overflow<L: AccLayout>(
    s0: CellStore<L>,
    a: Batch<L::Value>,
    s1: CellStore<L>,
    b: Batch<L::Value>,
    c: Batch<L::Value>,
)
    requires
        batch_added(s0, a, s1),
        batches_join(a, b, c),
        batch_wf(a),
    ensures
        !batch_fits(s1, b) ==> !batch_fits(s0, c),
        batch_fits(s0, c) ==> batch_fits(s0, a),
{
    if !batch_fits(s1, b) {
        let (cell, k) = choose|cell: u64, k: int|
            0 <= k < s1.n_out && (b.touched)(cell) && #[trigger] classes_merged(
                s1.prior_classes(cell, k),
                (b.codes)(cell, k),
            ) is None;
        let ca = (a.codes)(cell, k);
        let cb = (b.codes)(cell, k);
        lemma_merged_join(s0.prior_classes(cell, k), ca, cb);
        assert(s1.has(cell) == (s0.has(cell) || (a.touched)(cell)));
        if s1.has(cell) {
            assert(classes_merged(s0.prior_classes(cell, k), ca) == Some(
                s1.prior_classes(cell, k),
            ));
        } else {
            assert(ca + cb == cb);
        }
        assert((c.codes)(cell, k) == ca + cb);
        assert((c.touched)(cell));
        assert(classes_merged(s0.prior_classes(cell, k), (c.codes)(cell, k)) is None);
    }
    if s0.cfg.has_cat && batch_fits(s0, c) {
        assert forall|cell: u64, k: int|
            0 <= k < s0.n_out && (a.touched)(cell) implies #[trigger] classes_merged(
            s0.prior_classes(cell, k),
            (a.codes)(cell, k),
        ) is Some by {
            lemma_merged_join(s0.prior_classes(cell, k), (a.codes)(cell, k), (b.codes)(cell, k));
            assert((c.touched)(cell));
            assert(classes_merged(s0.prior_classes(cell, k), (c.codes)(cell, k)) is Some);
        }
    }
}

// ---------------------------------------------------------------------------
// runs of a row

/// Consecutive pixels `from..to` of a row, all in one cell.
#[derive(Clone, Copy)]
pub struct Run {
    pub cell: u64,
    pub from: usize,
    pub to: usize,
}

/// The longest runs of equal cells among the first `n` pixels, from the left.
/// Pixels of [`NO_CELL`] belong to no run.
pub open spec fn runs_of(cells: Seq<u64>, n: int) -> Seq<Run>
    decreases n,
{
    if n <= 0 {
        Seq::empty()
    } else {
        let rest = runs_of(cells, n - 1);
        let c = cells[n - 1];
        if c == NO_CELL {
            rest
        } else if n >= 2 && cells[n - 2] == c {
            rest.update(rest.len() - 1, Run { to: n as usize, ..rest.last() })
        } else {
            rest.push(Run { cell: c, from: (n - 1) as usize, to: n as usize })
        }
    }
}

/// The last run reaches the last pixel, unless that pixel has no cell.
pub(crate) proof fn lemma_last_run(cells: Seq<u64>, n: int)
    requires
        0 <= n <= cells.len() <= usize::MAX,
    ensures
        n > 0 && cells[n - 1] != NO_CELL ==> runs_of(cells, n).len() > 0 && runs_of(
            cells,
            n,
        ).last().cell == cells[n - 1] && runs_of(cells, n).last().to == n,
        forall|k: int|
            0 <= k < runs_of(cells, n).len() ==> (#[trigger] runs_of(cells, n)[k]).from < runs_of(
                cells,
                n,
            )[k].to <= n && runs_of(cells, n)[k].cell != NO_CELL,
        runs_of(cells, n).len() <= n,
    decreases n,
{
    if n > 0 {
        lemma_last_run(cells, n - 1);
        let rest = runs_of(cells, n - 1);
        let now = runs_of(cells, n);
        assert forall|k: int| 0 <= k < now.len() implies (#[trigger] now[k]).from < now[k].to <= n
            && now[k].cell != NO_CELL by {
            if k < rest.len() {
                assert(rest[k].from < rest[k].to <= n - 1);
            }
        }
    }
}

/// A row's runs cover exactly the pixels that have a cell, each with its cell.
pub proof fn runs_cover_row(cells: Seq<u64>, n: int, c: int)
    requires
        0 <= c < n <= cells.len() <= usize::MAX,
    ensures
        (cells[c] != NO_CELL) == (exists|k: int|
            0 <= k < runs_of(cells, n).len() && (#[trigger] runs_of(cells, n)[k]).from <= c
                < runs_of(cells, n)[k].to),
        forall|k: int|
            0 <= k < runs_of(cells, n).len() && (#[trigger] runs_of(cells, n)[k]).from <= c
                < runs_of(cells, n)[k].to ==> runs_of(cells, n)[k].cell == cells[c],
    decreases n,
{
    let rest = runs_of(cells, n - 1);
    let now = runs_of(cells, n);
    lemma_last_run(cells, n);
    lemma_last_run(cells, n - 1);
    if c == n - 1 {
        if cells[c] != NO_CELL {
            let l = now.len() - 1;
            assert(now[l].from <= c < now[l].to);
        }
        assert forall|k: int| 0 <= k < now.len() && (#[trigger] now[k]).from <= c
            < now[k].to implies now[k].cell == cells[c] && cells[c] != NO_CELL by {
            if k < rest.len() {
                assert(rest[k].to <= n - 1);
            }
        }
    } else {
        runs_cover_row(cells, n - 1, c);
        if cells[c] != NO_CELL {
            let k = choose|k: int|
                0 <= k < rest.len() && (#[trigger] rest[k]).from <= c < rest[k].to;
            assert(now[k].from <= c < now[k].to);
        }
        assert forall|k: int| 0 <= k < now.len() && (#[trigger] now[k]).from <= c
            < now[k].to implies now[k].cell == cells[c] && cells[c] != NO_CELL by {
            if k < rest.len() {
                assert(rest[k].from <= c < rest[k].to);
                assert(now[k].cell == rest[k].cell);
            }
        }
    }
}

/// The runs of a row.
pub fn cell_runs(cells: &Vec<u64>) -> (r: Vec<Run>)
    ensures
        r@ == runs_of(cells@, cells@.len() as int),
{
    let mut runs: Vec<Run> = Vec::new();
    for c in 0..cells.len()
        invariant
            runs@ == runs_of(cells@, c as int),
    {
        proof {
            lemma_last_run(cells@, c as int);
        }
        let cell: u64 = cells[c];
        if cell != NO_CELL {
            if c >= 1 && cells[c - 1] == cell {
                let l: usize = runs.len() - 1;
                let last = runs[l];
                runs.set(l, Run { cell: last.cell, from: last.from, to: c + 1 });
            } else {
                runs.push(Run { cell, from: c, to: c + 1 });
            }
        }
    }
    runs
}

/// The valid samples among `vals[from..to]`, in order.
pub open spec fn valid_samples<V>(vals: Seq<Option<Sample<V>>>, from: int, to: int) -> Seq<
    Sample<V>,
>
    decreases to - from,
{
    if to <= from {
        Seq::empty()
    } else {
        match vals[to - 1] {
            Some(x) => valid_samples(vals, from, to - 1).push(x),
            None => valid_samples(vals, from, to - 1),
        }
    }
}

/// The values of samples.
pub open spec fn sample_values<V>(s: Seq<Sample<V>>) -> Seq<V> {
    Seq::new(s.len(), |i: int| s[i].value)
}

/// The class codes of samples, each of weight one.
pub open spec fn sample_codes<V>(s: Seq<Sample<V>>) -> Seq<(i32, u64)> {
    Seq::new(s.len(), |i: int| (s[i].class, 1u64))
}

fn gather_run<V: Copy>(vals: &Vec<Option<Sample<V>>>, from: usize, to: usize) -> (r: (
    Vec<V>,
    Vec<(i32, u64)>,
))
    requires
        from <= to <= vals@.len(),
    ensures
        r.0@ == sample_values(valid_samples(vals@, from as int, to as int)),
        r.1@ == sample_codes(valid_samples(vals@, from as int, to as int)),
{
    let mut values: Vec<V> = Vec::new();
    let mut codes: Vec<(i32, u64)> = Vec::new();
    let mut i: usize = from;
    while i < to
        invariant
            from <= i <= to <= vals@.len(),
            values@ == sample_values(valid_samples(vals@, from as int, i as int)),
            codes@ == sample_codes(valid_samples(vals@, from as int, i as int)),
        decreases to - i,
    {
        let ghost before = valid_samples(vals@, from as int, i as int);
        let ghost after = valid_samples(vals@, from as int, i + 1);
        if let Some(x) = vals[i] {
            values.push(x.value);
            codes.push((x.class, 1));
            assert(sample_values(after) == sample_values(before).push(x.value));
            assert(sample_codes(after) == sample_codes(before).push((x.class, 1u64)));
        }
        i = i + 1;
    }
    (values, codes)
}

// ---------------------------------------------------------------------------
// a row as a batch

/// What the runs give to one band of a cell: the valid values of each of its
/// runs, runs without any left out.
pub open spec fn row_events<V>(
    runs: Seq<Run>,
    vals: Seq<Option<Sample<V>>>,
    cell: u64,
) -> Seq<AccEvent<V>>
    decreases runs.len(),
{
    if runs.len() == 0 {
        Seq::empty()
    } else {
        let rest = row_events(runs.drop_last(), vals, cell);
        let r = runs.last();
        let s = valid_samples(vals, r.from as int, r.to as int);
        if r.cell == cell && s.len() > 0 {
            rest.push(AccEvent::Run(sample_values(s)))
        } else {
            rest
        }
    }
}

/// The class codes that the runs give to one band of a cell.
pub open spec fn row_codes<V>(
    runs: Seq<Run>,
    vals: Seq<Option<Sample<V>>>,
    cell: u64,
) -> Seq<(i32, u64)>
    decreases runs.len(),
{
    if runs.len() == 0 {
        Seq::empty()
    } else {
        let rest = row_codes(runs.drop_last(), vals, cell);
        let r = runs.last();
        if r.cell == cell {
            rest + sample_codes(valid_samples(vals, r.from as int, r.to as int))
        } else {
            rest
        }
    }
}

/// The number of pixels that the runs give to a cell.
pub open spec fn row_pixels(runs: Seq<Run>, cell: u64) -> nat
    decreases runs.len(),
{
    if runs.len() == 0 {
        0
    } else {
        let r = runs.last();
        row_pixels(runs.drop_last(), cell) + if r.cell == cell {
            (r.to - r.from) as nat
        } else {
            0
        }
    }
}

/// Some run lies in `cell`.
pub open spec fn runs_touch(runs: Seq<Run>, cell: u64) -> bool {
    exists|k: int| 0 <= k < runs.len() && (#[trigger] runs[k]).cell == cell
}

/// How many of the first `n` pixels lie in a cell.
pub open spec fn pixels_in(cells: Seq<u64>, cell: u64, n: int) -> nat
    decreases n,
{
    if n <= 0 {
        0
    } else {
        pixels_in(cells, cell, n - 1) + if cells[n - 1] == cell {
            1nat
        } else {
            0
        }
    }
}

/// The runs of a row give every cell as many pixels as lie in it.
pub proof fn runs_count_pixels(cells: Seq<u64>, cell: u64, n: int)
    requires
        cell != NO_CELL,
        0 <= n <= cells.len() <= usize::MAX,
    ensures
        row_pixels(runs_of(cells, n), cell) == pixels_in(cells, cell, n),
    decreases n,
{
    if n > 0 {
        runs_count_pixels(cells, cell, n - 1);
        lemma_last_run(cells, n - 1);
        lemma_last_run(cells, n);
        let rest = runs_of(cells, n - 1);
        let now = runs_of(cells, n);
        if cells[n - 1] != NO_CELL {
            if n >= 2 && cells[n - 2] == cells[n - 1] {
                assert(now.drop_last() =~= rest.drop_last());
            } else {
                assert(now.drop_last() =~= rest);
            }
        }
    }
}

/// What a row gives to the store.
pub open spec fn row_batch<V>(runs: Seq<Run>, vals: Seq<Vec<Option<Sample<V>>>>) -> Batch<V> {
    Batch {
        events: |cell: u64, b: int| row_events(runs, vals[b]@, cell),
        codes: |cell: u64, b: int| row_codes(runs, vals[b]@, cell),
        pixels: |cell: u64| row_pixels(runs, cell),
        touched: |cell: u64| runs_touch(runs, cell),
    }
}

proof fn lemma_untouched<V>(runs: Seq<Run>, vals: Seq<Option<Sample<V>>>, cell: u64)
    requires
        !runs_touch(runs, cell),
    ensures
        row_events(runs, vals, cell).len() == 0,
        row_codes(runs, vals, cell).len() == 0,
        row_pixels(runs, cell) == 0,
    decreases runs.len(),
{
    if runs.len() > 0 {
        assert(runs[runs.len() - 1].cell != cell);
        assert(!runs_touch(runs.drop_last(), cell)) by {
            assert forall|k: int| 0 <= k < runs.drop_last().len() implies (
            #[trigger] runs.drop_last()[k]).cell != cell by {
                assert(runs[k].cell != cell);
            }
        }
        lemma_untouched(runs.drop_last(), vals, cell);
    }
}

/// A row gives nothing to cells that it does not touch.
pub(crate) proof fn lemma_row_batch_wf<V>(runs: Seq<Run>, vals: Seq<Vec<Option<Sample<V>>>>)
    ensures
        batch_wf(row_batch(runs, vals)),
{
    let a = row_batch(runs, vals);
    assert forall|cell: u64, k: int|
        #![trigger (a.events)(cell, k)]
        #![trigger (a.codes)(cell, k)]
        !(a.touched)(cell) implies (a.events)(cell, k).len() == 0 && (a.codes)(cell, k).len() == 0
        && (a.pixels)(cell) == 0 by {
        lemma_untouched(runs, vals[k]@, cell);
    }
}

/// The runs that lie in a cell.
pub open spec fn own_runs(runs: Seq<Run>, cell: u64) -> Seq<Run>
    decreases runs.len(),
{
    if runs.len() == 0 {
        Seq::empty()
    } else if runs.last().cell == cell {
        own_runs(runs.drop_last(), cell).push(runs.last())
    } else {
        own_runs(runs.drop_last(), cell)
    }
}

/// What a row gives to a cell comes from the runs that lie in it.
proof fn lemma_own_runs<V>(runs: Seq<Run>, vals: Seq<Option<Sample<V>>>, cell: u64)
    ensures
        row_events(own_runs(runs, cell), vals, cell) == row_events(runs, vals, cell),
        row_codes(own_runs(runs, cell), vals, cell) == row_codes(runs, vals, cell),
        row_pixels(own_runs(runs, cell), cell) == row_pixels(runs, cell),
        runs_touch(runs, cell) == (own_runs(runs, cell).len() > 0),
    decreases runs.len(),
{
    if runs.len() > 0 {
        let front = runs.drop_last();
        lemma_own_runs(front, vals, cell);
        if runs.last().cell == cell {
            assert(own_runs(runs, cell).drop_last() == own_runs(front, cell));
            assert(runs[runs.len() - 1].cell == cell);
        } else {
            if runs_touch(front, cell) {
                let k = choose|k: int| 0 <= k < front.len() && (#[trigger] front[k]).cell == cell;
                assert(runs[k].cell == cell);
            }
            if runs_touch(runs, cell) {
                let k = choose|k: int| 0 <= k < runs.len() && (#[trigger] runs[k]).cell == cell;
                assert(front[k].cell == cell);
            }
        }
    }
}

proof fn lemma_same_own_runs(a: Seq<u64>, b: Seq<u64>, cell: u64, n: int)
    requires
        cell != NO_CELL,
        0 <= n <= a.len() <= usize::MAX,
        a.len() == b.len(),
        forall|c: int| 0 <= c < n ==> (#[trigger] a[c] == cell) == (b[c] == cell),
    ensures
        own_runs(runs_of(a, n), cell) == own_runs(runs_of(b, n), cell),
    decreases n,
{
    if n > 0 {
        lemma_same_own_runs(a, b, cell, n - 1);
        lemma_own_step(a, cell, n);
        lemma_own_step(b, cell, n);
        assert((a[n - 1] == cell) == (b[n - 1] == cell));
        if n >= 2 {
            assert((a[n - 2] == cell) == (b[n - 2] == cell));
        }
    }
}

/// How the runs of a cell change with one pixel more.
proof fn lemma_own_step(cells: Seq<u64>, cell: u64, n: int)
    requires
        cell != NO_CELL,
        0 < n <= cells.len() <= usize::MAX,
    ensures
        ({
            let rest = own_runs(runs_of(cells, n - 1), cell);
            own_runs(runs_of(cells, n), cell) == (if cells[n - 1] != cell {
                rest
            } else if n >= 2 && cells[n - 2] == cell {
                rest.drop_last().push(Run { to: n as usize, ..rest.last() })
            } else {
                rest.push(Run { cell, from: (n - 1) as usize, to: n as usize })
            })
        }),
{
    lemma_last_run(cells, n - 1);
    let rest = runs_of(cells, n - 1);
    let now = runs_of(cells, n);
    let c = cells[n - 1];
    if c != NO_CELL {
        if n >= 2 && cells[n - 2] == c {
            assert(now.drop_last() =~= rest.drop_last());
            assert(rest.last().cell == c);
            if c == cell {
                assert(own_runs(rest, cell).drop_last() =~= own_runs(rest.drop_last(), cell));
            }
        } else {
            assert(now.drop_last() =~= rest);
        }
    }
}

/// What a row gives to a cell depends only on which of its pixels lie in the
/// cell, not on where the others lie.
pub proof fn row_gives_by_pixel<V>(
    a: Seq<u64>,
    b: Seq<u64>,
    vals: Seq<Option<Sample<V>>>,
    cell: u64,
)
    requires
        cell != NO_CELL,
        a.len() == b.len(),
        a.len() <= usize::MAX,
        forall|c: int| 0 <= c < a.len() ==> (#[trigger] a[c] == cell) == (b[c] == cell),
    ensures
        ({
            let ra = runs_of(a, a.len() as int);
            let rb = runs_of(b, b.len() as int);
            &&& row_events(ra, vals, cell) == row_events(rb, vals, cell)
            &&& row_codes(ra, vals, cell) == row_codes(rb, vals, cell)
            &&& row_pixels(ra, cell) == row_pixels(rb, cell)
            &&& runs_touch(ra, cell) == runs_touch(rb, cell)
        }),
{
    lemma_same_own_runs(a, b, cell, a.len() as int);
    lemma_own_runs(runs_of(a, a.len() as int), vals, cell);
    lemma_own_runs(runs_of(b, b.len() as int), vals, cell);
}

proof fn lemma_row_codes_fail<V>(
    m: Seq<(i32, u64)>,
    runs: Seq<Run>,
    vals: Seq<Option<Sample<V>>>,
    cell: u64,
    n: int,
)
    requires
        0 <= n <= runs.len(),
        classes_merged(m, row_codes(runs.take(n), vals, cell)) is None,
    ensures
        classes_merged(m, row_codes(runs, vals, cell)) is None,
    decreases runs.len() - n,
{
    if n == runs.len() {
        assert(runs.take(n) == runs);
    } else {
        let next = runs.take(n + 1);
        assert(next.drop_last() == runs.take(n));
        let r = next.last();
        if r.cell == cell {
            lemma_merged_join(
                m,
                row_codes(runs.take(n), vals, cell),
                sample_codes(valid_samples(vals, r.from as int, r.to as int)),
            );
        }
        lemma_row_codes_fail(m, runs, vals, cell, n + 1);
    }
}

// ---------------------------------------------------------------------------
// adding to one band of one slot

/// All but band `b` of slot `s` stayed as it was.
pub open spec fn others_kept<L: AccLayout>(
    before: CellStore<L>,
    after: CellStore<L>,
    s: int,
    b: int,
) -> bool {
    &&& after.same_shape(&before)
    &&& after.index == before.index
    &&& after.cells@ == before.cells@
    &&& after.npix@ == before.npix@
    &&& before.cfg.has_cont ==> forall|j: int, c: int|
        0 <= j < before.cells@.len() && 0 <= c < before.n_out && !(j == s && c == b)
            ==> #[trigger] after.acc(j, c) == before.acc(j, c)
    &&& before.cfg.has_cat ==> forall|j: int, c: int|
        0 <= j < before.cells@.len() && 0 <= c < before.n_out && !(j == s && c == b)
            ==> #[trigger] after.classes(j, c) == before.classes(j, c)
}

impl<L: AccLayout> CellStore<L> {
    /// Replaces the continuous accumulator of one band of a slot.
    pub(crate) fn set_acc(&mut self, slot: usize, b: usize, v: L)
        requires
            old(self).wf(),
            old(self).cfg.has_cont,
            slot < old(self).cells@.len(),
            b < old(self).n_out,
        ensures
            final(self).wf(),
            others_kept(*old(self), *final(self), slot as int, b as int),
            final(self).cat@ == old(self).cat@,
            final(self).acc(slot as int, b as int) == v,
    {
        let ghost before = *self;
        let n_out: usize = self.n_out;
        proof {
            lemma_slab(slot as int, n_out as int, b as int, before.cells@.len() as int);
            lemma_slab_grows(slot as int, before.cells@.len() as int, n_out as int);
            assert(before.cont.len() <= usize::MAX);
        }
        let k: usize = slot * n_out + b;
        self.cont.set(k, v);
        proof {
            assert forall|j: int, c: int|
                0 <= j < before.cells@.len() && 0 <= c < n_out && !(j == slot && c
                    == b) implies #[trigger] self.acc(j, c) == before.acc(j, c) by {
                lemma_slab(j, n_out as int, c, before.cells@.len() as int);
                if j * n_out + c == k {
                    lemma_slab_distinct(j, c, slot as int, b as int, n_out as int);
                }
            }
        }
    }

    /// The continuous accumulator of one band of a slot.
    pub fn acc_at(&self, slot: usize, b: usize) -> (r: L)
        requires
            self.wf(),
            self.cfg.has_cont,
            slot < self.cells@.len(),
            b < self.n_out,
        ensures
            r == self.acc(slot as int, b as int),
    {
        proof {
            lemma_slab(slot as int, self.n_out as int, b as int, self.cells@.len() as int);
            lemma_slab_grows(slot as int, self.cells@.len() as int, self.n_out as int);
            assert(self.cont.len() <= usize::MAX);
        }
        self.cont[slot * self.n_out + b]
    }

    /// Adds class codes to one band of a slot.
    fn add_codes(&mut self, slot: usize, b: usize, codes: &Vec<(i32, u64)>) -> (r: Result<
        (),
        A5CogError,
    >)
        requires
            old(self).wf(),
            old(self).cfg.has_cat,
            slot < old(self).cells@.len(),
            b < old(self).n_out,
        ensures
            final(self).wf(),
            others_kept(*old(self), *final(self), slot as int, b as int),
            final(self).cont@ == old(self).cont@,
            match classes_merged(old(self).classes(slot as int, b as int), codes@) {
                Some(t) => r is Ok && final(self).classes(slot as int, b as int) == t,
                None => r matches Err(e) && is_invalid(e, too_many_classes()),
            },
    {
        let ghost before = *self;
        let n_out: usize = self.n_out;
        proof {
            lemma_slab(slot as int, n_out as int, b as int, before.cells@.len() as int);
            lemma_slab_grows(slot as int, before.cells@.len() as int, n_out as int);
            assert(before.cat.len() <= usize::MAX);
        }
        let k: usize = slot * n_out + b;
        let res = cat_merge(&mut self.cat[k], codes);
        proof {
            assert forall|j: int, c: int|
                0 <= j < before.cells@.len() && 0 <= c < n_out && !(j == slot && c
                    == b) implies #[trigger] self.classes(j, c) == before.classes(j, c) by {
                lemma_slab(j, n_out as int, c, before.cells@.len() as int);
                if j * n_out + c == k {
                    lemma_slab_distinct(j, c, slot as int, b as int, n_out as int);
                }
            }
            assert(before.classes(slot as int, b as int) == before.cat@[k as int]@);
            assert(self.classes(slot as int, b as int) == self.cat@[k as int]@);
        }
        res
    }
}

impl<L: AccLayout> CellStore<L> {
    /// Adds weight to one class of one band of a slot.
    pub(crate) fn add_code(&mut self, slot: usize, b: usize, class: i32, w: u64) -> (r: Result<
        (),
        A5CogError,
    >)
        requires
            old(self).wf(),
            old(self).cfg.has_cat,
            slot < old(self).cells@.len(),
            b < old(self).n_out,
        ensures
            final(self).wf(),
            others_kept(*old(self), *final(self), slot as int, b as int),
            final(self).cont@ == old(self).cont@,
            match class_added(old(self).classes(slot as int, b as int), class, w) {
                Some(t) => r is Ok && final(self).classes(slot as int, b as int) == t,
                None => r matches Err(e) && is_invalid(e, too_many_classes()),
            },
    {
        let ghost before = *self;
        let n_out: usize = self.n_out;
        proof {
            lemma_slab(slot as int, n_out as int, b as int, before.cells@.len() as int);
            lemma_slab_grows(slot as int, before.cells@.len() as int, n_out as int);
            assert(before.cat.len() <= usize::MAX);
        }
        let k: usize = slot * n_out + b;
        let res = cat_push(&mut self.cat[k], class, w);
        proof {
            assert forall|j: int, c: int|
                0 <= j < before.cells@.len() && 0 <= c < n_out && !(j == slot && c
                    == b) implies #[trigger] self.classes(j, c) == before.classes(j, c) by {
                lemma_slab(j, n_out as int, c, before.cells@.len() as int);
                if j * n_out + c == k {
                    lemma_slab_distinct(j, c, slot as int, b as int, n_out as int);
                }
            }
            assert(before.classes(slot as int, b as int) == before.cat@[k as int]@);
            assert(self.classes(slot as int, b as int) == self.cat@[k as int]@);
        }
        res
    }
}

// ---------------------------------------------------------------------------
// adding a row

/// The cells of the runs that `before` has not seen, by first appearance.
pub open spec fn new_run_cells<L: AccLayout>(before: CellStore<L>, runs: Seq<Run>) -> Seq<u64>
    decreases runs.len(),
{
    if runs.len() == 0 {
        Seq::empty()
    } else {
        let rest = new_run_cells(before, runs.drop_last());
        let c = runs.last().cell;
        if before.has(c) || rest.contains(c) {
            rest
        } else {
            rest.push(c)
        }
    }
}

proof fn lemma_runs_touch_push(runs: Seq<Run>, r: Run, cell: u64)
    ensures
        runs_touch(runs.push(r), cell) == (runs_touch(runs, cell) || r.cell == cell),
{
    let g = runs.push(r);
    assert(g[runs.len() as int] == r);
    assert forall|k: int| 0 <= k < runs.len() implies runs[k] == g[k] by {}
}

pub(crate) proof fn lemma_new_run_cells<L: AccLayout>(before: CellStore<L>, runs: Seq<Run>, cell: u64)
    ensures
        new_run_cells(before, runs).contains(cell) == (!before.has(cell) && runs_touch(runs, cell)),
        new_run_cells(before, runs).len() <= runs.len(),
    decreases runs.len(),
{
    if runs.len() > 0 {
        let rest = new_run_cells(before, runs.drop_last());
        let c = runs.last().cell;
        lemma_new_run_cells(before, runs.drop_last(), cell);
        lemma_new_run_cells(before, runs.drop_last(), c);
        assert(runs == runs.drop_last().push(runs.last()));
        lemma_runs_touch_push(runs.drop_last(), runs.last(), cell);
        if !(before.has(c) || rest.contains(c)) {
            let now = rest.push(c);
            if cell == c {
                assert(now[rest.len() as int] == cell);
            }
            if rest.contains(cell) {
                let k = choose|k: int| 0 <= k < rest.len() && rest[k] == cell;
                assert(now[k] == cell);
            }
            if now.contains(cell) && cell != c {
                let k = choose|k: int| 0 <= k < now.len() && now[k] == cell;
                assert(rest[k] == cell);
            }
        }
    }
}

/// `mid` is `before` with slots for the cells of the runs, and nothing else.
pub open spec fn slots_added<L: AccLayout>(
    before: CellStore<L>,
    runs: Seq<Run>,
    mid: CellStore<L>,
) -> bool {
    &&& extends(before, mid)
    &&& mid.cells@ == before.cells@ + new_run_cells(before, runs)
    &&& forall|c: u64| #[trigger] mid.has(c) == (before.has(c) || runs_touch(runs, c))
    &&& forall|c: u64| before.has(c) ==> #[trigger] mid.slot_of(c) == before.slot_of(c)
    &&& forall|j: int| 0 <= j < before.cells@.len() ==> #[trigger] same_entry(before, j, mid, j)
    &&& forall|j: int|
        before.cells@.len() <= j < mid.cells@.len() ==> #[trigger] fresh_entry(mid, j)
}

/// The slots are those of the runs' cells.
pub open spec fn slots_match<L: AccLayout>(s: CellStore<L>, runs: Seq<Run>, slots: Seq<u32>) -> bool {
    forall|t: int|
        0 <= t < slots.len() ==> (#[trigger] slots[t]) == s.slot_of(runs[t].cell) && s.has(
            runs[t].cell,
        )
}

/// `now` is `mid` with the first `done(b)` runs of each band `b` pushed.
pub open spec fn bands_pushed<L: AccLayout>(
    mid: CellStore<L>,
    now: CellStore<L>,
    runs: Seq<Run>,
    vals: Seq<Vec<Option<Sample<L::Value>>>>,
    done: spec_fn(int) -> int,
) -> bool {
    &&& now.same_shape(&mid)
    &&& now.index == mid.index
    &&& now.cells@ == mid.cells@
    &&& mid.cfg.has_cont ==> forall|s: int, b: int|
        0 <= s < mid.cells@.len() && 0 <= b < mid.n_out ==> pushed(
            mid.acc(s, b),
            row_events(runs.take(done(b)), vals[b]@, mid.cells@[s]),
            #[trigger] now.acc(s, b),
        )
    &&& mid.cfg.has_cat ==> forall|s: int, b: int|
        0 <= s < mid.cells@.len() && 0 <= b < mid.n_out ==> classes_merged(
            mid.classes(s, b),
            row_codes(runs.take(done(b)), vals[b]@, mid.cells@[s]),
        ) == Some(#[trigger] now.classes(s, b))
}

/// The number of runs of band `c` that are done when run `k` of band `b` is
/// next.
pub open spec fn runs_done(b: int, k: int, n: int) -> spec_fn(int) -> int {
    |c: int|
        if c < b {
            n
        } else if c == b {
            k
        } else {
            0
        }
}

impl<L: AccLayout> CellStore<L> {
    /// Slots for the cells of the runs.
    fn add_slots(&mut self, runs: &Vec<Run>) -> (r: Vec<u32>)
        requires
            old(self).wf(),
            old(self).room_for(runs@.len() as int),
        ensures
            final(self).wf(),
            slots_added(*old(self), runs@, *final(self)),
            r@.len() == runs@.len(),
            slots_match(*final(self), runs@, r@),
    {
        let ghost before = *self;
        let mut slots: Vec<u32> = Vec::new();
        assert(runs@.take(0).len() == 0);
        for k in 0..runs.len()
            invariant
                before.wf(),
                before.room_for(runs@.len() as int),
                self.wf(),
                slots_added(before, runs@.take(k as int), *self),
                slots@.len() == k,
                slots_match(*self, runs@, slots@),
        {
            let ghost now = *self;
            let ghost done = runs@.take(k as int);
            let ghost grown = runs@.take(k + 1);
            let cell: u64 = runs[k].cell;
            proof {
                assert(grown == done.push(runs@[k as int]));
                assert(grown.drop_last() == done);
                lemma_new_run_cells(before, done, cell);
                lemma_slab_grows(
                    (now.cells@.len() + 1) as int,
                    (before.cells@.len() + runs@.len()) as int,
                    before.n_out as int,
                );
            }
            let s: u32 = self.slot(cell);
            proof {
                let next = *self;
                assert forall|c: u64| #[trigger] next.has(c) == (before.has(c) || runs_touch(
                    grown,
                    c,
                )) by {
                    lemma_runs_touch_push(done, runs@[k as int], c);
                    assert(now.has(c) == (before.has(c) || runs_touch(done, c)));
                }
                assert forall|c: u64| before.has(c) implies #[trigger] next.slot_of(c)
                    == before.slot_of(c) by {
                    assert(now.has(c));
                    assert(now.slot_of(c) == before.slot_of(c));
                }
                assert forall|j: int| 0 <= j < before.cells@.len() implies #[trigger] same_entry(
                    before,
                    j,
                    next,
                    j,
                ) by {
                    assert(same_entry(before, j, now, j));
                    assert(same_entry(now, j, next, j));
                    lemma_same_entry_trans(before, now, next, j);
                }
                assert forall|j: int|
                    before.cells@.len() <= j < next.cells@.len() implies #[trigger] fresh_entry(
                    next,
                    j,
                ) by {
                    if j < now.cells@.len() {
                        assert(fresh_entry(now, j));
                        assert(same_entry(now, j, next, j));
                        lemma_fresh_survives(now, next, j);
                    }
                }
                assert(next.cells@ == before.cells@ + new_run_cells(before, grown));
                assert(extends(before, next)) by {
                    assert forall|j: int| 0 <= j < before.cells@.len() implies #[trigger] next.cells@[j]
                        == before.cells@[j] by {
                        assert(now.cells@[j] == before.cells@[j]);
                    }
                }
            }
            let ghost kept = slots@;
            slots.push(s);
            assert forall|t: int| 0 <= t < slots@.len() implies (#[trigger] slots@[t])
                == self.slot_of(runs@[t].cell) && self.has(runs@[t].cell) by {
                if t < k {
                    assert(slots@[t] == kept[t]);
                    assert(now.has(runs@[t].cell));
                }
            }
        }
        assert(runs@.take(runs@.len() as int) == runs@);
        slots
    }

    /// Pushes run `k`, of cell slot `s`, into band `b`.
    fn push_run_at(
        &mut self,
        s: usize,
        b: usize,
        run: Run,
        vals: &Vec<Option<Sample<L::Value>>>,
    ) -> (r: Result<(), A5CogError>)
        requires
            old(self).wf(),
            s < old(self).cells@.len(),
            b < old(self).n_out,
            run.from <= run.to <= vals@.len(),
        ensures
            final(self).wf(),
            others_kept(*old(self), *final(self), s as int, b as int),
            ({
                let samples = valid_samples(vals@, run.from as int, run.to as int);
                let fits = old(self).cfg.has_cat ==> classes_merged(
                    old(self).classes(s as int, b as int),
                    sample_codes(samples),
                ) is Some;
                &&& r is Ok <==> fits
                &&& r matches Err(e) ==> is_invalid(e, too_many_classes())
                &&& r is Ok && old(self).cfg.has_cat ==> classes_merged(
                    old(self).classes(s as int, b as int),
                    sample_codes(samples),
                ) == Some(final(self).classes(s as int, b as int))
                &&& old(self).cfg.has_cont ==> if samples.len() == 0 {
                    final(self).acc(s as int, b as int) == old(self).acc(s as int, b as int)
                } else {
                    stepped(
                        old(self).acc(s as int, b as int),
                        AccEvent::Run(sample_values(samples)),
                        final(self).acc(s as int, b as int),
                    )
                }
            }),
    {
        let (values, codes) = gather_run(vals, run.from, run.to);
        let ghost samples = valid_samples(vals@, run.from as int, run.to as int);
        if values.len() == 0 {
            assert(sample_codes(samples).len() == 0);
            return Ok(());
        }
        if self.cfg.has_cont {
            let old_acc = self.acc_at(s, b);
            let new_acc = old_acc.push_run(&values);
            assert(stepped(old_acc, AccEvent::Run(sample_values(samples)), new_acc));
            self.set_acc(s, b, new_acc);
        }
        if self.cfg.has_cat {
            return self.add_codes(s, b, &codes);
        }
        Ok(())
    }
}

proof fn lemma_fresh_survives<L: AccLayout>(a: CellStore<L>, b: CellStore<L>, j: int)
    requires
        a.same_shape(&b),
        fresh_entry(a, j),
        same_entry(a, j, b, j),
    ensures
        fresh_entry(b, j),
{
    if a.cfg.has_cont {
        assert forall|k: int| 0 <= k < a.n_out implies call_ensures(
            L::new,
            (),
            #[trigger] b.acc(j, k),
        ) by {
            assert(a.acc(j, k) == b.acc(j, k));
        }
    }
    if a.cfg.has_cat {
        assert forall|k: int| 0 <= k < a.n_out implies #[trigger] b.classes(j, k) == Seq::<
            (i32, u64),
        >::empty() by {
            assert(a.classes(j, k) == b.classes(j, k));
        }
    }
}

/// The runs lie within the bands.
pub open spec fn runs_within<V>(runs: Seq<Run>, vals: Seq<Vec<Option<Sample<V>>>>) -> bool {
    &&& forall|k: int| 0 <= k < runs.len() ==> (#[trigger] runs[k]).from <= runs[k].to
    &&& forall|b: int, k: int|
        0 <= b < vals.len() && 0 <= k < runs.len() ==> (#[trigger] runs[k]).to <= (
        #[trigger] vals[b])@.len()
}

/// Slots of runs that a store has.
pub open spec fn slots_fit<L: AccLayout>(s: CellStore<L>, runs: Seq<Run>, slots: Seq<u32>) -> bool {
    &&& slots.len() == runs.len()
    &&& slots_match(s, runs, slots)
}

/// `now` is `mid` with the pixels of the runs counted.
pub open spec fn pixels_added<L: AccLayout>(
    mid: CellStore<L>,
    now: CellStore<L>,
    runs: Seq<Run>,
) -> bool {
    &&& now.same_shape(&mid)
    &&& now.index == mid.index
    &&& now.cells@ == mid.cells@
    &&& now.cont@ == mid.cont@
    &&& now.cat@ == mid.cat@
    &&& mid.cfg.has_npix ==> forall|s: int|
        0 <= s < mid.cells@.len() ==> #[trigger] now.npix@[s] == capped_add(
            mid.npix@[s],
            row_pixels(runs, mid.cells@[s]),
        )
}

impl<L: AccLayout> CellStore<L> {
    /// Counts the pixels of the runs, where pixel weights are kept.
    fn add_run_pixels(&mut self, runs: &Vec<Run>, slots: &Vec<u32>)
        requires
            old(self).wf(),
            slots_fit(*old(self), runs@, slots@),
            forall|k: int| 0 <= k < runs@.len() ==> (#[trigger] runs@[k]).from <= runs@[k].to,
        ensures
            final(self).wf(),
            pixels_added(*old(self), *final(self), runs@),
    {
        let ghost mid = *self;
        assert(runs@.take(0).len() == 0);
        for k in 0..runs.len()
            invariant
                mid.wf(),
                self.wf(),
                slots_fit(mid, runs@, slots@),
                forall|t: int| 0 <= t < runs@.len() ==> (#[trigger] runs@[t]).from <= runs@[t].to,
                pixels_added(mid, *self, runs@.take(k as int)),
        {
            let run = runs[k];
            let slot: u32 = slots[k];
            let ghost now = *self;
            let ghost grown = runs@.take(k + 1);
            proof {
                assert(grown.drop_last() == runs@.take(k as int));
                assert(slots@[k as int] == mid.slot_of(run.cell) && mid.has(run.cell));
            }
            self.add_npix(slot, (run.to - run.from) as u64);
            proof {
                if mid.cfg.has_npix {
                    assert forall|s: int| 0 <= s < mid.cells@.len() implies #[trigger] self.npix@[s]
                        == capped_add(mid.npix@[s], row_pixels(grown, mid.cells@[s])) by {
                        assert(now.npix@[s] == capped_add(
                            mid.npix@[s],
                            row_pixels(runs@.take(k as int), mid.cells@[s]),
                        ));
                    }
                }
            }
        }
        assert(runs@.take(runs@.len() as int) == runs@);
    }

    /// Pushes the runs into every band.
    fn push_bands(
        &mut self,
        runs: &Vec<Run>,
        slots: &Vec<u32>,
        vals: &Vec<Vec<Option<Sample<L::Value>>>>,
    ) -> (r: Result<(), A5CogError>)
        requires
            old(self).wf(),
            slots_fit(*old(self), runs@, slots@),
            vals@.len() == old(self).n_out,
            runs_within(runs@, vals@),
        ensures
            final(self).wf(),
            final(self).npix@ == old(self).npix@,
            r matches Err(e) ==> is_invalid(e, too_many_classes()) && old(self).cfg.has_cat
                && exists|s: int, b: int|
                0 <= s < old(self).cells@.len() && 0 <= b < old(self).n_out && runs_touch(
                    runs@,
                    old(self).cells@[s],
                ) && classes_merged(
                    #[trigger] old(self).classes(s, b),
                    row_codes(runs@, vals@[b]@, old(self).cells@[s]),
                ) is None,
            r is Ok ==> bands_pushed(
                *old(self),
                *final(self),
                runs@,
                vals@,
                |b: int| runs@.len() as int,
            ),
    {
        let ghost mid = *self;
        let n: usize = runs.len();
        let n_out: usize = self.n_out;
        let ghost full = |b: int| runs@.len() as int;
        proof {
            assert(runs@.take(0).len() == 0);
            assert(bands_pushed(mid, *self, runs@, vals@, runs_done(0, 0, n as int)));
        }
        for b in 0..n_out
            invariant
                mid == *old(self),
                mid.wf(),
                self.wf(),
                n == runs@.len(),
                n_out == mid.n_out,
                vals@.len() == n_out,
                slots_fit(mid, runs@, slots@),
                runs_within(runs@, vals@),
                self.npix@ == mid.npix@,
                bands_pushed(mid, *self, runs@, vals@, runs_done(b as int, 0, n as int)),
        {
            for k in 0..n
                invariant
                    mid == *old(self),
                    mid.wf(),
                    self.wf(),
                    n == runs@.len(),
                    n_out == mid.n_out,
                    vals@.len() == n_out,
                    b < n_out,
                    slots_fit(mid, runs@, slots@),
                    runs_within(runs@, vals@),
                    self.npix@ == mid.npix@,
                    bands_pushed(mid, *self, runs@, vals@, runs_done(b as int, k as int, n as int)),
            {
                let run = runs[k];
                let slot: usize = slots[k] as usize;
                let ghost now = *self;
                let ghost cell = run.cell;
                proof {
                    assert(slots@[k as int] == mid.slot_of(cell) && mid.has(cell));
                    assert(mid.cells@[slot as int] == cell);
                    assert(runs@[k as int].to <= vals@[b as int]@.len());
                }
                let res = self.push_run_at(slot, b, run, &vals[b]);
                proof {
                    lemma_run_pushed(mid, now, *self, runs@, vals@, b as int, k as int, slot as int, res is Ok);
                }
                match res {
                    Ok(_) => {},
                    Err(e) => {
                        proof {
                            assert(runs_touch(runs@, mid.cells@[slot as int])) by {
                                assert(runs@[k as int].cell == cell);
                            }
                            assert(classes_merged(
                                mid.classes(slot as int, b as int),
                                row_codes(runs@, vals@[b as int]@, mid.cells@[slot as int]),
                            ) is None);
                        }
                        return Err(e);
                    },
                }
            }
            proof {
                lemma_done_next(mid, *self, runs@, vals@, b as int);
            }
        }
        proof {
            lemma_done_same(mid, *self, runs@, vals@, runs_done(n_out as int, 0, n as int), full);
        }
        Ok(())
    }

    /// Adds one row under forward sampling: `cells` gives the cell of each
    /// pixel, [`NO_CELL`] where it has none, and `vals` the samples band by
    /// band, none where the band is invalid there.
    ///
    /// The error comes exactly where a class list would grow too long.
    pub fn accumulate_row(
        &mut self,
        cells: &Vec<u64>,
        vals: &Vec<Vec<Option<Sample<L::Value>>>>,
    ) -> (r: Result<(), A5CogError>)
        requires
            old(self).wf(),
            old(self).room_for(cells@.len() as int),
            vals@.len() == old(self).n_out,
            forall|b: int| 0 <= b < vals@.len() ==> (#[trigger] vals@[b])@.len() == cells@.len(),
        ensures
            final(self).wf(),
            ({
                let runs = runs_of(cells@, cells@.len() as int);
                let batch = row_batch(runs, vals@);
                &&& r is Ok <==> batch_fits(*old(self), batch)
                &&& r matches Err(e) ==> is_invalid(e, too_many_classes())
                &&& r is Ok ==> batch_added(*old(self), batch, *final(self))
                &&& r is Ok ==> final(self).cells@ == old(self).cells@ + new_run_cells(
                    *old(self),
                    runs,
                )
            }),
    {
        let ghost before = *self;
        let runs = cell_runs(cells);
        proof {
            lemma_last_run(cells@, cells@.len() as int);
            lemma_slab_grows(
                (before.cells@.len() + runs@.len()) as int,
                (before.cells@.len() + cells@.len()) as int,
                before.n_out as int,
            );
        }
        let slots = self.add_slots(&runs);
        let ghost mid = *self;
        assert forall|k: int| 0 <= k < runs@.len() implies (#[trigger] runs@[k]).from
            <= runs@[k].to by {
            assert(runs_of(cells@, cells@.len() as int)[k].from < runs_of(
                cells@,
                cells@.len() as int,
            )[k].to);
        }
        self.add_run_pixels(&runs, &slots);
        let ghost counted = *self;
        assert forall|b: int, k: int| 0 <= b < vals@.len() && 0 <= k < runs@.len() implies (
        #[trigger] runs@[k]).to <= (#[trigger] vals@[b])@.len() by {
            assert(runs_of(cells@, cells@.len() as int)[k].to <= cells@.len());
        }
        assert(slots_fit(counted, runs@, slots@)) by {
            assert(slots_match(mid, runs@, slots@));
        }
        let res = self.push_bands(&runs, &slots, vals);
        proof {
            if res is Ok {
                lemma_row_added(before, mid, counted, *self, runs@, vals@);
            } else {
                lemma_row_overflow(before, mid, counted, runs@, vals@);
            }
        }
        res
    }
}

/// One more run of band `b` pushed.
proof fn lemma_run_pushed<L: AccLayout>(
    mid: CellStore<L>,
    now: CellStore<L>,
    next: CellStore<L>,
    runs: Seq<Run>,
    vals: Seq<Vec<Option<Sample<L::Value>>>>,
    b: int,
    k: int,
    slot: int,
    ok: bool,
)
    requires
        mid.wf(),
        0 <= k < runs.len(),
        0 <= b < mid.n_out,
        bands_pushed(mid, now, runs, vals, runs_done(b, k, runs.len() as int)),
        others_kept(now, next, slot, b),
        mid.has(runs[k].cell),
        slot == mid.slot_of(runs[k].cell),
        ({
            let samples = valid_samples(vals[b]@, runs[k].from as int, runs[k].to as int);
            let fits = mid.cfg.has_cat ==> classes_merged(
                now.classes(slot, b),
                sample_codes(samples),
            ) is Some;
            &&& ok <==> fits
            &&& ok && mid.cfg.has_cat ==> classes_merged(
                now.classes(slot, b),
                sample_codes(samples),
            ) == Some(next.classes(slot, b))
            &&& mid.cfg.has_cont ==> if samples.len() == 0 {
                next.acc(slot, b) == now.acc(slot, b)
            } else {
                stepped(
                    now.acc(slot, b),
                    AccEvent::Run(sample_values(samples)),
                    next.acc(slot, b),
                )
            }
        }),
    ensures
        ok ==> bands_pushed(mid, next, runs, vals, runs_done(b, k + 1, runs.len() as int)),
        !ok ==> mid.cfg.has_cat && classes_merged(
            mid.classes(slot, b),
            row_codes(runs, vals[b]@, mid.cells@[slot]),
        ) is None,
{
    let n = runs.len() as int;
    let d0 = runs_done(b, k, n);
    let d1 = runs_done(b, k + 1, n);
    let r = runs[k];
    let done = runs.take(k);
    let grown = runs.take(k + 1);
    let samples = valid_samples(vals[b]@, r.from as int, r.to as int);
    assert(grown.drop_last() == done);
    assert(grown.last() == r);
    assert(mid.cells@[slot] == r.cell);
    if mid.cfg.has_cont {
        assert forall|s: int, c: int|
            0 <= s < mid.cells@.len() && 0 <= c < mid.n_out implies pushed(
            mid.acc(s, c),
            row_events(runs.take(d1(c)), vals[c]@, mid.cells@[s]),
            #[trigger] next.acc(s, c),
        ) by {
            assert(pushed(
                mid.acc(s, c),
                row_events(runs.take(d0(c)), vals[c]@, mid.cells@[s]),
                now.acc(s, c),
            ));
            if c == b {
                let e0 = row_events(done, vals[b]@, mid.cells@[s]);
                let e1 = row_events(grown, vals[b]@, mid.cells@[s]);
                if s == slot {
                    if samples.len() > 0 {
                        let e = AccEvent::Run(sample_values(samples));
                        assert(e1 == e0.push(e));
                        assert(e1.drop_last() == e0);
                        assert(stepped(now.acc(s, c), e1.last(), next.acc(s, c)));
                    }
                } else {
                    assert(mid.cells@[s] != r.cell);
                    assert(next.acc(s, c) == now.acc(s, c));
                }
            } else {
                assert(next.acc(s, c) == now.acc(s, c));
            }
        }
    }
    if mid.cfg.has_cat {
        let codes = sample_codes(samples);
        let m0 = mid.classes(slot, b);
        assert(classes_merged(m0, row_codes(runs.take(d0(b)), vals[b]@, mid.cells@[slot])) == Some(
            now.classes(slot, b),
        ));
        lemma_merged_join(m0, row_codes(done, vals[b]@, r.cell), codes);
        if !ok {
            lemma_row_codes_fail(m0, runs, vals[b]@, r.cell, k + 1);
        } else {
            assert forall|s: int, c: int|
                0 <= s < mid.cells@.len() && 0 <= c < mid.n_out implies classes_merged(
                mid.classes(s, c),
                row_codes(runs.take(d1(c)), vals[c]@, mid.cells@[s]),
            ) == Some(#[trigger] next.classes(s, c)) by {
                assert(classes_merged(
                    mid.classes(s, c),
                    row_codes(runs.take(d0(c)), vals[c]@, mid.cells@[s]),
                ) == Some(now.classes(s, c)));
                if c == b && s != slot {
                    assert(mid.cells@[s] != r.cell);
                    assert(next.classes(s, c) == now.classes(s, c));
                } else if c != b {
                    assert(next.classes(s, c) == now.classes(s, c));
                }
            }
        }
    }
}

/// Two ways to count that agree on every band are the same.
proof fn lemma_done_same<L: AccLayout>(
    mid: CellStore<L>,
    now: CellStore<L>,
    runs: Seq<Run>,
    vals: Seq<Vec<Option<Sample<L::Value>>>>,
    d0: spec_fn(int) -> int,
    d1: spec_fn(int) -> int,
)
    requires
        bands_pushed(mid, now, runs, vals, d0),
        forall|b: int| 0 <= b < mid.n_out ==> #[trigger] d0(b) == d1(b),
    ensures
        bands_pushed(mid, now, runs, vals, d1),
{
    if mid.cfg.has_cont {
        assert forall|s: int, b: int|
            0 <= s < mid.cells@.len() && 0 <= b < mid.n_out implies pushed(
            mid.acc(s, b),
            row_events(runs.take(d1(b)), vals[b]@, mid.cells@[s]),
            #[trigger] now.acc(s, b),
        ) by {
            assert(d0(b) == d1(b));
        }
    }
    if mid.cfg.has_cat {
        assert forall|s: int, b: int|
            0 <= s < mid.cells@.len() && 0 <= b < mid.n_out implies classes_merged(
            mid.classes(s, b),
            row_codes(runs.take(d1(b)), vals[b]@, mid.cells@[s]),
        ) == Some(#[trigger] now.classes(s, b)) by {
            assert(d0(b) == d1(b));
        }
    }
}

/// A band that is done leaves none of the next one done.
proof fn lemma_done_next<L: AccLayout>(
    mid: CellStore<L>,
    now: CellStore<L>,
    runs: Seq<Run>,
    vals: Seq<Vec<Option<Sample<L::Value>>>>,
    b: int,
)
    requires
        bands_pushed(mid, now, runs, vals, runs_done(b, runs.len() as int, runs.len() as int)),
    ensures
        bands_pushed(mid, now, runs, vals, runs_done(b + 1, 0, runs.len() as int)),
{
    let n = runs.len() as int;
    lemma_done_same(mid, now, runs, vals, runs_done(b, n, n), runs_done(b + 1, 0, n));
}

/// Slots, pixels and bands together are the row's batch.
proof fn lemma_row_added<L: AccLayout>(
    before: CellStore<L>,
    mid: CellStore<L>,
    counted: CellStore<L>,
    after: CellStore<L>,
    runs: Seq<Run>,
    vals: Seq<Vec<Option<Sample<L::Value>>>>,
)
    requires
        before.wf(),
        mid.wf(),
        after.wf(),
        slots_added(before, runs, mid),
        pixels_added(mid, counted, runs),
        bands_pushed(counted, after, runs, vals, |b: int| runs.len() as int),
        after.npix@ == counted.npix@,
    ensures
        batch_added(before, row_batch(runs, vals), after),
        batch_fits(before, row_batch(runs, vals)),
{
    let batch = row_batch(runs, vals);
    assert(runs.take(runs.len() as int) == runs);
    assert forall|cell: u64, b: int| after.has(cell) && 0 <= b < before.n_out implies {
        let s = after.slot_of(cell);
        &&& before.cfg.has_cont ==> grown_acc(
            before.prior_acc(cell, b),
            (batch.events)(cell, b),
            (#[trigger] after.prior_acc(cell, b))->Some_0,
        )
        &&& before.cfg.has_cat ==> classes_merged(
            before.prior_classes(cell, b),
            (batch.codes)(cell, b),
        ) == Some(after.classes(s, b))
    } by {
        let s = after.slot_of(cell);
        assert(mid.has(cell));
        assert(mid.cells@[s] == cell);
        if before.has(cell) {
            assert(mid.slot_of(cell) == before.slot_of(cell));
            assert(same_entry(before, s, mid, s));
        } else {
            assert(s >= before.cells@.len()) by {
                if s < before.cells@.len() {
                    assert(before.cells@[s] == mid.cells@[s]);
                }
            }
            assert(fresh_entry(mid, s));
        }
        if before.cfg.has_cont {
            assert(pushed(counted.acc(s, b), row_events(runs.take(runs.len() as int), vals[b]@, counted.cells@[s]), after.acc(s, b)));
            assert(counted.acc(s, b) == mid.acc(s, b));
            if before.has(cell) {
                assert(before.acc(s, b) == mid.acc(s, b));
            } else {
                assert(call_ensures(L::new, (), mid.acc(s, b)));
            }
        }
        if before.cfg.has_cat {
            assert(classes_merged(counted.classes(s, b), row_codes(runs.take(runs.len() as int), vals[b]@, counted.cells@[s])) == Some(after.classes(s, b)));
            assert(counted.classes(s, b) == mid.classes(s, b));
            if before.has(cell) {
                assert(before.classes(s, b) == mid.classes(s, b));
            } else {
                assert(mid.classes(s, b) == Seq::<(i32, u64)>::empty());
            }
        }
    }
    if before.cfg.has_cat {
        assert forall|cell: u64, b: int| after.has(cell) && 0 <= b < before.n_out implies
            classes_merged(before.prior_classes(cell, b), (batch.codes)(cell, b)) == Some(
            #[trigger] after.prior_classes(cell, b),
        ) by {
            assert(after.prior_acc(cell, b) is Some);
        }
    }
    if before.cfg.has_npix {
        assert forall|cell: u64| after.has(cell) implies #[trigger] after.prior_npix(cell)
            == capped_add(before.prior_npix(cell), (batch.pixels)(cell)) by {
            let s = after.slot_of(cell);
            assert(mid.has(cell));
            assert(mid.cells@[s] == cell);
            assert(counted.npix@[s] == capped_add(mid.npix@[s], row_pixels(runs, mid.cells@[s])));
            if before.has(cell) {
                assert(mid.slot_of(cell) == before.slot_of(cell));
                assert(same_entry(before, s, mid, s));
            } else {
                assert(s >= before.cells@.len()) by {
                    if s < before.cells@.len() {
                        assert(before.cells@[s] == mid.cells@[s]);
                    }
                }
                assert(fresh_entry(mid, s));
            }
        }
    }
    assert forall|cell: u64| #[trigger] after.has(cell) == (before.has(cell) || (batch.touched)(cell)) by {
        assert(mid.has(cell) == (before.has(cell) || runs_touch(runs, cell)));
    }
    assert(extends(before, after)) by {
        assert forall|i: int| 0 <= i < before.cells@.len() implies #[trigger] after.cells@[i] == before.cells@[i] by {
            assert(mid.cells@[i] == before.cells@[i]);
        }
    }
    if before.cfg.has_cat {
        assert forall|cell: u64, b: int|
            0 <= b < before.n_out && (batch.touched)(cell) implies #[trigger] classes_merged(
            before.prior_classes(cell, b),
            (batch.codes)(cell, b),
        ) is Some by {
            assert(mid.has(cell));
            assert(after.has(cell));
            assert(after.prior_classes(cell, b) == after.prior_classes(cell, b));
        }
    }
}

/// A class list that overflows while pushing shows that the row does not fit.
proof fn lemma_row_overflow<L: AccLayout>(
    before: CellStore<L>,
    mid: CellStore<L>,
    counted: CellStore<L>,
    runs: Seq<Run>,
    vals: Seq<Vec<Option<Sample<L::Value>>>>,
)
    requires
        before.wf(),
        mid.wf(),
        slots_added(before, runs, mid),
        pixels_added(mid, counted, runs),
        counted.cfg.has_cat,
        exists|s: int, b: int|
            0 <= s < counted.cells@.len() && 0 <= b < counted.n_out && runs_touch(
                runs,
                counted.cells@[s],
            ) && classes_merged(
                #[trigger] counted.classes(s, b),
                row_codes(runs, vals[b]@, counted.cells@[s]),
            ) is None,
    ensures
        !batch_fits(before, row_batch(runs, vals)),
{
    let batch = row_batch(runs, vals);
    let (s, b) = choose|s: int, b: int|
        0 <= s < counted.cells@.len() && 0 <= b < counted.n_out && runs_touch(
            runs,
            counted.cells@[s],
        ) && classes_merged(
            #[trigger] counted.classes(s, b),
            row_codes(runs, vals[b]@, counted.cells@[s]),
        ) is None;
    let cell = counted.cells@[s];
    assert(mid.cells@[s] == cell);
    assert(counted.classes(s, b) == mid.classes(s, b));
    if before.has(cell) {
        assert(mid.slot_of(cell) == before.slot_of(cell));
        assert(same_entry(before, s, mid, s));
        assert(before.classes(s, b) == mid.classes(s, b));
    } else {
        assert(s >= before.cells@.len()) by {
            if s < before.cells@.len() {
                assert(before.cells@[s] == mid.cells@[s]);
            }
        }
        assert(fresh_entry(mid, s));
        assert(mid.classes(s, b) == Seq::<(i32, u64)>::empty());
    }
    assert((batch.touched)(cell));
    assert(classes_merged(before.prior_classes(cell, b), (batch.codes)(cell, b)) is None);
}

// ---------------------------------------------------------------------------
// what a row gives, pixel by pixel

/// The values among events, one after the other.
pub open spec fn event_values<V>(es: Seq<AccEvent<V>>) -> Seq<V>
    decreases es.len(),
{
    if es.len() == 0 {
        Seq::empty()
    } else {
        event_values(es.drop_last()) + match es.last() {
            AccEvent::Run(vs) => vs,
            AccEvent::Weighted(v, _, _) => seq![v],
        }
    }
}

/// The values of the first `n` pixels that lie in a cell and are valid, in order.
pub open spec fn values_in<V>(
    cells: Seq<u64>,
    vals: Seq<Option<Sample<V>>>,
    cell: u64,
    n: int,
) -> Seq<V>
    decreases n,
{
    if n <= 0 {
        Seq::empty()
    } else if cells[n - 1] == cell && vals[n - 1] is Some {
        values_in(cells, vals, cell, n - 1).push(vals[n - 1]->Some_0.value)
    } else {
        values_in(cells, vals, cell, n - 1)
    }
}

/// The class codes of the first `n` pixels that lie in a cell and are valid, each of
/// weight one, in order.
pub open spec fn codes_in<V>(
    cells: Seq<u64>,
    vals: Seq<Option<Sample<V>>>,
    cell: u64,
    n: int,
) -> Seq<(i32, u64)>
    decreases n,
{
    if n <= 0 {
        Seq::empty()
    } else if cells[n - 1] == cell && vals[n - 1] is Some {
        codes_in(cells, vals, cell, n - 1).push((vals[n - 1]->Some_0.class, 1u64))
    } else {
        codes_in(cells, vals, cell, n - 1)
    }
}

pub(crate) proof fn lemma_event_values_join<V>(a: Seq<AccEvent<V>>, b: Seq<AccEvent<V>>)
    ensures
        event_values(a + b) == event_values(a) + event_values(b),
    decreases b.len(),
{
    if b.len() == 0 {
        assert(a + b =~= a);
        assert(event_values(a) + event_values(b) =~= event_values(a));
    } else {
        assert((a + b).drop_last() =~= a + b.drop_last());
        lemma_event_values_join(a, b.drop_last());
        assert(event_values(a + b) =~= event_values(a) + event_values(b));
    }
}

/// What one more run gives.
proof fn lemma_one_more_run<V>(
    runs: Seq<Run>,
    r: Run,
    vals: Seq<Option<Sample<V>>>,
    cell: u64,
)
    ensures
        event_values(row_events(runs.push(r), vals, cell)) == event_values(
            row_events(runs, vals, cell),
        ) + (if r.cell == cell {
            sample_values(valid_samples(vals, r.from as int, r.to as int))
        } else {
            Seq::empty()
        }),
        row_codes(runs.push(r), vals, cell) == row_codes(runs, vals, cell) + (if r.cell == cell {
            sample_codes(valid_samples(vals, r.from as int, r.to as int))
        } else {
            Seq::empty()
        }),
{
    let more = runs.push(r);
    let s = valid_samples(vals, r.from as int, r.to as int);
    assert(more.drop_last() =~= runs);
    let es = row_events(runs, vals, cell);
    if r.cell == cell && s.len() > 0 {
        assert(row_events(more, vals, cell).drop_last() =~= es);
    } else {
        assert(event_values(es) =~= event_values(es) + Seq::<V>::empty());
        assert(sample_values(s).len() == s.len());
        if r.cell == cell {
            assert(sample_values(s) =~= Seq::<V>::empty());
        }
    }
    assert(row_codes(runs, vals, cell) =~= row_codes(runs, vals, cell) + Seq::<(i32, u64)>::empty());
}

/// One more pixel behind the last run, of the same cell.
proof fn lemma_run_grows<V>(
    front: Seq<Run>,
    r: Run,
    vals: Seq<Option<Sample<V>>>,
    cell: u64,
    n: int,
)
    requires
        0 < n <= usize::MAX,
        r.from < r.to,
        r.to == n - 1,
    ensures
        ({
            let grown = front.push(Run { to: n as usize, ..r });
            let rest = front.push(r);
            let more = r.cell == cell && vals[n - 1] is Some;
            &&& event_values(row_events(grown, vals, cell)) == (if more {
                event_values(row_events(rest, vals, cell)).push(vals[n - 1]->Some_0.value)
            } else {
                event_values(row_events(rest, vals, cell))
            })
            &&& row_codes(grown, vals, cell) == (if more {
                row_codes(rest, vals, cell).push((vals[n - 1]->Some_0.class, 1u64))
            } else {
                row_codes(rest, vals, cell)
            })
        }),
{
    let g = Run { to: n as usize, ..r };
    lemma_one_more_run(front, r, vals, cell);
    lemma_one_more_run(front, g, vals, cell);
    let s0 = valid_samples(vals, r.from as int, n - 1);
    let s1 = valid_samples(vals, r.from as int, n);
    let ev = event_values(row_events(front, vals, cell));
    let co = row_codes(front, vals, cell);
    if vals[n - 1] is Some {
        let x = vals[n - 1]->Some_0;
        assert(s1 == s0.push(x));
        assert(sample_values(s1) =~= sample_values(s0).push(x.value));
        assert(sample_codes(s1) =~= sample_codes(s0).push((x.class, 1u64)));
        assert(ev + sample_values(s1) =~= (ev + sample_values(s0)).push(x.value));
        assert(co + sample_codes(s1) =~= (co + sample_codes(s0)).push((x.class, 1u64)));
    } else {
        assert(s1 == s0);
    }
}

/// One more pixel that starts a run of its own.
proof fn lemma_run_starts<V>(
    rest: Seq<Run>,
    c: u64,
    vals: Seq<Option<Sample<V>>>,
    cell: u64,
    n: int,
)
    requires
        0 < n <= usize::MAX,
    ensures
        ({
            let now = rest.push(Run { cell: c, from: (n - 1) as usize, to: n as usize });
            let more = c == cell && vals[n - 1] is Some;
            &&& event_values(row_events(now, vals, cell)) == (if more {
                event_values(row_events(rest, vals, cell)).push(vals[n - 1]->Some_0.value)
            } else {
                event_values(row_events(rest, vals, cell))
            })
            &&& row_codes(now, vals, cell) == (if more {
                row_codes(rest, vals, cell).push((vals[n - 1]->Some_0.class, 1u64))
            } else {
                row_codes(rest, vals, cell)
            })
        }),
{
    let r = Run { cell: c, from: (n - 1) as usize, to: n as usize };
    lemma_one_more_run(rest, r, vals, cell);
    let s = valid_samples(vals, n - 1, n);
    let ev = event_values(row_events(rest, vals, cell));
    let co = row_codes(rest, vals, cell);
    assert(valid_samples(vals, n - 1, n - 1) =~= Seq::<Sample<V>>::empty());
    if vals[n - 1] is Some {
        let x = vals[n - 1]->Some_0;
        assert(s =~= seq![x]);
        assert(sample_values(s) =~= seq![x.value]);
        assert(sample_codes(s) =~= seq![(x.class, 1u64)]);
        assert(ev + seq![x.value] =~= ev.push(x.value));
        assert(co + seq![(x.class, 1u64)] =~= co.push((x.class, 1u64)));
    } else {
        assert(s =~= Seq::<Sample<V>>::empty());
        assert(sample_values(s) =~= Seq::<V>::empty());
        assert(sample_codes(s) =~= Seq::<(i32, u64)>::empty());
        assert(ev + Seq::<V>::empty() =~= ev);
        assert(co + Seq::<(i32, u64)>::empty() =~= co);
    }
    if c != cell {
        assert(ev + Seq::<V>::empty() =~= ev);
        assert(co + Seq::<(i32, u64)>::empty() =~= co);
    }
}

proof fn lemma_row_touches(cells: Seq<u64>, cell: u64, n: int)
    requires
        cell != NO_CELL,
        0 <= n <= cells.len() <= usize::MAX,
    ensures
        runs_touch(runs_of(cells, n), cell) <==> exists|c: int|
            0 <= c < n && #[trigger] cells[c] == cell,
{
    let now = runs_of(cells, n);
    lemma_last_run(cells, n);
    if runs_touch(now, cell) {
        let k = choose|k: int| 0 <= k < now.len() && (#[trigger] now[k]).cell == cell;
        let at = now[k].from as int;
        assert(now[k].from < now[k].to <= n);
        runs_cover_row(cells, n, at);
        assert(cells[at] == cell);
    }
    if exists|c: int| 0 <= c < n && #[trigger] cells[c] == cell {
        let at = choose|c: int| 0 <= c < n && #[trigger] cells[c] == cell;
        runs_cover_row(cells, n, at);
        let k = choose|k: int| 0 <= k < now.len() && (#[trigger] now[k]).from <= at < now[k].to;
        assert(now[k].cell == cell);
    }
}

proof fn lemma_row_values<V>(
    cells: Seq<u64>,
    vals: Seq<Option<Sample<V>>>,
    cell: u64,
    n: int,
)
    requires
        cell != NO_CELL,
        0 <= n <= cells.len() <= usize::MAX,
    ensures
        event_values(row_events(runs_of(cells, n), vals, cell)) == values_in(cells, vals, cell, n),
        row_codes(runs_of(cells, n), vals, cell) == codes_in(cells, vals, cell, n),
    decreases n,
{
    if n > 0 {
        lemma_row_values(cells, vals, cell, n - 1);
        lemma_last_run(cells, n - 1);
        let rest = runs_of(cells, n - 1);
        let now = runs_of(cells, n);
        let c = cells[n - 1];
        if c != NO_CELL {
            if n >= 2 && cells[n - 2] == c {
                let front = rest.drop_last();
                let r = rest.last();
                assert(rest[rest.len() - 1].from < rest[rest.len() - 1].to);
                assert(front.push(r) =~= rest);
                assert(front.push(Run { to: n as usize, ..r }) =~= now);
                lemma_run_grows(front, r, vals, cell, n);
            } else {
                lemma_run_starts(rest, c, vals, cell, n);
            }
        }
    } else {
        assert(runs_of(cells, 0).len() == 0);
    }
}

/// A row gives to each cell, band by band, the value and the class code of every
/// pixel that lies in the cell and is valid in the band, once and in order, and of no
/// other pixel; and it touches exactly the cells that some pixel lies in.
pub proof fn row_gives_its_pixels<V>(
    cells: Seq<u64>,
    vals: Seq<Option<Sample<V>>>,
    cell: u64,
    n: int,
)
    requires
        cell != NO_CELL,
        0 <= n <= cells.len() <= usize::MAX,
    ensures
        event_values(row_events(runs_of(cells, n), vals, cell)) == values_in(cells, vals, cell, n),
        row_codes(runs_of(cells, n), vals, cell) == codes_in(cells, vals, cell, n),
        runs_touch(runs_of(cells, n), cell) <==> exists|c: int|
            0 <= c < n && #[trigger] cells[c] == cell,
{
    lemma_row_values(cells, vals, cell, n);
    lemma_row_touches(cells, cell, n);
}

/// What comes to a band goes into its accumulator piece by piece, in the order in which
/// it came. A run goes in as a run.
pub proof fn runs_are_pushed_in_their_order<L: AccLayout>(
    start: L,
    es: Seq<AccEvent<L::Value>>,
    vs: Seq<L::Value>,
    end: L,
)
    ensures
        pushed(start, Seq::empty(), end) <==> end == start,
        pushed(start, es.push(AccEvent::Run(vs)), end) <==> exists|m: L, v: Vec<L::Value>|
            pushed(start, es, m) && v@ == vs && #[trigger] call_ensures(
                L::push_run,
                (m, &v),
                end,
            ),
{
    let e = AccEvent::<L::Value>::Run(vs);
    lemma_last_piece(start, es, e, end);
    if pushed(start, es.push(e), end) {
        let m = choose|m: L| pushed(start, es, m) && #[trigger] stepped(m, e, end);
        let v = choose|v: Vec<L::Value>|
            v@ == vs && #[trigger] call_ensures(L::push_run, (m, &v), end);
        assert(pushed(start, es, m) && v@ == vs && call_ensures(L::push_run, (m, &v), end));
    }
    if exists|m: L, v: Vec<L::Value>|
        pushed(start, es, m) && v@ == vs && #[trigger] call_ensures(L::push_run, (m, &v), end) {
        let (m, v) = choose|m: L, v: Vec<L::Value>|
            pushed(start, es, m) && v@ == vs && #[trigger] call_ensures(
                L::push_run,
                (m, &v),
                end,
            );
        assert(stepped(m, e, end));
    }
}

/// A share goes into a band's accumulator behind what came before it, with its weight
/// out of the unit.
pub proof fn shares_are_pushed_in_their_order<L: AccLayout>(
    start: L,
    es: Seq<AccEvent<L::Value>>,
    x: L::Value,
    w: u64,
    unit: u64,
    end: L,
)
    ensures
        pushed(start, es.push(AccEvent::Weighted(x, w, unit)), end) <==> exists|m: L|
            pushed(start, es, m) && #[trigger] call_ensures(L::push, (m, x, w, unit), end),
{
    let e = AccEvent::Weighted(x, w, unit);
    lemma_last_piece(start, es, e, end);
    if pushed(start, es.push(e), end) {
        let m = choose|m: L| pushed(start, es, m) && #[trigger] stepped(m, e, end);
        assert(call_ensures(L::push, (m, x, w, unit), end));
    }
    if exists|m: L| pushed(start, es, m) && #[trigger] call_ensures(L::push, (m, x, w, unit), end) {
        let m = choose|m: L|
            pushed(start, es, m) && #[trigger] call_ensures(L::push, (m, x, w, unit), end);
        assert(stepped(m, e, end));
    }
}

/// A cell that was there goes on from its accumulator, a new one from a fresh one.
pub proof fn accumulators_go_on_from_what_they_hold<L: AccLayout>(
    start: L,
    es: Seq<AccEvent<L::Value>>,
    end: L,
)
    ensures
        grown_acc(Some(start), es, end) <==> pushed(start, es, end),
        grown_acc(None::<L>, es, end) <==> exists|z: L|
            call_ensures(L::new, (), z) && #[trigger] pushed(z, es, end),
{
}

proof fn lemma_last_piece<L: AccLayout>(
    start: L,
    es: Seq<AccEvent<L::Value>>,
    e: AccEvent<L::Value>,
    end: L,
)
    ensures
        pushed(start, es.push(e), end) <==> exists|m: L|
            pushed(start, es, m) && #[trigger] stepped(m, e, end),
{
    let all = es.push(e);
    assert(all.drop_last() =~= es);
    assert(all.last() == e);
    if exists|m: L| pushed(start, es, m) && #[trigger] stepped(m, e, end) {
        let m = choose|m: L| pushed(start, es, m) && #[trigger] stepped(m, e, end);
        assert(pushed(start, all.drop_last(), m) && stepped(m, all.last(), end));
    }
}

/// Adding a batch keeps what a store held: its cells in front, its accumulators and
/// class lists as what the batch is added to, band by band.
pub proof fn batches_are_added_to_what_is_there<L: AccLayout>(
    before: CellStore<L>,
    batch: Batch<L::Value>,
    after: CellStore<L>,
    cell: u64,
    b: int,
    j: int,
)
    requires
        batch_added(before, batch, after),
        0 <= b < before.n_out,
    ensures
        after.n_out == before.n_out && after.cfg == before.cfg,
        0 <= j < before.cells@.len() ==> j < after.cells@.len() && after.cells@[j]
            == before.cells@[j],
        slot_map(after.index).contains_key(cell) <==> slot_map(before.index).contains_key(cell) || (
        batch.touched)(cell),
        before.cfg.has_cont && after.has(cell) && !before.has(cell) ==> exists|z: L|
            call_ensures(L::new, (), z) && #[trigger] pushed(
                z,
                (batch.events)(cell, b),
                after.acc(after.slot_of(cell), b),
            ),
        before.cfg.has_cont && after.has(cell) && before.has(cell) ==> pushed(
            before.acc(before.slot_of(cell), b),
            (batch.events)(cell, b),
            after.acc(after.slot_of(cell), b),
        ),
        before.cfg.has_cat && after.has(cell) && !before.has(cell) ==> classes_merged(
            Seq::empty(),
            (batch.codes)(cell, b),
        ) == Some(after.classes(after.slot_of(cell), b)),
        before.cfg.has_cat && after.has(cell) && before.has(cell) ==> classes_merged(
            before.classes(before.slot_of(cell), b),
            (batch.codes)(cell, b),
        ) == Some(after.classes(after.slot_of(cell), b)),
        before.cfg.has_npix && after.has(cell) && before.has(cell) && before.npix@[before.slot_of(
            cell,
        )] + (batch.pixels)(cell) <= 0xFFFF_FFFF_FFFF_FFFF ==> after.npix@[after.slot_of(cell)]
            == before.npix@[before.slot_of(cell)] + (batch.pixels)(cell),
        before.cfg.has_npix && after.has(cell) && !before.has(cell) && (batch.pixels)(cell)
            <= 0xFFFF_FFFF_FFFF_FFFF ==> after.npix@[after.slot_of(cell)] == (batch.pixels)(cell),
{
    assert(after.has(cell) == (before.has(cell) || (batch.touched)(cell)));
    if after.has(cell) {
        assert(after.prior_acc(cell, b) is Some);
        assert(after.prior_classes(cell, b) == after.classes(after.slot_of(cell), b));
        assert(after.prior_npix(cell) == after.npix@[after.slot_of(cell)]);
    }
}

/// A batch fits a store without classes always, and an empty store with classes exactly
/// where no cell gets more than 4096 of them in a band.
pub proof fn batches_fit_up_to_4096_classes<L: AccLayout>(
    before: CellStore<L>,
    batch: Batch<L::Value>,
)
    requires
        before.wf(),
        before.cells@.len() == 0,
    ensures
        !before.cfg.has_cat ==> batch_fits(before, batch),
        before.cfg.has_cat ==> (batch_fits(before, batch) <==> forall|cell: u64, b: int|
            0 <= b < before.n_out && (batch.touched)(cell) ==> crate::classes::weighed_classes(
                #[trigger] (batch.codes)(cell, b),
            ) <= 4096),
{
    let none = Seq::<(i32, u64)>::empty();
    assert forall|cell: u64, b: int| #[trigger] before.prior_classes(cell, b) == none by {
        assert(!before.has(cell));
    }
    if before.cfg.has_cat {
        if batch_fits(before, batch) {
            assert forall|cell: u64, b: int|
                0 <= b < before.n_out && (batch.touched)(
                    cell,
                ) implies crate::classes::weighed_classes(#[trigger] (batch.codes)(cell, b))
                <= 4096 by {
                assert(classes_merged(before.prior_classes(cell, b), (batch.codes)(cell, b)) is Some);
                crate::classes::codes_are_gathered_up_to_4096_classes((batch.codes)(cell, b), 0);
            }
        }
        if forall|cell: u64, b: int|
            0 <= b < before.n_out && (batch.touched)(cell) ==> crate::classes::weighed_classes(
                #[trigger] (batch.codes)(cell, b),
            ) <= 4096 {
            assert forall|cell: u64, b: int|
                0 <= b < before.n_out && (batch.touched)(cell) implies #[trigger] classes_merged(
                before.prior_classes(cell, b),
                (batch.codes)(cell, b),
            ) is Some by {
                crate::classes::codes_are_gathered_up_to_4096_classes((batch.codes)(cell, b), 0);
            }
        }
    }
}

} // verus!
