//! Measures of the accumulators of a read, such as the number of values that a
//! cell's band was given, or the least of them.
//!
//! A measure is known by what the accumulator's operations do to it. Where what
//! they do is a joining that heeds neither order nor grouping, the measure of a
//! read is the joining of all that its stripes gave, however they were cut, spread
//! over workers and merged.

use vstd::prelude::*;
use vstd::seq_lib::{commutative_foldl, lemma_fold_left_permutation};

use a5::coordinate_systems::Spherical;

use crate::accumulate::{
    batch_added, gives_alike, gives_nothing, grown_acc, pushed, selects_cells, stepped, AccEvent,
    Batch, Sample,
};
use crate::aggregate::is_output_order;
use crate::error::A5CogError;
use crate::locator::NO_CELL;
use crate::mask::{in_area, CellMask};
use crate::partition::{partition, partition_in_range};
use crate::plan::{
    gathered, owned_tiles, tiles_box, tiling_boxes_share_out_the_tiles, KeyBox, TilePoints,
};
use crate::stats::AccCfg;
use crate::store::{
    entry_merged, group_merged, in_group, lemma_partition_group, merged_acc, partition_group,
    parts_absorbed, same_entry, AccLayout, CellStore, PartitionedStore,
};
use crate::tally::{
    holds_batch, holds_batches, lemma_built_shape, lemma_grouped, lemma_shape_kept,
    masked_read_is_restricted, masked_stripe_is_restricted, output_lists_the_cells, part_of, read_of,
    read_tally, reads_of_the_same_stripes_agree, restricted,
};
use crate::tile::{
    built_from, is_empty_store, lemma_rows_batch_wf, rows_batch, rows_processed, rows_split_anywhere,
    rows_within, RowData, Stripe,
};

verus! {

/// A measure of accumulators, with what is measured of a new one, of a run of
/// values and of a weighted value, and how measures are joined.
#[verifier::reject_recursive_types(L)]
#[verifier::reject_recursive_types(T)]
pub struct Measure<L: AccLayout, T> {
    pub of: spec_fn(L) -> T,
    pub none: T,
    pub join: spec_fn(T, T) -> T,
    pub run: spec_fn(Seq<L::Value>) -> T,
    pub weighted: spec_fn(L::Value, u64, u64) -> T,
}

impl<L: AccLayout, T> Measure<L, T> {
    /// Joining heeds neither order nor grouping, and `none` adds nothing. Adding is
    /// such a joining with zero, and so is taking the smaller with a number that no
    /// value exceeds.
    #[verifier::opaque]
    pub open spec fn joins(&self) -> bool {
        &&& forall|x: T| #[trigger] (self.join)(x, self.none) == x
        &&& forall|x: T, y: T| #[trigger] (self.join)(x, y) == (self.join)(y, x)
        &&& forall|x: T, y: T, z: T| #[trigger]
            (self.join)((self.join)(x, y), z) == (self.join)(x, (self.join)(y, z))
    }

    /// The accumulator's operations do to the measure what it says they do.
    pub open spec fn wf(&self) -> bool {
        &&& self.joins()
        &&& forall|a: L| #[trigger] call_ensures(L::new, (), a) ==> (self.of)(a) == self.none
        &&& forall|a: L, b: L, r: L| #[trigger]
            call_ensures(L::merge, (a, b), r) ==> (self.of)(r) == (self.join)(
                (self.of)(a),
                (self.of)(b),
            )
        &&& forall|a: L, v: &Vec<L::Value>, r: L| #[trigger]
            call_ensures(L::push_run, (a, v), r) ==> (self.of)(r) == (self.join)(
                (self.of)(a),
                (self.run)(v@),
            )
        &&& forall|a: L, x: L::Value, w: u64, unit: u64, r: L| #[trigger]
            call_ensures(L::push, (a, x, w, unit), r) ==> (self.of)(r) == (self.join)(
                (self.of)(a),
                (self.weighted)(x, w, unit),
            )
    }

    /// All of these measures joined.
    pub open spec fn all(&self, xs: Seq<T>) -> T {
        xs.fold_left(self.none, self.join)
    }

    /// What one event adds.
    pub open spec fn event(&self, e: AccEvent<L::Value>) -> T {
        match e {
            AccEvent::Run(vs) => (self.run)(vs),
            AccEvent::Weighted(x, w, unit) => (self.weighted)(x, w, unit),
        }
    }

    /// What events add.
    pub open spec fn events(&self, es: Seq<AccEvent<L::Value>>) -> T
        decreases es.len(),
    {
        if es.len() == 0 {
            self.none
        } else {
            (self.join)(self.events(es.drop_last()), self.event(es.last()))
        }
    }

    /// The measure of a cell's band; `none` where the store has not seen the cell.
    pub open spec fn stored(&self, s: CellStore<L>, cell: u64, band: int) -> T {
        match s.prior_acc(cell, band) {
            Some(a) => (self.of)(a),
            None => self.none,
        }
    }

    /// The measures of a cell's band in several stores.
    pub open spec fn all_stored(&self, stores: Seq<CellStore<L>>, cell: u64, band: int) -> Seq<T> {
        Seq::new(stores.len(), |i: int| self.stored(stores[i], cell, band))
    }

    /// The measure of a cell's band in a read.
    pub open spec fn read(&self, s: PartitionedStore<L>, cell: u64, band: int) -> T {
        self.stored(part_of(s, cell), cell, band)
    }

    proof fn lemma_unit(&self, x: T)
        requires
            self.joins(),
        ensures
            (self.join)(x, self.none) == x,
            (self.join)(self.none, x) == x,
    {
        reveal(Measure::joins);
        assert((self.join)(x, self.none) == (self.join)(self.none, x));
    }

    proof fn lemma_grouping(&self, x: T, y: T, z: T)
        requires
            self.joins(),
        ensures
            (self.join)((self.join)(x, y), z) == (self.join)(x, (self.join)(y, z)),
    {
        reveal(Measure::joins);
    }

    proof fn lemma_all_push(&self, xs: Seq<T>, x: T)
        ensures
            self.all(xs.push(x)) == (self.join)(self.all(xs), x),
    {
        assert(xs.push(x).drop_last() == xs);
    }

    proof fn lemma_all_join(&self, a: Seq<T>, b: Seq<T>)
        requires
            self.joins(),
        ensures
            self.all(a + b) == (self.join)(self.all(a), self.all(b)),
        decreases b.len(),
    {
        if b.len() == 0 {
            assert(a + b == a);
            self.lemma_unit(self.all(a));
        } else {
            assert((a + b).drop_last() == a + b.drop_last());
            self.lemma_all_join(a, b.drop_last());
            self.lemma_grouping(self.all(a), self.all(b.drop_last()), b.last());
        }
    }

    proof fn lemma_all_order_free(&self, a: Seq<T>, b: Seq<T>)
        requires
            self.joins(),
            a.to_multiset() == b.to_multiset(),
        ensures
            self.all(a) == self.all(b),
    {
        let f = self.join;
        assert forall|x: T, y: T, v: T| #[trigger] f(f(v, x), y) == f(f(v, y), x) by {
            self.lemma_swap(v, x, y);
        }
        assert(commutative_foldl(f));
        lemma_fold_left_permutation(a, b, f, self.none);
    }

    proof fn lemma_swap(&self, v: T, x: T, y: T)
        requires
            self.joins(),
        ensures
            (self.join)((self.join)(v, x), y) == (self.join)((self.join)(v, y), x),
    {
        self.lemma_grouping(v, x, y);
        self.lemma_grouping(v, y, x);
        reveal(Measure::joins);
        assert((self.join)(x, y) == (self.join)(y, x));
    }

    proof fn lemma_events_join(&self, a: Seq<AccEvent<L::Value>>, b: Seq<AccEvent<L::Value>>)
        requires
            self.joins(),
        ensures
            self.events(a + b) == (self.join)(self.events(a), self.events(b)),
        decreases b.len(),
    {
        if b.len() == 0 {
            assert(a + b == a);
            self.lemma_unit(self.events(a));
        } else {
            assert((a + b).drop_last() == a + b.drop_last());
            self.lemma_events_join(a, b.drop_last());
            self.lemma_grouping(self.events(a), self.events(b.drop_last()), self.event(b.last()));
        }
    }

    /// What events make of an accumulator is measured by joining what they add.
    proof fn lemma_pushed(&self, start: L, es: Seq<AccEvent<L::Value>>, end: L)
        requires
            self.wf(),
            pushed(start, es, end),
        ensures
            (self.of)(end) == (self.join)((self.of)(start), self.events(es)),
        decreases es.len(),
    {
        if es.len() == 0 {
            self.lemma_unit((self.of)(start));
        } else {
            let mid = choose|m: L|
                pushed(start, es.drop_last(), m) && #[trigger] stepped(m, es.last(), end);
            self.lemma_pushed(start, es.drop_last(), mid);
            self.lemma_stepped(mid, es.last(), end);
            self.lemma_grouping(
                (self.of)(start),
                self.events(es.drop_last()),
                self.event(es.last()),
            );
        }
    }

    proof fn lemma_stepped(&self, start: L, e: AccEvent<L::Value>, end: L)
        requires
            self.wf(),
            stepped(start, e, end),
        ensures
            (self.of)(end) == (self.join)((self.of)(start), self.event(e)),
    {
        match e {
            AccEvent::Run(vs) => {
                let v = choose|v: Vec<L::Value>|
                    v@ == vs && #[trigger] call_ensures(L::push_run, (start, &v), end);
                assert(call_ensures(L::push_run, (start, &v), end));
            },
            AccEvent::Weighted(x, w, unit) => {
                assert(call_ensures(L::push, (start, x, w, unit), end));
            },
        }
    }

    /// A store that was built from a batch measures what the batch's events add.
    pub proof fn store_measures_its_batch(
        &self,
        n_out: usize,
        cfg: AccCfg,
        batch: Batch<L::Value>,
        store: CellStore<L>,
        cell: u64,
        band: int,
    )
        requires
            self.wf(),
            holds_batch(n_out, cfg, batch, store),
            cfg.has_cont,
            0 <= band < n_out,
        ensures
            self.stored(store, cell, band) == self.events((batch.events)(cell, band)),
    {
        let e = choose|e: CellStore<L>| #[trigger]
            is_empty_store(n_out, cfg, e) && batch_added(e, batch, store);
        assert(!e.has(cell));
        assert(store.has(cell) == (e.has(cell) || (batch.touched)(cell)));
        let es = (batch.events)(cell, band);
        if store.has(cell) {
            let end = store.prior_acc(cell, band)->Some_0;
            assert(grown_acc(e.prior_acc(cell, band), es, end));
            let z = choose|z: L| call_ensures(L::new, (), z) && #[trigger] pushed(z, es, end);
            self.lemma_pushed(z, es, end);
            self.lemma_unit(self.events(es));
        } else {
            assert(es.len() == 0);
        }
    }

    /// Merging a store joins what it measures, cell by cell.
    pub proof fn absorbing_joins_the_store(
        &self,
        before: PartitionedStore<L>,
        delta: CellStore<L>,
        after: PartitionedStore<L>,
        cell: u64,
        band: int,
    )
        requires
            self.wf(),
            before.wf(),
            delta.wf(),
            after.wf(),
            after.log2p == before.log2p,
            before.parts@[0].same_shape(&delta),
            parts_absorbed(before, delta, after),
            delta.cfg.has_cont,
            0 <= band < delta.n_out,
        ensures
            self.read(after, cell, band) == (self.join)(
                self.read(before, cell, band),
                self.stored(delta, cell, band),
            ),
    {
        let p = partition(cell, before.log2p);
        let g = partition_group(delta, before.log2p, p);
        lemma_grouped(delta, before.log2p, cell);
        lemma_partition_group(delta, before.log2p, p);
        let b = before.parts@[p];
        let a = after.parts@[p];
        assert(b.wf() && b.same_shape(&before.parts@[0]));
        assert(a.wf());
        assert(group_merged(b, delta, g, a));
        if in_group(delta, g, cell) {
            let t = choose|t: int| 0 <= t < g.len() && delta.cells@[#[trigger] g[t] as int] == cell;
            assert(entry_merged(b, delta, g[t] as int, a));
            assert(delta.slot_of(cell) == g[t]);
            let o = delta.acc(g[t] as int, band);
            let r = a.acc(a.slot_of(cell), band);
            assert(merged_acc(b.prior_acc(cell, band), o, r));
            if !b.has(cell) {
                let n = choose|n: L|
                    call_ensures(L::new, (), n) && #[trigger] call_ensures(L::merge, (n, o), r);
                assert((self.of)(r) == (self.join)((self.of)(n), (self.of)(o)));
            }
        } else if b.has(cell) {
            let j = b.slot_of(cell);
            assert(b.cells@[j] == cell);
            assert(a.cells@[j] == cell);
            assert(same_entry(b, j, a, j));
            assert(a.acc(j, band) == b.acc(j, band));
            self.lemma_unit((self.of)(b.acc(j, band)));
        } else {
            assert(!a.has(cell));
            self.lemma_unit(self.none);
        }
    }

    proof fn lemma_read_prefix(
        &self,
        states: Seq<PartitionedStore<L>>,
        deltas: Seq<CellStore<L>>,
        cell: u64,
        band: int,
        n: int,
    )
        requires
            self.wf(),
            read_of(states, deltas, band),
            states[0].parts@[0].cfg.has_cont,
            0 <= n <= deltas.len(),
        ensures
            self.read(states[n], cell, band) == self.all(
                self.all_stored(deltas.take(n), cell, band),
            ),
        decreases n,
    {
        let xs = self.all_stored(deltas.take(n), cell, band);
        if n == 0 {
            let s = states[0];
            assert(s.wf());
            partition_in_range(cell, s.log2p);
            let p = part_of(s, cell);
            assert(p.wf() && p.cells@.len() == 0);
            assert(!p.has(cell));
            assert(xs.len() == 0);
        } else {
            self.lemma_read_prefix(states, deltas, cell, band, n - 1);
            lemma_shape_kept(states, deltas, n - 1);
            let d = deltas[n - 1];
            assert(d.wf());
            assert(states[n - 1].wf() && states[n].wf());
            self.absorbing_joins_the_store(states[n - 1], d, states[n], cell, band);
            let front = self.all_stored(deltas.take(n - 1), cell, band);
            assert(xs =~= front.push(self.stored(d, cell, band)));
            self.lemma_all_push(front, self.stored(d, cell, band));
        }
    }

    // -----------------------------------------------------------------------
    // laws

    /// A read measures, for every cell, what its stores measure joined.
    pub proof fn read_measures_every_store(
        &self,
        states: Seq<PartitionedStore<L>>,
        deltas: Seq<CellStore<L>>,
        cell: u64,
        band: int,
    )
        requires
            self.wf(),
            read_of(states, deltas, band),
            states[0].parts@[0].cfg.has_cont,
        ensures
            self.read(states.last(), cell, band) == self.all(self.all_stored(deltas, cell, band)),
    {
        self.lemma_read_prefix(states, deltas, cell, band, deltas.len() as int);
        assert(deltas.take(deltas.len() as int) == deltas);
    }

    /// Neither the order in which stores are merged nor the number of partitions
    /// changes the measures of a read.
    pub proof fn merge_order_keeps_measures(
        &self,
        states: Seq<PartitionedStore<L>>,
        deltas: Seq<CellStore<L>>,
        other_states: Seq<PartitionedStore<L>>,
        other_deltas: Seq<CellStore<L>>,
        cell: u64,
        band: int,
    )
        requires
            self.wf(),
            read_of(states, deltas, band),
            read_of(other_states, other_deltas, band),
            states[0].parts@[0].cfg.has_cont,
            other_states[0].parts@[0].cfg.has_cont,
            self.all_stored(deltas, cell, band).to_multiset() == self.all_stored(
                other_deltas,
                cell,
                band,
            ).to_multiset(),
        ensures
            self.read(states.last(), cell, band) == self.read(other_states.last(), cell, band),
    {
        self.read_measures_every_store(states, deltas, cell, band);
        self.read_measures_every_store(other_states, other_deltas, cell, band);
        self.lemma_all_order_free(
            self.all_stored(deltas, cell, band),
            self.all_stored(other_deltas, cell, band),
        );
    }

    proof fn lemma_batches_all(
        &self,
        n_out: usize,
        cfg: AccCfg,
        batches: Seq<Batch<L::Value>>,
        stores: Seq<CellStore<L>>,
        cell: u64,
        band: int,
    )
        requires
            self.wf(),
            holds_batches(n_out, cfg, batches, stores),
            cfg.has_cont,
            0 <= band < n_out,
        ensures
            self.all(self.all_stored(stores, cell, band)) == batches.fold_left(
                self.none,
                |t: T, b: Batch<L::Value>|
                    (self.join)(t, self.events((b.events)(cell, band))),
            ),
        decreases stores.len(),
    {
        if stores.len() > 0 {
            let n = stores.len() - 1;
            let front = stores.drop_last();
            let fronts = batches.drop_last();
            assert forall|i: int| 0 <= i < front.len() implies #[trigger] holds_batch(
                n_out,
                cfg,
                fronts[i],
                front[i],
            ) by {
                assert(holds_batch(n_out, cfg, batches[i], stores[i]));
            }
            self.lemma_batches_all(n_out, cfg, fronts, front, cell, band);
            assert(holds_batch(n_out, cfg, batches[n], stores[n]));
            self.store_measures_its_batch(n_out, cfg, batches[n], stores[n], cell, band);
            assert(self.all_stored(stores, cell, band).drop_last() =~= self.all_stored(
                front,
                cell,
                band,
            ));
        }
    }

    /// Two reads that index the same pixels, cut into the same stripes, have the
    /// same measures, whichever worker took which stripe, in whatever order the
    /// stripes were merged and over however many partitions.
    pub proof fn reads_of_the_same_stripes_measure_alike(
        &self,
        cfg: AccCfg,
        n_out: usize,
        batches: Seq<Batch<L::Value>>,
        states: Seq<PartitionedStore<L>>,
        deltas: Seq<CellStore<L>>,
        other_batches: Seq<Batch<L::Value>>,
        other_states: Seq<PartitionedStore<L>>,
        other_deltas: Seq<CellStore<L>>,
        cell: u64,
        band: int,
    )
        requires
            self.wf(),
            read_of(states, deltas, band),
            read_of(other_states, other_deltas, band),
            states[0].parts@[0].cfg.has_cont,
            other_states[0].parts@[0].cfg.has_cont,
            holds_batches(n_out, cfg, batches, deltas),
            holds_batches(n_out, cfg, other_batches, other_deltas),
            batches.to_multiset() == other_batches.to_multiset(),
            cfg.has_cont,
            0 <= band < n_out,
        ensures
            self.read(states.last(), cell, band) == self.read(other_states.last(), cell, band),
    {
        let f = |t: T, b: Batch<L::Value>| (self.join)(t, self.events((b.events)(cell, band)));
        self.read_measures_every_store(states, deltas, cell, band);
        self.read_measures_every_store(other_states, other_deltas, cell, band);
        self.lemma_batches_all(n_out, cfg, batches, deltas, cell, band);
        self.lemma_batches_all(n_out, cfg, other_batches, other_deltas, cell, band);
        assert forall|x: Batch<L::Value>, y: Batch<L::Value>, v: T| #[trigger] f(f(v, x), y) == f(
            f(v, y),
            x,
        ) by {
            self.lemma_swap(
                v,
                self.events((x.events)(cell, band)),
                self.events((y.events)(cell, band)),
            );
        }
        assert(commutative_foldl(f));
        lemma_fold_left_permutation(batches, other_batches, f, self.none);
    }

    /// Indexing rows `from..mid` and rows `mid..to` measures what indexing rows
    /// `from..to` measures.
    pub proof fn stripes_split_anywhere_measure_alike<
        P: Fn(usize, usize, usize) -> Option<Sample<L::Value>>,
        Q: Fn(usize, usize) -> Result<Option<Spherical>, A5CogError>,
    >(
        &self,
        st: Stripe,
        mid: usize,
        mask: Option<&CellMask>,
        sample: P,
        point: Q,
        first: Seq<RowData<L::Value>>,
        second: Seq<RowData<L::Value>>,
        first_store: CellStore<L>,
        second_store: CellStore<L>,
        whole_store: CellStore<L>,
        before: PartitionedStore<L>,
        between: PartitionedStore<L>,
        after: PartitionedStore<L>,
        after_whole: PartitionedStore<L>,
        cell: u64,
        band: int,
    )
        requires
            self.wf(),
            st.from <= mid <= st.to,
            first.len() == mid - st.from,
            second.len() == st.to - mid,
            rows_processed(rows_within(st, st.from, mid), mask, sample, point, first),
            rows_processed(rows_within(st, mid, st.to), mask, sample, point, second),
            built_from(st.n_out, st.cfg, rows_batch(first, first.len() as int), first_store),
            built_from(st.n_out, st.cfg, rows_batch(second, second.len() as int), second_store),
            built_from(
                st.n_out,
                st.cfg,
                rows_batch(first + second, (first + second).len() as int),
                whole_store,
            ),
            first_store.wf(),
            second_store.wf(),
            whole_store.wf(),
            before.wf(),
            between.wf(),
            after.wf(),
            after_whole.wf(),
            between.log2p == before.log2p,
            after.log2p == before.log2p,
            after_whole.log2p == before.log2p,
            before.parts@[0].same_shape(&first_store),
            parts_absorbed(before, first_store, between),
            parts_absorbed(between, second_store, after),
            parts_absorbed(before, whole_store, after_whole),
            st.cfg.has_cont,
            0 <= band < st.n_out,
        ensures
            self.read(after, cell, band) == self.read(after_whole, cell, band),
    {
        rows_split_anywhere(st, mid, mask, sample, point, first, second);
        let a = rows_batch(first, first.len() as int);
        let b = rows_batch(second, second.len() as int);
        let c = rows_batch(first + second, (first + second).len() as int);
        lemma_rows_batch_wf(first, first.len() as int);
        lemma_rows_batch_wf(second, second.len() as int);
        lemma_rows_batch_wf(first + second, (first + second).len() as int);
        assert(holds_batch(st.n_out, st.cfg, a, first_store));
        assert(holds_batch(st.n_out, st.cfg, b, second_store));
        assert(holds_batch(st.n_out, st.cfg, c, whole_store));
        self.store_measures_its_batch(st.n_out, st.cfg, a, first_store, cell, band);
        self.store_measures_its_batch(st.n_out, st.cfg, b, second_store, cell, band);
        self.store_measures_its_batch(st.n_out, st.cfg, c, whole_store, cell, band);
        let (ea, eb) = ((a.events)(cell, band), (b.events)(cell, band));
        assert((c.events)(cell, band) == ea + eb);
        self.lemma_events_join(ea, eb);
        lemma_built_shape(st.n_out, st.cfg, a, first_store);
        lemma_built_shape(st.n_out, st.cfg, b, second_store);
        lemma_built_shape(st.n_out, st.cfg, c, whole_store);
        partition_in_range(0, before.log2p);
        assert(between.parts@[0].same_shape(&before.parts@[0]));
        self.absorbing_joins_the_store(before, first_store, between, cell, band);
        self.absorbing_joins_the_store(between, second_store, after, cell, band);
        self.absorbing_joins_the_store(before, whole_store, after_whole, cell, band);
        self.lemma_grouping(
            self.read(before, cell, band),
            self.stored(first_store, cell, band),
            self.stored(second_store, cell, band),
        );
    }

    proof fn lemma_all_of_groups(&self, groups: Seq<Seq<T>>, sums: Seq<T>)
        requires
            self.joins(),
            sums.len() == groups.len(),
            forall|i: int| 0 <= i < groups.len() ==> #[trigger] sums[i] == self.all(groups[i]),
        ensures
            self.all(groups.flatten()) == self.all(sums),
        decreases groups.len(),
    {
        groups.lemma_flatten_and_flatten_alt_are_equivalent();
        if groups.len() > 0 {
            let front = groups.drop_last();
            front.lemma_flatten_and_flatten_alt_are_equivalent();
            self.lemma_all_of_groups(front, sums.drop_last());
            self.lemma_all_join(front.flatten(), groups.last());
            assert(sums[groups.len() - 1] == self.all(groups[groups.len() - 1]));
        } else {
            assert(groups.flatten() =~= Seq::<T>::empty());
        }
    }

    /// The measures of the stores of each chunk.
    pub open spec fn chunks_stored(
        &self,
        chunks: Seq<Seq<CellStore<L>>>,
        cell: u64,
        band: int,
    ) -> Seq<Seq<T>> {
        Seq::new(chunks.len(), |k: int| self.all_stored(chunks[k], cell, band))
    }

    /// Where the stripes of a read are dealt out to chunks, each to one chunk, and
    /// each chunk is read by itself, the measures of the chunks join to those of
    /// the read.
    pub proof fn chunks_join_up(
        &self,
        states: Seq<PartitionedStore<L>>,
        deltas: Seq<CellStore<L>>,
        chunk_states: Seq<Seq<PartitionedStore<L>>>,
        chunk_deltas: Seq<Seq<CellStore<L>>>,
        chunks: Seq<T>,
        cell: u64,
        band: int,
    )
        requires
            self.wf(),
            read_of(states, deltas, band),
            states[0].parts@[0].cfg.has_cont,
            chunk_states.len() == chunk_deltas.len(),
            chunks.len() == chunk_deltas.len(),
            forall|k: int|
                #![trigger chunk_deltas[k]]
                0 <= k < chunk_deltas.len() ==> read_of(chunk_states[k], chunk_deltas[k], band)
                    && chunk_states[k][0].parts@[0].cfg.has_cont && chunks[k] == self.read(
                    chunk_states[k].last(),
                    cell,
                    band,
                ),
            self.all_stored(deltas, cell, band).to_multiset() == self.chunks_stored(
                chunk_deltas,
                cell,
                band,
            ).flatten().to_multiset(),
        ensures
            self.read(states.last(), cell, band) == self.all(chunks),
    {
        let groups = self.chunks_stored(chunk_deltas, cell, band);
        self.read_measures_every_store(states, deltas, cell, band);
        self.lemma_all_order_free(self.all_stored(deltas, cell, band), groups.flatten());
        assert forall|k: int| 0 <= k < groups.len() implies #[trigger] chunks[k] == self.all(
            groups[k],
        ) by {
            assert(chunk_deltas[k].len() >= 0);
            self.read_measures_every_store(chunk_states[k], chunk_deltas[k], cell, band);
        }
        self.lemma_all_of_groups(groups, chunks);
    }

    /// `masked` measures what `all` does for the cells of the mask, and nothing for
    /// any other cell.
    pub open spec fn restricted(
        &self,
        all: CellStore<L>,
        masked: CellStore<L>,
        mask: &CellMask,
        resolution: i32,
        cell: u64,
        band: int,
    ) -> bool {
        self.stored(masked, cell, band) == if in_area(mask.members(), cell, resolution) {
            self.stored(all, cell, band)
        } else {
            self.none
        }
    }

    /// The store of a masked stripe measures what that of the unmasked one does, for
    /// the cells of the mask.
    pub proof fn masked_stripe_measures_alike(
        &self,
        n_out: usize,
        cfg: AccCfg,
        all: Batch<L::Value>,
        masked: Batch<L::Value>,
        mask: &CellMask,
        resolution: i32,
        all_store: CellStore<L>,
        masked_store: CellStore<L>,
        cell: u64,
        band: int,
    )
        requires
            self.wf(),
            holds_batch(n_out, cfg, all, all_store),
            holds_batch(n_out, cfg, masked, masked_store),
            selects_cells(all, masked, mask, resolution),
            cfg.has_cont,
            cell != NO_CELL,
            0 <= band < n_out,
        ensures
            self.restricted(all_store, masked_store, mask, resolution, cell, band),
    {
        self.store_measures_its_batch(n_out, cfg, all, all_store, cell, band);
        self.store_measures_its_batch(n_out, cfg, masked, masked_store, cell, band);
        if in_area(mask.members(), cell, resolution) {
            assert(gives_alike(all, masked, cell));
            assert((all.events)(cell, band) == (masked.events)(cell, band));
        } else {
            assert(gives_nothing(masked, cell));
            assert((masked.events)(cell, band).len() == 0);
        }
    }

    /// A masked read measures what the unmasked one does, for the cells of the mask,
    /// whatever the merge orders and numbers of partitions.
    pub proof fn masked_read_measures_alike(
        &self,
        states: Seq<PartitionedStore<L>>,
        deltas: Seq<CellStore<L>>,
        masked_states: Seq<PartitionedStore<L>>,
        masked_deltas: Seq<CellStore<L>>,
        mask: &CellMask,
        resolution: i32,
        cell: u64,
        band: int,
    )
        requires
            self.wf(),
            read_of(states, deltas, band),
            read_of(masked_states, masked_deltas, band),
            states[0].parts@[0].cfg.has_cont,
            masked_states[0].parts@[0].cfg.has_cont,
            masked_deltas.len() == deltas.len(),
            forall|i: int|
                0 <= i < deltas.len() ==> self.restricted(
                    #[trigger] deltas[i],
                    masked_deltas[i],
                    mask,
                    resolution,
                    cell,
                    band,
                ),
        ensures
            self.read(masked_states.last(), cell, band) == (if in_area(
                mask.members(),
                cell,
                resolution,
            ) {
                self.read(states.last(), cell, band)
            } else {
                self.none
            }),
    {
        self.read_measures_every_store(states, deltas, cell, band);
        self.read_measures_every_store(masked_states, masked_deltas, cell, band);
        let xs = self.all_stored(masked_deltas, cell, band);
        if in_area(mask.members(), cell, resolution) {
            assert forall|i: int| 0 <= i < xs.len() implies #[trigger] xs[i] == self.stored(
                deltas[i],
                cell,
                band,
            ) by {
                assert(self.restricted(
                    deltas[i],
                    masked_deltas[i],
                    mask,
                    resolution,
                    cell,
                    band,
                ));
            }
            assert(xs =~= self.all_stored(deltas, cell, band));
        } else {
            assert forall|i: int| 0 <= i < xs.len() implies #[trigger] xs[i] == self.none by {
                assert(self.restricted(
                    deltas[i],
                    masked_deltas[i],
                    mask,
                    resolution,
                    cell,
                    band,
                ));
            }
            self.lemma_all_none(xs);
        }
    }

    proof fn lemma_all_none(&self, xs: Seq<T>)
        requires
            self.joins(),
            forall|i: int| 0 <= i < xs.len() ==> #[trigger] xs[i] == self.none,
        ensures
            self.all(xs) == self.none,
        decreases xs.len(),
    {
        if xs.len() > 0 {
            self.lemma_all_none(xs.drop_last());
            assert(xs[xs.len() - 1] == self.none);
            self.lemma_unit(self.none);
        }
    }

    // -----------------------------------------------------------------------
    // chunks that are aligned with blocks

    /// What these tiles measure joined, where `per_tile` is the measure of each.
    pub open spec fn tiles(
        &self,
        tiles: Seq<(usize, usize)>,
        per_tile: spec_fn((usize, usize)) -> T,
    ) -> T {
        tiles.fold_left(self.none, |t: T, x: (usize, usize)| (self.join)(t, per_tile(x)))
    }

    proof fn lemma_tiles_join(
        &self,
        a: Seq<(usize, usize)>,
        b: Seq<(usize, usize)>,
        per_tile: spec_fn((usize, usize)) -> T,
    )
        requires
            self.joins(),
        ensures
            self.tiles(a + b, per_tile) == (self.join)(
                self.tiles(a, per_tile),
                self.tiles(b, per_tile),
            ),
        decreases b.len(),
    {
        if b.len() == 0 {
            assert(a + b == a);
            self.lemma_unit(self.tiles(a, per_tile));
        } else {
            assert((a + b).drop_last() == a + b.drop_last());
            self.lemma_tiles_join(a, b.drop_last(), per_tile);
            self.lemma_grouping(
                self.tiles(a, per_tile),
                self.tiles(b.drop_last(), per_tile),
                per_tile(b.last()),
            );
        }
    }

    proof fn lemma_gathered(
        &self,
        tiles: Seq<(usize, usize)>,
        points: Seq<TilePoints>,
        boxes: Seq<KeyBox>,
        per_tile: spec_fn((usize, usize)) -> T,
        chunks: Seq<T>,
        n: int,
        k: int,
    )
        requires
            self.joins(),
            chunks.len() == boxes.len(),
            0 <= k <= boxes.len(),
            forall|i: int|
                0 <= i < boxes.len() ==> #[trigger] chunks[i] == self.tiles(
                    owned_tiles(tiles, points, boxes[i], n),
                    per_tile,
                ),
        ensures
            self.tiles(gathered(tiles, points, boxes, n, k), per_tile) == self.all(chunks.take(k)),
        decreases k,
    {
        if k > 0 {
            self.lemma_gathered(tiles, points, boxes, per_tile, chunks, n, k - 1);
            self.lemma_tiles_join(
                gathered(tiles, points, boxes, n, k - 1),
                owned_tiles(tiles, points, boxes[k - 1], n),
                per_tile,
            );
            assert(chunks.take(k).drop_last() == chunks.take(k - 1));
            assert(chunks[k - 1] == chunks.take(k).last());
        } else {
            assert(chunks.take(0) =~= Seq::<T>::empty());
        }
    }

    /// Where boxes tile a whole, and each read takes the tiles whose representative
    /// is in its box, the measures of the boxes' reads join to those of the whole's.
    /// Counts of values add up so, and extremes are the extreme of the chunks'.
    pub proof fn aligned_chunks_join_up(
        &self,
        tiles: Seq<(usize, usize)>,
        points: Seq<TilePoints>,
        whole: KeyBox,
        boxes: Seq<KeyBox>,
        per_tile: spec_fn((usize, usize)) -> T,
        states: Seq<PartitionedStore<L>>,
        deltas: Seq<CellStore<L>>,
        chunk_states: Seq<Seq<PartitionedStore<L>>>,
        chunk_deltas: Seq<Seq<CellStore<L>>>,
        chunks: Seq<T>,
        cell: u64,
        band: int,
    )
        requires
            self.wf(),
            tiles_box(whole, boxes),
            points.len() == tiles.len(),
            read_of(states, deltas, band),
            states[0].parts@[0].cfg.has_cont,
            self.all(self.all_stored(deltas, cell, band)) == self.tiles(
                owned_tiles(tiles, points, whole, tiles.len() as int),
                per_tile,
            ),
            chunk_states.len() == boxes.len(),
            chunk_deltas.len() == boxes.len(),
            chunks.len() == boxes.len(),
            forall|k: int|
                #![trigger chunk_deltas[k]]
                0 <= k < chunk_deltas.len() ==> {
                    &&& read_of(chunk_states[k], chunk_deltas[k], band)
                    &&& chunk_states[k][0].parts@[0].cfg.has_cont
                    &&& self.all(self.all_stored(chunk_deltas[k], cell, band)) == self.tiles(
                        owned_tiles(tiles, points, boxes[k], tiles.len() as int),
                        per_tile,
                    )
                    &&& chunks[k] == self.read(chunk_states[k].last(), cell, band)
                },
        ensures
            self.read(states.last(), cell, band) == self.all(chunks),
    {
        let n = tiles.len() as int;
        let m = boxes.len() as int;
        self.read_measures_every_store(states, deltas, cell, band);
        tiling_boxes_share_out_the_tiles(tiles, points, whole, boxes, n);
        let f = |t: T, x: (usize, usize)| (self.join)(t, per_tile(x));
        assert forall|x: (usize, usize), y: (usize, usize), v: T| #[trigger] f(f(v, x), y) == f(
            f(v, y),
            x,
        ) by {
            self.lemma_swap(v, per_tile(x), per_tile(y));
        }
        assert(commutative_foldl(f));
        lemma_fold_left_permutation(
            owned_tiles(tiles, points, whole, n),
            gathered(tiles, points, boxes, n, m),
            f,
            self.none,
        );
        assert forall|k: int| 0 <= k < boxes.len() implies #[trigger] chunks[k] == self.tiles(
            owned_tiles(tiles, points, boxes[k], n),
            per_tile,
        ) by {
            assert(chunk_deltas[k].len() >= 0);
            self.read_measures_every_store(chunk_states[k], chunk_deltas[k], cell, band);
        }
        self.lemma_gathered(tiles, points, boxes, per_tile, chunks, n, m);
        assert(chunks.take(m) == chunks);
    }

    // -----------------------------------------------------------------------
    // whole reads

    /// Two reads that index the same pixels, cut into the same stripes, give the same
    /// result, however many workers and partitions each had and whichever stripe was
    /// done first: both list the same cells, each once, and a cell has in both the
    /// same pixel weight, class weights and measures.
    pub proof fn same_stripes_give_the_same_result(
        &self,
        cfg: AccCfg,
        n_out: usize,
        batches: Seq<Batch<L::Value>>,
        states: Seq<PartitionedStore<L>>,
        deltas: Seq<CellStore<L>>,
        cells: Seq<u64>,
        other_batches: Seq<Batch<L::Value>>,
        other_states: Seq<PartitionedStore<L>>,
        other_deltas: Seq<CellStore<L>>,
        other_cells: Seq<u64>,
        cell: u64,
        band: int,
        class: i32,
    )
        requires
            self.wf(),
            read_of(states, deltas, band),
            read_of(other_states, other_deltas, band),
            states[0].parts@[0].cfg == cfg,
            other_states[0].parts@[0].cfg == cfg,
            holds_batches(n_out, cfg, batches, deltas),
            holds_batches(n_out, cfg, other_batches, other_deltas),
            batches.to_multiset() == other_batches.to_multiset(),
            is_output_order(states.last().parts@, cells),
            is_output_order(other_states.last().parts@, other_cells),
            0 <= band < n_out,
        ensures
            cells.no_duplicates(),
            other_cells.no_duplicates(),
            cells.contains(cell) == other_cells.contains(cell),
            read_tally(states.last(), cell, band, class) == read_tally(
                other_states.last(),
                cell,
                band,
                class,
            ),
            cfg.has_cont ==> self.read(states.last(), cell, band) == self.read(
                other_states.last(),
                cell,
                band,
            ),
    {
        reads_of_the_same_stripes_agree(
            cfg,
            n_out,
            batches,
            states,
            deltas,
            other_batches,
            other_states,
            other_deltas,
            cell,
            band,
            class,
        );
        assert(states[states.len() - 1].wf());
        assert(other_states[other_states.len() - 1].wf());
        output_lists_the_cells(states.last(), cells, cell);
        output_lists_the_cells(other_states.last(), other_cells, cell);
        if cfg.has_cont {
            self.reads_of_the_same_stripes_measure_alike(
                cfg,
                n_out,
                batches,
                states,
                deltas,
                other_batches,
                other_states,
                other_deltas,
                cell,
                band,
            );
        }
    }

    /// A masked read gives the unmasked one restricted to the cells of the mask: it
    /// lists exactly the cells of the other that the mask allows, each once, and such
    /// a cell has in both the same pixel weight, class weights and measures.
    pub proof fn masked_result_is_restricted(
        &self,
        cfg: AccCfg,
        n_out: usize,
        mask: &CellMask,
        resolution: i32,
        batches: Seq<Batch<L::Value>>,
        states: Seq<PartitionedStore<L>>,
        deltas: Seq<CellStore<L>>,
        cells: Seq<u64>,
        masked_batches: Seq<Batch<L::Value>>,
        masked_states: Seq<PartitionedStore<L>>,
        masked_deltas: Seq<CellStore<L>>,
        masked_cells: Seq<u64>,
        cell: u64,
        band: int,
        class: i32,
    )
        requires
            self.wf(),
            read_of(states, deltas, band),
            read_of(masked_states, masked_deltas, band),
            states[0].parts@[0].cfg == cfg,
            masked_states[0].parts@[0].cfg == cfg,
            holds_batches(n_out, cfg, batches, deltas),
            holds_batches(n_out, cfg, masked_batches, masked_deltas),
            masked_batches.len() == batches.len(),
            forall|i: int|
                0 <= i < batches.len() ==> selects_cells(
                    #[trigger] batches[i],
                    masked_batches[i],
                    mask,
                    resolution,
                ),
            is_output_order(states.last().parts@, cells),
            is_output_order(masked_states.last().parts@, masked_cells),
            cell != NO_CELL,
            0 <= band < n_out,
        ensures
            masked_cells.no_duplicates(),
            masked_cells.contains(cell) == (cells.contains(cell) && in_area(
                mask.members(),
                cell,
                resolution,
            )),
            masked_cells.contains(cell) ==> read_tally(masked_states.last(), cell, band, class)
                == read_tally(states.last(), cell, band, class),
            masked_cells.contains(cell) && cfg.has_cont ==> self.read(
                masked_states.last(),
                cell,
                band,
            ) == self.read(states.last(), cell, band),
    {
        assert forall|i: int| 0 <= i < deltas.len() implies restricted(
            #[trigger] deltas[i],
            masked_deltas[i],
            mask,
            resolution,
            cell,
            band,
            class,
        ) && (cfg.has_cont ==> self.restricted(
            deltas[i],
            masked_deltas[i],
            mask,
            resolution,
            cell,
            band,
        )) by {
            assert(holds_batch(n_out, cfg, batches[i], deltas[i]));
            assert(holds_batch(n_out, cfg, masked_batches[i], masked_deltas[i]));
            assert(selects_cells(batches[i], masked_batches[i], mask, resolution));
            masked_stripe_is_restricted(
                n_out,
                cfg,
                batches[i],
                masked_batches[i],
                mask,
                resolution,
                deltas[i],
                masked_deltas[i],
                cell,
                band,
                class,
            );
            if cfg.has_cont {
                self.masked_stripe_measures_alike(
                    n_out,
                    cfg,
                    batches[i],
                    masked_batches[i],
                    mask,
                    resolution,
                    deltas[i],
                    masked_deltas[i],
                    cell,
                    band,
                );
            }
        }
        masked_read_is_restricted(
            states,
            deltas,
            masked_states,
            masked_deltas,
            mask,
            resolution,
            cell,
            band,
            class,
        );
        assert(states[states.len() - 1].wf());
        assert(masked_states[masked_states.len() - 1].wf());
        output_lists_the_cells(states.last(), cells, cell);
        output_lists_the_cells(masked_states.last(), masked_cells, cell);
        if cfg.has_cont {
            self.masked_read_measures_alike(
                states,
                deltas,
                masked_states,
                masked_deltas,
                mask,
                resolution,
                cell,
                band,
            );
        }
    }
}

} // verus!
