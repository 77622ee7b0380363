//! What a read counts, however it is cut into stripes and chunks and spread over
//! workers.
//!
//! The cells of a read, their pixel weights and their class weights are whole
//! numbers, so they come out the same in whatever order stripes are merged and
//! over however many partitions the cells are spread.

use vstd::prelude::*;
use vstd::seq_lib::{commutative_foldl, lemma_fold_left_permutation};

use a5::coordinate_systems::Spherical;

use crate::accumulate::{
    batch_added, batch_wf, capped_add, gives_alike, gives_nothing, grown_acc, selects_cells, Batch,
    Sample,
};
use crate::aggregate::{
    is_output_order, lemma_find_part, lemma_part_start, output_cells_are_distinct, part_start,
};
use crate::classes::{
    capped, capped_sum, class_weight, classes_merged, code_weight, lemma_code_weight_distinct,
    lemma_code_weight_join, lemma_merge_into_none, merging_adds_class_by_class,
};
use crate::error::A5CogError;
use crate::locator::NO_CELL;
use crate::mask::{in_area, CellMask};
use crate::partition::{partition, partition_count, partition_in_range};
use crate::plan::{
    gathered, owned_tiles, tiles_box, tiling_boxes_share_out_the_tiles, KeyBox, TilePoints,
};
use crate::stats::AccCfg;
use crate::store::{
    absorbed_cells_are_grouped_once, entry_merged, extends, group_classes, group_merged, group_npix,
    in_group, lemma_partition_group, lemma_prior_classes_wf, merged_acc, merging_adds_the_group,
    own_cells, partition_group, parts_absorbed, same_entry, valid_group, AccLayout, CellStore,
    PartitionedStore,
};
use crate::tile::{
    built_from, is_empty_store, lemma_rows_batch_wf, rows_batch, rows_processed, rows_split_anywhere,
    rows_within, RowData, Stripe,
};

verus! {

/// What was counted for one cell, for one band and class of it.
pub struct Tally {
    /// The cell was seen.
    pub seen: bool,
    /// Its pixel weight.
    pub npix: nat,
    /// The weight of the class in the band.
    pub weight: nat,
}

/// Nothing was counted.
pub open spec fn nothing() -> Tally {
    Tally { seen: false, npix: 0, weight: 0 }
}

/// What two tallies count together.
pub open spec fn together(a: Tally, b: Tally) -> Tally {
    Tally { seen: a.seen || b.seen, npix: a.npix + b.npix, weight: a.weight + b.weight }
}

/// A tally with its weights held at the largest representable one.
pub open spec fn held(t: Tally) -> Tally {
    Tally { seen: t.seen, npix: capped(t.npix), weight: capped(t.weight) }
}

/// What all tallies count together.
pub open spec fn total(ts: Seq<Tally>) -> Tally {
    ts.fold_left(nothing(), |a: Tally, b: Tally| together(a, b))
}

/// What a store has counted.
pub open spec fn tally<L: AccLayout>(s: CellStore<L>, cell: u64, band: int, class: i32) -> Tally {
    Tally {
        seen: s.has(cell),
        npix: if s.cfg.has_npix {
            s.prior_npix(cell) as nat
        } else {
            0
        },
        weight: if s.cfg.has_cat {
            class_weight(s.prior_classes(cell, band), class)
        } else {
            0
        },
    }
}

/// What each of several stores has counted.
pub open spec fn tallies<L: AccLayout>(
    stores: Seq<CellStore<L>>,
    cell: u64,
    band: int,
    class: i32,
) -> Seq<Tally> {
    Seq::new(stores.len(), |i: int| tally(stores[i], cell, band, class))
}

/// The partition that a cell belongs to.
pub open spec fn part_of<L: AccLayout>(s: PartitionedStore<L>, cell: u64) -> CellStore<L> {
    s.parts@[partition(cell, s.log2p)]
}

/// What a read has counted.
pub open spec fn read_tally<L: AccLayout>(
    s: PartitionedStore<L>,
    cell: u64,
    band: int,
    class: i32,
) -> Tally {
    tally(part_of(s, cell), cell, band, class)
}

// ---------------------------------------------------------------------------
// sums of tallies

proof fn lemma_total_push(ts: Seq<Tally>, t: Tally)
    ensures
        total(ts.push(t)) == together(total(ts), t),
{
    assert(ts.push(t).drop_last() == ts);
}

proof fn lemma_total_join(a: Seq<Tally>, b: Seq<Tally>)
    ensures
        total(a + b) == together(total(a), total(b)),
    decreases b.len(),
{
    if b.len() == 0 {
        assert(a + b == a);
    } else {
        assert((a + b).drop_last() == a + b.drop_last());
        lemma_total_join(a, b.drop_last());
    }
}

/// The order of tallies does not change what they count together.
pub proof fn totals_are_order_free(a: Seq<Tally>, b: Seq<Tally>)
    requires
        a.to_multiset() == b.to_multiset(),
    ensures
        total(a) == total(b),
{
    let f = |x: Tally, y: Tally| together(x, y);
    assert(commutative_foldl(f));
    lemma_fold_left_permutation(a, b, f, nothing());
}

// ---------------------------------------------------------------------------
// merging stores into the partitions

pub(crate) proof fn lemma_grouped<L: AccLayout>(delta: CellStore<L>, log2p: u32, cell: u64)
    requires
        delta.wf(),
        log2p <= crate::partition::MAX_LOG2P,
    ensures
        in_group(delta, partition_group(delta, log2p, partition(cell, log2p)), cell) == delta.has(
            cell,
        ),
        0 <= partition(cell, log2p) < partition_count(log2p),
{
    let p = partition(cell, log2p);
    let g = partition_group(delta, log2p, p);
    partition_in_range(cell, log2p);
    lemma_partition_group(delta, log2p, p);
    if delta.has(cell) {
        let i = delta.slot_of(cell);
        assert(delta.cells@[i] == cell);
        absorbed_cells_are_grouped_once(delta, log2p, i, p);
        let t = choose|t: int| 0 <= t < g.len() && g[t] == i as usize;
        assert(delta.cells@[g[t] as int] == cell);
    }
    if in_group(delta, g, cell) {
        let t = choose|t: int| 0 <= t < g.len() && delta.cells@[#[trigger] g[t] as int] == cell;
        assert(delta.has(delta.cells@[g[t] as int]));
    }
}

/// Merging a store adds what it has counted, cell by cell.
pub proof fn absorbing_adds_the_store<L: AccLayout>(
    before: PartitionedStore<L>,
    delta: CellStore<L>,
    after: PartitionedStore<L>,
    cell: u64,
    band: int,
    class: i32,
)
    requires
        before.wf(),
        delta.wf(),
        after.wf(),
        after.log2p == before.log2p,
        before.parts@[0].same_shape(&delta),
        parts_absorbed(before, delta, after),
        0 <= band < delta.n_out,
    ensures
        read_tally(after, cell, band, class) == held(
            together(read_tally(before, cell, band, class), tally(delta, cell, band, class)),
        ),
{
    let p = partition(cell, before.log2p);
    let g = partition_group(delta, before.log2p, p);
    lemma_grouped(delta, before.log2p, cell);
    lemma_partition_group(delta, before.log2p, p);
    let b = before.parts@[p];
    let a = after.parts@[p];
    assert(b.wf() && b.same_shape(&before.parts@[0]));
    assert(a.wf());
    merging_adds_the_group(b, delta, g, a, cell, band);
    assert(group_npix(delta, g, cell) == delta.prior_npix(cell));
    assert(group_classes(delta, g, cell, band) == delta.prior_classes(cell, band));
    if b.cfg.has_cat {
        lemma_prior_classes_wf(b, cell, band);
        lemma_prior_classes_wf(delta, cell, band);
        lemma_code_weight_distinct(delta.prior_classes(cell, band), class);
        merging_adds_class_by_class(
            b.prior_classes(cell, band),
            delta.prior_classes(cell, band),
            class,
        );
    }
}

/// Merging into a new accumulator gives the other one.
pub open spec fn new_is_neutral<L: AccLayout>() -> bool {
    forall|z: L, o: L, r: L|
        call_ensures(L::new, (), z) && #[trigger] call_ensures(L::merge, (z, o), r) ==> r == o
}

/// `a` holds of the cell what `b` and `d` hold of it, merged.
pub open spec fn cell_merged<L: AccLayout>(
    b: CellStore<L>,
    d: CellStore<L>,
    a: CellStore<L>,
    cell: u64,
    band: int,
) -> bool {
    &&& d.cfg.has_cont ==> call_ensures(
        L::merge,
        (b.prior_acc(cell, band)->Some_0, d.prior_acc(cell, band)->Some_0),
        a.prior_acc(cell, band)->Some_0,
    )
    &&& d.cfg.has_cat ==> classes_merged(
        b.prior_classes(cell, band),
        d.prior_classes(cell, band),
    ) == Some(a.prior_classes(cell, band))
    &&& d.cfg.has_npix ==> a.prior_npix(cell) == capped_sum(
        b.prior_npix(cell),
        d.prior_npix(cell),
    )
}

/// `a` holds of the cell what `d` holds of it, where merging into a new accumulator
/// gives the other one.
pub open spec fn cell_taken<L: AccLayout>(
    d: CellStore<L>,
    a: CellStore<L>,
    cell: u64,
    band: int,
) -> bool {
    &&& d.cfg.has_cont && new_is_neutral::<L>() ==> a.prior_acc(cell, band) == d.prior_acc(
        cell,
        band,
    )
    &&& d.cfg.has_cat ==> a.prior_classes(cell, band) == d.prior_classes(cell, band)
    &&& d.cfg.has_npix ==> a.prior_npix(cell) == d.prior_npix(cell)
}

/// `a` holds of the cell what `b` holds of it.
pub open spec fn cell_kept<L: AccLayout>(
    b: CellStore<L>,
    a: CellStore<L>,
    cell: u64,
    band: int,
) -> bool {
    &&& b.cfg.has_cont ==> a.prior_acc(cell, band) == b.prior_acc(cell, band)
    &&& b.cfg.has_cat ==> a.prior_classes(cell, band) == b.prior_classes(cell, band)
    &&& b.cfg.has_npix ==> a.prior_npix(cell) == b.prior_npix(cell)
}

proof fn lemma_cell_given<L: AccLayout>(
    b: CellStore<L>,
    d: CellStore<L>,
    g: Seq<usize>,
    a: CellStore<L>,
    cell: u64,
    band: int,
)
    requires
        b.wf(),
        d.wf(),
        a.wf(),
        b.same_shape(&d),
        valid_group(d, g),
        group_merged(b, d, g, a),
        in_group(d, g, cell),
        0 <= band < d.n_out,
    ensures
        a.has(cell),
        d.has(cell),
        b.has(cell) ==> cell_merged(b, d, a, cell, band),
        !b.has(cell) ==> cell_taken(d, a, cell, band),
{
    let t = choose|t: int| 0 <= t < g.len() && d.cells@[#[trigger] g[t] as int] == cell;
    let i = g[t] as int;
    assert(entry_merged(b, d, i, a));
    assert(d.has(d.cells@[i]));
    assert(d.slot_of(cell) == i);
    let s = a.slot_of(cell);
    if d.cfg.has_cont {
        assert(merged_acc(b.prior_acc(cell, band), d.acc(i, band), a.acc(s, band)));
    }
    if d.cfg.has_cat {
        assert(classes_merged(b.prior_classes(cell, band), d.classes(i, band)) == Some(
            a.classes(s, band),
        ));
        if !b.has(cell) {
            lemma_prior_classes_wf(d, cell, band);
            assert(b.prior_classes(cell, band) =~= Seq::<(i32, u64)>::empty());
            lemma_merge_into_none(d.prior_classes(cell, band));
        }
    }
}

proof fn lemma_cell_kept<L: AccLayout>(
    b: CellStore<L>,
    d: CellStore<L>,
    g: Seq<usize>,
    a: CellStore<L>,
    cell: u64,
    band: int,
)
    requires
        b.wf(),
        a.wf(),
        group_merged(b, d, g, a),
        !in_group(d, g, cell),
        0 <= band < b.n_out,
    ensures
        a.has(cell) == b.has(cell),
        cell_kept(b, a, cell, band),
{
    if b.has(cell) {
        let j = b.slot_of(cell);
        assert(b.cells@[j] == cell);
        assert(a.cells@[j] == cell);
        assert(a.slot_of(cell) == j);
        assert(same_entry(b, j, a, j));
        if b.cfg.has_cont {
            assert(b.acc(j, band) == a.acc(j, band));
        }
        if b.cfg.has_cat {
            assert(b.classes(j, band) == a.classes(j, band));
        }
    }
}

/// What merging a store does, cell by cell. The cells afterwards are those before
/// and those of the store, each in its own partition alone. A cell of both has its
/// accumulators, classes and pixel weight merged; a cell of the store alone has the
/// store's, where merging into a new accumulator gives the other one; every other
/// cell is unchanged.
pub proof fn absorbing_merges_cell_by_cell<L: AccLayout>(
    before: PartitionedStore<L>,
    delta: CellStore<L>,
    after: PartitionedStore<L>,
    cell: u64,
    band: int,
)
    requires
        before.wf(),
        delta.wf(),
        after.wf(),
        after.log2p == before.log2p,
        before.parts@[0].same_shape(&delta),
        parts_absorbed(before, delta, after),
        0 <= band < delta.n_out,
    ensures
        part_of(after, cell).has(cell) == (part_of(before, cell).has(cell) || delta.has(cell)),
        forall|p: int|
            0 <= p < after.parts@.len() && (#[trigger] after.parts@[p]).has(cell) ==> p
                == partition(cell, after.log2p),
        part_of(before, cell).has(cell) && delta.has(cell) ==> cell_merged(
            part_of(before, cell),
            delta,
            part_of(after, cell),
            cell,
            band,
        ),
        !part_of(before, cell).has(cell) && delta.has(cell) ==> cell_taken(
            delta,
            part_of(after, cell),
            cell,
            band,
        ),
        !delta.has(cell) ==> cell_kept(part_of(before, cell), part_of(after, cell), cell, band),
{
    let p = partition(cell, before.log2p);
    let g = partition_group(delta, before.log2p, p);
    lemma_grouped(delta, before.log2p, cell);
    lemma_partition_group(delta, before.log2p, p);
    let b = before.parts@[p];
    let a = after.parts@[p];
    assert(b.wf() && b.same_shape(&before.parts@[0]));
    assert(a.wf());
    assert(group_merged(b, delta, g, a));
    if delta.has(cell) {
        lemma_cell_given(b, delta, g, a, cell, band);
    } else {
        lemma_cell_kept(b, delta, g, a, cell, band);
    }
    assert forall|q: int|
        0 <= q < after.parts@.len() && (#[trigger] after.parts@[q]).has(cell) implies q
        == partition(cell, after.log2p) by {
        let s = after.parts@[q];
        assert(s.cells@[s.slot_of(cell)] == cell);
        assert(own_cells(s, after.log2p, q));
    }
}

/// The cells that a read lists are those that it has seen, each once.
pub proof fn output_lists_the_cells<L: AccLayout>(
    s: PartitionedStore<L>,
    cells: Seq<u64>,
    cell: u64,
)
    requires
        s.wf(),
        is_output_order(s.parts@, cells),
    ensures
        cells.contains(cell) == part_of(s, cell).has(cell),
        cells.no_duplicates(),
{
    let n = s.parts@.len() as int;
    let q = partition(cell, s.log2p);
    partition_in_range(cell, s.log2p);
    if cells.contains(cell) {
        let j = choose|j: int| 0 <= j < cells.len() && cells[j] == cell;
        let (p, i) = lemma_find_part(s.parts@, n, j);
        let part = s.parts@[p];
        assert(part.wf() && own_cells(part, s.log2p, p));
        assert(part.cells@[i] == cell);
    }
    if part_of(s, cell).has(cell) {
        let part = s.parts@[q];
        assert(part.wf());
        let i = part.slot_of(cell);
        assert(part.cells@[i] == cell);
        lemma_part_start(s.parts@, q, n);
        assert(cells[part_start(s.parts@, q) + i] == cell);
    }
    assert forall|j: int, k: int| 0 <= j < cells.len() && 0 <= k < cells.len() && j != k implies cells[j]
        != cells[k] by {
        if j < k {
            output_cells_are_distinct(s, cells, j, k);
        } else {
            output_cells_are_distinct(s, cells, k, j);
        }
    }
}

/// `deltas` were merged into partitions one after the other, through `states`.
pub open spec fn absorbed_in_turn<L: AccLayout>(
    states: Seq<PartitionedStore<L>>,
    deltas: Seq<CellStore<L>>,
) -> bool {
    &&& states.len() == deltas.len() + 1
    &&& forall|i: int|
        0 <= i < states.len() ==> (#[trigger] states[i]).wf() && states[i].log2p == states[0].log2p
    &&& forall|i: int|
        #![trigger deltas[i]]
        0 <= i < deltas.len() ==> {
            &&& deltas[i].wf()
            &&& states[i].parts@[0].same_shape(&deltas[i])
            &&& parts_absorbed(states[i], deltas[i], states[i + 1])
        }
}

/// No partition has a cell.
pub open spec fn without_cells<L: AccLayout>(s: PartitionedStore<L>) -> bool {
    forall|p: int| 0 <= p < s.parts@.len() ==> (#[trigger] s.parts@[p]).cells@.len() == 0
}

/// A read of these stores: merged one after the other into partitions that start
/// out empty, for accumulators with this band.
pub open spec fn read_of<L: AccLayout>(
    states: Seq<PartitionedStore<L>>,
    deltas: Seq<CellStore<L>>,
    band: int,
) -> bool {
    &&& absorbed_in_turn(states, deltas)
    &&& without_cells(states[0])
    &&& 0 <= band < states[0].parts@[0].n_out
}

pub(crate) proof fn lemma_shape_kept<L: AccLayout>(
    states: Seq<PartitionedStore<L>>,
    deltas: Seq<CellStore<L>>,
    n: int,
)
    requires
        absorbed_in_turn(states, deltas),
        0 <= n < states.len(),
    ensures
        states[n].parts@[0].same_shape(&states[0].parts@[0]),
    decreases n,
{
    if n > 0 {
        lemma_shape_kept(states, deltas, n - 1);
        assert(deltas[n - 1].wf());
        assert(states[n - 1].wf() && states[n].wf());
        partition_in_range(0, states[0].log2p);
        assert(states[n].parts@[0].same_shape(&states[n - 1].parts@[0]));
    }
}

proof fn lemma_read_prefix<L: AccLayout>(
    states: Seq<PartitionedStore<L>>,
    deltas: Seq<CellStore<L>>,
    cell: u64,
    band: int,
    class: i32,
    n: int,
)
    requires
        read_of(states, deltas, band),
        0 <= n <= deltas.len(),
    ensures
        read_tally(states[n], cell, band, class) == held(
            total(tallies(deltas.take(n), cell, band, class)),
        ),
    decreases n,
{
    let ts = tallies(deltas.take(n), cell, band, class);
    if n == 0 {
        let s = states[0];
        assert(s.wf());
        partition_in_range(cell, s.log2p);
        let p = part_of(s, cell);
        assert(p.wf() && p.cells@.len() == 0);
        assert(!p.has(cell));
        assert(ts.len() == 0);
    } else {
        lemma_read_prefix(states, deltas, cell, band, class, n - 1);
        lemma_shape_kept(states, deltas, n - 1);
        let d = deltas[n - 1];
        assert(d.wf());
        assert(states[n - 1].wf() && states[n].wf());
        absorbing_adds_the_store(states[n - 1], d, states[n], cell, band, class);
        let front = tallies(deltas.take(n - 1), cell, band, class);
        assert(ts =~= front.push(tally(d, cell, band, class)));
        lemma_total_push(front, tally(d, cell, band, class));
    }
}

// ---------------------------------------------------------------------------
// laws

/// A read counts, for every cell, what its stores count together.
pub proof fn read_counts_every_store<L: AccLayout>(
    states: Seq<PartitionedStore<L>>,
    deltas: Seq<CellStore<L>>,
    cell: u64,
    band: int,
    class: i32,
)
    requires
        read_of(states, deltas, band),
    ensures
        read_tally(states.last(), cell, band, class) == held(
            total(tallies(deltas, cell, band, class)),
        ),
{
    lemma_read_prefix(states, deltas, cell, band, class, deltas.len() as int);
    assert(deltas.take(deltas.len() as int) == deltas);
}

/// Neither the order in which stores are merged nor the number of partitions
/// changes a read: where two reads are made of stores that count the same up to
/// order, every cell has the same presence, pixel weight and class weights in
/// both. So the result does not depend on how many workers there are or on which
/// of them is done first.
pub proof fn merge_order_and_workers_do_not_count<L: AccLayout>(
    states: Seq<PartitionedStore<L>>,
    deltas: Seq<CellStore<L>>,
    other_states: Seq<PartitionedStore<L>>,
    other_deltas: Seq<CellStore<L>>,
    cell: u64,
    band: int,
    class: i32,
)
    requires
        read_of(states, deltas, band),
        read_of(other_states, other_deltas, band),
        tallies(deltas, cell, band, class).to_multiset() == tallies(
            other_deltas,
            cell,
            band,
            class,
        ).to_multiset(),
    ensures
        read_tally(states.last(), cell, band, class) == read_tally(
            other_states.last(),
            cell,
            band,
            class,
        ),
{
    read_counts_every_store(states, deltas, cell, band, class);
    read_counts_every_store(other_states, other_deltas, cell, band, class);
    totals_are_order_free(
        tallies(deltas, cell, band, class),
        tallies(other_deltas, cell, band, class),
    );
}

proof fn lemma_held_total(ts: Seq<Tally>, hs: Seq<Tally>)
    requires
        hs.len() == ts.len(),
        forall|i: int| 0 <= i < ts.len() ==> #[trigger] hs[i] == held(ts[i]),
    ensures
        held(total(hs)) == held(total(ts)),
    decreases ts.len(),
{
    if ts.len() > 0 {
        lemma_held_total(ts.drop_last(), hs.drop_last());
        assert(hs[ts.len() - 1] == held(ts[ts.len() - 1]));
    }
}

proof fn lemma_total_of_groups(groups: Seq<Seq<Tally>>, sums: Seq<Tally>)
    requires
        sums.len() == groups.len(),
        forall|i: int| 0 <= i < groups.len() ==> #[trigger] sums[i] == total(groups[i]),
    ensures
        total(groups.flatten()) == total(sums),
    decreases groups.len(),
{
    groups.lemma_flatten_and_flatten_alt_are_equivalent();
    if groups.len() > 0 {
        let front = groups.drop_last();
        front.lemma_flatten_and_flatten_alt_are_equivalent();
        lemma_total_of_groups(front, sums.drop_last());
        lemma_total_join(front.flatten(), groups.last());
        assert(sums[groups.len() - 1] == total(groups[groups.len() - 1]));
    } else {
        assert(groups.flatten() =~= Seq::<Tally>::empty());
    }
}

/// What was counted of each group of a read's tallies adds up to the whole: where
/// the blocks of a read are dealt out to chunks, each block to one chunk, and
/// each chunk is read by itself, the counts of the chunks add up to those of the
/// read, as far as weights can be represented.
pub proof fn chunks_add_up<L: AccLayout>(
    states: Seq<PartitionedStore<L>>,
    deltas: Seq<CellStore<L>>,
    chunk_states: Seq<Seq<PartitionedStore<L>>>,
    chunk_deltas: Seq<Seq<CellStore<L>>>,
    chunks: Seq<Tally>,
    cell: u64,
    band: int,
    class: i32,
)
    requires
        read_of(states, deltas, band),
        chunk_states.len() == chunk_deltas.len(),
        chunks.len() == chunk_deltas.len(),
        forall|k: int|
            #![trigger chunk_deltas[k]]
            0 <= k < chunk_deltas.len() ==> read_of(chunk_states[k], chunk_deltas[k], band)
                && chunks[k] == read_tally(chunk_states[k].last(), cell, band, class),
        tallies(deltas, cell, band, class).to_multiset() == chunk_tallies(
            chunk_deltas,
            cell,
            band,
            class,
        ).flatten().to_multiset(),
    ensures
        read_tally(states.last(), cell, band, class) == held(total(chunks)),
{
    let groups = chunk_tallies(chunk_deltas, cell, band, class);
    read_counts_every_store(states, deltas, cell, band, class);
    totals_are_order_free(tallies(deltas, cell, band, class), groups.flatten());
    let sums = Seq::new(groups.len(), |k: int| total(groups[k]));
    lemma_total_of_groups(groups, sums);
    assert forall|k: int| 0 <= k < sums.len() implies #[trigger] chunks[k] == held(sums[k]) by {
        assert(chunk_deltas[k].len() >= 0);
        read_counts_every_store(chunk_states[k], chunk_deltas[k], cell, band, class);
    }
    lemma_held_total(sums, chunks);
}

/// What these tiles count together, where `per_tile` is what each of them counts.
pub open spec fn tiles_total(
    tiles: Seq<(usize, usize)>,
    per_tile: spec_fn((usize, usize)) -> Tally,
) -> Tally {
    tiles.fold_left(nothing(), |t: Tally, x: (usize, usize)| together(t, per_tile(x)))
}

proof fn lemma_tiles_join(
    a: Seq<(usize, usize)>,
    b: Seq<(usize, usize)>,
    per_tile: spec_fn((usize, usize)) -> Tally,
)
    ensures
        tiles_total(a + b, per_tile) == together(tiles_total(a, per_tile), tiles_total(b, per_tile)),
    decreases b.len(),
{
    if b.len() == 0 {
        assert(a + b == a);
    } else {
        assert((a + b).drop_last() == a + b.drop_last());
        lemma_tiles_join(a, b.drop_last(), per_tile);
    }
}

proof fn lemma_gathered_total(
    tiles: Seq<(usize, usize)>,
    points: Seq<TilePoints>,
    boxes: Seq<KeyBox>,
    per_tile: spec_fn((usize, usize)) -> Tally,
    sums: Seq<Tally>,
    n: int,
    k: int,
)
    requires
        sums.len() == boxes.len(),
        0 <= k <= boxes.len(),
        forall|i: int|
            0 <= i < boxes.len() ==> #[trigger] sums[i] == tiles_total(
                owned_tiles(tiles, points, boxes[i], n),
                per_tile,
            ),
    ensures
        tiles_total(gathered(tiles, points, boxes, n, k), per_tile) == total(sums.take(k)),
    decreases k,
{
    if k > 0 {
        lemma_gathered_total(tiles, points, boxes, per_tile, sums, n, k - 1);
        lemma_tiles_join(
            gathered(tiles, points, boxes, n, k - 1),
            owned_tiles(tiles, points, boxes[k - 1], n),
            per_tile,
        );
        assert(sums.take(k).drop_last() == sums.take(k - 1));
        assert(sums[k - 1] == sums.take(k).last());
    } else {
        assert(sums.take(0) =~= Seq::<Tally>::empty());
    }
}

/// Where boxes tile a whole, and each read takes the tiles whose representative is
/// in its box, the counts of the boxes' reads add up to those of the whole's, as
/// far as weights can be represented.
pub proof fn aligned_chunks_add_up<L: AccLayout>(
    tiles: Seq<(usize, usize)>,
    points: Seq<TilePoints>,
    whole: KeyBox,
    boxes: Seq<KeyBox>,
    per_tile: spec_fn((usize, usize)) -> Tally,
    states: Seq<PartitionedStore<L>>,
    deltas: Seq<CellStore<L>>,
    chunk_states: Seq<Seq<PartitionedStore<L>>>,
    chunk_deltas: Seq<Seq<CellStore<L>>>,
    chunks: Seq<Tally>,
    cell: u64,
    band: int,
    class: i32,
)
    requires
        tiles_box(whole, boxes),
        points.len() == tiles.len(),
        read_of(states, deltas, band),
        total(tallies(deltas, cell, band, class)) == tiles_total(
            owned_tiles(tiles, points, whole, tiles.len() as int),
            per_tile,
        ),
        chunk_states.len() == boxes.len(),
        chunk_deltas.len() == boxes.len(),
        chunks.len() == boxes.len(),
        forall|k: int|
            #![trigger chunk_deltas[k]]
            0 <= k < chunk_deltas.len() ==> {
                &&& read_of(chunk_states[k], chunk_deltas[k], band)
                &&& total(tallies(chunk_deltas[k], cell, band, class)) == tiles_total(
                    owned_tiles(tiles, points, boxes[k], tiles.len() as int),
                    per_tile,
                )
                &&& chunks[k] == read_tally(chunk_states[k].last(), cell, band, class)
            },
    ensures
        read_tally(states.last(), cell, band, class) == held(total(chunks)),
{
    let n = tiles.len() as int;
    let m = boxes.len() as int;
    read_counts_every_store(states, deltas, cell, band, class);
    tiling_boxes_share_out_the_tiles(tiles, points, whole, boxes, n);
    let f = |t: Tally, x: (usize, usize)| together(t, per_tile(x));
    assert(commutative_foldl(f));
    lemma_fold_left_permutation(
        owned_tiles(tiles, points, whole, n),
        gathered(tiles, points, boxes, n, m),
        f,
        nothing(),
    );
    let sums = Seq::new(
        boxes.len(),
        |k: int| tiles_total(owned_tiles(tiles, points, boxes[k], n), per_tile),
    );
    lemma_gathered_total(tiles, points, boxes, per_tile, sums, n, m);
    assert(sums.take(m) == sums);
    assert forall|k: int| 0 <= k < sums.len() implies #[trigger] chunks[k] == held(sums[k]) by {
        assert(chunk_deltas[k].len() >= 0);
        read_counts_every_store(chunk_states[k], chunk_deltas[k], cell, band, class);
    }
    lemma_held_total(sums, chunks);
}

/// What each store of each chunk has counted.
pub open spec fn chunk_tallies<L: AccLayout>(
    chunks: Seq<Seq<CellStore<L>>>,
    cell: u64,
    band: int,
    class: i32,
) -> Seq<Seq<Tally>> {
    Seq::new(chunks.len(), |k: int| tallies(chunks[k], cell, band, class))
}

// ---------------------------------------------------------------------------
// stripes

/// What a batch of pixels counts.
pub open spec fn batch_tally<V>(
    batch: Batch<V>,
    cfg: AccCfg,
    cell: u64,
    band: int,
    class: i32,
) -> Tally {
    Tally {
        seen: (batch.touched)(cell),
        npix: if cfg.has_npix {
            (batch.pixels)(cell)
        } else {
            0
        },
        weight: if cfg.has_cat {
            code_weight((batch.codes)(cell, band), class)
        } else {
            0
        },
    }
}

/// A store that was built from a batch has counted what the batch counts.
pub proof fn store_counts_its_batch<L: AccLayout>(
    n_out: usize,
    cfg: AccCfg,
    batch: Batch<L::Value>,
    store: CellStore<L>,
    cell: u64,
    band: int,
    class: i32,
)
    requires
        batch_wf(batch),
        built_from(n_out, cfg, batch, store),
        0 <= band < n_out,
    ensures
        tally(store, cell, band, class) == held(batch_tally(batch, cfg, cell, band, class)),
{
    let e = choose|e: CellStore<L>| #[trigger]
        is_empty_store(n_out, cfg, e) && batch_added(e, batch, store);
    assert(!e.has(cell));
    assert(store.has(cell) == (e.has(cell) || (batch.touched)(cell)));
    let codes = (batch.codes)(cell, band);
    if store.has(cell) {
        if cfg.has_npix {
            assert(store.prior_npix(cell) == capped_add(e.prior_npix(cell), (batch.pixels)(cell)));
        }
        if cfg.has_cat {
            let none = e.prior_classes(cell, band);
            assert(classes_merged(none, codes) == Some(store.prior_classes(cell, band)));
            assert(none.len() == 0);
            merging_adds_class_by_class(none, codes, class);
        }
    } else {
        assert(codes.len() == 0);
    }
}

/// Indexing rows `from..mid` and rows `mid..to` counts what indexing rows
/// `from..to` counts: the two stripes, merged one after the other, leave the
/// partitions with the same counts as the one.
pub proof fn stripes_split_anywhere<
    L: AccLayout,
    P: Fn(usize, usize, usize) -> Option<Sample<L::Value>>,
    Q: Fn(usize, usize) -> Result<Option<Spherical>, A5CogError>,
>(
    st: Stripe,
    mid: usize,
    mask: Option<&CellMask>,
    sample: P,
    point: Q,
    first: Seq<RowData<L::Value>>,
    second: Seq<RowData<L::Value>>,
    first_store: CellStore<L>,
    second_store: CellStore<L>,
    whole_store: CellStore<L>,
    before: PartitionedStore<L>,
    between: PartitionedStore<L>,
    after: PartitionedStore<L>,
    after_whole: PartitionedStore<L>,
    cell: u64,
    band: int,
    class: i32,
)
    requires
        st.from <= mid <= st.to,
        first.len() == mid - st.from,
        second.len() == st.to - mid,
        rows_processed(rows_within(st, st.from, mid), mask, sample, point, first),
        rows_processed(rows_within(st, mid, st.to), mask, sample, point, second),
        built_from(st.n_out, st.cfg, rows_batch(first, first.len() as int), first_store),
        built_from(st.n_out, st.cfg, rows_batch(second, second.len() as int), second_store),
        built_from(
            st.n_out,
            st.cfg,
            rows_batch(first + second, (first + second).len() as int),
            whole_store,
        ),
        first_store.wf(),
        second_store.wf(),
        whole_store.wf(),
        before.wf(),
        between.wf(),
        after.wf(),
        after_whole.wf(),
        between.log2p == before.log2p,
        after.log2p == before.log2p,
        after_whole.log2p == before.log2p,
        before.parts@[0].same_shape(&first_store),
        parts_absorbed(before, first_store, between),
        parts_absorbed(between, second_store, after),
        parts_absorbed(before, whole_store, after_whole),
        0 <= band < st.n_out,
    ensures
        rows_processed(st, mask, sample, point, first + second),
        read_tally(after, cell, band, class) == read_tally(after_whole, cell, band, class),
{
    rows_split_anywhere(st, mid, mask, sample, point, first, second);
    let a = rows_batch(first, first.len() as int);
    let b = rows_batch(second, second.len() as int);
    let c = rows_batch(first + second, (first + second).len() as int);
    lemma_rows_batch_wf(first, first.len() as int);
    lemma_rows_batch_wf(second, second.len() as int);
    lemma_rows_batch_wf(first + second, (first + second).len() as int);
    store_counts_its_batch(st.n_out, st.cfg, a, first_store, cell, band, class);
    store_counts_its_batch(st.n_out, st.cfg, b, second_store, cell, band, class);
    store_counts_its_batch(st.n_out, st.cfg, c, whole_store, cell, band, class);
    lemma_code_weight_join((a.codes)(cell, band), (b.codes)(cell, band), class);
    assert((c.codes)(cell, band) == (a.codes)(cell, band) + (b.codes)(cell, band));
    assert((c.pixels)(cell) == (a.pixels)(cell) + (b.pixels)(cell));
    assert((c.touched)(cell) == ((a.touched)(cell) || (b.touched)(cell)));
    lemma_built_shape(st.n_out, st.cfg, a, first_store);
    lemma_built_shape(st.n_out, st.cfg, b, second_store);
    lemma_built_shape(st.n_out, st.cfg, c, whole_store);
    partition_in_range(0, before.log2p);
    assert(between.parts@[0].same_shape(&before.parts@[0]));
    absorbing_adds_the_store(before, first_store, between, cell, band, class);
    absorbing_adds_the_store(between, second_store, after, cell, band, class);
    absorbing_adds_the_store(before, whole_store, after_whole, cell, band, class);
}

pub(crate) proof fn lemma_built_shape<L: AccLayout>(
    n_out: usize,
    cfg: AccCfg,
    batch: Batch<L::Value>,
    store: CellStore<L>,
)
    requires
        built_from(n_out, cfg, batch, store),
    ensures
        store.n_out == n_out,
        store.cfg == cfg,
{
    let e = choose|e: CellStore<L>| #[trigger]
        is_empty_store(n_out, cfg, e) && batch_added(e, batch, store);
    assert(extends(e, store));
}

/// The store holds a batch of pixels.
pub open spec fn holds_batch<L: AccLayout>(
    n_out: usize,
    cfg: AccCfg,
    batch: Batch<L::Value>,
    store: CellStore<L>,
) -> bool {
    batch_wf(batch) && built_from(n_out, cfg, batch, store)
}

/// The stores hold these batches of pixels, each its own.
pub open spec fn holds_batches<L: AccLayout>(
    n_out: usize,
    cfg: AccCfg,
    batches: Seq<Batch<L::Value>>,
    stores: Seq<CellStore<L>>,
) -> bool {
    &&& stores.len() == batches.len()
    &&& forall|i: int|
        0 <= i < stores.len() ==> #[trigger] holds_batch(n_out, cfg, batches[i], stores[i])
}

proof fn lemma_batches_total<L: AccLayout>(
    n_out: usize,
    cfg: AccCfg,
    batches: Seq<Batch<L::Value>>,
    stores: Seq<CellStore<L>>,
    cell: u64,
    band: int,
    class: i32,
)
    requires
        holds_batches(n_out, cfg, batches, stores),
        0 <= band < n_out,
    ensures
        total(tallies(stores, cell, band, class)) == batches.fold_left(
            nothing(),
            |t: Tally, b: Batch<L::Value>|
                together(t, held(batch_tally(b, cfg, cell, band, class))),
        ),
    decreases stores.len(),
{
    if stores.len() > 0 {
        let n = stores.len() - 1;
        let front = stores.drop_last();
        let fronts = batches.drop_last();
        assert forall|i: int| 0 <= i < front.len() implies #[trigger] holds_batch(
            n_out,
            cfg,
            fronts[i],
            front[i],
        ) by {
            assert(holds_batch(n_out, cfg, batches[i], stores[i]));
        }
        lemma_batches_total(n_out, cfg, fronts, front, cell, band, class);
        assert(holds_batch(n_out, cfg, batches[n], stores[n]));
        store_counts_its_batch(n_out, cfg, batches[n], stores[n], cell, band, class);
        assert(tallies(stores, cell, band, class).drop_last() =~= tallies(
            front,
            cell,
            band,
            class,
        ));
    }
}

/// Two reads that index the same pixels, cut into the same stripes, agree on every
/// cell, whichever worker took which stripe, in whatever order the stripes were
/// merged and over however many partitions.
pub proof fn reads_of_the_same_stripes_agree<L: AccLayout>(
    cfg: AccCfg,
    n_out: usize,
    batches: Seq<Batch<L::Value>>,
    states: Seq<PartitionedStore<L>>,
    deltas: Seq<CellStore<L>>,
    other_batches: Seq<Batch<L::Value>>,
    other_states: Seq<PartitionedStore<L>>,
    other_deltas: Seq<CellStore<L>>,
    cell: u64,
    band: int,
    class: i32,
)
    requires
        read_of(states, deltas, band),
        read_of(other_states, other_deltas, band),
        holds_batches(n_out, cfg, batches, deltas),
        holds_batches(n_out, cfg, other_batches, other_deltas),
        batches.to_multiset() == other_batches.to_multiset(),
        0 <= band < n_out,
    ensures
        read_tally(states.last(), cell, band, class) == read_tally(
            other_states.last(),
            cell,
            band,
            class,
        ),
{
    let f = |t: Tally, b: Batch<L::Value>|
        together(t, held(batch_tally(b, cfg, cell, band, class)));
    read_counts_every_store(states, deltas, cell, band, class);
    read_counts_every_store(other_states, other_deltas, cell, band, class);
    lemma_batches_total(n_out, cfg, batches, deltas, cell, band, class);
    lemma_batches_total(n_out, cfg, other_batches, other_deltas, cell, band, class);
    assert(commutative_foldl(f));
    lemma_fold_left_permutation(batches, other_batches, f, nothing());
}

// ---------------------------------------------------------------------------
// masked reads

/// `masked` has counted what `all` has for the cells of the mask, and has not seen
/// any other cell.
pub open spec fn restricted<L: AccLayout>(
    all: CellStore<L>,
    masked: CellStore<L>,
    mask: &CellMask,
    resolution: i32,
    cell: u64,
    band: int,
    class: i32,
) -> bool {
    tally(masked, cell, band, class) == if in_area(mask.members(), cell, resolution) {
        tally(all, cell, band, class)
    } else {
        nothing()
    }
}

/// The store of a masked stripe is that of the unmasked one restricted to the
/// cells of the mask: such a cell has the same pixel weight and the same class
/// lists in both, and its accumulators are given the same values in the same
/// order.
pub proof fn masked_stripe_is_restricted<L: AccLayout>(
    n_out: usize,
    cfg: AccCfg,
    all: Batch<L::Value>,
    masked: Batch<L::Value>,
    mask: &CellMask,
    resolution: i32,
    all_store: CellStore<L>,
    masked_store: CellStore<L>,
    cell: u64,
    band: int,
    class: i32,
)
    requires
        batch_wf(all),
        batch_wf(masked),
        selects_cells(all, masked, mask, resolution),
        built_from(n_out, cfg, all, all_store),
        built_from(n_out, cfg, masked, masked_store),
        cell != NO_CELL,
        0 <= band < n_out,
    ensures
        restricted(all_store, masked_store, mask, resolution, cell, band, class),
        masked_store.has(cell) == (all_store.has(cell) && in_area(
            mask.members(),
            cell,
            resolution,
        )),
        masked_store.has(cell) && cfg.has_cat ==> masked_store.prior_classes(cell, band)
            == all_store.prior_classes(cell, band),
        masked_store.has(cell) && cfg.has_cont ==> grown_acc(
            None,
            (all.events)(cell, band),
            all_store.prior_acc(cell, band)->Some_0,
        ) && grown_acc(
            None,
            (all.events)(cell, band),
            masked_store.prior_acc(cell, band)->Some_0,
        ),
{
    store_counts_its_batch(n_out, cfg, all, all_store, cell, band, class);
    store_counts_its_batch(n_out, cfg, masked, masked_store, cell, band, class);
    let e = choose|e: CellStore<L>| #[trigger]
        is_empty_store(n_out, cfg, e) && batch_added(e, all, all_store);
    let f = choose|f: CellStore<L>| #[trigger]
        is_empty_store(n_out, cfg, f) && batch_added(f, masked, masked_store);
    assert(!e.has(cell) && !f.has(cell));
    if in_area(mask.members(), cell, resolution) {
        assert(gives_alike(all, masked, cell));
        assert((all.codes)(cell, band) == (masked.codes)(cell, band));
        assert((all.events)(cell, band) == (masked.events)(cell, band));
        if masked_store.has(cell) {
            if cfg.has_cat {
                assert(classes_merged(e.prior_classes(cell, band), (all.codes)(cell, band)) == Some(
                    all_store.prior_classes(cell, band),
                ));
                assert(classes_merged(f.prior_classes(cell, band), (masked.codes)(cell, band))
                    == Some(masked_store.prior_classes(cell, band)));
                assert(e.prior_classes(cell, band) =~= f.prior_classes(cell, band));
            }
            if cfg.has_cont {
                assert(grown_acc(
                    e.prior_acc(cell, band),
                    (all.events)(cell, band),
                    all_store.prior_acc(cell, band)->Some_0,
                ));
                assert(grown_acc(
                    f.prior_acc(cell, band),
                    (masked.events)(cell, band),
                    masked_store.prior_acc(cell, band)->Some_0,
                ));
            }
        }
    } else {
        assert(gives_nothing(masked, cell));
        assert((masked.codes)(cell, band).len() == 0);
    }
}

/// A masked read is the unmasked one restricted to the cells of the mask: where
/// each stripe of it is, so is the whole, whatever the merge orders and numbers of
/// partitions.
pub proof fn masked_read_is_restricted<L: AccLayout>(
    states: Seq<PartitionedStore<L>>,
    deltas: Seq<CellStore<L>>,
    masked_states: Seq<PartitionedStore<L>>,
    masked_deltas: Seq<CellStore<L>>,
    mask: &CellMask,
    resolution: i32,
    cell: u64,
    band: int,
    class: i32,
)
    requires
        read_of(states, deltas, band),
        read_of(masked_states, masked_deltas, band),
        masked_deltas.len() == deltas.len(),
        forall|i: int|
            0 <= i < deltas.len() ==> restricted(
                #[trigger] deltas[i],
                masked_deltas[i],
                mask,
                resolution,
                cell,
                band,
                class,
            ),
    ensures
        read_tally(masked_states.last(), cell, band, class) == (if in_area(
            mask.members(),
            cell,
            resolution,
        ) {
            read_tally(states.last(), cell, band, class)
        } else {
            nothing()
        }),
{
    read_counts_every_store(states, deltas, cell, band, class);
    read_counts_every_store(masked_states, masked_deltas, cell, band, class);
    let ts = tallies(masked_deltas, cell, band, class);
    if in_area(mask.members(), cell, resolution) {
        assert forall|i: int| 0 <= i < ts.len() implies #[trigger] ts[i] == tally(
            deltas[i],
            cell,
            band,
            class,
        ) by {
            assert(restricted(deltas[i], masked_deltas[i], mask, resolution, cell, band, class));
        }
        assert(ts =~= tallies(deltas, cell, band, class));
    } else {
        assert forall|i: int| 0 <= i < ts.len() implies #[trigger] ts[i] == nothing() by {
            assert(restricted(deltas[i], masked_deltas[i], mask, resolution, cell, band, class));
        }
        lemma_total_of_nothing(ts);
    }
}

proof fn lemma_total_of_nothing(ts: Seq<Tally>)
    requires
        forall|i: int| 0 <= i < ts.len() ==> #[trigger] ts[i] == nothing(),
    ensures
        total(ts) == nothing(),
    decreases ts.len(),
{
    if ts.len() > 0 {
        lemma_total_of_nothing(ts.drop_last());
        assert(ts[ts.len() - 1] == nothing());
    }
}

} // verus!
