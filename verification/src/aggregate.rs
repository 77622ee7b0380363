//! A finished read: the partition stores put side by side and flattened.

use vstd::prelude::*;

use crate::classes::{
    class_at, class_weight, classes_wf, distinct_classes, finalise_majority, has_class,
    is_majority, lemma_positive_total, lemma_weight_at, total_weight, ClassWeights,
};
use crate::partition::partition_count;
use crate::stats::{any_stat, stat_name, AccCfg, Stat};
use crate::store::{
    lemma_slab, lemma_slab_grows, partitions_are_disjoint, slab, AccLayout, CellStore,
    PartitionedStore,
};

verus! {

/// The value of a statistic.
#[derive(Clone, Copy)]
pub enum CellValue<V> {
    /// Finalised from the continuous accumulator.
    Number(V),
    /// The majority class; none where no valid pixel was seen.
    Class(Option<i32>),
}

/// The store accumulates what the statistic is computed from.
pub open spec fn can_finalise(cfg: AccCfg, stat: Stat) -> bool {
    if stat == Stat::Majority {
        cfg.has_cat
    } else {
        cfg.has_cont
    }
}

/// `v` is the value of `stat` for band `b` of slot `i`.
pub open spec fn value_is<L: AccLayout>(
    s: CellStore<L>,
    stat: Stat,
    i: int,
    b: int,
    v: CellValue<L::Value>,
) -> bool {
    match v {
        CellValue::Class(c) => stat == Stat::Majority && match c {
            None => s.classes(i, b).len() == 0,
            Some(k) => is_majority(s.classes(i, b), k),
        },
        CellValue::Number(x) => stat != Stat::Majority && call_ensures(
            L::finalise,
            (s.acc(i, b), stat),
            x,
        ),
    }
}

impl<L: AccLayout> CellStore<L> {
    /// The value of `stat` for band `b` of slot `i`.
    pub fn value(&self, stat: Stat, i: usize, b: usize) -> (r: CellValue<L::Value>)
        requires
            self.wf(),
            can_finalise(self.cfg, stat),
            i < self.cells@.len(),
            b < self.n_out,
        ensures
            value_is(*self, stat, i as int, b as int, r),
    {
        proof {
            lemma_slab(i as int, self.n_out as int, b as int, self.cells@.len() as int);
            lemma_slab_grows(i as int, self.cells@.len() as int, self.n_out as int);
            assert(self.cont.len() <= usize::MAX && self.cat.len() <= usize::MAX);
        }
        let idx: usize = i * self.n_out + b;
        if stat == Stat::Majority {
            CellValue::Class(finalise_majority(&self.cat[idx]))
        } else {
            CellValue::Number(self.cont[idx].finalise(stat))
        }
    }
}

/// Every requested statistic can be finalised from what the request makes the
/// read accumulate.
pub proof fn requested_stats_can_be_finalised(
    stats: Seq<Stat>,
    fractions: bool,
    cfg: AccCfg,
    i: int,
)
    requires
        0 <= i < stats.len(),
        cfg.has_cont == any_stat(stats, |s: Stat| s != Stat::Majority),
        cfg.has_cat == (fractions || any_stat(stats, |s: Stat| s == Stat::Majority)),
    ensures
        can_finalise(cfg, stats[i]),
{
}

// ---------------------------------------------------------------------------
// output order

/// Where partition `p` starts in the output.
pub open spec fn part_start<L: AccLayout>(parts: Seq<CellStore<L>>, p: int) -> int
    decreases p,
{
    if p <= 0 {
        0
    } else {
        part_start(parts, p - 1) + parts[p - 1].cells@.len()
    }
}

pub(crate) proof fn lemma_part_start<L: AccLayout>(parts: Seq<CellStore<L>>, p: int, q: int)
    requires
        0 <= p <= q <= parts.len(),
    ensures
        0 <= part_start(parts, p) <= part_start(parts, q),
        p < q ==> part_start(parts, p) + parts[p].cells@.len() <= part_start(parts, q),
    decreases q,
{
    if p < q {
        lemma_part_start(parts, p, q - 1);
    } else if p > 0 {
        lemma_part_start(parts, p - 1, q - 1);
    }
}

/// The parts are well-formed stores of `n_out` bands.
pub open spec fn parts_wf<L: AccLayout>(parts: Seq<CellStore<L>>, n_out: usize) -> bool {
    forall|p: int|
        0 <= p < parts.len() ==> (#[trigger] parts[p]).wf() && parts[p].n_out == n_out
}

/// Class shares of every cell of one band in compressed rows: the entries of
/// cell `i` are `offsets[i]..offsets[i + 1]`. A share is a weight out of the
/// cell's total.
pub struct BandFractions {
    pub classes: Vec<i32>,
    pub shares: Vec<(u64, u128)>,
    pub offsets: Vec<usize>,
}

/// Sum of the weights of share entries `from..to`.
pub open spec fn share_sum(shares: Seq<(u64, u128)>, from: int, to: int) -> int
    decreases to - from,
{
    if to <= from {
        0
    } else {
        share_sum(shares, from, to - 1) + shares[to - 1].0
    }
}

/// A finished read. The output order of cells is partition order, then
/// first-seen order within each partition.
pub struct Aggregate<L: AccLayout> {
    pub parts: Vec<CellStore<L>>,
    pub cells: Vec<u64>,
    pub n_out: usize,
    pub band_names: Vec<String>,
    pub stats: Vec<Stat>,
    pub fractions: bool,
}

/// The cells of the parts in output order.
pub open spec fn is_output_order<L: AccLayout>(parts: Seq<CellStore<L>>, cells: Seq<u64>) -> bool {
    &&& cells.len() == part_start(parts, parts.len() as int)
    &&& forall|p: int, i: int|
        0 <= p < parts.len() && 0 <= i < parts[p].cells@.len() ==> cells[part_start(parts, p) + i]
            == #[trigger] parts[p].cells@[i]
}

impl<L: AccLayout> Aggregate<L> {
    /// The parts are well formed and the cells stand in output order.
    pub open spec fn wf(&self) -> bool {
        &&& parts_wf(self.parts@, self.n_out)
        &&& is_output_order(self.parts@, self.cells@)
    }

    /// A finished read from its partitions.
    pub fn from_parts(
        parts: Vec<CellStore<L>>,
        n_out: usize,
        band_names: Vec<String>,
        stats: Vec<Stat>,
        fractions: bool,
    ) -> (r: Aggregate<L>)
        requires
            parts_wf(parts@, n_out),
        ensures
            r.wf(),
            r.parts@ == parts@,
            r.n_out == n_out,
            r.band_names == band_names,
            r.stats == stats,
            r.fractions == fractions,
    {
        let mut cells: Vec<u64> = Vec::new();
        for p in 0..parts.len()
            invariant
                cells@.len() == part_start(parts@, p as int),
                forall|q: int, i: int|
                    0 <= q < p && 0 <= i < parts@[q].cells@.len() ==> cells@[part_start(parts@, q)
                        + i] == #[trigger] parts@[q].cells@[i],
        {
            let ghost before = cells@;
            let m: usize = parts[p].cells.len();
            for i in 0..m
                invariant
                    p < parts@.len(),
                    m == parts@[p as int].cells@.len(),
                    before.len() == part_start(parts@, p as int),
                    cells@ == before + parts@[p as int].cells@.take(i as int),
            {
                cells.push(parts[p].cells[i]);
                assert(parts@[p as int].cells@.take(i + 1) == parts@[p as int].cells@.take(
                    i as int,
                ).push(parts@[p as int].cells@[i as int]));
            }
            assert(parts@[p as int].cells@.take(parts@[p as int].cells@.len() as int)
                == parts@[p as int].cells@);
            assert forall|q: int, i: int|
                0 <= q < p + 1 && 0 <= i < parts@[q].cells@.len() implies cells@[part_start(
                parts@,
                q,
            ) + i] == #[trigger] parts@[q].cells@[i] by {
                lemma_part_start(parts@, q, p as int);
            }
        }
        Aggregate { parts, cells, n_out, band_names, stats, fractions }
    }

    /// A read that touched no cell.
    pub fn empty(band_names: Vec<String>, n_out: usize, stats: Vec<Stat>, fractions: bool) -> (r:
        Aggregate<L>)
        ensures
            r.wf(),
            r.parts@.len() == 0,
            r.cells@.len() == 0,
            r.n_out == n_out,
            r.band_names == band_names,
            r.stats == stats,
            r.fractions == fractions,
    {
        Aggregate::from_parts(Vec::new(), n_out, band_names, stats, fractions)
    }

    /// The number of cells.
    pub fn len(&self) -> (r: usize)
        ensures
            r == self.cells@.len(),
    {
        self.cells.len()
    }

    /// The pixel weights in output order; none where no part keeps them.
    pub fn npix(&self) -> (r: Option<Vec<u64>>)
        requires
            self.wf(),
            forall|p: int, q: int|
                0 <= p < self.parts@.len() && 0 <= q < self.parts@.len() ==> (
                #[trigger] self.parts@[p]).cfg == (#[trigger] self.parts@[q]).cfg,
        ensures
            r is Some <==> exists|p: int|
                0 <= p < self.parts@.len() && (#[trigger] self.parts@[p]).cfg.has_npix,
            r matches Some(v) ==> v@.len() == self.cells@.len() && forall|p: int, i: int|
                0 <= p < self.parts@.len() && 0 <= i < self.parts@[p].cells@.len()
                    ==> v@[part_start(self.parts@, p) + i] == #[trigger] self.parts@[p].npix@[i],
    {
        if self.parts.len() == 0 || !self.parts[0].cfg.has_npix {
            return None;
        }
        assert(self.parts@[0].cfg.has_npix);
        let mut v: Vec<u64> = Vec::new();
        for p in 0..self.parts.len()
            invariant
                self.wf(),
                self.parts@.len() > 0,
                self.parts@[0].cfg.has_npix,
                forall|p: int, q: int|
                    0 <= p < self.parts@.len() && 0 <= q < self.parts@.len() ==> (
                    #[trigger] self.parts@[p]).cfg == (#[trigger] self.parts@[q]).cfg,
                v@.len() == part_start(self.parts@, p as int),
                forall|q: int, i: int|
                    0 <= q < p && 0 <= i < self.parts@[q].cells@.len() ==> v@[part_start(
                        self.parts@,
                        q,
                    ) + i] == #[trigger] self.parts@[q].npix@[i],
        {
            let ghost before = v@;
            let ghost part = self.parts@[p as int];
            assert(part.wf() && part.cfg == self.parts@[0].cfg);
            let m: usize = self.parts[p].npix.len();
            for i in 0..m
                invariant
                    p < self.parts@.len(),
                    m == part.npix@.len(),
                    part == self.parts@[p as int],
                    v@ == before + part.npix@.take(i as int),
            {
                v.push(self.parts[p].npix[i]);
                assert(part.npix@.take(i + 1) == part.npix@.take(i as int).push(
                    part.npix@[i as int],
                ));
            }
            assert(part.npix@.take(part.npix@.len() as int) == part.npix@);
            assert forall|q: int, i: int|
                0 <= q < p + 1 && 0 <= i < self.parts@[q].cells@.len() implies v@[part_start(
                self.parts@,
                q,
            ) + i] == #[trigger] self.parts@[q].npix@[i] by {
                lemma_part_start(self.parts@, q, p as int);
                assert(self.parts@[q].wf() && self.parts@[q].cfg == self.parts@[0].cfg);
            }
        }
        Some(v)
    }

    /// The values of `stat` for band `b` over all cells, in output order.
    pub fn column(&self, stat: Stat, b: usize) -> (r: Vec<CellValue<L::Value>>)
        requires
            self.wf(),
            b < self.n_out,
            forall|p: int|
                0 <= p < self.parts@.len() ==> can_finalise((#[trigger] self.parts@[p]).cfg, stat),
        ensures
            r@.len() == self.cells@.len(),
            forall|p: int, i: int|
                0 <= p < self.parts@.len() && 0 <= i < self.parts@[p].cells@.len()
                    ==> #[trigger] value_is(
                    self.parts@[p],
                    stat,
                    i,
                    b as int,
                    r@[part_start(self.parts@, p) + i],
                ),
    {
        let mut v: Vec<CellValue<L::Value>> = Vec::new();
        for p in 0..self.parts.len()
            invariant
                self.wf(),
                b < self.n_out,
                forall|p: int|
                    0 <= p < self.parts@.len() ==> can_finalise(
                        (#[trigger] self.parts@[p]).cfg,
                        stat,
                    ),
                v@.len() == part_start(self.parts@, p as int),
                forall|q: int, i: int|
                    0 <= q < p && 0 <= i < self.parts@[q].cells@.len() ==> #[trigger] value_is(
                        self.parts@[q],
                        stat,
                        i,
                        b as int,
                        v@[part_start(self.parts@, q) + i],
                    ),
        {
            let ghost before = v@;
            let ghost part = self.parts@[p as int];
            let start: usize = v.len();
            let m: usize = self.parts[p].cells.len();
            for i in 0..m
                invariant
                    p < self.parts@.len(),
                    part == self.parts@[p as int],
                    part.wf(),
                    part.n_out == self.n_out,
                    b < self.n_out,
                    can_finalise(part.cfg, stat),
                    m == part.cells@.len(),
                    start == before.len(),
                    v@.len() == start + i,
                    forall|k: int| 0 <= k < start ==> v@[k] == before[k],
                    forall|k: int|
                        0 <= k < i ==> #[trigger] value_is(
                            part,
                            stat,
                            k,
                            b as int,
                            v@[start + k],
                        ),
            {
                let ghost was = v@;
                let x = self.parts[p].value(stat, i, b);
                v.push(x);
                assert forall|k: int| 0 <= k < i + 1 implies #[trigger] value_is(
                    part,
                    stat,
                    k,
                    b as int,
                    v@[start + k],
                ) by {
                    if k < i {
                        assert(v@[start + k] == was[start + k]);
                    }
                }
            }
            assert forall|q: int, i: int|
                0 <= q < p + 1 && 0 <= i < self.parts@[q].cells@.len() implies #[trigger] value_is(
                self.parts@[q],
                stat,
                i,
                b as int,
                v@[part_start(self.parts@, q) + i],
            ) by {
                lemma_part_start(self.parts@, q, p as int);
                if q < p {
                    assert(v@[part_start(self.parts@, q) + i] == before[part_start(self.parts@, q)
                        + i]);
                } else {
                    assert(value_is(part, stat, i, b as int, v@[start + i]));
                }
            }
        }
        v
    }
}

// ---------------------------------------------------------------------------
// cell-major values

/// Appends the values of one part, cell by cell. What stands before them are
/// the bands of `start` cells.
fn append_values<L: AccLayout>(
    part: &CellStore<L>,
    stat: Stat,
    v: &mut Vec<CellValue<L::Value>>,
    start: Ghost<int>,
)
    requires
        part.wf(),
        can_finalise(part.cfg, stat),
        0 <= start@,
        old(v)@.len() == start@ * part.n_out,
    ensures
        final(v)@.len() == (start@ + part.cells@.len()) * part.n_out,
        old(v)@.len() <= final(v)@.len(),
        forall|k: int| 0 <= k < old(v)@.len() ==> #[trigger] final(v)@[k] == old(v)@[k],
        part_values(
            *part,
            start@,
            part.n_out as int,
            stat,
            part.cells@.len() as int,
            final(v)@,
        ),
{
    let ghost before = v@;
    let ghost start = start@;
    let n_out: usize = part.n_out;
    assert(before.len() == (start + 0) * n_out);
    for i in 0..part.cells.len()
        invariant
            part.wf(),
            part.n_out == n_out,
            can_finalise(part.cfg, stat),
            0 <= start,
            before.len() == start * n_out,
            before.len() <= v@.len(),
            v@.len() == (start + i) * n_out,
            forall|k: int| 0 <= k < before.len() ==> #[trigger] v@[k] == before[k],
            part_values(*part, start, n_out as int, stat, i as int, v@),
    {
        let ghost row = v@;
        for b in 0..n_out
            invariant
                part.wf(),
                part.n_out == n_out,
                can_finalise(part.cfg, stat),
                i < part.cells@.len(),
                v@.len() == row.len() + b,
                forall|k: int| 0 <= k < row.len() ==> #[trigger] v@[k] == row[k],
                forall|c: int|
                    0 <= c < b ==> #[trigger] value_is(
                        *part,
                        stat,
                        i as int,
                        c,
                        v@[row.len() + c],
                    ),
        {
            let ghost was = v@;
            v.push(part.value(stat, i, b));
            assert forall|c: int| 0 <= c < b + 1 implies #[trigger] value_is(
                *part,
                stat,
                i as int,
                c,
                v@[row.len() + c],
            ) by {
                if c < b {
                    assert(v@[row.len() + c] == was[row.len() + c]);
                }
            }
        }
        proof {
            let sn = start + i;
            assert((sn + 1) * n_out == sn * n_out + n_out) by (nonlinear_arith);
            lemma_slab_grows(start, sn, n_out as int);
            assert forall|k: int, c: int|
                0 <= k < i + 1 && 0 <= c < n_out implies #[trigger] value_is(
                *part,
                stat,
                k,
                c,
                slab(v@, n_out as int, start + k, c),
            ) by {
                if k < i {
                    lemma_slab(start + k, n_out as int, c, sn);
                    assert(value_is(*part, stat, k, c, slab(row, n_out as int, start + k, c)));
                    assert(slab(v@, n_out as int, start + k, c) == slab(
                        row,
                        n_out as int,
                        start + k,
                        c,
                    ));
                } else {
                    assert(value_is(*part, stat, k, c, v@[row.len() + c]));
                }
            }
        }
    }
}

impl<L: AccLayout> Aggregate<L> {
    /// The values of `stat` for every cell and band, cell by cell: band `b` of
    /// the cell at output position `k` stands at `k * n_out + b`.
    pub fn flat(&self, stat: Stat) -> (r: Vec<CellValue<L::Value>>)
        requires
            self.wf(),
            forall|p: int|
                0 <= p < self.parts@.len() ==> can_finalise((#[trigger] self.parts@[p]).cfg, stat),
        ensures
            flat_values_of(self.parts@, self.n_out as int, stat, self.parts@.len() as int, r@),
    {
        let mut v: Vec<CellValue<L::Value>> = Vec::new();
        let n_out: usize = self.n_out;
        proof {
            lemma_slab_grows(0, 0, n_out as int);
        }
        for p in 0..self.parts.len()
            invariant
                self.wf(),
                n_out == self.n_out,
                forall|p: int|
                    0 <= p < self.parts@.len() ==> can_finalise(
                        (#[trigger] self.parts@[p]).cfg,
                        stat,
                    ),
                flat_values_of(self.parts@, n_out as int, stat, p as int, v@),
        {
            let ghost before = v@;
            let ghost start = part_start(self.parts@, p as int);
            proof {
                lemma_part_start(self.parts@, 0, p as int);
                assert(self.parts@[p as int].wf());
            }
            append_values(&self.parts[p], stat, &mut v, Ghost(start));
            proof {
                lemma_flat_step(self.parts@, n_out as int, stat, p as int, before, v@);
            }
        }
        v
    }
}

proof fn lemma_flat_step<L: AccLayout>(
    parts: Seq<CellStore<L>>,
    n_out: int,
    stat: Stat,
    p: int,
    before: Seq<CellValue<L::Value>>,
    v: Seq<CellValue<L::Value>>,
)
    requires
        0 <= p < parts.len(),
        flat_values_of(parts, n_out, stat, p, before),
        before.len() <= v.len(),
        v.len() == (part_start(parts, p) + parts[p].cells@.len()) * n_out,
        forall|k: int| 0 <= k < before.len() ==> #[trigger] v[k] == before[k],
        part_values(parts[p], part_start(parts, p), n_out, stat, parts[p].cells@.len() as int, v),
    ensures
        flat_values_of(parts, n_out, stat, p + 1, v),
{
    let start = part_start(parts, p);
    assert forall|q: int| 0 <= q < p + 1 implies part_values(
        #[trigger] parts[q],
        part_start(parts, q),
        n_out,
        stat,
        parts[q].cells@.len() as int,
        v,
    ) by {
        if q < p {
            lemma_part_start(parts, q, p);
            lemma_part_start(parts, 0, q);
            lemma_values_kept(parts[q], part_start(parts, q), n_out, stat, before, v, start);
        }
    }
}

proof fn lemma_values_kept<L: AccLayout>(
    part: CellStore<L>,
    qs: int,
    n_out: int,
    stat: Stat,
    before: Seq<CellValue<L::Value>>,
    v: Seq<CellValue<L::Value>>,
    start: int,
)
    requires
        0 <= qs,
        qs + part.cells@.len() <= start,
        before.len() == start * n_out,
        before.len() <= v.len(),
        forall|k: int| 0 <= k < before.len() ==> #[trigger] v[k] == before[k],
        part_values(part, qs, n_out, stat, part.cells@.len() as int, before),
    ensures
        part_values(part, qs, n_out, stat, part.cells@.len() as int, v),
{
    assert forall|k: int, c: int|
        0 <= k < part.cells@.len() && 0 <= c < n_out implies #[trigger] value_is(
        part,
        stat,
        k,
        c,
        slab(v, n_out, qs + k, c),
    ) by {
        lemma_slab(qs + k, n_out, c, start);
        assert(value_is(part, stat, k, c, slab(before, n_out, qs + k, c)));
        assert(slab(v, n_out, qs + k, c) == slab(before, n_out, qs + k, c));
    }
}

/// The values of the first `n` slots of a part that starts at output position
/// `start`.
pub open spec fn part_values<L: AccLayout>(
    part: CellStore<L>,
    start: int,
    n_out: int,
    stat: Stat,
    n: int,
    v: Seq<CellValue<L::Value>>,
) -> bool {
    forall|k: int, c: int|
        0 <= k < n && 0 <= c < n_out ==> #[trigger] value_is(
            part,
            stat,
            k,
            c,
            slab(v, n_out, start + k, c),
        )
}

/// `v` holds the values of the first `n` parts, cell by cell.
pub open spec fn flat_values_of<L: AccLayout>(
    parts: Seq<CellStore<L>>,
    n_out: int,
    stat: Stat,
    n: int,
    v: Seq<CellValue<L::Value>>,
) -> bool {
    &&& v.len() == part_start(parts, n) * n_out
    &&& forall|p: int|
        0 <= p < n ==> part_values(
            #[trigger] parts[p],
            part_start(parts, p),
            n_out,
            stat,
            parts[p].cells@.len() as int,
            v,
        )
}

// ---------------------------------------------------------------------------
// class fractions

/// The classes ascend strictly.
pub open spec fn ascending(m: Seq<(i32, u64)>) -> bool {
    forall|i: int, j: int| 0 <= i < j < m.len() ==> (#[trigger] m[i]).0 < (#[trigger] m[j]).0
}

proof fn lemma_total_insert(m: Seq<(i32, u64)>, k: int, x: (i32, u64))
    requires
        0 <= k <= m.len(),
    ensures
        total_weight(m.insert(k, x)) == total_weight(m) + x.1,
    decreases m.len(),
{
    let t = m.insert(k, x);
    if k == m.len() {
        assert(t.drop_last() == m);
    } else {
        assert(t.drop_last() == m.drop_last().insert(k, x));
        assert(t.last() == m.last());
        lemma_total_insert(m.drop_last(), k, x);
    }
}

/// The class list by ascending class.
fn sorted_classes(m: &ClassWeights) -> (r: ClassWeights)
    requires
        distinct_classes(m@),
    ensures
        r@.len() == m@.len(),
        ascending(r@),
        forall|k: int| 0 <= k < r@.len() ==> m@.contains(#[trigger] r@[k]),
        total_weight(r@) == total_weight(m@),
{
    let mut out: ClassWeights = Vec::new();
    for i in 0..m.len()
        invariant
            distinct_classes(m@),
            out@.len() == i,
            ascending(out@),
            forall|k: int| 0 <= k < out@.len() ==> m@.take(i as int).contains(#[trigger] out@[k]),
            total_weight(out@) == total_weight(m@.take(i as int)),
    {
        let x = m[i];
        let ghost done = m@.take(i as int);
        let ghost more = m@.take(i + 1);
        let mut k: usize = 0;
        while k < out.len() && out[k].0 < x.0
            invariant
                k <= out@.len(),
                forall|j: int| 0 <= j < k ==> (#[trigger] out@[j]).0 < x.0,
            ensures
                k < out@.len() ==> out@[k as int].0 >= x.0,
            decreases out@.len() - k,
        {
            k = k + 1;
        }
        let ghost before = out@;
        proof {
            assert(more == done.push(x));
            assert(more.drop_last() == done);
            assert forall|j: int| 0 <= j < before.len() implies (#[trigger] before[j]).0 != x.0 by {
                assert(done.contains(before[j]));
                let l = choose|l: int| 0 <= l < done.len() && done[l] == before[j];
                assert(m@[l].0 != m@[i as int].0);
            }
            lemma_total_insert(before, k as int, x);
        }
        out.insert(k, x);
        proof {
            assert(out@ == before.insert(k as int, x));
            assert forall|j: int| 0 <= j < out@.len() implies more.contains(#[trigger] out@[j]) by {
                if j == k {
                    assert(more[i as int] == x);
                } else {
                    let o = if j < k {
                        j
                    } else {
                        j - 1
                    };
                    assert(out@[j] == before[o]);
                    assert(done.contains(before[o]));
                    let l = choose|l: int| 0 <= l < done.len() && done[l] == before[o];
                    assert(more[l] == before[o]);
                }
            }
            assert forall|a: int, b: int| 0 <= a < b < out@.len() implies (#[trigger] out@[a]).0 < (
            #[trigger] out@[b]).0 by {
                let oa = if a < k {
                    a
                } else {
                    a - 1
                };
                let ob = if b < k {
                    b
                } else {
                    b - 1
                };
                if a == k {
                    assert(out@[b] == before[ob]);
                    assert(before[k as int].0 > x.0);
                    assert(k < ob ==> before[k as int].0 < before[ob].0);
                } else if b == k {
                    assert(out@[a] == before[oa]);
                } else {
                    assert(out@[a] == before[oa] && out@[b] == before[ob]);
                }
            }
        }
    }
    assert(m@.take(m@.len() as int) == m@);
    out
}

/// The entries `lo..hi` are the shares of the class list `m`: every class once,
/// ascending, as its weight, above zero, out of the total. The weights add up to
/// the total, and there is no entry exactly where there is no weight.
pub open spec fn shares_of(
    classes: Seq<i32>,
    shares: Seq<(u64, u128)>,
    lo: int,
    hi: int,
    m: Seq<(i32, u64)>,
) -> bool {
    &&& 0 <= lo <= hi <= classes.len()
    &&& classes.len() == shares.len()
    &&& lo == hi <==> total_weight(m) == 0
    &&& hi - lo == m.len()
    &&& forall|k: int|
        lo <= k < hi ==> m.contains((classes[k], (#[trigger] shares[k]).0)) && 0 < shares[k].0
            && shares[k].1 == total_weight(m)
    &&& forall|j: int, k: int| lo <= j < k < hi ==> #[trigger] classes[j] < #[trigger] classes[k]
    &&& share_sum(shares, lo, hi) == total_weight(m)
}

/// The shares of the first `n` slots of a part that starts at output position
/// `start`.
pub open spec fn part_shares<L: AccLayout>(
    part: CellStore<L>,
    start: int,
    b: int,
    n: int,
    f: BandFractions,
) -> bool {
    forall|k: int|
        0 <= k < n ==> shares_of(
            f.classes@,
            f.shares@,
            f.offsets@[start + k] as int,
            f.offsets@[start + k + 1] as int,
            #[trigger] part.classes(k, b),
        )
}

/// `f` holds the shares of band `b` of the first `n` parts.
pub open spec fn fractions_of<L: AccLayout>(
    parts: Seq<CellStore<L>>,
    b: int,
    n: int,
    f: BandFractions,
) -> bool {
    &&& f.offsets@.len() == part_start(parts, n) + 1
    &&& f.offsets@[0] == 0
    &&& f.offsets@[part_start(parts, n)] == f.classes@.len()
    &&& f.classes@.len() == f.shares@.len()
    &&& forall|p: int|
        0 <= p < n ==> part_shares(
            #[trigger] parts[p],
            part_start(parts, p),
            b,
            parts[p].cells@.len() as int,
            f,
        )
}

proof fn lemma_share_sum_prefix(a: Seq<(u64, u128)>, b: Seq<(u64, u128)>, lo: int, hi: int)
    requires
        0 <= lo <= hi <= a.len() <= b.len(),
        forall|k: int| 0 <= k < a.len() ==> #[trigger] b[k] == a[k],
    ensures
        share_sum(a, lo, hi) == share_sum(b, lo, hi),
    decreases hi - lo,
{
    if lo < hi {
        lemma_share_sum_prefix(a, b, lo, hi - 1);
    }
}

/// Entries behind the end do not change earlier shares.
proof fn lemma_shares_kept(
    c0: Seq<i32>,
    s0: Seq<(u64, u128)>,
    c1: Seq<i32>,
    s1: Seq<(u64, u128)>,
    lo: int,
    hi: int,
    m: Seq<(i32, u64)>,
)
    requires
        shares_of(c0, s0, lo, hi, m),
        c0.len() <= c1.len(),
        c1.len() == s1.len(),
        forall|k: int| 0 <= k < c0.len() ==> #[trigger] c1[k] == c0[k],
        forall|k: int| 0 <= k < s0.len() ==> #[trigger] s1[k] == s0[k],
    ensures
        shares_of(c1, s1, lo, hi, m),
{
    lemma_share_sum_prefix(s0, s1, lo, hi);
    assert forall|k: int| lo <= k < hi implies m.contains((c1[k], (#[trigger] s1[k]).0)) && 0
        < s1[k].0 && s1[k].1 == total_weight(m) by {
        assert(s1[k] == s0[k]);
        assert(c1[k] == c0[k]);
    }
    assert forall|j: int, k: int| lo <= j < k < hi implies #[trigger] c1[j] < #[trigger] c1[k] by {
        assert(c1[j] == c0[j] && c1[k] == c0[k]);
    }
}

proof fn lemma_total_bound(m: Seq<(i32, u64)>)
    ensures
        total_weight(m) <= m.len() * u64::MAX,
    decreases m.len(),
{
    if m.len() > 0 {
        lemma_total_bound(m.drop_last());
    }
}

/// The weight of all classes together.
fn sum_weights(m: &ClassWeights) -> (r: u128)
    requires
        m@.len() <= crate::classes::MAX_CLASSES_PER_CELL,
    ensures
        r == total_weight(m@),
{
    let mut t: u128 = 0;
    for i in 0..m.len()
        invariant
            m@.len() <= crate::classes::MAX_CLASSES_PER_CELL,
            t == total_weight(m@.take(i as int)),
    {
        proof {
            assert(m@.take(i + 1).drop_last() == m@.take(i as int));
            lemma_total_bound(m@.take(i as int));
        }
        t = t + m[i].1 as u128;
    }
    assert(m@.take(m@.len() as int) == m@);
    t
}

/// Appends the shares of one class list.
fn append_shares(f: &mut BandFractions, m: &ClassWeights)
    requires
        classes_wf(m@),
        old(f).classes@.len() == old(f).shares@.len(),
    ensures
        final(f).offsets@.len() == old(f).offsets@.len() + 1,
        final(f).offsets@.last() == final(f).classes@.len(),
        forall|k: int|
            0 <= k < old(f).offsets@.len() ==> #[trigger] final(f).offsets@[k] == old(
                f,
            ).offsets@[k],
        final(f).classes@.len() >= old(f).classes@.len(),
        forall|k: int|
            0 <= k < old(f).classes@.len() ==> #[trigger] final(f).classes@[k] == old(
                f,
            ).classes@[k],
        forall|k: int|
            0 <= k < old(f).shares@.len() ==> #[trigger] final(f).shares@[k] == old(f).shares@[k],
        shares_of(
            final(f).classes@,
            final(f).shares@,
            old(f).classes@.len() as int,
            final(f).classes@.len() as int,
            m@,
        ),
{
    proof {
        lemma_positive_total(m@);
    }
    let sorted = sorted_classes(m);
    let tot: u128 = sum_weights(&sorted);
    let ghost lo = f.classes@.len() as int;
    let ghost c0 = f.classes@;
    let ghost s0 = f.shares@;
    if tot > 0 {
        for i in 0..sorted.len()
            invariant
                c0.len() == lo,
                s0.len() == lo,
                f.offsets@ == old(f).offsets@,
                f.classes@.len() == lo + i,
                f.shares@.len() == lo + i,
                forall|k: int| 0 <= k < lo ==> #[trigger] f.classes@[k] == c0[k],
                forall|k: int| 0 <= k < lo ==> #[trigger] f.shares@[k] == s0[k],
                forall|k: int|
                    lo <= k < lo + i ==> (#[trigger] f.shares@[k]).0 == sorted@[k - lo].1
                        && f.shares@[k].1 == tot,
                forall|k: int|
                    lo <= k < lo + i ==> #[trigger] f.classes@[k] == sorted@[k - lo].0,
                share_sum(f.shares@, lo, lo + i) == total_weight(sorted@.take(i as int)),
        {
            let (c, w) = sorted[i];
            let ghost was = f.shares@;
            f.classes.push(c);
            f.shares.push((w, tot));
            proof {
                lemma_share_sum_prefix(was, f.shares@, lo, lo + i);
                assert(sorted@.take(i + 1).drop_last() == sorted@.take(i as int));
            }
        }
        assert(sorted@.take(sorted@.len() as int) == sorted@);
        assert forall|k: int| lo <= k < f.classes@.len() implies m@.contains(
            (f.classes@[k], (#[trigger] f.shares@[k]).0),
        ) && 0 < f.shares@[k].0 && f.shares@[k].1 == total_weight(m@) by {
            assert(f.classes@[k] == sorted@[k - lo].0);
            assert(m@.contains(sorted@[k - lo]));
            let i = choose|i: int| 0 <= i < m@.len() && m@[i] == sorted@[k - lo];
            assert(m@[i].1 > 0);
        }
        assert forall|j: int, k: int| lo <= j < k < f.classes@.len() implies #[trigger] f.classes@[j]
            < #[trigger] f.classes@[k] by {
            assert(sorted@[j - lo].0 < sorted@[k - lo].0);
        }
    }
    let n: usize = f.classes.len();
    f.offsets.push(n);
}

impl<L: AccLayout> Aggregate<L> {
    /// The class shares of band `b` in output order.
    pub fn band_fractions(&self, b: usize) -> (r: BandFractions)
        requires
            self.wf(),
            b < self.n_out,
            forall|p: int|
                0 <= p < self.parts@.len() ==> (#[trigger] self.parts@[p]).cfg.has_cat,
        ensures
            fractions_of(self.parts@, b as int, self.parts@.len() as int, r),
    {
        let mut f = BandFractions { classes: Vec::new(), shares: Vec::new(), offsets: Vec::new() };
        f.offsets.push(0);
        for p in 0..self.parts.len()
            invariant
                self.wf(),
                b < self.n_out,
                forall|p: int|
                    0 <= p < self.parts@.len() ==> (#[trigger] self.parts@[p]).cfg.has_cat,
                fractions_of(self.parts@, b as int, p as int, f),
        {
            let ghost f0 = f;
            let ghost part = self.parts@[p as int];
            let ghost start = part_start(self.parts@, p as int);
            let m: usize = self.parts[p].cells.len();
            proof {
                lemma_part_start(self.parts@, 0, p as int);
            }
            for i in 0..m
                invariant
                    p < self.parts@.len(),
                    part == self.parts@[p as int],
                    part.wf(),
                    part.n_out == self.n_out,
                    part.cfg.has_cat,
                    b < self.n_out,
                    m == part.cells@.len(),
                    0 <= start,
                    f0.offsets@.len() == start + 1,
                    f0.classes@.len() == f0.shares@.len(),
                    f.offsets@.len() == start + i + 1,
                    f.offsets@[start + i] == f.classes@.len(),
                    f.classes@.len() == f.shares@.len(),
                    f0.classes@.len() <= f.classes@.len(),
                    forall|k: int|
                        0 <= k < f0.offsets@.len() ==> #[trigger] f.offsets@[k] == f0.offsets@[k],
                    forall|k: int|
                        0 <= k < f0.classes@.len() ==> #[trigger] f.classes@[k] == f0.classes@[k],
                    forall|k: int|
                        0 <= k < f0.shares@.len() ==> #[trigger] f.shares@[k] == f0.shares@[k],
                    part_shares(part, start, b as int, i as int, f),
            {
                let ghost was = f;
                proof {
                    lemma_slab(i as int, part.n_out as int, b as int, part.cells@.len() as int);
                    lemma_slab_grows(i as int, part.cells@.len() as int, part.n_out as int);
                    assert(part.cat.len() <= usize::MAX);
                }
                append_shares(&mut f, &self.parts[p].cat[i * self.n_out + b]);
                assert forall|k: int| 0 <= k < i + 1 implies shares_of(
                    f.classes@,
                    f.shares@,
                    f.offsets@[start + k] as int,
                    f.offsets@[start + k + 1] as int,
                    #[trigger] part.classes(k, b as int),
                ) by {
                    if k < i {
                        assert(shares_of(
                            was.classes@,
                            was.shares@,
                            was.offsets@[start + k] as int,
                            was.offsets@[start + k + 1] as int,
                            part.classes(k, b as int),
                        ));
                        lemma_shares_kept(
                            was.classes@,
                            was.shares@,
                            f.classes@,
                            f.shares@,
                            was.offsets@[start + k] as int,
                            was.offsets@[start + k + 1] as int,
                            part.classes(k, b as int),
                        );
                        assert(f.offsets@[start + k] == was.offsets@[start + k]);
                        assert(f.offsets@[start + k + 1] == was.offsets@[start + k + 1]);
                    }
                }
            }
            proof {
                lemma_part_start(self.parts@, p as int, p + 1);
                assert forall|q: int| 0 <= q < p + 1 implies part_shares(
                    #[trigger] self.parts@[q],
                    part_start(self.parts@, q),
                    b as int,
                    self.parts@[q].cells@.len() as int,
                    f,
                ) by {
                    if q < p {
                        let pq = self.parts@[q];
                        let qs = part_start(self.parts@, q);
                        lemma_part_start(self.parts@, q, p as int);
                        assert(part_shares(pq, qs, b as int, pq.cells@.len() as int, f0));
                        assert forall|k: int| 0 <= k < pq.cells@.len() implies shares_of(
                            f.classes@,
                            f.shares@,
                            f.offsets@[qs + k] as int,
                            f.offsets@[qs + k + 1] as int,
                            #[trigger] pq.classes(k, b as int),
                        ) by {
                            lemma_shares_kept(
                                f0.classes@,
                                f0.shares@,
                                f.classes@,
                                f.shares@,
                                f0.offsets@[qs + k] as int,
                                f0.offsets@[qs + k + 1] as int,
                                pq.classes(k, b as int),
                            );
                            assert(f.offsets@[qs + k] == f0.offsets@[qs + k]);
                            assert(f.offsets@[qs + k + 1] == f0.offsets@[qs + k + 1]);
                        }
                    }
                }
            }
        }
        f
    }
}

// ---------------------------------------------------------------------------
// the whole output

/// Everything that a read returns.
pub struct Output<V> {
    pub cells: Vec<u64>,
    /// One list per statistic, each cell by cell: band `b` of cell `i` stands at
    /// `i * n_bands + b`.
    pub flat_values: Vec<Vec<CellValue<V>>>,
    pub n_bands: usize,
    pub band_names: Vec<String>,
    pub stats: Vec<String>,
    /// Class shares band by band, for a fractions read.
    pub fractions: Option<Vec<BandFractions>>,
    /// Pixel weight per cell, where it was requested.
    pub npix: Option<Vec<u64>>,
}

impl<L: AccLayout> Aggregate<L> {
    /// The parts accumulated what the output needs, all alike.
    pub open spec fn can_output(&self) -> bool {
        &&& self.wf()
        &&& forall|p: int, q: int|
            0 <= p < self.parts@.len() && 0 <= q < self.parts@.len() ==> (
            #[trigger] self.parts@[p]).cfg == (#[trigger] self.parts@[q]).cfg
        &&& forall|p: int, k: int|
            0 <= p < self.parts@.len() && 0 <= k < self.stats@.len() ==> can_finalise(
                (#[trigger] self.parts@[p]).cfg,
                #[trigger] self.stats@[k],
            )
        &&& self.fractions ==> forall|p: int|
            0 <= p < self.parts@.len() ==> (#[trigger] self.parts@[p]).cfg.has_cat
    }

    /// Flattens the read.
    pub fn into_output(self) -> (r: Output<L::Value>)
        requires
            self.can_output(),
        ensures
            r.cells@ == self.cells@,
            r.n_bands == self.n_out,
            r.band_names == self.band_names,
            r.stats@.len() == self.stats@.len(),
            forall|k: int|
                0 <= k < r.stats@.len() ==> (#[trigger] r.stats@[k])@ == stat_name(self.stats@[k]),
            r.flat_values@.len() == self.stats@.len(),
            forall|k: int|
                0 <= k < r.flat_values@.len() ==> flat_values_of(
                    self.parts@,
                    self.n_out as int,
                    self.stats@[k],
                    self.parts@.len() as int,
                    (#[trigger] r.flat_values@[k])@,
                ),
            r.fractions is Some <==> self.fractions,
            r.fractions matches Some(f) ==> f@.len() == self.n_out && forall|b: int|
                0 <= b < f@.len() ==> fractions_of(
                    self.parts@,
                    b,
                    self.parts@.len() as int,
                    #[trigger] f@[b],
                ),
            r.npix is Some <==> exists|p: int|
                0 <= p < self.parts@.len() && (#[trigger] self.parts@[p]).cfg.has_npix,
            r.npix matches Some(v) ==> v@.len() == self.cells@.len() && forall|p: int, i: int|
                0 <= p < self.parts@.len() && 0 <= i < self.parts@[p].cells@.len()
                    ==> v@[part_start(self.parts@, p) + i] == #[trigger] self.parts@[p].npix@[i],
    {
        let mut flat_values: Vec<Vec<CellValue<L::Value>>> = Vec::new();
        let mut names: Vec<String> = Vec::new();
        for k in 0..self.stats.len()
            invariant
                self.can_output(),
                flat_values@.len() == k,
                names@.len() == k,
                forall|j: int|
                    0 <= j < k ==> (#[trigger] names@[j])@ == stat_name(self.stats@[j]),
                forall|j: int|
                    0 <= j < k ==> flat_values_of(
                        self.parts@,
                        self.n_out as int,
                        self.stats@[j],
                        self.parts@.len() as int,
                        (#[trigger] flat_values@[j])@,
                    ),
        {
            let stat = self.stats[k];
            flat_values.push(self.flat(stat));
            names.push(stat.as_str().to_owned());
        }
        let mut fractions: Option<Vec<BandFractions>> = None;
        if self.fractions {
            let mut bands: Vec<BandFractions> = Vec::new();
            for b in 0..self.n_out
                invariant
                    self.can_output(),
                    self.fractions,
                    bands@.len() == b,
                    forall|c: int|
                        0 <= c < b ==> fractions_of(
                            self.parts@,
                            c,
                            self.parts@.len() as int,
                            #[trigger] bands@[c],
                        ),
            {
                bands.push(self.band_fractions(b));
            }
            fractions = Some(bands);
        }
        let npix = self.npix();
        Output {
            cells: self.cells,
            flat_values,
            n_bands: self.n_out,
            band_names: self.band_names,
            stats: names,
            fractions,
            npix,
        }
    }
}

// ---------------------------------------------------------------------------
// laws

pub(crate) proof fn lemma_find_part<L: AccLayout>(parts: Seq<CellStore<L>>, n: int, k: int) -> (r: (int, int))
    requires
        0 <= n <= parts.len(),
        0 <= k < part_start(parts, n),
    ensures
        0 <= r.0 < n,
        0 <= r.1 < parts[r.0].cells@.len(),
        k == part_start(parts, r.0) + r.1,
    decreases n,
{
    if k >= part_start(parts, n - 1) {
        (n - 1, k - part_start(parts, n - 1))
    } else {
        lemma_find_part(parts, n - 1, k)
    }
}

/// Each cell appears once in the output of a read.
pub proof fn output_cells_are_distinct<L: AccLayout>(
    s: PartitionedStore<L>,
    cells: Seq<u64>,
    j: int,
    k: int,
)
    requires
        s.wf(),
        is_output_order(s.parts@, cells),
        0 <= j < k < cells.len(),
    ensures
        cells[j] != cells[k],
{
    let n = s.parts@.len() as int;
    let (p, a) = lemma_find_part(s.parts@, n, j);
    let (q, b) = lemma_find_part(s.parts@, n, k);
    assert(cells[j] == s.parts@[p].cells@[a]);
    assert(cells[k] == s.parts@[q].cells@[b]);
    if cells[j] == cells[k] {
        assert(s.parts@[p].wf() && s.parts@[q].wf());
        partitions_are_disjoint(s, p, q, cells[j]);
    }
}

/// The majority is computed from classes, every other statistic from measures.
pub proof fn majority_needs_classes_and_others_measures(cfg: AccCfg, stat: Stat)
    ensures
        stat == Stat::Majority ==> (can_finalise(cfg, stat) <==> cfg.has_cat),
        stat != Stat::Majority ==> (can_finalise(cfg, stat) <==> cfg.has_cont),
{
}

/// The value of a cell is a class for the majority only: the one with the most weight,
/// the smallest where several have as much, and none without classes. For every other
/// statistic it is what the layout finalises of the accumulator.
pub proof fn values_are_what_the_statistic_asks_for<L: AccLayout>(
    s: CellStore<L>,
    stat: Stat,
    i: int,
    b: int,
    v: CellValue<L::Value>,
    k: i32,
)
    requires
        value_is(s, stat, i, b, v),
        distinct_classes(s.classes(i, b)),
    ensures
        v is Class <==> stat == Stat::Majority,
        v matches CellValue::Class(None) ==> s.classes(i, b).len() == 0,
        s.classes(i, b).len() == 0 && v is Class ==> v == CellValue::<L::Value>::Class(None),
        v matches CellValue::Class(Some(c)) ==> has_class(s.classes(i, b), k) ==> {
            &&& has_class(s.classes(i, b), c)
            &&& class_weight(s.classes(i, b), k) <= class_weight(s.classes(i, b), c)
            &&& class_weight(s.classes(i, b), k) == class_weight(s.classes(i, b), c) ==> c <= k
        },
        v matches CellValue::Number(x) ==> call_ensures(L::finalise, (s.acc(i, b), stat), x),
{
    if let CellValue::Class(Some(c)) = v {
        if has_class(s.classes(i, b), k) {
            crate::classes::majority_is_the_heaviest(s.classes(i, b), c, k);
        }
    }
}

/// The output lists the cells of the first part, behind them those of the second, and
/// so on; the values of a cell stand together, band by band, at the cell's place.
pub proof fn output_follows_the_parts<L: AccLayout>(
    parts: Seq<CellStore<L>>,
    cells: Seq<u64>,
    n_out: int,
    stat: Stat,
    v: Seq<CellValue<L::Value>>,
    p: int,
    i: int,
    b: int,
)
    requires
        is_output_order(parts, cells),
        flat_values_of(parts, n_out, stat, parts.len() as int, v),
        0 <= p < parts.len(),
        0 <= i < parts[p].cells@.len(),
        0 <= b < n_out,
    ensures
        part_start(parts, 0) == 0,
        part_start(parts, p + 1) == part_start(parts, p) + parts[p].cells@.len(),
        cells.len() == part_start(parts, parts.len() as int),
        cells[part_start(parts, p) + i] == parts[p].cells@[i],
        v.len() == cells.len() * n_out,
        value_is(parts[p], stat, i, b, v[(part_start(parts, p) + i) * n_out + b]),
{
    assert(part_values(
        parts[p],
        part_start(parts, p),
        n_out,
        stat,
        parts[p].cells@.len() as int,
        v,
    ));
    assert(value_is(parts[p], stat, i, b, slab(v, n_out, part_start(parts, p) + i, b)));
}

/// The fractions of a cell in a band stand between its offset and the next: as many as
/// it has classes, in ascending order, each with the weight of that class out of the
/// weight of all.
pub proof fn fractions_are_weights_out_of_the_total<L: AccLayout>(
    parts: Seq<CellStore<L>>,
    b: int,
    f: BandFractions,
    p: int,
    i: int,
    k: int,
)
    requires
        fractions_of(parts, b, parts.len() as int, f),
        0 <= p < parts.len(),
        0 <= i < parts[p].cells@.len(),
        distinct_classes(parts[p].classes(i, b)),
    ensures
        ({
            let m = parts[p].classes(i, b);
            let lo = f.offsets@[part_start(parts, p) + i] as int;
            let hi = f.offsets@[part_start(parts, p) + i + 1] as int;
            &&& f.offsets@[0] == 0
            &&& f.offsets@.len() == part_start(parts, parts.len() as int) + 1
            &&& hi - lo == m.len()
            &&& lo <= k < hi ==> {
                &&& has_class(m, f.classes@[k])
                &&& f.shares@[k].0 == class_weight(m, f.classes@[k])
                &&& f.shares@[k].0 > 0
                &&& f.shares@[k].1 == total_weight(m)
            }
            &&& lo < k < hi ==> f.classes@[k - 1] < f.classes@[k]
        }),
{
    let m = parts[p].classes(i, b);
    let lo = f.offsets@[part_start(parts, p) + i] as int;
    let hi = f.offsets@[part_start(parts, p) + i + 1] as int;
    assert(part_shares(parts[p], part_start(parts, p), b, parts[p].cells@.len() as int, f));
    assert(shares_of(f.classes@, f.shares@, lo, hi, m));
    if lo <= k < hi {
        let x = (f.classes@[k], f.shares@[k].0);
        assert(m.contains(x));
        let j = choose|j: int| 0 <= j < m.len() && m[j] == x;
        assert(class_at(m, x.0, j));
        lemma_weight_at(m, j);
    }
}

} // verus!
