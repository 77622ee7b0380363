//! Spreading cells over partitions by a hash of their id.

use vstd::prelude::*;

verus! {

/// The multiplier of the partition hash.
pub const PARTITION_MULTIPLIER: u64 = 0x9E37_79B9_7F4A_7C15;

/// The partition of a cell among `2^log2p`: the top `log2p` bits of the
/// cell id times [`PARTITION_MULTIPLIER`], modulo 2^64.
pub open spec fn partition(cell: u64, log2p: u32) -> int {
    if log2p == 0 {
        0
    } else {
        (((cell * PARTITION_MULTIPLIER) % 0x1_0000_0000_0000_0000) as u64 >> ((64 - log2p) as u64))
            as int
    }
}

/// `2^log2p`.
pub open spec fn partition_count(log2p: u32) -> int {
    (1usize << (log2p as usize)) as int
}

/// The largest number of partitions is `2^8`.
pub const MAX_LOG2P: u32 = 8;

/// Every cell belongs to one of the partitions.
pub proof fn partition_in_range(cell: u64, log2p: u32)
    requires
        log2p <= MAX_LOG2P,
    ensures
        0 <= partition(cell, log2p) < partition_count(log2p),
        1 <= partition_count(log2p) <= 256,
{
    let h: u64 = ((cell * PARTITION_MULTIPLIER) % 0x1_0000_0000_0000_0000) as u64;
    assert(1usize << 0usize == 1usize) by (bit_vector);
    let l = log2p as u64;
    let lu = log2p as usize;
    assert(1 <= (1usize << lu) <= 256) by (bit_vector)
        requires
            lu <= 8,
    ;
    if log2p > 0 {
        let sh: u64 = (64 - log2p) as u64;
        assert((h >> sh) < (1u64 << l)) by (bit_vector)
            requires
                0 < l <= 8,
                sh == 64 - l,
        ;
        assert((1u64 << l) == (1usize << lu)) by (bit_vector)
            requires
                l <= 8,
                lu == l,
        ;
    }
}

/// The partition of a cell among `2^log2p`.
pub fn partition_of(cell: u64, log2p: u32) -> (r: usize)
    requires
        log2p <= MAX_LOG2P,
    ensures
        r == partition(cell, log2p),
        r < partition_count(log2p),
{
    proof {
        partition_in_range(cell, log2p);
    }
    if log2p == 0 {
        return 0;
    }
    (cell.wrapping_mul(PARTITION_MULTIPLIER) >> ((64 - log2p) as u64)) as usize
}

// ---------------------------------------------------------------------------
// grouping by partition

/// How many of the first `n` keys equal `p`.
pub open spec fn count_of(keys: Seq<usize>, p: int, n: int) -> int
    decreases n,
{
    if n <= 0 {
        0
    } else {
        count_of(keys, p, n - 1) + if keys[n - 1] == p {
            1int
        } else {
            0
        }
    }
}

/// How many of the first `n` keys are below `p`.
pub open spec fn count_below(keys: Seq<usize>, p: int, n: int) -> int
    decreases n,
{
    if n <= 0 {
        0
    } else {
        count_below(keys, p, n - 1) + if keys[n - 1] < p {
            1int
        } else {
            0
        }
    }
}

/// The positions among the first `n` where the key is `p`, ascending.
pub open spec fn group(keys: Seq<usize>, p: int, n: int) -> Seq<usize>
    decreases n,
{
    if n <= 0 {
        Seq::empty()
    } else if keys[n - 1] == p {
        group(keys, p, n - 1).push((n - 1) as usize)
    } else {
        group(keys, p, n - 1)
    }
}

proof fn lemma_counts(keys: Seq<usize>, p: int, n: int)
    requires
        0 <= n <= keys.len(),
    ensures
        0 <= count_of(keys, p, n) <= n,
        0 <= count_below(keys, p, n) <= n,
        count_below(keys, p + 1, n) == count_below(keys, p, n) + count_of(keys, p, n),
        p <= 0 ==> count_below(keys, p, n) == 0,
        group(keys, p, n).len() == count_of(keys, p, n),
    decreases n,
{
    if n > 0 {
        lemma_counts(keys, p, n - 1);
    }
}

proof fn lemma_all_below(keys: Seq<usize>, np: int, n: int)
    requires
        0 <= n <= keys.len(),
        forall|i: int| 0 <= i < keys.len() ==> #[trigger] keys[i] < np,
    ensures
        count_below(keys, np, n) == n,
    decreases n,
{
    if n > 0 {
        lemma_all_below(keys, np, n - 1);
    }
}

proof fn lemma_count_grows(keys: Seq<usize>, p: int, m: int, n: int)
    requires
        0 <= m <= n <= keys.len(),
    ensures
        count_of(keys, p, m) <= count_of(keys, p, n),
        m < n && keys[m] == p ==> count_of(keys, p, m) < count_of(keys, p, n),
    decreases n - m,
{
    if m < n {
        lemma_count_grows(keys, p, m + 1, n);
        assert(count_of(keys, p, m + 1) == count_of(keys, p, m) + if keys[m] == p {
            1int
        } else {
            0
        });
    }
}

proof fn lemma_below_grows(keys: Seq<usize>, p: int, q: int, n: int)
    requires
        0 <= n <= keys.len(),
        p <= q,
    ensures
        count_below(keys, p, n) <= count_below(keys, q, n),
    decreases n,
{
    if n > 0 {
        lemma_below_grows(keys, p, q, n - 1);
    }
}

/// The member of group `p` at rank `t` is the position with `t` equal keys
/// before it.
proof fn lemma_group_at(keys: Seq<usize>, p: int, n: int, t: int)
    requires
        0 <= n <= keys.len() <= usize::MAX,
        0 <= t < group(keys, p, n).len(),
    ensures
        ({
            let j = group(keys, p, n)[t] as int;
            0 <= j < n && keys[j] == p && count_of(keys, p, j) == t
        }),
    decreases n,
{
    lemma_counts(keys, p, n);
    if n > 0 {
        lemma_counts(keys, p, n - 1);
        if t < group(keys, p, n - 1).len() {
            lemma_group_at(keys, p, n - 1, t);
        }
    }
}

/// A position stands in the group of its key, at the rank that the equal keys
/// before it give.
pub(crate) proof fn lemma_group_has(keys: Seq<usize>, p: int, n: int, j: int)
    requires
        0 <= j < n <= keys.len() <= usize::MAX,
        keys[j] == p,
    ensures
        0 <= count_of(keys, p, j) < group(keys, p, n).len(),
        group(keys, p, n)[count_of(keys, p, j)] == j,
    decreases n,
{
    lemma_counts(keys, p, n);
    lemma_counts(keys, p, j);
    lemma_counts(keys, p, n - 1);
    if j < n - 1 {
        lemma_group_has(keys, p, n - 1, j);
    }
}

/// A group holds positions of its key only, each once, in ascending order.
pub(crate) proof fn lemma_group_members(keys: Seq<usize>, p: int, n: int)
    requires
        0 <= n <= keys.len() <= usize::MAX,
    ensures
        forall|t: int|
            0 <= t < group(keys, p, n).len() ==> (#[trigger] group(keys, p, n)[t]) < n && keys[group(
                keys,
                p,
                n,
            )[t] as int] == p,
        forall|t: int, u: int|
            0 <= t < u < group(keys, p, n).len() ==> (#[trigger] group(keys, p, n)[t]) < (
            #[trigger] group(keys, p, n)[u]),
    decreases n,
{
    if n > 0 {
        lemma_group_members(keys, p, n - 1);
        let g = group(keys, p, n);
        let h = group(keys, p, n - 1);
        assert forall|t: int| 0 <= t < g.len() implies (#[trigger] g[t]) < n && keys[g[t] as int]
            == p by {
            if t < h.len() {
                assert(g[t] == h[t]);
            }
        }
        assert forall|t: int, u: int| 0 <= t < u < g.len() implies (#[trigger] g[t]) < (
        #[trigger] g[u]) by {
            assert(g[t] == h[t]);
            if u < h.len() {
                assert(g[u] == h[u]);
            }
        }
    }
}

/// Groups positions by key with one counting sort.
///
/// Positions `start[p]..start[p + 1]` of the order hold the positions whose
/// key is `p`, in ascending order; together they hold every position.
pub fn group_by_key(keys: &Vec<usize>, np: usize) -> (r: (Vec<usize>, Vec<usize>))
    requires
        np < usize::MAX,
        forall|i: int| 0 <= i < keys@.len() ==> #[trigger] keys@[i] < np,
    ensures
        r.0@.len() == keys@.len(),
        r.1@.len() == np + 1,
        r.1@[0] == 0,
        r.1@[np as int] == keys@.len(),
        forall|p: int, q: int|
            0 <= p <= q <= np ==> (#[trigger] r.1@[p]) <= (#[trigger] r.1@[q]) <= keys@.len(),
        forall|p: int|
            0 <= p < np ==> r.0@.subrange((#[trigger] r.1@[p]) as int, r.1@[p + 1] as int)
                == group(keys@, p, keys@.len() as int),
{
    let n: usize = keys.len();
    let mut start: Vec<usize> = Vec::new();
    start.resize(np + 1, 0);
    for i in 0..n
        invariant
            n == keys@.len(),
            start@.len() == np + 1,
            np < usize::MAX,
            forall|k: int| 0 <= k < keys@.len() ==> #[trigger] keys@[k] < np,
            start@[0] == 0,
            forall|p: int| 0 <= p < np ==> #[trigger] start@[p + 1] == count_of(keys@, p, i as int),
    {
        let p: usize = keys[i];
        proof {
            lemma_counts(keys@, p as int, i as int);
            assert(start@[p as int + 1] == count_of(keys@, p as int, i as int));
        }
        let c: usize = start[p + 1];
        start.set(p + 1, c + 1);
        assert forall|q: int| 0 <= q < np implies #[trigger] start@[q + 1] == count_of(
            keys@,
            q,
            i + 1,
        ) by {
            assert(count_of(keys@, q, i + 1) == count_of(keys@, q, i as int) + if keys@[i as int]
                == q {
                1int
            } else {
                0
            });
        }
    }
    proof {
        lemma_counts(keys@, 0, n as int);
    }
    for p in 0..np
        invariant
            n == keys@.len(),
            start@.len() == np + 1,
            np < usize::MAX,
            forall|k: int| 0 <= k < keys@.len() ==> #[trigger] keys@[k] < np,
            forall|q: int| 0 <= q <= p ==> #[trigger] start@[q] == count_below(keys@, q, n as int),
            forall|q: int| p <= q < np ==> #[trigger] start@[q + 1] == count_of(keys@, q, n as int),
    {
        proof {
            lemma_counts(keys@, p as int, n as int);
            lemma_counts(keys@, p + 1, n as int);
            assert(start@[p + 1] == count_of(keys@, p as int, n as int));
            assert(start@[p as int] == count_below(keys@, p as int, n as int));
        }
        let s: usize = start[p + 1] + start[p];
        start.set(p + 1, s);
    }
    let mut fill: Vec<usize> = Vec::new();
    for p in 0..np
        invariant
            start@.len() == np + 1,
            fill@ == start@.take(p as int),
    {
        fill.push(start[p]);
        assert(start@.take(p + 1) == start@.take(p as int).push(start@[p as int]));
    }
    let mut order: Vec<usize> = Vec::new();
    order.resize(n, 0);
    for i in 0..n
        invariant
            n == keys@.len(),
            n <= usize::MAX,
            start@.len() == np + 1,
            fill@.len() == np,
            order@.len() == n,
            forall|k: int| 0 <= k < keys@.len() ==> #[trigger] keys@[k] < np,
            forall|q: int| 0 <= q <= np ==> #[trigger] start@[q] == count_below(keys@, q, n as int),
            forall|q: int|
                0 <= q < np ==> #[trigger] fill@[q] == count_below(keys@, q, n as int) + count_of(
                    keys@,
                    q,
                    i as int,
                ),
            forall|j: int|
                0 <= j < i ==> order@[count_below(keys@, #[trigger] keys@[j] as int, n as int)
                    + count_of(keys@, keys@[j] as int, j)] == j,
    {
        let p: usize = keys[i];
        let ghost base = count_below(keys@, p as int, n as int);
        let ghost pos = base + count_of(keys@, p as int, i as int);
        proof {
            lemma_counts(keys@, p as int, n as int);
            lemma_counts(keys@, p as int, i as int);
            lemma_counts(keys@, p + 1, n as int);
            lemma_count_grows(keys@, p as int, i as int, n as int);
            lemma_below_grows(keys@, p + 1, np as int, n as int);
            lemma_all_below(keys@, np as int, n as int);
            assert(fill@[p as int] == pos);
            assert(pos < n);
        }
        let at: usize = fill[p];
        let ghost before = order@;
        order.set(at, i);
        fill.set(p, at + 1);
        assert forall|j: int| 0 <= j < i + 1 implies order@[count_below(
            keys@,
            #[trigger] keys@[j] as int,
            n as int,
        ) + count_of(keys@, keys@[j] as int, j)] == j by {
            let q = keys@[j] as int;
            let pj = count_below(keys@, q, n as int) + count_of(keys@, q, j);
            if j < i {
                lemma_counts(keys@, q, n as int);
                lemma_counts(keys@, q, j);
                lemma_count_grows(keys@, q, j, n as int);
                if q == p {
                    lemma_count_grows(keys@, q, j, i as int);
                } else if q < p {
                    lemma_below_grows(keys@, q + 1, p as int, n as int);
                } else {
                    lemma_below_grows(keys@, p + 1, q, n as int);
                }
                lemma_below_grows(keys@, q + 1, np as int, n as int);
                assert(pj != pos && 0 <= pj < n);
                assert(before[pj] == j);
            }
        }
        assert forall|q: int| 0 <= q < np implies #[trigger] fill@[q] == count_below(
            keys@,
            q,
            n as int,
        ) + count_of(keys@, q, i + 1) by {
            assert(count_of(keys@, q, i + 1) == count_of(keys@, q, i as int) + if keys@[i as int]
                == q {
                1int
            } else {
                0
            });
        }
    }
    proof {
        lemma_all_below(keys@, np as int, n as int);
        lemma_counts(keys@, 0, n as int);
        assert forall|p: int, q: int| 0 <= p <= q <= np implies (#[trigger] start@[p]) <= (
        #[trigger] start@[q]) <= keys@.len() by {
            lemma_below_grows(keys@, p, q, n as int);
            lemma_counts(keys@, q, n as int);
        }
        assert forall|p: int| 0 <= p < np implies order@.subrange(
            (#[trigger] start@[p]) as int,
            start@[p + 1] as int,
        ) == group(keys@, p, n as int) by {
            lemma_counts(keys@, p, n as int);
            lemma_counts(keys@, p + 1, n as int);
            let g = group(keys@, p, n as int);
            let o = order@.subrange(start@[p] as int, start@[p + 1] as int);
            assert(start@[p + 1] == count_below(keys@, p + 1, n as int));
            assert(o.len() == g.len());
            assert forall|t: int| 0 <= t < g.len() implies o[t] == g[t] by {
                lemma_group_at(keys@, p, n as int, t);
                let j = g[t] as int;
                assert(keys@[j] == p);
                assert(order@[count_below(keys@, keys@[j] as int, n as int) + count_of(
                    keys@,
                    keys@[j] as int,
                    j,
                )] == j);
            }
        }
    }
    (order, start)
}

// ---------------------------------------------------------------------------
// laws

/// The partition of a cell is the number that the top bits of its hash spell: with `h`
/// the id times the multiplier, modulo 2^64, it is `h / 2^(64 - log2p)`.
pub proof fn partitions_are_the_top_bits(cell: u64, log2p: u32)
    requires
        log2p <= MAX_LOG2P,
    ensures
        partition(cell, log2p) == ((cell * 0x9E37_79B9_7F4A_7C15) % 0x1_0000_0000_0000_0000)
            / vstd::arithmetic::power2::pow2((64 - log2p) as nat) as int,
{
    let h: u64 = ((cell * PARTITION_MULTIPLIER) % 0x1_0000_0000_0000_0000) as u64;
    if log2p > 0 {
        let s = (64 - log2p) as u64;
        vstd::bits::lemma_u64_shr_is_div(h, s);
    } else {
        vstd::arithmetic::power2::lemma2_to64();
        vstd::arithmetic::power2::lemma2_to64_rest();
        assert(vstd::arithmetic::power2::pow2(64) == 0x1_0000_0000_0000_0000);
        assert(h as int / 0x1_0000_0000_0000_0000 == 0);
    }
}

/// There are `2^log2p` partitions.
pub proof fn partitions_number_a_power_of_two(log2p: u32)
    requires
        log2p <= MAX_LOG2P,
    ensures
        partition_count(log2p) == vstd::arithmetic::power2::pow2(log2p as nat),
{
    vstd::arithmetic::power2::lemma2_to64();
    let l = log2p as usize;
    assert(1usize << 0usize == 1 && 1usize << 1usize == 2 && 1usize << 2usize == 4 && 1usize
        << 3usize == 8 && 1usize << 4usize == 16 && 1usize << 5usize == 32 && 1usize << 6usize == 64
        && 1usize << 7usize == 128 && 1usize << 8usize == 256) by (bit_vector);
    assert(l == 0 || l == 1 || l == 2 || l == 3 || l == 4 || l == 5 || l == 6 || l == 7 || l == 8);
}

} // verus!
