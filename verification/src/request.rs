//! Checking the arguments of a read.

use vstd::prelude::*;

use crate::error::{invalid, is_invalid, is_unsupported, unsupported, A5CogError};
use crate::stats::{band_stats, parse_stats, requests, Stat};
use crate::text::{decimal, decimal_i64, decimal_usize, join2, join3, join5, signed_decimal};

verus! {

/// The resolution of a read is one of the grid's, the whole world left out.
pub fn check_resolution(resolution: i32) -> (r: Result<(), A5CogError>)
    ensures
        if 0 <= resolution <= 30 {
            r is Ok
        } else {
            r matches Err(e) && is_invalid(
                e,
                "resolution must be 0..=30, got "@ + signed_decimal(resolution as int),
            )
        },
{
    if 0 <= resolution && resolution <= 30 {
        Ok(())
    } else {
        let n = decimal_i64(resolution as i64);
        Err(A5CogError::Invalid(join2("resolution must be 0..=30, got ", n.as_str())))
    }
}

/// Bands are given by index or by name, not both.
pub fn check_band_selection(bands_idx: &Vec<i32>, bands_names: &Vec<String>) -> (r: Result<
    (),
    A5CogError,
>)
    ensures
        if bands_idx@.len() > 0 && bands_names@.len() > 0 {
            r matches Err(e) && is_invalid(e, "specify bands by index OR by name, not both"@)
        } else {
            r is Ok
        },
{
    if bands_idx.len() > 0 && bands_names.len() > 0 {
        Err(invalid("specify bands by index OR by name, not both"))
    } else {
        Ok(())
    }
}

/// A number of workers or requests: at least one.
pub fn worker_count(n: i32) -> (r: usize)
    ensures
        r == (if n < 1 {
            1
        } else {
            n as int
        }),
{
    if n < 1 {
        1
    } else {
        n as usize
    }
}

/// What a read computes: its per-band statistics, whether it gives class
/// fractions, and whether it gives pixel weights.
pub struct ReadStats {
    pub stats: Vec<Stat>,
    pub fractions: bool,
    pub npix: bool,
}

/// Checks the arguments that every read shares, in order: the resolution, the
/// band selection, the statistics. Class fractions have a result of varying
/// length, which only a read with list output can give.
pub fn check_read(
    resolution: i32,
    bands_idx: &Vec<i32>,
    bands_names: &Vec<String>,
    stats: &Vec<String>,
    list_output: bool,
) -> (r: Result<ReadStats, A5CogError>)
    ensures
        ({
            let fractions = requests(stats@, "fractions"@);
            if !(0 <= resolution <= 30) {
                r matches Err(e) && is_invalid(
                    e,
                    "resolution must be 0..=30, got "@ + signed_decimal(resolution as int),
                )
            } else if bands_idx@.len() > 0 && bands_names@.len() > 0 {
                r matches Err(e) && is_invalid(e, "specify bands by index OR by name, not both"@)
            } else if stats@.len() == 0 {
                r matches Err(e) && is_invalid(e, "at least one stat is required"@)
            } else if fractions && stats@.len() > 1 {
                r matches Err(e) && is_invalid(e, "\"fractions\" must be the only requested stat"@)
            } else {
                match band_stats(stats@, stats@.len()) {
                    Err(u) => r matches Err(e) && is_invalid(e, "unknown stat: "@ + u),
                    Ok(v) => if fractions && !list_output {
                        r matches Err(e) && is_unsupported(
                            e,
                            "\"fractions\" is only available via a5_read_raster()"@,
                        )
                    } else {
                        r matches Ok(t) && t.stats@ == v && t.fractions == fractions && t.npix
                            == requests(stats@, "npix"@)
                    },
                }
            }
        }),
{
    match check_resolution(resolution) {
        Ok(_) => {},
        Err(e) => {
            return Err(e);
        },
    }
    match check_band_selection(bands_idx, bands_names) {
        Ok(_) => {},
        Err(e) => {
            return Err(e);
        },
    }
    match parse_stats(stats) {
        Err(e) => Err(e),
        Ok((parsed, fractions, npix)) => {
            if fractions && !list_output {
                Err(unsupported("\"fractions\" is only available via a5_read_raster()"))
            } else {
                Ok(ReadStats { stats: parsed, fractions, npix })
            }
        },
    }
}

/// Some flag is false.
pub open spec fn some_false(flags: Seq<bool>) -> bool {
    exists|i: int| 0 <= i < flags.len() && !#[trigger] flags[i]
}

/// An argument of `n` numbers, empty where the user passed nothing.
/// `finite[i]` tells whether number `i` is finite.
pub fn opt_arg<T>(v: Vec<T>, finite: &Vec<bool>, n: usize, label: &str) -> (r: Result<
    Option<Vec<T>>,
    A5CogError,
>)
    requires
        finite@.len() == v@.len(),
    ensures
        if v@.len() == 0 {
            r matches Ok(None)
        } else if v@.len() != n {
            r matches Err(e) && is_invalid(
                e,
                label@ + " must be length "@ + decimal(n as nat) + " (or NULL); got len "@ + decimal(
                    v@.len(),
                ),
            )
        } else if some_false(finite@) {
            r matches Err(e) && is_invalid(e, label@ + " must contain finite numeric values"@)
        } else {
            r matches Ok(Some(w)) && w == v
        },
{
    if v.len() == 0 {
        return Ok(None);
    }
    if v.len() != n {
        let a = decimal_usize(n);
        let b = decimal_usize(v.len());
        return Err(
            A5CogError::Invalid(
                join5(label, " must be length ", a.as_str(), " (or NULL); got len ", b.as_str()),
            ),
        );
    }
    let mut i: usize = 0;
    while i < finite.len()
        invariant
            i <= finite@.len(),
            v@.len() == n,
            v@.len() > 0,
            forall|k: int| 0 <= k < i ==> #[trigger] finite@[k],
        decreases finite@.len() - i,
    {
        if !finite[i] {
            assert(!finite@[i as int]);
            return Err(A5CogError::Invalid(join2(label, " must contain finite numeric values")));
        }
        i = i + 1;
    }
    Ok(Some(v))
}

/// The requested number of sub-points per pixel edge for overlay sampling, none
/// for forward sampling; zero asks for a number chosen from the pixel size.
pub fn parse_overlay_args(overlay: bool, subsamples: i32) -> (r: Result<Option<usize>, A5CogError>)
    ensures
        if !overlay {
            r matches Ok(None)
        } else if 0 <= subsamples <= 64 {
            r matches Ok(Some(k)) && k == subsamples
        } else {
            r matches Err(e) && is_invalid(
                e,
                "subsamples must be in 0..=64 (0 = auto); got "@ + signed_decimal(
                    subsamples as int,
                ),
            )
        },
{
    if !overlay {
        return Ok(None);
    }
    if subsamples < 0 || subsamples > 64 {
        let n = decimal_i64(subsamples as i64);
        return Err(
            A5CogError::Invalid(
                join2("subsamples must be in 0..=64 (0 = auto); got ", n.as_str()),
            ),
        );
    }
    Ok(Some(subsamples as usize))
}

/// The number of sub-points per pixel edge. Unless it was requested it is
/// `auto`, twice the pixel size in cell edges rounded up, held between 2 and 16.
pub fn resolve_overlay_k(edge_is_positive: bool, subsamples: usize, auto: usize) -> (r: Result<
    usize,
    A5CogError,
>)
    ensures
        if !edge_is_positive {
            r matches Err(e) && is_invalid(e, "overlay requires a positive cell_edge_m"@)
        } else if subsamples > 0 {
            r matches Ok(k) && k == subsamples
        } else {
            r matches Ok(k) && k == (if auto < 2 {
                2
            } else if auto > 16 {
                16
            } else {
                auto as int
            })
        },
{
    if !edge_is_positive {
        return Err(invalid("overlay requires a positive cell_edge_m"));
    }
    if subsamples > 0 {
        return Ok(subsamples);
    }
    Ok(
        if auto < 2 {
            2
        } else if auto > 16 {
            16
        } else {
            auto
        },
    )
}

// ---------------------------------------------------------------------------
// naming and de-interleaving the result

/// The name under which a read returns a band and a statistic: `<band>` where
/// there is one statistic, else `<band>__<stat>`.
pub open spec fn column_name(band: Seq<char>, stat: Seq<char>, n_stats: int) -> Seq<char> {
    if n_stats == 1 {
        band
    } else {
        band + "__"@ + stat
    }
}

/// The column names of a result, statistic by statistic and band by band.
pub fn column_names(bands: &Vec<String>, stats: &Vec<String>) -> (r: Vec<String>)
    ensures
        r@.len() == stats@.len() * bands@.len(),
        forall|s: int, b: int|
            0 <= s < stats@.len() && 0 <= b < bands@.len() ==> (#[trigger] crate::store::slab(
                r@,
                bands@.len() as int,
                s,
                b,
            ))@ == column_name(bands@[b]@, stats@[s]@, stats@.len() as int),
{
    let mut names: Vec<String> = Vec::new();
    let n_stats: usize = stats.len();
    let n: usize = bands.len();
    proof {
        crate::store::lemma_slab_grows(0, 0, n as int);
    }
    for s in 0..n_stats
        invariant
            n_stats == stats@.len(),
            n == bands@.len(),
            names@.len() == s * n,
            forall|k: int, b: int|
                0 <= k < s && 0 <= b < n ==> (#[trigger] crate::store::slab(
                    names@,
                    n as int,
                    k,
                    b,
                ))@ == column_name(bands@[b]@, stats@[k]@, n_stats as int),
    {
        let ghost before = names@;
        for b in 0..n
            invariant
                s < n_stats,
                n_stats == stats@.len(),
                n == bands@.len(),
                before.len() == s * n,
                names@.len() == before.len() + b,
                forall|k: int| 0 <= k < before.len() ==> names@[k] == before[k],
                forall|c: int|
                    0 <= c < b ==> (#[trigger] names@[before.len() + c])@ == column_name(
                        bands@[c]@,
                        stats@[s as int]@,
                        n_stats as int,
                    ),
        {
            let name: String = if n_stats == 1 {
                bands[b].clone()
            } else {
                join3(bands[b].as_str(), "__", stats[s].as_str())
            };
            names.push(name);
        }
        proof {
            assert((s + 1) * n == s * n + n) by (nonlinear_arith);
            assert forall|k: int, b: int| 0 <= k < s + 1 && 0 <= b < n implies (
            #[trigger] crate::store::slab(names@, n as int, k, b))@ == column_name(
                bands@[b]@,
                stats@[k]@,
                n_stats as int,
            ) by {
                if k < s {
                    crate::store::lemma_slab(k, n as int, b, s as int);
                    assert(crate::store::slab(names@, n as int, k, b) == crate::store::slab(
                        before,
                        n as int,
                        k,
                        b,
                    ));
                } else {
                    assert(names@[before.len() + b] == crate::store::slab(names@, n as int, k, b));
                }
            }
        }
    }
    names
}

/// The values of one band out of a cell-by-cell list of `n_bands` values each.
pub fn band_column<T: Copy>(flat: &Vec<T>, n_cells: usize, n_bands: usize, b: usize) -> (r: Vec<T>)
    requires
        b < n_bands,
        flat@.len() == n_cells * n_bands,
    ensures
        r@.len() == n_cells,
        forall|i: int|
            0 <= i < n_cells ==> #[trigger] r@[i] == crate::store::slab(
                flat@,
                n_bands as int,
                i,
                b as int,
            ),
{
    let mut col: Vec<T> = Vec::new();
    for i in 0..n_cells
        invariant
            b < n_bands,
            flat@.len() == n_cells * n_bands,
            col@.len() == i,
            forall|k: int|
                0 <= k < i ==> #[trigger] col@[k] == crate::store::slab(
                    flat@,
                    n_bands as int,
                    k,
                    b as int,
                ),
    {
        proof {
            crate::store::lemma_slab(i as int, n_bands as int, b as int, n_cells as int);
            crate::store::lemma_slab_grows(i as int, n_cells as int, n_bands as int);
            assert(flat.len() <= usize::MAX);
        }
        col.push(flat[i * n_bands + b]);
    }
    col
}

// ---------------------------------------------------------------------------
// laws

/// A read names its columns after the band alone where one statistic is asked for, and
/// after band and statistic, two underscores between them, where there are several.
pub proof fn columns_are_named_after_band_and_statistic(
    band: Seq<char>,
    stat: Seq<char>,
    n_stats: int,
)
    ensures
        n_stats == 1 ==> column_name(band, stat, n_stats) == band,
        n_stats > 1 ==> {
            let name = column_name(band, stat, n_stats);
            &&& name.len() == band.len() + 2 + stat.len()
            &&& name.take(band.len() as int) == band
            &&& name[band.len() as int] == '_' && name[(band.len() + 1) as int] == '_'
            &&& name.skip((band.len() + 2) as int) == stat
        },
{
    reveal_strlit("__");
    if n_stats > 1 {
        let name = column_name(band, stat, n_stats);
        assert(name.take(band.len() as int) =~= band);
        assert(name.skip((band.len() + 2) as int) =~= stat);
    }
}

/// A list of flags has a false one exactly where not all of them are true.
pub proof fn one_false_flag_is_enough(flags: Seq<bool>)
    ensures
        some_false(flags) <==> flags.contains(false),
{
    if some_false(flags) {
        let i = choose|i: int| 0 <= i < flags.len() && !#[trigger] flags[i];
        assert(flags[i] == false);
    }
    if flags.contains(false) {
        let i = choose|i: int| 0 <= i < flags.len() && flags[i] == false;
        assert(!flags[i]);
    }
}

} // verus!
