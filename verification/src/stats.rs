//! Which statistics a read computes, and what has to be accumulated for them.

use vstd::prelude::*;

use crate::error::{invalid, is_invalid, A5CogError};
use crate::text::{join2, str_eq};

verus! {

/// A per-band statistic of a cell.
#[derive(Clone, Copy, Debug, PartialEq, Eq, Structural)]
pub enum Stat {
    Mean,
    Sum,
    Count,
    Min,
    Max,
    Var,
    Sd,
    /// Most-weighted class code (categorical rasters), taken from the
    /// per-cell class weights and not from the continuous accumulator.
    Majority,
}

/// The name under which a statistic is requested and reported.
pub open spec fn stat_name(s: Stat) -> Seq<char> {
    match s {
        Stat::Mean => "mean"@,
        Stat::Sum => "sum"@,
        Stat::Count => "count"@,
        Stat::Min => "min"@,
        Stat::Max => "max"@,
        Stat::Var => "var"@,
        Stat::Sd => "sd"@,
        Stat::Majority => "majority"@,
    }
}

/// The statistic of a given name.
pub open spec fn stat_of(name: Seq<char>) -> Option<Stat> {
    if name == "mean"@ {
        Some(Stat::Mean)
    } else if name == "sum"@ {
        Some(Stat::Sum)
    } else if name == "count"@ {
        Some(Stat::Count)
    } else if name == "min"@ {
        Some(Stat::Min)
    } else if name == "max"@ {
        Some(Stat::Max)
    } else if name == "var"@ {
        Some(Stat::Var)
    } else if name == "sd"@ {
        Some(Stat::Sd)
    } else if name == "majority"@ {
        Some(Stat::Majority)
    } else {
        None
    }
}

/// Every statistic is found again under the name that it reports.
pub proof fn stat_names_round_trip(s: Stat)
    ensures
        stat_of(stat_name(s)) == Some(s),
{
    reveal_strlit("mean");
    reveal_strlit("sum");
    reveal_strlit("count");
    reveal_strlit("min");
    reveal_strlit("max");
    reveal_strlit("var");
    reveal_strlit("sd");
    reveal_strlit("majority");
    assert("mean"@.len() == 4 && "count"@.len() == 5 && "sd"@.len() == 2 && "majority"@.len() == 8);
    assert("sum"@.len() == 3 && "sum"@[0] == 's');
    assert("min"@.len() == 3 && "min"@[0] == 'm' && "min"@[1] == 'i');
    assert("max"@.len() == 3 && "max"@[0] == 'm' && "max"@[1] == 'a');
    assert("var"@.len() == 3 && "var"@[0] == 'v');
}

impl Stat {
    /// The statistic of this name; an unknown name is refused.
    pub fn parse(s: &str) -> (r: Result<Stat, A5CogError>)
        ensures
            match stat_of(s@) {
                Some(v) => r == Ok::<Stat, A5CogError>(v),
                None => r matches Err(e) && is_invalid(e, "unknown stat: "@ + s@),
            },
    {
        if str_eq(s, "mean") {
            Ok(Stat::Mean)
        } else if str_eq(s, "sum") {
            Ok(Stat::Sum)
        } else if str_eq(s, "count") {
            Ok(Stat::Count)
        } else if str_eq(s, "min") {
            Ok(Stat::Min)
        } else if str_eq(s, "max") {
            Ok(Stat::Max)
        } else if str_eq(s, "var") {
            Ok(Stat::Var)
        } else if str_eq(s, "sd") {
            Ok(Stat::Sd)
        } else if str_eq(s, "majority") {
            Ok(Stat::Majority)
        } else {
            Err(A5CogError::Invalid(join2("unknown stat: ", s)))
        }
    }

    /// The name of this statistic.
    pub fn as_str(&self) -> (r: &'static str)
        ensures
            r@ == stat_name(*self),
    {
        match self {
            Stat::Mean => "mean",
            Stat::Sum => "sum",
            Stat::Count => "count",
            Stat::Min => "min",
            Stat::Max => "max",
            Stat::Var => "var",
            Stat::Sd => "sd",
            Stat::Majority => "majority",
        }
    }

    /// Whether this statistic is read from the continuous accumulator.
    pub fn needs_cont(&self) -> (r: bool)
        ensures
            r == (*self != Stat::Majority),
    {
        match self {
            Stat::Majority => false,
            _ => true,
        }
    }
}

/// A requested name that stands for no per-band statistic.
pub open spec fn is_flag_name(name: Seq<char>) -> bool {
    name == "fractions"@ || name == "npix"@
}

/// The request names `name` somewhere.
pub open spec fn requests(stats: Seq<String>, name: Seq<char>) -> bool {
    exists|i: int| 0 <= i < stats.len() && #[trigger] stats[i]@ == name
}

/// The per-band statistics among the first `n` requested names, in order, or
/// the first name that is neither a statistic nor a flag.
pub open spec fn band_stats(stats: Seq<String>, n: nat) -> Result<Seq<Stat>, Seq<char>>
    decreases n,
{
    if n == 0 {
        Ok(Seq::empty())
    } else {
        match band_stats(stats, (n - 1) as nat) {
            Err(u) => Err(u),
            Ok(v) => if is_flag_name(stats[n - 1]@) {
                Ok(v)
            } else {
                match stat_of(stats[n - 1]@) {
                    Some(s) => Ok(v.push(s)),
                    None => Err(stats[n - 1]@),
                }
            },
        }
    }
}

fn requested(stats: &Vec<String>, name: &str) -> (r: bool)
    ensures
        r == requests(stats@, name@),
{
    let mut i: usize = 0;
    while i < stats.len()
        invariant
            i <= stats.len(),
            forall|j: int| 0 <= j < i ==> #[trigger] stats@[j]@ != name@,
        decreases stats.len() - i,
    {
        if str_eq(stats[i].as_str(), name) {
            return true;
        }
        i = i + 1;
    }
    false
}

proof fn lemma_band_stats_err(stats: Seq<String>, n: nat, m: nat)
    requires
        n <= m,
        band_stats(stats, n) is Err,
    ensures
        band_stats(stats, m) == band_stats(stats, n),
    decreases m,
{
    if n < m {
        lemma_band_stats_err(stats, n, (m - 1) as nat);
    }
}

/// Splits a request into per-band statistics, the class-fraction flag and the
/// pixel-weight flag.
///
/// `fractions` has a result of varying length per cell and must come alone.
pub fn parse_stats(stats: &Vec<String>) -> (r: Result<(Vec<Stat>, bool, bool), A5CogError>)
    ensures
        ({
            let fractions = requests(stats@, "fractions"@);
            if stats@.len() == 0 {
                r matches Err(e) && is_invalid(e, "at least one stat is required"@)
            } else if fractions && stats@.len() > 1 {
                r matches Err(e) && is_invalid(
                    e,
                    "\"fractions\" must be the only requested stat"@,
                )
            } else {
                match band_stats(stats@, stats@.len()) {
                    Err(u) => r matches Err(e) && is_invalid(e, "unknown stat: "@ + u),
                    Ok(v) => r matches Ok(t) && t.0@ == v && t.1 == fractions && t.2 == requests(
                        stats@,
                        "npix"@,
                    ),
                }
            }
        }),
{
    if stats.len() == 0 {
        return Err(invalid("at least one stat is required"));
    }
    let fractions = requested(stats, "fractions");
    if fractions && stats.len() > 1 {
        return Err(invalid("\"fractions\" must be the only requested stat"));
    }
    let npix = requested(stats, "npix");
    let mut parsed: Vec<Stat> = Vec::new();
    for i in 0..stats.len()
        invariant
            band_stats(stats@, i as nat) == Ok::<Seq<Stat>, Seq<char>>(parsed@),
            stats@.len() > 0,
            fractions == requests(stats@, "fractions"@),
            !(fractions && stats@.len() > 1),
    {
        let name = stats[i].as_str();
        assert(band_stats(stats@, (i + 1) as nat) == if is_flag_name(name@) {
            Ok(parsed@)
        } else {
            match stat_of(name@) {
                Some(s) => Ok(parsed@.push(s)),
                None => Err(name@),
            }
        });
        if !str_eq(name, "fractions") && !str_eq(name, "npix") {
            match Stat::parse(name) {
                Ok(s) => parsed.push(s),
                Err(e) => {
                    proof {
                        lemma_band_stats_err(stats@, (i + 1) as nat, stats@.len());
                    }
                    return Err(e);
                },
            }
        }
    }
    Ok((parsed, fractions, npix))
}

/// What is accumulated per band, derived once from the request.
#[derive(Clone, Copy)]
pub struct AccCfg {
    /// Continuous accumulators.
    pub has_cont: bool,
    /// Class weights.
    pub has_cat: bool,
    /// One weight per cell: pixels (or pixel area) with any valid band.
    pub has_npix: bool,
}

/// Some statistic of the list satisfies `p`.
pub open spec fn any_stat(stats: Seq<Stat>, p: spec_fn(Stat) -> bool) -> bool {
    exists|i: int| 0 <= i < stats.len() && p(#[trigger] stats[i])
}

impl AccCfg {
    /// The accumulation that a request needs.
    pub fn from_stats(stats: &Vec<Stat>, fractions: bool, npix: bool) -> (r: AccCfg)
        ensures
            r.has_npix == npix,
            r.has_cont == any_stat(stats@, |s: Stat| s != Stat::Majority),
            r.has_cat == (fractions || any_stat(stats@, |s: Stat| s == Stat::Majority)),
    {
        let mut cont = false;
        let mut cat = false;
        for i in 0..stats.len()
            invariant
                cont == any_stat(stats@.take(i as int), |s: Stat| s != Stat::Majority),
                cat == any_stat(stats@.take(i as int), |s: Stat| s == Stat::Majority),
        {
            let ghost before = stats@.take(i as int);
            let ghost after = stats@.take(i + 1);
            let s = stats[i];
            assert(after == before.push(s));
            assert(after[i as int] == s);
            assert(forall|j: int| 0 <= j < i ==> before[j] == after[j]);
            if s.needs_cont() {
                cont = true;
            } else {
                cat = true;
            }
        }
        assert(stats@.take(stats@.len() as int) == stats@);
        AccCfg { has_npix: npix, has_cont: cont, has_cat: fractions || cat }
    }
}

/// How much state the continuous accumulator of a band holds.
#[derive(Clone, Copy, Debug, PartialEq, Eq, Structural)]
pub enum Layout {
    /// Weighted sum and total weight.
    Sum,
    /// And the smallest and largest value.
    Range,
    /// And the running mean and squared deviations.
    Full,
}

/// A layout holds what a statistic is computed from. `Majority` is not read
/// from the continuous accumulator, so every layout will do for it.
pub open spec fn carries(l: Layout, s: Stat) -> bool {
    match s {
        Stat::Var | Stat::Sd => l == Layout::Full,
        Stat::Min | Stat::Max => l != Layout::Sum,
        _ => true,
    }
}

/// A layout holds no more than another.
pub open spec fn no_larger(a: Layout, b: Layout) -> bool {
    a == Layout::Sum || a == b || b == Layout::Full
}

/// The smallest layout that carries every requested statistic.
pub fn layout_for(stats: &Vec<Stat>) -> (r: Layout)
    ensures
        forall|i: int| 0 <= i < stats@.len() ==> carries(r, #[trigger] stats@[i]),
        forall|l: Layout|
            (forall|i: int| 0 <= i < stats@.len() ==> carries(l, #[trigger] stats@[i]))
                ==> #[trigger] no_larger(r, l),
{
    let mut l = Layout::Sum;
    for i in 0..stats.len()
        invariant
            forall|j: int| 0 <= j < i ==> carries(l, #[trigger] stats@[j]),
            forall|o: Layout|
                (forall|j: int| 0 <= j < stats@.len() ==> carries(o, #[trigger] stats@[j]))
                    ==> #[trigger] no_larger(l, o),
    {
        let s = stats[i];
        match s {
            Stat::Var | Stat::Sd => {
                l = Layout::Full;
            },
            Stat::Min | Stat::Max => {
                if l == Layout::Sum {
                    l = Layout::Range;
                }
            },
            _ => {},
        }
        assert(carries(l, stats@[i as int]));
    }
    l
}

// ---------------------------------------------------------------------------
// laws

/// The eight names are different texts, and none of them is a flag.
proof fn lemma_names()
    ensures
        "mean"@.len() == 4,
        "sum"@.len() == 3 && "sum"@[0] == 's',
        "count"@.len() == 5,
        "min"@.len() == 3 && "min"@[0] == 'm' && "min"@[1] == 'i',
        "max"@.len() == 3 && "max"@[0] == 'm' && "max"@[1] == 'a',
        "var"@.len() == 3 && "var"@[0] == 'v',
        "sd"@.len() == 2,
        "majority"@.len() == 8,
        "fractions"@.len() == 9,
        "npix"@.len() == 4 && "npix"@[0] == 'n',
        "mean"@[0] == 'm',
{
    reveal_strlit("mean");
    reveal_strlit("sum");
    reveal_strlit("count");
    reveal_strlit("min");
    reveal_strlit("max");
    reveal_strlit("var");
    reveal_strlit("sd");
    reveal_strlit("majority");
    reveal_strlit("fractions");
    reveal_strlit("npix");
}

/// Each statistic is asked for by its own word and no other: `mean`, `sum`,
/// `count`, `min`, `max`, `var`, `sd` and `majority`.
pub proof fn words_mean_their_statistics(name: Seq<char>)
    ensures
        stat_of(name) == Some(Stat::Mean) <==> name == "mean"@,
        stat_of(name) == Some(Stat::Sum) <==> name == "sum"@,
        stat_of(name) == Some(Stat::Count) <==> name == "count"@,
        stat_of(name) == Some(Stat::Min) <==> name == "min"@,
        stat_of(name) == Some(Stat::Max) <==> name == "max"@,
        stat_of(name) == Some(Stat::Var) <==> name == "var"@,
        stat_of(name) == Some(Stat::Sd) <==> name == "sd"@,
        stat_of(name) == Some(Stat::Majority) <==> name == "majority"@,
{
    lemma_names();
}

/// Each statistic is reported under its own word.
pub proof fn statistics_report_their_words(s: Stat)
    ensures
        s == Stat::Mean <==> stat_name(s) == "mean"@,
        s == Stat::Sum <==> stat_name(s) == "sum"@,
        s == Stat::Count <==> stat_name(s) == "count"@,
        s == Stat::Min <==> stat_name(s) == "min"@,
        s == Stat::Max <==> stat_name(s) == "max"@,
        s == Stat::Var <==> stat_name(s) == "var"@,
        s == Stat::Sd <==> stat_name(s) == "sd"@,
        s == Stat::Majority <==> stat_name(s) == "majority"@,
{
    lemma_names();
}

/// How many of the first `n` requested names are neither `fractions` nor `npix`.
pub open spec fn named_stats(stats: Seq<String>, n: int) -> nat
    decreases n,
{
    if n <= 0 {
        0
    } else {
        named_stats(stats, n - 1) + if stats[n - 1]@ == "fractions"@ || stats[n - 1]@ == "npix"@ {
            0nat
        } else {
            1
        }
    }
}

/// An accepted request gives its statistics in the order of their names: the one
/// that name `i` asks for stands behind those of the names before it, and reports
/// that name again. Only `fractions` and `npix` ask for none.
pub proof fn requests_keep_their_order(stats: Seq<String>, n: nat, i: int)
    requires
        n <= stats.len(),
        band_stats(stats, n) is Ok,
        0 <= i < n,
    ensures
        band_stats(stats, n)->Ok_0.len() == named_stats(stats, n as int),
        stats[i]@ != "fractions"@ && stats[i]@ != "npix"@ ==> {
            &&& 0 <= named_stats(stats, i) < band_stats(stats, n)->Ok_0.len()
            &&& stat_name(band_stats(stats, n)->Ok_0[named_stats(stats, i) as int]) == stats[i]@
        },
    decreases n,
{
    lemma_names();
    let m = (n - 1) as nat;
    assert(band_stats(stats, m) is Ok);
    let v = band_stats(stats, m)->Ok_0;
    lemma_band_stats_len(stats, m);
    if i < m {
        requests_keep_their_order(stats, m, i);
    } else if stats[i]@ != "fractions"@ && stats[i]@ != "npix"@ {
        let s = stat_of(stats[i]@)->Some_0;
        words_mean_their_statistics(stats[i]@);
        statistics_report_their_words(s);
    }
}

proof fn lemma_band_stats_len(stats: Seq<String>, n: nat)
    requires
        band_stats(stats, n) is Ok,
    ensures
        band_stats(stats, n)->Ok_0.len() == named_stats(stats, n as int),
    decreases n,
{
    if n > 0 {
        lemma_band_stats_len(stats, (n - 1) as nat);
    }
}

/// A request is refused for an unknown word exactly where it holds a word that is
/// none of the statistics' and none of the flags', and the first such word is named.
pub proof fn unknown_words_are_refused(stats: Seq<String>, n: nat, u: Seq<char>)
    requires
        n <= stats.len(),
    ensures
        band_stats(stats, n) == Err::<Seq<Stat>, Seq<char>>(u) <==> exists|i: int|
            #![trigger stats[i]]
            0 <= i < n && stats[i]@ == u && is_foreign(u) && forall|j: int|
                0 <= j < i ==> !is_foreign(#[trigger] stats[j]@),
    decreases n,
{
    if n > 0 {
        let m = (n - 1) as nat;
        unknown_words_are_refused(stats, m, u);
        let w = stats[m as int]@;
        words_mean_their_statistics(w);
        if band_stats(stats, m) is Ok {
            lemma_no_foreign(stats, m);
            assert forall|i: int| 0 <= i < m implies !is_foreign(#[trigger] stats[i]@) by {}
            if is_foreign(w) {
                assert(stats[m as int]@ == w);
            }
        } else {
            let e = band_stats(stats, m)->Err_0;
            unknown_words_are_refused(stats, m, e);
            let k = choose|i: int|
                #![trigger stats[i]]
                0 <= i < m && stats[i]@ == e && is_foreign(e) && forall|j: int|
                    0 <= j < i ==> !is_foreign(#[trigger] stats[j]@);
            assert(is_foreign(stats[k]@));
        }
    }
}

/// The word asks for nothing that is known.
pub open spec fn is_foreign(w: Seq<char>) -> bool {
    &&& w != "mean"@ && w != "sum"@ && w != "count"@ && w != "min"@
    &&& w != "max"@ && w != "var"@ && w != "sd"@ && w != "majority"@
    &&& w != "fractions"@ && w != "npix"@
}

proof fn lemma_no_foreign(stats: Seq<String>, n: nat)
    requires
        n <= stats.len(),
        band_stats(stats, n) is Ok,
    ensures
        forall|i: int| 0 <= i < n ==> !is_foreign(#[trigger] stats[i]@),
    decreases n,
{
    if n > 0 {
        lemma_no_foreign(stats, (n - 1) as nat);
        words_mean_their_statistics(stats[n - 1]@);
    }
}

/// What a statistic needs of the accumulator: deviations for `var` and `sd`, extremes
/// for `min` and `max`, and nothing beyond the sum and the weight for the others.
pub proof fn layouts_carry_what_is_needed(l: Layout)
    ensures
        carries(l, Stat::Mean) && carries(l, Stat::Sum) && carries(l, Stat::Count),
        carries(l, Stat::Min) <==> l == Layout::Range || l == Layout::Full,
        carries(l, Stat::Max) <==> l == Layout::Range || l == Layout::Full,
        carries(l, Stat::Var) <==> l == Layout::Full,
        carries(l, Stat::Sd) <==> l == Layout::Full,
        no_larger(Layout::Sum, l) && no_larger(l, Layout::Full),
        no_larger(l, Layout::Sum) <==> l == Layout::Sum,
        no_larger(Layout::Full, l) <==> l == Layout::Full,
{
}

/// A name is requested exactly where one of the names is it, wherever it stands.
pub proof fn every_requested_name_counts(stats: Seq<String>, name: Seq<char>)
    ensures
        requests(stats, name) <==> Seq::new(stats.len(), |i: int| stats[i]@).contains(name),
{
    let words = Seq::new(stats.len(), |i: int| stats[i]@);
    if requests(stats, name) {
        let i = choose|i: int| 0 <= i < stats.len() && #[trigger] stats[i]@ == name;
        assert(words[i] == name);
    }
    if words.contains(name) {
        let i = choose|i: int| 0 <= i < words.len() && words[i] == name;
        assert(stats[i]@ == name);
    }
}

/// What is accumulated follows from the statistics: continuous accumulators exactly
/// where one of them is not the majority, classes exactly where one of them is.
pub proof fn accumulation_follows_from_statistics(stats: Seq<Stat>)
    ensures
        any_stat(stats, |s: Stat| s == Stat::Majority) <==> stats.contains(Stat::Majority),
        any_stat(stats, |s: Stat| s != Stat::Majority) <==> stats.contains(Stat::Mean)
            || stats.contains(Stat::Sum) || stats.contains(Stat::Count) || stats.contains(Stat::Min)
            || stats.contains(Stat::Max) || stats.contains(Stat::Var) || stats.contains(Stat::Sd),
{
    if any_stat(stats, |s: Stat| s != Stat::Majority) {
        let i = choose|i: int| 0 <= i < stats.len() && #[trigger] stats[i] != Stat::Majority;
        assert(stats.contains(stats[i]));
    }
}

} // verus!
