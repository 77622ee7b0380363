//! The shape of a Parquet result: columns, metadata and row groups.

use vstd::prelude::*;

use crate::error::{is_invalid, A5CogError};
use crate::request::band_column;
use crate::store::slab;
use crate::text::{
    decimal, decimal_i64, decimal_usize, join2, join3, join5, quote, quoted, signed_decimal, str_eq,
};

verus! {

/// Rows per row group at most.
pub const ROW_GROUP_ROWS: usize = 1_048_576;

/// How values are stored.
#[derive(Clone, Copy, Debug, PartialEq, Eq, Structural)]
pub enum ValueType {
    Float64,
    Float32,
}

/// The value type of a given name.
pub open spec fn value_type_of(name: Seq<char>) -> Option<ValueType> {
    if name == "float64"@ {
        Some(ValueType::Float64)
    } else if name == "float32"@ {
        Some(ValueType::Float32)
    } else {
        None
    }
}

impl ValueType {
    /// The value type of this name; an unknown name is refused.
    pub fn parse(s: &str) -> (r: Result<ValueType, A5CogError>)
        ensures
            match value_type_of(s@) {
                Some(v) => r == Ok::<ValueType, A5CogError>(v),
                None => r matches Err(e) && is_invalid(
                    e,
                    "unknown value_type "@ + quoted(s@) + "; expected float32 or float64"@,
                ),
            },
    {
        if str_eq(s, "float64") {
            Ok(ValueType::Float64)
        } else if str_eq(s, "float32") {
            Ok(ValueType::Float32)
        } else {
            let q = quote(s);
            Err(
                A5CogError::Invalid(
                    join3("unknown value_type ", q.as_str(), "; expected float32 or float64"),
                ),
            )
        }
    }
}

/// How columns are compressed.
#[derive(Clone, Copy, Debug, PartialEq, Eq, Structural)]
pub enum CompressionChoice {
    Zstd,
    Snappy,
    Uncompressed,
}

/// The compression of a given name.
pub open spec fn compression_of(name: Seq<char>) -> Option<CompressionChoice> {
    if name == "zstd"@ || name == "ZSTD"@ {
        Some(CompressionChoice::Zstd)
    } else if name == "snappy"@ || name == "SNAPPY"@ {
        Some(CompressionChoice::Snappy)
    } else if name == "none"@ || name == "uncompressed"@ {
        Some(CompressionChoice::Uncompressed)
    } else {
        None
    }
}

impl CompressionChoice {
    /// The compression of this name; an unknown name is refused.
    pub fn parse(s: &str) -> (r: Result<CompressionChoice, A5CogError>)
        ensures
            match compression_of(s@) {
                Some(v) => r == Ok::<CompressionChoice, A5CogError>(v),
                None => r matches Err(e) && is_invalid(
                    e,
                    "unknown compression "@ + quoted(s@) + "; expected zstd | snappy | none"@,
                ),
            },
    {
        if str_eq(s, "zstd") || str_eq(s, "ZSTD") {
            Ok(CompressionChoice::Zstd)
        } else if str_eq(s, "snappy") || str_eq(s, "SNAPPY") {
            Ok(CompressionChoice::Snappy)
        } else if str_eq(s, "none") || str_eq(s, "uncompressed") {
            Ok(CompressionChoice::Uncompressed)
        } else {
            let q = quote(s);
            Err(
                A5CogError::Invalid(
                    join3("unknown compression ", q.as_str(), "; expected zstd | snappy | none"),
                ),
            )
        }
    }
}

// ---------------------------------------------------------------------------
// columns

/// The type of a column.
#[derive(Clone, Copy, Debug, PartialEq, Eq, Structural)]
pub enum ColumnType {
    /// Cell ids.
    Cell,
    /// One value per row.
    Value(ValueType),
    /// A list of so many values per row, one per band.
    Vector(ValueType, usize),
}

/// A column of the result.
pub struct ColumnField {
    pub name: String,
    pub ty: ColumnType,
}

/// A column as a value of specifications.
#[verifier::ext_equal]
pub struct FieldText {
    pub name: Seq<char>,
    pub ty: ColumnType,
}

/// The text of a column.
pub open spec fn field_text(f: ColumnField) -> FieldText {
    FieldText { name: f.name@, ty: f.ty }
}

/// The texts of columns.
pub open spec fn field_texts(v: Seq<ColumnField>) -> Seq<FieldText> {
    Seq::new(v.len(), |i: int| field_text(v[i]))
}

/// The name of the list column of a statistic.
pub open spec fn vector_name(stat: Seq<char>, n_stats: int) -> Seq<char> {
    if n_stats == 1 {
        "value"@
    } else {
        "value_"@ + stat
    }
}

/// The list columns of the first `n` statistics.
pub open spec fn vector_fields(stats: Seq<String>, vt: ValueType, n_bands: usize, n: int) -> Seq<
    FieldText,
>
    decreases n,
{
    if n <= 0 {
        Seq::empty()
    } else {
        vector_fields(stats, vt, n_bands, n - 1).push(
            FieldText {
                name: vector_name(stats[n - 1]@, stats.len() as int),
                ty: ColumnType::Vector(vt, n_bands),
            },
        )
    }
}

/// The name of the value column of a band and a statistic: the band's name where
/// there is one statistic, else both.
pub open spec fn value_name(band: Seq<char>, stat: Seq<char>, n_stats: int) -> Seq<char> {
    if n_stats == 1 {
        band
    } else {
        band + "_"@ + stat
    }
}

/// The value columns of one statistic for the first `n` bands.
pub open spec fn band_fields(
    bands: Seq<String>,
    stat: Seq<char>,
    n_stats: int,
    vt: ValueType,
    n: int,
) -> Seq<FieldText>
    decreases n,
{
    if n <= 0 {
        Seq::empty()
    } else {
        band_fields(bands, stat, n_stats, vt, n - 1).push(
            FieldText {
                name: value_name(bands[n - 1]@, stat, n_stats),
                ty: ColumnType::Value(vt),
            },
        )
    }
}

/// The value columns of the first `n` statistics, band by band.
pub open spec fn value_fields(bands: Seq<String>, stats: Seq<String>, vt: ValueType, n: int) -> Seq<
    FieldText,
>
    decreases n,
{
    if n <= 0 {
        Seq::empty()
    } else {
        value_fields(bands, stats, vt, n - 1) + band_fields(
            bands,
            stats[n - 1]@,
            stats.len() as int,
            vt,
            bands.len() as int,
        )
    }
}

/// The columns of a result: the cell ids, then one list per statistic, or one
/// value column per statistic and band.
pub open spec fn result_fields(
    bands: Seq<String>,
    stats: Seq<String>,
    vt: ValueType,
    n_bands: usize,
    as_vector: bool,
) -> Seq<FieldText> {
    let cell = FieldText { name: "cell"@, ty: ColumnType::Cell };
    if as_vector {
        seq![cell] + vector_fields(stats, vt, n_bands, stats.len() as int)
    } else {
        seq![cell] + value_fields(bands, stats, vt, stats.len() as int)
    }
}

fn add_field(fields: &mut Vec<ColumnField>, name: String, ty: ColumnType)
    ensures
        field_texts(final(fields)@) == field_texts(old(fields)@).push(
            (FieldText { name: name@, ty }),
        ),
{
    let ghost n = name@;
    fields.push(ColumnField { name, ty });
    assert(field_texts(fields@) =~= field_texts(old(fields)@).push(FieldText { name: n, ty }));
}

/// The columns of a result.
pub fn fields_for(
    bands: &Vec<String>,
    stats: &Vec<String>,
    vt: ValueType,
    n_bands: usize,
    as_vector: bool,
) -> (r: Vec<ColumnField>)
    ensures
        field_texts(r@) == result_fields(bands@, stats@, vt, n_bands, as_vector),
{
    let mut fields: Vec<ColumnField> = Vec::new();
    assert(field_texts(fields@) =~= Seq::empty());
    add_field(&mut fields, "cell".to_owned(), ColumnType::Cell);
    let ghost head = field_texts(fields@);
    assert(head =~= seq![FieldText { name: "cell"@, ty: ColumnType::Cell }]);
    let n_stats: usize = stats.len();
    if as_vector {
        assert(head + vector_fields(stats@, vt, n_bands, 0) =~= head);
        for s in 0..n_stats
            invariant
                n_stats == stats@.len(),
                field_texts(fields@) == head + vector_fields(stats@, vt, n_bands, s as int),
        {
            let name: String = if n_stats == 1 {
                "value".to_owned()
            } else {
                join2("value_", stats[s].as_str())
            };
            let ghost before = field_texts(fields@);
            let ghost nm = name@;
            add_field(&mut fields, name, ColumnType::Vector(vt, n_bands));
            assert(field_texts(fields@) =~= head + vector_fields(stats@, vt, n_bands, s + 1));
        }
    } else {
        assert(head + value_fields(bands@, stats@, vt, 0) =~= head);
        for s in 0..n_stats
            invariant
                n_stats == stats@.len(),
                field_texts(fields@) == head + value_fields(bands@, stats@, vt, s as int),
        {
            let ghost before = field_texts(fields@);
            assert(before + band_fields(bands@, stats@[s as int]@, n_stats as int, vt, 0)
                =~= before);
            for b in 0..bands.len()
                invariant
                    s < n_stats,
                    n_stats == stats@.len(),
                    field_texts(fields@) == before + band_fields(
                        bands@,
                        stats@[s as int]@,
                        n_stats as int,
                        vt,
                        b as int,
                    ),
            {
                let name: String = if n_stats == 1 {
                    bands[b].clone()
                } else {
                    join3(bands[b].as_str(), "_", stats[s].as_str())
                };
                add_field(&mut fields, name, ColumnType::Value(vt));
                assert(field_texts(fields@) =~= before + band_fields(
                    bands@,
                    stats@[s as int]@,
                    n_stats as int,
                    vt,
                    b + 1,
                ));
            }
            assert(field_texts(fields@) =~= head + value_fields(bands@, stats@, vt, s + 1));
        }
    }
    fields
}

/// A result has one column for the cell ids and one per list or value column, so
/// fields and columns match.
pub proof fn result_has_a_field_per_column(
    bands: Seq<String>,
    stats: Seq<String>,
    vt: ValueType,
    n_bands: usize,
    as_vector: bool,
)
    ensures
        result_fields(bands, stats, vt, n_bands, as_vector).len() == 1 + (if as_vector {
            stats.len()
        } else {
            stats.len() * bands.len()
        }),
{
    if as_vector {
        lemma_vector_len(stats, vt, n_bands, stats.len() as int);
    } else {
        lemma_value_len(bands, stats, vt, stats.len() as int);
    }
}

proof fn lemma_vector_len(stats: Seq<String>, vt: ValueType, n_bands: usize, n: int)
    requires
        0 <= n,
    ensures
        vector_fields(stats, vt, n_bands, n).len() == n,
    decreases n,
{
    if n > 0 {
        lemma_vector_len(stats, vt, n_bands, n - 1);
    }
}

proof fn lemma_band_len(bands: Seq<String>, stat: Seq<char>, n_stats: int, vt: ValueType, n: int)
    requires
        0 <= n,
    ensures
        band_fields(bands, stat, n_stats, vt, n).len() == n,
    decreases n,
{
    if n > 0 {
        lemma_band_len(bands, stat, n_stats, vt, n - 1);
    }
}

proof fn lemma_value_len(bands: Seq<String>, stats: Seq<String>, vt: ValueType, n: int)
    requires
        0 <= n <= stats.len(),
    ensures
        value_fields(bands, stats, vt, n).len() == n * bands.len(),
    decreases n,
{
    if n > 0 {
        lemma_value_len(bands, stats, vt, n - 1);
        lemma_band_len(bands, stats[n - 1]@, stats.len() as int, vt, bands.len() as int);
        assert(n * bands.len() == (n - 1) * bands.len() + bands.len()) by (nonlinear_arith);
    } else {
        assert(0 * bands.len() == 0) by (nonlinear_arith);
    }
}

// ---------------------------------------------------------------------------
// values

/// The text of the error for a number of value lists other than of statistics.
pub open spec fn outer_mismatch(n: nat, n_stats: nat) -> Seq<char> {
    "flat_values outer len "@ + decimal(n) + " != stats "@ + decimal(n_stats)
}

/// The text of the error for a value list of the wrong length.
pub open spec fn inner_mismatch(n: nat, n_cells: nat, n_bands: nat) -> Seq<char> {
    "flat_values inner len "@ + decimal(n) + " != cells "@ + decimal(n_cells) + " * bands "@
        + decimal(n_bands)
}

/// Checks that there is one value list per statistic and each holds all bands of
/// all cells.
pub fn check_flat_values<V>(
    flat_values: &Vec<Vec<V>>,
    n_stats: usize,
    n_cells: usize,
    n_bands: usize,
) -> (r: Result<(), A5CogError>)
    requires
        n_cells * n_bands <= usize::MAX,
    ensures
        if flat_values@.len() != n_stats {
            r matches Err(e) && is_invalid(e, outer_mismatch(flat_values@.len(), n_stats as nat))
        } else {
            match r {
                Ok(_) => forall|k: int|
                    0 <= k < flat_values@.len() ==> (#[trigger] flat_values@[k])@.len() == n_cells
                        * n_bands,
                Err(e) => exists|k: int|
                    {
                        &&& 0 <= k < flat_values@.len()
                        &&& (#[trigger] flat_values@[k])@.len() != n_cells * n_bands
                        &&& forall|j: int|
                            0 <= j < k ==> (#[trigger] flat_values@[j])@.len() == n_cells * n_bands
                        &&& is_invalid(
                            e,
                            inner_mismatch(
                                flat_values@[k]@.len(),
                                n_cells as nat,
                                n_bands as nat,
                            ),
                        )
                    },
            }
        },
{
    if flat_values.len() != n_stats {
        let a = decimal_usize(flat_values.len());
        let b = decimal_usize(n_stats);
        let head = join3("flat_values outer len ", a.as_str(), " != stats ");
        return Err(A5CogError::Invalid(join2(head.as_str(), b.as_str())));
    }
    let mut k: usize = 0;
    while k < flat_values.len()
        invariant
            n_cells * n_bands <= usize::MAX,
            flat_values@.len() == n_stats,
            k <= flat_values@.len(),
            forall|j: int|
                0 <= j < k ==> (#[trigger] flat_values@[j])@.len() == n_cells * n_bands,
        decreases flat_values@.len() - k,
    {
        let n: usize = flat_values[k].len();
        if n != n_cells * n_bands {
            let a = decimal_usize(n);
            let b = decimal_usize(n_cells);
            let c = decimal_usize(n_bands);
            let head = join5(
                "flat_values inner len ",
                a.as_str(),
                " != cells ",
                b.as_str(),
                " * bands ",
            );
            assert(flat_values@[k as int]@.len() != n_cells * n_bands);
            return Err(A5CogError::Invalid(join2(head.as_str(), c.as_str())));
        }
        k = k + 1;
    }
    Ok(())
}

/// The value columns of a result: for each statistic, each band's values over
/// all cells.
pub fn wide_columns<V: Copy>(flat_values: &Vec<Vec<V>>, n_cells: usize, n_bands: usize) -> (r: Vec<
    Vec<V>,
>)
    requires
        forall|k: int|
            0 <= k < flat_values@.len() ==> (#[trigger] flat_values@[k])@.len() == n_cells
                * n_bands,
    ensures
        r@.len() == flat_values@.len() * n_bands,
        forall|k: int, b: int, i: int|
            0 <= k < flat_values@.len() && 0 <= b < n_bands && 0 <= i < n_cells
                ==> #[trigger] slab(r@, n_bands as int, k, b)@[i] == slab(
                flat_values@[k]@,
                n_bands as int,
                i,
                b,
            ),
        forall|c: int| 0 <= c < r@.len() ==> (#[trigger] r@[c])@.len() == n_cells,
{
    let mut out: Vec<Vec<V>> = Vec::new();
    proof {
        crate::store::lemma_slab_grows(0, 0, n_bands as int);
    }
    for k in 0..flat_values.len()
        invariant
            forall|k: int|
                0 <= k < flat_values@.len() ==> (#[trigger] flat_values@[k])@.len() == n_cells
                    * n_bands,
            out@.len() == k * n_bands,
            forall|j: int, b: int, i: int|
                0 <= j < k && 0 <= b < n_bands && 0 <= i < n_cells ==> #[trigger] slab(
                    out@,
                    n_bands as int,
                    j,
                    b,
                )@[i] == slab(flat_values@[j]@, n_bands as int, i, b),
            forall|c: int| 0 <= c < out@.len() ==> (#[trigger] out@[c])@.len() == n_cells,
    {
        let ghost before = out@;
        for b in 0..n_bands
            invariant
                k < flat_values@.len(),
                flat_values@[k as int]@.len() == n_cells * n_bands,
                before.len() == k * n_bands,
                out@.len() == before.len() + b,
                forall|c: int| 0 <= c < before.len() ==> #[trigger] out@[c] == before[c],
                forall|c: int, i: int|
                    0 <= c < b && 0 <= i < n_cells ==> #[trigger] out@[before.len() + c]@[i] == slab(
                        flat_values@[k as int]@,
                        n_bands as int,
                        i,
                        c,
                    ),
                forall|c: int| 0 <= c < out@.len() ==> (#[trigger] out@[c])@.len() == n_cells,
        {
            let ghost was = out@;
            let col = band_column(&flat_values[k], n_cells, n_bands, b);
            out.push(col);
            assert forall|c: int, i: int|
                0 <= c < b + 1 && 0 <= i < n_cells implies #[trigger] out@[before.len() + c]@[i]
                == slab(flat_values@[k as int]@, n_bands as int, i, c) by {
                if c < b {
                    assert(out@[before.len() + c] == was[before.len() + c]);
                }
            }
        }
        proof {
            assert((k + 1) * n_bands == k * n_bands + n_bands) by (nonlinear_arith);
            assert forall|j: int, b: int, i: int|
                0 <= j < k + 1 && 0 <= b < n_bands && 0 <= i < n_cells implies #[trigger] slab(
                out@,
                n_bands as int,
                j,
                b,
            )@[i] == slab(flat_values@[j]@, n_bands as int, i, b) by {
                if j < k {
                    crate::store::lemma_slab(j, n_bands as int, b, k as int);
                    assert(slab(out@, n_bands as int, j, b) == slab(before, n_bands as int, j, b));
                } else {
                    assert(out@[before.len() + b]@[i] == slab(
                        flat_values@[k as int]@,
                        n_bands as int,
                        i,
                        b,
                    ));
                }
            }
        }
    }
    out
}

// ---------------------------------------------------------------------------
// metadata

/// The texts one after the other, a line break between them.
pub open spec fn lines(v: Seq<String>, n: int) -> Seq<char>
    decreases n,
{
    if n <= 0 {
        Seq::empty()
    } else if n == 1 {
        v[0]@
    } else {
        lines(v, n - 1) + "\n"@ + v[n - 1]@
    }
}

fn join_lines(v: &Vec<String>) -> (r: String)
    ensures
        r@ == lines(v@, v@.len() as int),
{
    let mut s = String::new();
    for i in 0..v.len()
        invariant
            s@ == lines(v@, i as int),
    {
        s = if i == 0 {
            v[0].clone()
        } else {
            join3(s.as_str(), "\n", v[i].as_str())
        };
    }
    s
}

/// The metadata of a result, as pairs of a key and a value.
pub open spec fn metadata_of(
    bands: Seq<String>,
    resolution: int,
    stats: Seq<String>,
    as_vector: bool,
) -> Seq<(Seq<char>, Seq<char>)> {
    let all = seq![
        ("a5px_band_names"@, lines(bands, bands.len() as int)),
        ("a5px_resolution"@, signed_decimal(resolution)),
        ("a5px_stats"@, lines(stats, stats.len() as int)),
        (
            "a5px_layout"@,
            if as_vector {
                "fsl"@
            } else {
                "wide"@
            },
        ),
    ];
    if stats.len() == 1 {
        all.push(("a5px_stat"@, stats[0]@))
    } else {
        all
    }
}

fn add_entry(m: &mut Vec<(String, String)>, key: &str, value: String)
    ensures
        crate::source::pair_texts(final(m)@) == crate::source::pair_texts(old(m)@).push(
            (key@, value@),
        ),
{
    let ghost v = value@;
    m.push((key.to_owned(), value));
    assert(crate::source::pair_texts(m@) =~= crate::source::pair_texts(old(m)@).push((key@, v)));
}

/// The metadata of a result: what is needed to read it back.
pub fn file_metadata(
    bands: &Vec<String>,
    resolution: i32,
    stats: &Vec<String>,
    as_vector: bool,
) -> (r: Vec<(String, String)>)
    ensures
        crate::source::pair_texts(r@) == metadata_of(
            bands@,
            resolution as int,
            stats@,
            as_vector,
        ),
{
    let mut m: Vec<(String, String)> = Vec::new();
    assert(crate::source::pair_texts(m@) =~= Seq::empty());
    add_entry(&mut m, "a5px_band_names", join_lines(bands));
    add_entry(&mut m, "a5px_resolution", decimal_i64(resolution as i64));
    add_entry(&mut m, "a5px_stats", join_lines(stats));
    let layout: String = if as_vector {
        "fsl".to_owned()
    } else {
        "wide".to_owned()
    };
    add_entry(&mut m, "a5px_layout", layout);
    if stats.len() == 1 {
        add_entry(&mut m, "a5px_stat", stats[0].clone());
    }
    assert(crate::source::pair_texts(m@) =~= metadata_of(
        bands@,
        resolution as int,
        stats@,
        as_vector,
    ));
    m
}

// ---------------------------------------------------------------------------
// row groups

/// The first row and the number of rows of each row group.
pub fn row_groups(n_rows: usize) -> (r: Vec<(usize, usize)>)
    ensures
        r@.len() >= 1,
        n_rows == 0 ==> r@.len() == 1 && r@[0] == (0usize, 0usize),
        n_rows > 0 ==> r@.len() == (n_rows + ROW_GROUP_ROWS - 1) / (ROW_GROUP_ROWS as int),
        forall|k: int|
            0 <= k < r@.len() ==> (#[trigger] r@[k]).0 == k * ROW_GROUP_ROWS && r@[k].1 == (if (k
                + 1) * ROW_GROUP_ROWS <= n_rows {
                ROW_GROUP_ROWS as int
            } else {
                n_rows - k * ROW_GROUP_ROWS
            }),
{
    let mut out: Vec<(usize, usize)> = Vec::new();
    if n_rows == 0 {
        out.push((0, 0));
        return out;
    }
    let mut start: usize = 0;
    while start < n_rows
        invariant
            n_rows > 0,
            start <= n_rows,
            start < n_rows ==> start == out@.len() * ROW_GROUP_ROWS,
            start == n_rows ==> out@.len() == (n_rows + ROW_GROUP_ROWS - 1) / (
            ROW_GROUP_ROWS as int),
            forall|k: int|
                0 <= k < out@.len() ==> (#[trigger] out@[k]).0 == k * ROW_GROUP_ROWS && out@[k].1
                    == (if (k + 1) * ROW_GROUP_ROWS <= n_rows {
                    ROW_GROUP_ROWS as int
                } else {
                    n_rows - k * ROW_GROUP_ROWS
                }),
        decreases n_rows - start,
    {
        let len: usize = if n_rows - start < ROW_GROUP_ROWS {
            n_rows - start
        } else {
            ROW_GROUP_ROWS
        };
        out.push((start, len));
        start = start + len;
    }
    out
}

/// Every row lies in exactly one row group.
pub proof fn row_lies_in_one_group(n_rows: int, row: int, k: int)
    requires
        0 <= row < n_rows,
        0 <= k,
    ensures
        (k * ROW_GROUP_ROWS <= row && row < (if (k + 1) * ROW_GROUP_ROWS <= n_rows {
            (k + 1) * ROW_GROUP_ROWS
        } else {
            n_rows
        })) <==> k == row / (ROW_GROUP_ROWS as int),
{
}

/// Checks that every column writer has a leaf to write.
pub fn check_leaf_count(leaves: usize, writers: usize) -> (r: Result<(), A5CogError>)
    ensures
        if leaves == writers {
            r is Ok
        } else {
            r matches Err(e) && e is Parquet && crate::error::error_payload(e) == "leaf count "@
                + decimal(leaves as nat) + " != column writers "@ + decimal(writers as nat)
        },
{
    if leaves == writers {
        return Ok(());
    }
    let a = decimal_usize(leaves);
    let b = decimal_usize(writers);
    let head = join3("leaf count ", a.as_str(), " != column writers ");
    Err(A5CogError::Parquet(join2(head.as_str(), b.as_str())))
}

// ---------------------------------------------------------------------------
// laws

/// Value types are asked for by two words, and by nothing else.
pub proof fn words_mean_their_value_types(name: Seq<char>)
    ensures
        value_type_of(name) == Some(ValueType::Float64) <==> name == "float64"@,
        value_type_of(name) == Some(ValueType::Float32) <==> name == "float32"@,
        value_type_of(name) is None <==> name != "float64"@ && name != "float32"@,
{
    reveal_strlit("float64");
    reveal_strlit("float32");
    assert("float64"@[5] == '6' && "float32"@[5] == '3');
}

/// Compressions are asked for by name, and by nothing else.
pub proof fn words_mean_their_compressions(name: Seq<char>)
    ensures
        compression_of(name) == Some(CompressionChoice::Zstd) <==> name == "zstd"@ || name
            == "ZSTD"@,
        compression_of(name) == Some(CompressionChoice::Snappy) <==> name == "snappy"@ || name
            == "SNAPPY"@,
        compression_of(name) == Some(CompressionChoice::Uncompressed) <==> name == "none"@ || name
            == "uncompressed"@,
        compression_of(name) is None <==> name != "zstd"@ && name != "ZSTD"@ && name != "snappy"@
            && name != "SNAPPY"@ && name != "none"@ && name != "uncompressed"@,
{
    reveal_strlit("zstd");
    reveal_strlit("ZSTD");
    reveal_strlit("snappy");
    reveal_strlit("SNAPPY");
    reveal_strlit("none");
    reveal_strlit("uncompressed");
    assert("zstd"@[0] == 'z' && "ZSTD"@[0] == 'Z' && "snappy"@[0] == 's' && "SNAPPY"@[0] == 'S'
        && "none"@[0] == 'n' && "uncompressed"@[0] == 'u');
}

proof fn lemma_vector_field(stats: Seq<String>, vt: ValueType, n_bands: usize, n: int, s: int)
    requires
        0 <= s < n <= stats.len(),
    ensures
        vector_fields(stats, vt, n_bands, n).len() == n,
        vector_fields(stats, vt, n_bands, n)[s].ty == ColumnType::Vector(vt, n_bands),
        stats.len() == 1 ==> vector_fields(stats, vt, n_bands, n)[s].name == "value"@,
        stats.len() > 1 ==> vector_fields(stats, vt, n_bands, n)[s].name == "value_"@ + stats[s]@,
    decreases n,
{
    lemma_vector_len(stats, vt, n_bands, n);
    lemma_vector_len(stats, vt, n_bands, n - 1);
    if s < n - 1 {
        lemma_vector_field(stats, vt, n_bands, n - 1, s);
    }
}

proof fn lemma_band_field(
    bands: Seq<String>,
    stat: Seq<char>,
    n_stats: int,
    vt: ValueType,
    n: int,
    b: int,
)
    requires
        0 <= b < n <= bands.len(),
        n_stats >= 1,
    ensures
        band_fields(bands, stat, n_stats, vt, n).len() == n,
        band_fields(bands, stat, n_stats, vt, n)[b].ty == ColumnType::Value(vt),
        n_stats == 1 ==> band_fields(bands, stat, n_stats, vt, n)[b].name == bands[b]@,
        n_stats > 1 ==> band_fields(bands, stat, n_stats, vt, n)[b].name == bands[b]@.push('_')
            + stat,
    decreases n,
{
    lemma_band_len(bands, stat, n_stats, vt, n);
    lemma_band_len(bands, stat, n_stats, vt, n - 1);
    if b < n - 1 {
        lemma_band_field(bands, stat, n_stats, vt, n - 1, b);
    } else {
        reveal_strlit("_");
        assert(bands[b]@ + "_"@ =~= bands[b]@.push('_'));
    }
}

proof fn lemma_value_field(
    bands: Seq<String>,
    stats: Seq<String>,
    vt: ValueType,
    n: int,
    s: int,
    b: int,
)
    requires
        0 <= s < n <= stats.len(),
        0 <= b < bands.len(),
    ensures
        0 <= s * bands.len() + b < value_fields(bands, stats, vt, n).len(),
        ({
            let f = value_fields(bands, stats, vt, n)[s * bands.len() + b];
            &&& f.ty == ColumnType::Value(vt)
            &&& stats.len() == 1 ==> f.name == bands[b]@
            &&& stats.len() > 1 ==> f.name == bands[b]@.push('_') + stats[s]@
        }),
    decreases n,
{
    let w = bands.len() as int;
    lemma_value_len(bands, stats, vt, n);
    lemma_value_len(bands, stats, vt, n - 1);
    assert(s * w + b < n * w) by (nonlinear_arith)
        requires
            0 <= s < n,
            0 <= b < w,
    ;
    assert(0 <= s * w + b) by (nonlinear_arith)
        requires
            0 <= s,
            0 <= b,
            0 <= w,
    ;
    if s < n - 1 {
        lemma_value_field(bands, stats, vt, n - 1, s, b);
    } else {
        lemma_band_field(bands, stats[s]@, stats.len() as int, vt, w, b);
        assert(value_fields(bands, stats, vt, n - 1).len() == s * w);
    }
}

/// The first column holds the cells. Behind it stand, in the layout of lists, one list
/// per statistic with an entry per band, in the wide layout one column per statistic
/// and band, the bands of a statistic side by side. Where there are several
/// statistics, the name ends in that of the statistic.
pub proof fn columns_stand_by_statistic_and_band(
    bands: Seq<String>,
    stats: Seq<String>,
    vt: ValueType,
    n_bands: usize,
    s: int,
    b: int,
)
    requires
        0 <= s < stats.len(),
        0 <= b < bands.len(),
    ensures
        result_fields(bands, stats, vt, n_bands, true)[0] == (FieldText {
            name: "cell"@,
            ty: ColumnType::Cell,
        }),
        result_fields(bands, stats, vt, n_bands, false)[0] == (FieldText {
            name: "cell"@,
            ty: ColumnType::Cell,
        }),
        ({
            let f = result_fields(bands, stats, vt, n_bands, true)[1 + s];
            &&& f.ty == ColumnType::Vector(vt, n_bands)
            &&& stats.len() == 1 ==> f.name == "value"@
            &&& stats.len() > 1 ==> f.name == "value_"@ + stats[s]@
        }),
        ({
            let f = result_fields(bands, stats, vt, n_bands, false)[1 + s * bands.len() + b];
            &&& f.ty == ColumnType::Value(vt)
            &&& stats.len() == 1 ==> f.name == bands[b]@
            &&& stats.len() > 1 ==> f.name == bands[b]@.push('_') + stats[s]@
        }),
{
    lemma_vector_field(stats, vt, n_bands, stats.len() as int, s);
    lemma_value_field(bands, stats, vt, stats.len() as int, s, b);
}

/// Values of a band in a list of all bands of all cells stand as many places apart as
/// there are bands, columns of a band as many columns apart.
pub proof fn bands_alternate_in_a_list<V>(values: Seq<V>, n_bands: int, i: int, b: int)
    requires
        0 <= i,
        0 <= b < n_bands,
    ensures
        slab(values, n_bands, 0, b) == values[b],
        slab(values, n_bands, i + 1, b) == values[i * n_bands + n_bands + b],
{
    assert((i + 1) * n_bands == i * n_bands + n_bands) by (nonlinear_arith);
}

/// Names are listed one to a line, no break before the first or behind the last.
pub proof fn names_are_listed_by_line(v: Seq<String>, n: int)
    requires
        1 <= n < v.len(),
    ensures
        lines(v, 1) == v[0]@,
        lines(v, n + 1) == lines(v, n).push('\n') + v[n]@,
        lines(v, 0).len() == 0,
{
    reveal_strlit("\n");
    assert(lines(v, n) + "\n"@ =~= lines(v, n).push('\n'));
}

/// A file says which bands, resolution, statistics and layout it holds, and names the
/// statistic by itself where there is one only.
pub proof fn files_say_what_they_hold(bands: Seq<String>, resolution: int, stats: Seq<String>)
    ensures
        forall|l: bool|
            {
                let m = #[trigger] metadata_of(bands, resolution, stats, l);
                &&& m[0] == ("a5px_band_names"@, lines(bands, bands.len() as int))
                &&& m[1].0 == "a5px_resolution"@
                &&& resolution >= 0 ==> m[1].1 == decimal(resolution as nat)
                &&& m[2] == ("a5px_stats"@, lines(stats, stats.len() as int))
                &&& m[3].0 == "a5px_layout"@
                &&& l ==> m[3].1 == "fsl"@
                &&& !l ==> m[3].1 == "wide"@
                &&& stats.len() == 1 ==> m.len() == 5 && m[4] == ("a5px_stat"@, stats[0]@)
                &&& stats.len() != 1 ==> m.len() == 4
            },
{
}

/// Row group `k` starts at row `1048576 * k`, and a row lies in the group whose number
/// is the whole part of its own over 1048576.
pub proof fn row_groups_hold_1048576_rows(row: nat, k: nat)
    ensures
        k * ROW_GROUP_ROWS <= row < (k + 1) * ROW_GROUP_ROWS <==> k == row / 1048576,
        k * ROW_GROUP_ROWS == 1048576 * k,
{
}

/// A mismatch is reported with the number that was found first and the one that was
/// expected behind it.
pub proof fn mismatches_name_what_was_found_first(n: nat, m: nat, k: nat)
    ensures
        outer_mismatch(n, m).take((22 + decimal(n).len()) as int) == "flat_values outer len "@ + decimal(n),
        outer_mismatch(n, m).skip((22 + decimal(n).len()) as int) == " != stats "@ + decimal(m),
        inner_mismatch(n, m, k).take((22 + decimal(n).len()) as int) == "flat_values inner len "@ + decimal(
            n,
        ),
        inner_mismatch(n, m, k).skip((22 + decimal(n).len()) as int) == " != cells "@ + decimal(m)
            + " * bands "@ + decimal(k),
{
    reveal_strlit("flat_values outer len ");
    reveal_strlit("flat_values inner len ");
    let a = "flat_values outer len "@ + decimal(n);
    assert(outer_mismatch(n, m) =~= a + (" != stats "@ + decimal(m)));
    assert(outer_mismatch(n, m).take((22 + decimal(n).len()) as int) =~= a);
    assert(outer_mismatch(n, m).skip((22 + decimal(n).len()) as int) =~= " != stats "@ + decimal(m));
    let b = "flat_values inner len "@ + decimal(n);
    let c = " != cells "@ + decimal(m) + " * bands "@ + decimal(k);
    assert(inner_mismatch(n, m, k) =~= b + c);
    assert(inner_mismatch(n, m, k).take((22 + decimal(n).len()) as int) =~= b);
    assert(inner_mismatch(n, m, k).skip((22 + decimal(n).len()) as int) =~= c);
}

} // verus!
