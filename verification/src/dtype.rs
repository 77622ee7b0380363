//! Sample types of a raster, and what is only defined for some of them.

use vstd::prelude::*;

use crate::error::{invalid, is_invalid, is_unsupported, A5CogError};
use crate::text::{decimal_i64, join2, join3, join5, signed_decimal, to_lower, lower};

verus! {

/// The sample format tag of one band.
#[derive(Clone, Copy, Debug, PartialEq, Eq, Structural)]
pub enum SampleFormat {
    Uint,
    Int,
    Float,
    Void,
    Unknown(u16),
}

/// The type of the samples of a raster.
#[derive(Clone, Copy, Debug, PartialEq, Eq, Structural)]
pub enum DataType {
    Bool,
    UInt8,
    UInt16,
    UInt32,
    UInt64,
    Int8,
    Int16,
    Int32,
    Int64,
    Float32,
    Float64,
}

/// The sample type of a format and a number of bits.
pub open spec fn type_of(f: SampleFormat, bits: u16) -> Option<DataType> {
    match f {
        SampleFormat::Uint => if bits == 1 {
            Some(DataType::Bool)
        } else if bits == 8 {
            Some(DataType::UInt8)
        } else if bits == 16 {
            Some(DataType::UInt16)
        } else if bits == 32 {
            Some(DataType::UInt32)
        } else if bits == 64 {
            Some(DataType::UInt64)
        } else {
            None
        },
        SampleFormat::Int => if bits == 8 {
            Some(DataType::Int8)
        } else if bits == 16 {
            Some(DataType::Int16)
        } else if bits == 32 {
            Some(DataType::Int32)
        } else if bits == 64 {
            Some(DataType::Int64)
        } else {
            None
        },
        SampleFormat::Float => if bits == 32 {
            Some(DataType::Float32)
        } else if bits == 64 {
            Some(DataType::Float64)
        } else {
            None
        },
        _ => None,
    }
}

/// All entries are the same.
pub open spec fn all_equal<T>(s: Seq<T>) -> bool {
    forall|i: int, j: int| 0 <= i < s.len() && 0 <= j < s.len() ==> #[trigger] s[i] == #[trigger] s[j]
}

/// The sample type of a raster whose bands have the given formats and bits;
/// none where the bands differ or the type is not known.
pub open spec fn data_type(formats: Seq<SampleFormat>, bits: Seq<u16>) -> Option<DataType> {
    if formats.len() == 0 || bits.len() == 0 || !all_equal(formats) || !all_equal(bits) {
        None
    } else {
        type_of(formats[0], bits[0])
    }
}

/// The sample type of a raster; none where the bands differ or the type is not
/// known.
pub fn derive_data_type(formats: &Vec<SampleFormat>, bits: &Vec<u16>) -> (r: Option<DataType>)
    ensures
        r == data_type(formats@, bits@),
{
    if formats.len() == 0 || bits.len() == 0 {
        return None;
    }
    let f = formats[0];
    let b: u16 = bits[0];
    let mut i: usize = 0;
    while i < formats.len()
        invariant
            i <= formats@.len(),
            formats@.len() > 0,
            f == formats@[0],
            forall|k: int| 0 <= k < i ==> #[trigger] formats@[k] == f,
        decreases formats@.len() - i,
    {
        if formats[i] != f {
            assert(!all_equal(formats@));
            return None;
        }
        i = i + 1;
    }
    let mut j: usize = 0;
    while j < bits.len()
        invariant
            j <= bits@.len(),
            bits@.len() > 0,
            b == bits@[0],
            forall|k: int| 0 <= k < j ==> #[trigger] bits@[k] == b,
        decreases bits@.len() - j,
    {
        if bits[j] != b {
            assert(!all_equal(bits@));
            return None;
        }
        j = j + 1;
    }
    match f {
        SampleFormat::Uint => match b {
            1 => Some(DataType::Bool),
            8 => Some(DataType::UInt8),
            16 => Some(DataType::UInt16),
            32 => Some(DataType::UInt32),
            64 => Some(DataType::UInt64),
            _ => None,
        },
        SampleFormat::Int => match b {
            8 => Some(DataType::Int8),
            16 => Some(DataType::Int16),
            32 => Some(DataType::Int32),
            64 => Some(DataType::Int64),
            _ => None,
        },
        SampleFormat::Float => match b {
            32 => Some(DataType::Float32),
            64 => Some(DataType::Float64),
            _ => None,
        },
        _ => None,
    }
}

/// The name of a sample type.
pub open spec fn dtype_name(t: DataType) -> Seq<char> {
    match t {
        DataType::Bool => "Bool"@,
        DataType::UInt8 => "UInt8"@,
        DataType::UInt16 => "UInt16"@,
        DataType::UInt32 => "UInt32"@,
        DataType::UInt64 => "UInt64"@,
        DataType::Int8 => "Int8"@,
        DataType::Int16 => "Int16"@,
        DataType::Int32 => "Int32"@,
        DataType::Int64 => "Int64"@,
        DataType::Float32 => "Float32"@,
        DataType::Float64 => "Float64"@,
    }
}

impl DataType {
    /// The name of this sample type.
    pub fn name(&self) -> (r: &'static str)
        ensures
            r@ == dtype_name(*self),
    {
        match self {
            DataType::Bool => "Bool",
            DataType::UInt8 => "UInt8",
            DataType::UInt16 => "UInt16",
            DataType::UInt32 => "UInt32",
            DataType::UInt64 => "UInt64",
            DataType::Int8 => "Int8",
            DataType::Int16 => "Int16",
            DataType::Int32 => "Int32",
            DataType::Int64 => "Int64",
            DataType::Float32 => "Float32",
            DataType::Float64 => "Float64",
        }
    }
}

/// The sample type as raster information reports it: its name in small letters,
/// or `mixed`.
pub fn dtype_label(t: Option<DataType>) -> (r: String)
    ensures
        r@ == (match t {
            Some(d) => lower(dtype_name(d)),
            None => "mixed"@,
        }),
{
    match t {
        Some(d) => to_lower(d.name()),
        None => "mixed".to_owned(),
    }
}

/// A sample type as error messages show it.
pub open spec fn shown_type(t: Option<DataType>) -> Seq<char> {
    match t {
        Some(d) => "Some("@ + dtype_name(d) + ")"@,
        None => "None"@,
    }
}

fn show_type(t: Option<DataType>) -> (r: String)
    ensures
        r@ == shown_type(t),
{
    match t {
        Some(d) => join3("Some(", d.name(), ")"),
        None => "None".to_owned(),
    }
}

/// The codes of an integer type of at most sixteen bits.
pub open spec fn code_range(t: Option<DataType>) -> Option<(i64, i64)> {
    match t {
        Some(DataType::Bool) => Some((0i64, 1i64)),
        Some(DataType::UInt8) => Some((0i64, 255i64)),
        Some(DataType::UInt16) => Some((0i64, 65_535i64)),
        Some(DataType::Int8) => Some((-128i64, 127i64)),
        Some(DataType::Int16) => Some((-32_768i64, 32_767i64)),
        _ => None,
    }
}

/// The value range of an integer source of sixteen bits or fewer, none for any
/// other. Lookup tables and class weights are only defined for such sources.
pub fn integer_code_range(t: Option<DataType>) -> (r: Option<(i64, i64)>)
    ensures
        r == code_range(t),
{
    match t {
        Some(DataType::Bool) => Some((0, 1)),
        Some(DataType::UInt8) => Some((0, 255)),
        Some(DataType::UInt16) => Some((0, 65_535)),
        Some(DataType::Int8) => Some((-128, 127)),
        Some(DataType::Int16) => Some((-32_768, 32_767)),
        _ => None,
    }
}

/// A decode applied to each pixel before it is accumulated, as a table over the
/// integer codes from `min` on. Decoding comes first because a nonlinear decode
/// does not commute with aggregation.
pub struct DequantLut<T> {
    pub lut: Vec<T>,
    pub min: i64,
}

impl<T: Copy> DequantLut<T> {
    /// The last code that the table covers.
    pub open spec fn last(&self) -> int {
        self.min + self.lut@.len() - 1
    }

    /// The decoded value of a code, none outside the table.
    pub fn apply(&self, code: i64) -> (r: Option<T>)
        ensures
            r == (if self.min <= code <= self.last() {
                Some(self.lut@[code - self.min])
            } else {
                None
            }),
    {
        if code < self.min {
            return None;
        }
        let i: u64 = (code as i128 - self.min as i128) as u64;
        if i < self.lut.len() as u64 {
            Some(self.lut[i as usize])
        } else {
            None
        }
    }
}

/// The table that was passed; an empty one means that there is none.
pub fn parse_dequant_arg<T>(lut: Vec<T>, min: i64) -> (r: Option<DequantLut<T>>)
    ensures
        r is None <==> lut@.len() == 0,
        r matches Some(d) ==> d.lut == lut && d.min == min,
{
    if lut.len() == 0 {
        None
    } else {
        Some(DequantLut { lut, min })
    }
}

/// The text of the error for a table that does not cover the source's codes.
pub open spec fn lut_too_small(min: int, last: int, lo: int, hi: int) -> Seq<char> {
    "dequant LUT domain ["@ + signed_decimal(min) + ", "@ + signed_decimal(last)
        + "] does not cover the source dtype range ["@ + signed_decimal(lo) + ", "@
        + signed_decimal(hi) + "]"@
}

/// Requires an integer source whose codes the table covers.
pub fn validate_dequant_dtype<T: Copy>(t: Option<DataType>, dq: &DequantLut<T>) -> (r: Result<
    (),
    A5CogError,
>)
    requires
        i64::MIN <= dq.last() <= i64::MAX,
    ensures
        match code_range(t) {
            None => r matches Err(e) && is_unsupported(
                e,
                "dequant requires an integer source of 16 bits or fewer; source data type is "@
                    + shown_type(t),
            ),
            Some((lo, hi)) => if lo < dq.min || hi > dq.last() {
                r matches Err(e) && is_invalid(
                    e,
                    lut_too_small(dq.min as int, dq.last(), lo as int, hi as int),
                )
            } else {
                r is Ok
            },
        },
{
    match integer_code_range(t) {
        None => {
            let shown = show_type(t);
            Err(
                A5CogError::Unsupported(
                    join2(
                        "dequant requires an integer source of 16 bits or fewer; source data type is ",
                        shown.as_str(),
                    ),
                ),
            )
        },
        Some((lo, hi)) => {
            let last: i64 = (dq.min as i128 + dq.lut.len() as i128 - 1) as i64;
            if lo < dq.min || hi > last {
                let a = decimal_i64(dq.min);
                let b = decimal_i64(last);
                let c = decimal_i64(lo);
                let d = decimal_i64(hi);
                let head = join5(
                    "dequant LUT domain [",
                    a.as_str(),
                    ", ",
                    b.as_str(),
                    "] does not cover the source dtype range [",
                );
                Err(A5CogError::Invalid(join5(head.as_str(), c.as_str(), ", ", d.as_str(), "]")))
            } else {
                Ok(())
            }
        },
    }
}

/// Every code that the source can hold has a decoded value once the table was
/// accepted for it.
pub proof fn accepted_table_covers_every_code<T: Copy>(
    t: Option<DataType>,
    dq: DequantLut<T>,
    code: int,
)
    requires
        code_range(t) matches Some((lo, hi)) && lo >= dq.min && hi <= dq.last() && lo <= code <= hi,
    ensures
        dq.min <= code <= dq.last(),
{
}

/// Class weights treat raw codes as labels, so the source must be an integer
/// type of sixteen bits or fewer.
pub fn validate_categorical_dtype(t: Option<DataType>) -> (r: Result<(), A5CogError>)
    ensures
        match code_range(t) {
            None => r matches Err(e) && is_unsupported(
                e,
                "majority/fractions require an integer source of 16 bits or fewer; source data type is "@
                    + shown_type(t),
            ),
            Some(_) => r is Ok,
        },
{
    match integer_code_range(t) {
        None => {
            let shown = show_type(t);
            Err(
                A5CogError::Unsupported(
                    join2(
                        "majority/fractions require an integer source of 16 bits or fewer; source data type is ",
                        shown.as_str(),
                    ),
                ),
            )
        },
        Some(_) => Ok(()),
    }
}

/// The text of the error for decoding a categorical read.
pub open spec fn dequant_with_classes() -> Seq<char> {
    "dequant cannot be combined with majority/fractions: categorical stats operate on the raw integer codes"@
}

/// The sample type suits what a read does with it: its codes lie in the table,
/// if there is one, and classes need integer codes and no table.
pub open spec fn dtype_suits<T: Copy>(
    t: Option<DataType>,
    dequant: Option<&DequantLut<T>>,
    has_cat: bool,
) -> bool {
    &&& dequant matches Some(dq) ==> (code_range(t) matches Some((lo, hi)) && lo >= dq.min && hi
        <= dq.last())
    &&& has_cat ==> code_range(t) is Some && dequant is None
}

/// The error says why the sample type does not suit a read.
pub open spec fn dtype_refused<T: Copy>(
    t: Option<DataType>,
    dequant: Option<&DequantLut<T>>,
    e: A5CogError,
) -> bool {
    match dequant {
        Some(dq) => match code_range(t) {
            None => is_unsupported(
                e,
                "dequant requires an integer source of 16 bits or fewer; source data type is "@
                    + shown_type(t),
            ),
            Some((lo, hi)) => if lo < dq.min || hi > dq.last() {
                is_invalid(e, lut_too_small(dq.min as int, dq.last(), lo as int, hi as int))
            } else {
                is_invalid(e, dequant_with_classes())
            },
        },
        None => is_unsupported(
            e,
            "majority/fractions require an integer source of 16 bits or fewer; source data type is "@
                + shown_type(t),
        ),
    }
}

/// Checks the sample type against what a read does with it: first the table, if
/// there is one, then the classes, which exclude a table.
pub fn validate_dtype<T: Copy>(
    t: Option<DataType>,
    dequant: Option<&DequantLut<T>>,
    has_cat: bool,
) -> (r: Result<(), A5CogError>)
    requires
        dequant matches Some(dq) ==> i64::MIN <= dq.last() <= i64::MAX,
    ensures
        r is Ok <==> dtype_suits(t, dequant, has_cat),
        r matches Err(e) ==> dtype_refused(t, dequant, e),
{
    if let Some(dq) = dequant {
        match validate_dequant_dtype(t, dq) {
            Ok(_) => {},
            Err(e) => {
                return Err(e);
            },
        }
    }
    if has_cat {
        match validate_categorical_dtype(t) {
            Ok(_) => {},
            Err(e) => {
                return Err(e);
            },
        }
        if dequant.is_some() {
            return Err(
                invalid(
                    "dequant cannot be combined with majority/fractions: categorical stats operate on the raw integer codes",
                ),
            );
        }
    }
    Ok(())
}

// ---------------------------------------------------------------------------
// laws

/// The sample type keeps the format and the width of the tags: each type comes from
/// one format with one number of bits and from no other.
pub proof fn types_keep_format_and_width(f: SampleFormat, bits: u16)
    ensures
        type_of(f, bits) == Some(DataType::Bool) <==> f == SampleFormat::Uint && bits == 1,
        type_of(f, bits) == Some(DataType::UInt8) <==> f == SampleFormat::Uint && bits == 8,
        type_of(f, bits) == Some(DataType::UInt16) <==> f == SampleFormat::Uint && bits == 16,
        type_of(f, bits) == Some(DataType::UInt32) <==> f == SampleFormat::Uint && bits == 32,
        type_of(f, bits) == Some(DataType::UInt64) <==> f == SampleFormat::Uint && bits == 64,
        type_of(f, bits) == Some(DataType::Int8) <==> f == SampleFormat::Int && bits == 8,
        type_of(f, bits) == Some(DataType::Int16) <==> f == SampleFormat::Int && bits == 16,
        type_of(f, bits) == Some(DataType::Int32) <==> f == SampleFormat::Int && bits == 32,
        type_of(f, bits) == Some(DataType::Int64) <==> f == SampleFormat::Int && bits == 64,
        type_of(f, bits) == Some(DataType::Float32) <==> f == SampleFormat::Float && bits == 32,
        type_of(f, bits) == Some(DataType::Float64) <==> f == SampleFormat::Float && bits == 64,
{
}

/// Two rasters with the same sample type have the same format and width.
pub proof fn types_are_told_apart(f: SampleFormat, bits: u16, g: SampleFormat, bits2: u16)
    requires
        type_of(f, bits) is Some,
        type_of(f, bits) == type_of(g, bits2),
    ensures
        f == g,
        bits == bits2,
{
}

/// A raster has a sample type only where all its bands agree, and then it is that of
/// each band.
pub proof fn all_bands_share_the_type(formats: Seq<SampleFormat>, bits: Seq<u16>, i: int, j: int)
    requires
        0 <= i < formats.len(),
        0 <= j < bits.len(),
    ensures
        data_type(formats, bits) is Some ==> data_type(formats, bits) == type_of(
            formats[i],
            bits[j],
        ),
        (forall|k: int| 0 <= k < formats.len() ==> #[trigger] formats[k] == formats[i]) && (
        forall|k: int| 0 <= k < bits.len() ==> #[trigger] bits[k] == bits[j]) ==> data_type(
            formats,
            bits,
        ) == type_of(formats[i], bits[j]),
        (exists|k: int| 0 <= k < formats.len() && #[trigger] formats[k] != formats[i])
            ==> data_type(formats, bits) is None,
        (exists|k: int| 0 <= k < bits.len() && #[trigger] bits[k] != bits[j]) ==> data_type(
            formats,
            bits,
        ) is None,
{
    assert(data_type(formats, bits) is Some ==> formats[i] == formats[0] && bits[j] == bits[0]);
}

/// The codes of a raster whose bands are all unsigned with `n` bits run from 0 to
/// `2^n - 1`, those of one with signed bands from `-2^(n-1)` to `2^(n-1) - 1`; beyond
/// sixteen bits, and for other formats, none are listed.
pub proof fn codes_follow_sign_and_width(formats: Seq<SampleFormat>, bits: Seq<u16>)
    requires
        formats.len() > 0,
        bits.len() > 0,
        forall|k: int| 0 <= k < formats.len() ==> #[trigger] formats[k] == formats[0],
        forall|k: int| 0 <= k < bits.len() ==> #[trigger] bits[k] == bits[0],
    ensures
        formats[0] == SampleFormat::Uint && (bits[0] == 1 || bits[0] == 8 || bits[0] == 16)
            ==> code_range(data_type(formats, bits)) == Some(
            (0i64, (vstd::arithmetic::power2::pow2(bits[0] as nat) - 1) as i64),
        ),
        formats[0] == SampleFormat::Int && (bits[0] == 8 || bits[0] == 16) ==> code_range(
            data_type(formats, bits),
        ) == Some(
            (
                (-(vstd::arithmetic::power2::pow2((bits[0] - 1) as nat) as int)) as i64,
                (vstd::arithmetic::power2::pow2((bits[0] - 1) as nat) - 1) as i64,
            ),
        ),
        bits[0] > 16 || (formats[0] != SampleFormat::Uint && formats[0] != SampleFormat::Int)
            ==> code_range(data_type(formats, bits)) is None,
{
    vstd::arithmetic::power2::lemma2_to64();
    assert(all_equal(formats));
    assert(all_equal(bits));
}

/// A sample type is named after its format and width.
pub proof fn types_are_named_after_format_and_width(t: DataType)
    ensures
        t == DataType::Bool ==> dtype_name(t) == "Bool"@,
        t == DataType::UInt8 ==> dtype_name(t) == "UInt8"@,
        t == DataType::UInt16 ==> dtype_name(t) == "UInt16"@,
        t == DataType::UInt32 ==> dtype_name(t) == "UInt32"@,
        t == DataType::UInt64 ==> dtype_name(t) == "UInt64"@,
        t == DataType::Int8 ==> dtype_name(t) == "Int8"@,
        t == DataType::Int16 ==> dtype_name(t) == "Int16"@,
        t == DataType::Int32 ==> dtype_name(t) == "Int32"@,
        t == DataType::Int64 ==> dtype_name(t) == "Int64"@,
        t == DataType::Float32 ==> dtype_name(t) == "Float32"@,
        t == DataType::Float64 ==> dtype_name(t) == "Float64"@,
{
}

/// A read suits the sample type exactly where every code that a sample can hold has a
/// place in the table, if there is one, and where classes are asked for of integer
/// codes that no table decodes.
pub proof fn suited_reads_decode_every_code<T: Copy>(
    t: Option<DataType>,
    dequant: Option<&DequantLut<T>>,
    has_cat: bool,
)
    ensures
        dtype_suits(t, dequant, has_cat) && dequant is Some ==> code_range(t) is Some && forall|
            code: int,
        |
            #![trigger dequant->Some_0.lut@[code]]
            code_range(t)->Some_0.0 <= code <= code_range(t)->Some_0.1 ==> 0 <= code
                - dequant->Some_0.min < dequant->Some_0.lut@.len(),
        dequant is Some && code_range(t) is None ==> !dtype_suits(t, dequant, has_cat),
        dequant is Some && code_range(t) is Some && (code_range(t)->Some_0.0 < dequant->Some_0.min
            || code_range(t)->Some_0.1 - dequant->Some_0.min >= dequant->Some_0.lut@.len())
            ==> !dtype_suits(t, dequant, has_cat),
        has_cat && (dequant is Some || code_range(t) is None) ==> !dtype_suits(
            t,
            dequant,
            has_cat,
        ),
        dequant is None && !has_cat ==> dtype_suits(t, dequant, has_cat),
        dequant is None && code_range(t) is Some ==> dtype_suits(t, dequant, has_cat),
        dequant is Some && !has_cat && code_range(t) is Some && code_range(t)->Some_0.0
            >= dequant->Some_0.min && code_range(t)->Some_0.1 - dequant->Some_0.min
            < dequant->Some_0.lut@.len() ==> dtype_suits(t, dequant, has_cat),
{
}

/// A read that does not suit its type is refused for the first of these that holds: the
/// table needs codes that the type does not have, it leaves out codes of the type, it
/// stands beside classes, or classes need codes that the type does not have.
pub proof fn unsuited_reads_are_refused_for_the_first_reason<T: Copy>(
    t: Option<DataType>,
    dequant: Option<&DequantLut<T>>,
    e: A5CogError,
)
    requires
        dtype_refused(t, dequant, e),
    ensures
        code_range(t) is None ==> e is Unsupported,
        code_range(t) is Some && dequant is Some ==> e is Invalid,
        code_range(t) is Some && dequant is Some && code_range(t)->Some_0.0 >= dequant->Some_0.min
            && code_range(t)->Some_0.1 - dequant->Some_0.min < dequant->Some_0.lut@.len()
            ==> crate::error::error_payload(e)
            == "dequant cannot be combined with majority/fractions: categorical stats operate on the raw integer codes"@,
        code_range(t) is Some && dequant is Some && (code_range(t)->Some_0.0 < dequant->Some_0.min
            || code_range(t)->Some_0.1 - dequant->Some_0.min >= dequant->Some_0.lut@.len())
            ==> crate::error::error_payload(e) == "dequant LUT domain ["@ + signed_decimal(
            dequant->Some_0.min as int,
        ) + ", "@ + signed_decimal(dequant->Some_0.min + dequant->Some_0.lut@.len() - 1)
            + "] does not cover the source dtype range ["@ + signed_decimal(
            code_range(t)->Some_0.0 as int,
        ) + ", "@ + signed_decimal(code_range(t)->Some_0.1 as int) + "]"@,
        code_range(t) is None && dequant is Some && t is None ==> crate::error::error_payload(e)
            == "dequant requires an integer source of 16 bits or fewer; source data type is "@
            + "None"@,
        dequant is None && t is None ==> crate::error::error_payload(e)
            == "majority/fractions require an integer source of 16 bits or fewer; source data type is "@
            + "None"@,
        dequant is None && t == Some(DataType::Float32) ==> crate::error::error_payload(e)
            == "majority/fractions require an integer source of 16 bits or fewer; source data type is "@
            + ("Some("@ + "Float32"@ + ")"@),
{
}

} // verus!
