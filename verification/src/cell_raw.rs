//! Cell ids as eight columns of raw bytes, the lowest byte first.

use vstd::prelude::*;

verus! {

/// The highest byte of a missing cell: no quintant of the grid starts so, hence
/// no cell id has it.
pub const NA_BYTE_B8: u8 = 0xFC;

/// Byte `j` of a number, the lowest first.
pub open spec fn byte_of(v: u64, j: int) -> u8 {
    ((v >> ((8 * j) as u64)) & 0xff) as u8
}

/// The number of eight bytes, the lowest first.
pub open spec fn number_of(b: Seq<u8>) -> u64 {
    (b[0] as u64) | ((b[1] as u64) << 8u64) | ((b[2] as u64) << 16u64) | ((b[3] as u64) << 24u64) | ((
    b[4] as u64) << 32u64) | ((b[5] as u64) << 40u64) | ((b[6] as u64) << 48u64) | ((b[7] as u64)
        << 56u64)
}

/// Cell ids as eight byte columns.
pub struct RawCells {
    pub b1: Vec<u8>,
    pub b2: Vec<u8>,
    pub b3: Vec<u8>,
    pub b4: Vec<u8>,
    pub b5: Vec<u8>,
    pub b6: Vec<u8>,
    pub b7: Vec<u8>,
    pub b8: Vec<u8>,
}

impl RawCells {
    /// All columns are as long as the first.
    pub open spec fn wf(&self) -> bool {
        &&& self.b2@.len() == self.b1@.len()
        &&& self.b3@.len() == self.b1@.len()
        &&& self.b4@.len() == self.b1@.len()
        &&& self.b5@.len() == self.b1@.len()
        &&& self.b6@.len() == self.b1@.len()
        &&& self.b7@.len() == self.b1@.len()
        &&& self.b8@.len() == self.b1@.len()
    }

    /// No column is shorter than the first, which tells how many entries there are.
    pub open spec fn readable(&self) -> bool {
        &&& self.b2@.len() >= self.b1@.len()
        &&& self.b3@.len() >= self.b1@.len()
        &&& self.b4@.len() >= self.b1@.len()
        &&& self.b5@.len() >= self.b1@.len()
        &&& self.b6@.len() >= self.b1@.len()
        &&& self.b7@.len() >= self.b1@.len()
        &&& self.b8@.len() >= self.b1@.len()
    }

    /// The bytes of entry `i`.
    pub open spec fn bytes_at(&self, i: int) -> Seq<u8> {
        seq![
            self.b1@[i],
            self.b2@[i],
            self.b3@[i],
            self.b4@[i],
            self.b5@[i],
            self.b6@[i],
            self.b7@[i],
            self.b8@[i],
        ]
    }
}

/// The cells of the first `n` entries, missing ones dropped.
pub open spec fn present_cells(raw: RawCells, n: int) -> Seq<u64>
    decreases n,
{
    if n <= 0 {
        Seq::empty()
    } else if raw.b8@[n - 1] == NA_BYTE_B8 {
        present_cells(raw, n - 1)
    } else {
        present_cells(raw, n - 1).push(number_of(raw.bytes_at(n - 1)))
    }
}

/// The cell ids of raw byte columns; missing entries are dropped.
pub fn raw8_to_u64s(raw: &RawCells) -> (r: Vec<u64>)
    requires
        raw.readable(),
    ensures
        r@ == present_cells(*raw, raw.b1@.len() as int),
{
    let mut out: Vec<u64> = Vec::new();
    for i in 0..raw.b1.len()
        invariant
            raw.readable(),
            out@ == present_cells(*raw, i as int),
    {
        if raw.b8[i] != NA_BYTE_B8 {
            let v: u64 = (raw.b1[i] as u64) | ((raw.b2[i] as u64) << 8u64) | ((raw.b3[i] as u64)
                << 16u64) | ((raw.b4[i] as u64) << 24u64) | ((raw.b5[i] as u64) << 32u64) | ((
            raw.b6[i] as u64) << 40u64) | ((raw.b7[i] as u64) << 48u64) | ((raw.b8[i] as u64)
                << 56u64);
            out.push(v);
        }
    }
    out
}

/// The raw byte columns of cell ids.
pub fn u64s_to_raw8(values: &Vec<u64>) -> (r: RawCells)
    ensures
        r.wf(),
        r.b1@.len() == values@.len(),
        forall|i: int, j: int|
            0 <= i < values@.len() && 0 <= j < 8 ==> #[trigger] r.bytes_at(i)[j] == byte_of(
                values@[i],
                j,
            ),
{
    let mut r = RawCells {
        b1: Vec::new(),
        b2: Vec::new(),
        b3: Vec::new(),
        b4: Vec::new(),
        b5: Vec::new(),
        b6: Vec::new(),
        b7: Vec::new(),
        b8: Vec::new(),
    };
    for i in 0..values.len()
        invariant
            r.wf(),
            r.b1@.len() == i,
            forall|k: int, j: int|
                0 <= k < i && 0 <= j < 8 ==> #[trigger] r.bytes_at(k)[j] == byte_of(values@[k], j),
    {
        let v: u64 = values[i];
        let ghost before = r;
        r.b1.push(((v >> 0u64) & 0xff) as u8);
        r.b2.push(((v >> 8u64) & 0xff) as u8);
        r.b3.push(((v >> 16u64) & 0xff) as u8);
        r.b4.push(((v >> 24u64) & 0xff) as u8);
        r.b5.push(((v >> 32u64) & 0xff) as u8);
        r.b6.push(((v >> 40u64) & 0xff) as u8);
        r.b7.push(((v >> 48u64) & 0xff) as u8);
        r.b8.push(((v >> 56u64) & 0xff) as u8);
        assert forall|k: int, j: int|
            0 <= k < i + 1 && 0 <= j < 8 implies #[trigger] r.bytes_at(k)[j] == byte_of(
            values@[k],
            j,
        ) by {
            if k < i {
                assert(r.bytes_at(k) =~= before.bytes_at(k));
                assert(before.bytes_at(k)[j] == byte_of(values@[k], j));
            }
        }
    }
    r
}

// ---------------------------------------------------------------------------
// laws

/// A number is rebuilt from its bytes.
pub proof fn bytes_rebuild_number(v: u64)
    ensures
        number_of(Seq::new(8, |j: int| byte_of(v, j))) == v,
{
    assert((v >> 0u64) & 0xff < 256 && (v >> 8u64) & 0xff < 256 && (v >> 16u64) & 0xff < 256 && (v
        >> 24u64) & 0xff < 256 && (v >> 32u64) & 0xff < 256 && (v >> 40u64) & 0xff < 256 && (v
        >> 48u64) & 0xff < 256 && (v >> 56u64) & 0xff < 256) by (bit_vector);
    assert(((v >> 0u64) & 0xff) | (((v >> 8u64) & 0xff) << 8u64) | (((v >> 16u64) & 0xff) << 16u64)
        | (((v >> 24u64) & 0xff) << 24u64) | (((v >> 32u64) & 0xff) << 32u64) | (((v >> 40u64)
        & 0xff) << 40u64) | (((v >> 48u64) & 0xff) << 48u64) | (((v >> 56u64) & 0xff) << 56u64)
        == v) by (bit_vector);
}

/// Cells written as raw bytes and read back come out as they were, except that
/// ids with the byte of a missing cell are dropped; no cell of the grid is such
/// an id.
pub proof fn raw_round_trip(values: Seq<u64>, raw: RawCells, n: int)
    requires
        raw.wf(),
        raw.b1@.len() == values.len(),
        forall|i: int, j: int|
            0 <= i < values.len() && 0 <= j < 8 ==> #[trigger] raw.bytes_at(i)[j] == byte_of(
                values[i],
                j,
            ),
        forall|i: int| 0 <= i < values.len() ==> byte_of(#[trigger] values[i], 7) != NA_BYTE_B8,
        0 <= n <= values.len(),
    ensures
        present_cells(raw, n) == values.take(n),
    decreases n,
{
    if n > 0 {
        raw_round_trip(values, raw, n - 1);
        let v = values[n - 1];
        assert(raw.bytes_at(n - 1) =~= Seq::new(8, |j: int| byte_of(v, j)));
        assert(raw.bytes_at(n - 1)[7] == byte_of(v, 7));
        bytes_rebuild_number(v);
        assert(values.take(n) =~= values.take(n - 1).push(v));
    } else {
        assert(values.take(0) =~= Seq::empty());
    }
}

/// Byte `j` of a cell id is its digit `j` to the base 256, counted from the lowest.
pub proof fn bytes_are_digits(v: u64)
    ensures
        byte_of(v, 0) == v % 256,
        byte_of(v, 1) == v / 0x100 % 256,
        byte_of(v, 2) == v / 0x1_0000 % 256,
        byte_of(v, 3) == v / 0x100_0000 % 256,
        byte_of(v, 4) == v / 0x1_0000_0000 % 256,
        byte_of(v, 5) == v / 0x100_0000_0000 % 256,
        byte_of(v, 6) == v / 0x1_0000_0000_0000 % 256,
        byte_of(v, 7) == v / 0x100_0000_0000_0000 % 256,
{
    assert(((v >> 0u64) & 0xff) == v % 256 && ((v >> 8u64) & 0xff) == (v / 0x100) % 256 && ((v
        >> 16u64) & 0xff) == (v / 0x1_0000) % 256 && ((v >> 24u64) & 0xff) == (v / 0x100_0000)
        % 256) by (bit_vector);
    assert(((v >> 32u64) & 0xff) == (v / 0x1_0000_0000) % 256 && ((v >> 40u64) & 0xff) == (v
        / 0x100_0000_0000) % 256 && ((v >> 48u64) & 0xff) == (v / 0x1_0000_0000_0000) % 256 && ((v
        >> 56u64) & 0xff) == (v / 0x100_0000_0000_0000) % 256) by (bit_vector);
}

/// The number of eight bytes has them as its digits to the base 256, the first byte
/// as the lowest.
pub proof fn numbers_have_their_bytes_as_digits(b: Seq<u8>)
    requires
        b.len() == 8,
    ensures
        number_of(b) == b[0] + 0x100 * b[1] + 0x1_0000 * b[2] + 0x100_0000 * b[3] + 0x1_0000_0000
            * b[4] + 0x100_0000_0000 * b[5] + 0x1_0000_0000_0000 * b[6] + 0x100_0000_0000_0000
            * b[7],
{
    let (a0, a1, a2, a3) = (b[0] as u64, b[1] as u64, b[2] as u64, b[3] as u64);
    let (a4, a5, a6, a7) = (b[4] as u64, b[5] as u64, b[6] as u64, b[7] as u64);
    assert((a0 | (a1 << 8u64) | (a2 << 16u64) | (a3 << 24u64) | (a4 << 32u64) | (a5 << 40u64) | (a6
        << 48u64) | (a7 << 56u64)) == a0 + 0x100 * a1 + 0x1_0000 * a2 + 0x100_0000 * a3
        + 0x1_0000_0000 * a4 + 0x100_0000_0000 * a5 + 0x1_0000_0000_0000 * a6
        + 0x100_0000_0000_0000 * a7) by (bit_vector)
        requires
            a0 < 256,
            a1 < 256,
            a2 < 256,
            a3 < 256,
            a4 < 256,
            a5 < 256,
            a6 < 256,
            a7 < 256,
    ;
}

/// Of two more entries with a highest byte other than `0xFC`, both are kept behind
/// the earlier ones and in order; an entry with that byte is missing and dropped.
pub proof fn only_missing_entries_are_dropped(raw: RawCells, n: int)
    requires
        raw.readable(),
        0 <= n < raw.b1@.len(),
    ensures
        raw.b8@[n] == 0xFC ==> present_cells(raw, n + 1) == present_cells(raw, n),
        raw.b8@[n] != 0xFC ==> present_cells(raw, n + 1).drop_last() == present_cells(raw, n)
            && present_cells(raw, n + 1).last() == raw.b1@[n] + 0x100 * raw.b2@[n] + 0x1_0000
            * raw.b3@[n] + 0x100_0000 * raw.b4@[n] + 0x1_0000_0000 * raw.b5@[n] + 0x100_0000_0000
            * raw.b6@[n] + 0x1_0000_0000_0000 * raw.b7@[n] + 0x100_0000_0000_0000 * raw.b8@[n],
{
    numbers_have_their_bytes_as_digits(raw.bytes_at(n));
    if raw.b8@[n] != 0xFC {
        assert(present_cells(raw, n + 1).drop_last() =~= present_cells(raw, n));
    }
}

} // verus!
