use vstd::prelude::*;
use crate::shrewd::sizes::{DataSize, IndexSize};

verus! {

/// The value `x` keeps when cut down to width `w` (two's-complement truncation).
pub open spec fn truncate(x: i64, w: DataSize) -> i64 {
    match w {
        DataSize::I8 => x as i8 as i64,
        DataSize::I16 => x as i16 as i64,
        DataSize::I32 => x as i32 as i64,
        DataSize::I64 => x,
    }
}

/// Little-endian bytes of the low `w.bytes()` bytes of `x`.
pub open spec fn encode_signed(x: i64, w: DataSize) -> Seq<u8> {
    let u = x as u64;
    match w {
        DataSize::I8 => seq![u as u8],
        DataSize::I16 => seq![u as u8, (u >> 8u64) as u8],
        DataSize::I32 => seq![u as u8, (u >> 8u64) as u8, (u >> 16u64) as u8, (u >> 24u64) as u8],
        DataSize::I64 => seq![
            u as u8,
            (u >> 8u64) as u8,
            (u >> 16u64) as u8,
            (u >> 24u64) as u8,
            (u >> 32u64) as u8,
            (u >> 40u64) as u8,
            (u >> 48u64) as u8,
            (u >> 56u64) as u8,
        ],
    }
}

/// The signed value of width `w` whose little-endian bytes start `s`, sign-extended to `i64`.
pub open spec fn decode_signed(s: Seq<u8>, w: DataSize) -> i64 {
    match w {
        DataSize::I8 => s[0] as i8 as i64,
        DataSize::I16 => ((s[0] as u16) | ((s[1] as u16) << 8u16)) as i16 as i64,
        DataSize::I32 => ((s[0] as u32) | ((s[1] as u32) << 8u32) | ((s[2] as u32) << 16u32) | ((
        s[3] as u32) << 24u32)) as i32 as i64,
        DataSize::I64 => ((s[0] as u64) | ((s[1] as u64) << 8u64) | ((s[2] as u64) << 16u64) | ((
        s[3] as u64) << 24u64) | ((s[4] as u64) << 32u64) | ((s[5] as u64) << 40u64) | ((
        s[6] as u64) << 48u64) | ((s[7] as u64) << 56u64)) as i64,
    }
}

/// Decoding the encoding of `x` gives `x` truncated to the width.
pub proof fn lemma_signed_roundtrip(x: i64, w: DataSize)
    ensures
        encode_signed(x, w).len() == w.bytes(),
        decode_signed(encode_signed(x, w), w) == truncate(x, w),
{
    let s = encode_signed(x, w);
    let u = x as u64;
    match w {
        DataSize::I8 => {
            assert(s[0] == u as u8);
            assert((u as u8) as i8 as i64 == x as i8 as i64) by (bit_vector)
                requires u == x as u64;
        },
        DataSize::I16 => {
            assert(s[0] == u as u8 && s[1] == (u >> 8u64) as u8);
            assert((((u as u8) as u16) | ((((u >> 8u64) as u8) as u16) << 8u16)) as i16 as i64
                == x as i16 as i64) by (bit_vector)
                requires u == x as u64;
        },
        DataSize::I32 => {
            assert(s[0] == u as u8 && s[1] == (u >> 8u64) as u8 && s[2] == (u >> 16u64) as u8
                && s[3] == (u >> 24u64) as u8);
            assert((((u as u8) as u32) | ((((u >> 8u64) as u8) as u32) << 8u32) | ((((u
                >> 16u64) as u8) as u32) << 16u32) | ((((u >> 24u64) as u8) as u32) << 24u32))
                as i32 as i64 == x as i32 as i64) by (bit_vector)
                requires u == x as u64;
        },
        DataSize::I64 => {
            assert(s[0] == u as u8 && s[1] == (u >> 8u64) as u8 && s[2] == (u >> 16u64) as u8
                && s[3] == (u >> 24u64) as u8 && s[4] == (u >> 32u64) as u8 && s[5] == (u
                >> 40u64) as u8 && s[6] == (u >> 48u64) as u8 && s[7] == (u >> 56u64) as u8);
            assert((((u as u8) as u64) | ((((u >> 8u64) as u8) as u64) << 8u64) | ((((u
                >> 16u64) as u8) as u64) << 16u64) | ((((u >> 24u64) as u8) as u64) << 24u64)
                | ((((u >> 32u64) as u8) as u64) << 32u64) | ((((u >> 40u64) as u8) as u64)
                << 40u64) | ((((u >> 48u64) as u8) as u64) << 48u64) | ((((u >> 56u64) as u8)
                as u64) << 56u64)) as i64 == x) by (bit_vector)
                requires u == x as u64;
        },
    }
}

/// Truncating a value that the width holds leaves it unchanged.
pub proof fn lemma_truncate_held(x: i64, w: DataSize)
    requires
        w.holds(x as int),
    ensures
        truncate(x, w) == x,
{
    match w {
        DataSize::I8 => {
            assert(-128 <= x <= 127 ==> x as i8 as i64 == x) by (bit_vector);
        },
        DataSize::I16 => {
            assert(-32768 <= x <= 32767 ==> x as i16 as i64 == x) by (bit_vector);
        },
        DataSize::I32 => {
            assert(-2147483648 <= x <= 2147483647 ==> x as i32 as i64 == x) by (bit_vector);
        },
        DataSize::I64 => {},
    }
}


/// Appends the little-endian bytes of `x` cut down to width `w`.
pub fn push_signed(data: &mut Vec<u8>, x: i64, w: DataSize)
    ensures
        final(data)@ == old(data)@ + encode_signed(x, w),
{
    let u = x as u64;
    match w {
        DataSize::I8 => {
            data.push(u as u8);
        },
        DataSize::I16 => {
            data.push(u as u8);
            data.push((u >> 8u64) as u8);
        },
        DataSize::I32 => {
            data.push(u as u8);
            data.push((u >> 8u64) as u8);
            data.push((u >> 16u64) as u8);
            data.push((u >> 24u64) as u8);
        },
        DataSize::I64 => {
            data.push(u as u8);
            data.push((u >> 8u64) as u8);
            data.push((u >> 16u64) as u8);
            data.push((u >> 24u64) as u8);
            data.push((u >> 32u64) as u8);
            data.push((u >> 40u64) as u8);
            data.push((u >> 48u64) as u8);
            data.push((u >> 56u64) as u8);
        },
    }
    assert(data@ =~= old(data)@ + encode_signed(x, w));
}

/// Reads the signed value of width `w` stored little-endian at `data[pos..]`.
pub fn read_signed(data: &Vec<u8>, pos: usize, w: DataSize) -> (x: i64)
    requires
        pos + w.bytes() <= data@.len(),
    ensures
        x == decode_signed(data@.subrange(pos as int, pos + w.bytes()), w),
{
    let ghost s = data@.subrange(pos as int, pos + w.bytes());
    let len = data.len();
    assert(pos + w.bytes() <= len);
    match w {
        DataSize::I8 => {
            assert(s[0] == data@[pos as int]);
            data[pos] as i8 as i64
        },
        DataSize::I16 => {
            assert(s[0] == data@[pos as int] && s[1] == data@[pos + 1]);
            ((data[pos] as u16) | ((data[pos + 1] as u16) << 8u16)) as i16 as i64
        },
        DataSize::I32 => {
            assert(s[0] == data@[pos as int] && s[1] == data@[pos + 1] && s[2] == data@[pos + 2]
                && s[3] == data@[pos + 3]);
            ((data[pos] as u32) | ((data[pos + 1] as u32) << 8u32) | ((data[pos + 2] as u32)
                << 16u32) | ((data[pos + 3] as u32) << 24u32)) as i32 as i64
        },
        DataSize::I64 => {
            assert(s[0] == data@[pos as int] && s[1] == data@[pos + 1] && s[2] == data@[pos + 2]
                && s[3] == data@[pos + 3] && s[4] == data@[pos + 4] && s[5] == data@[pos + 5]
                && s[6] == data@[pos + 6] && s[7] == data@[pos + 7]);
            ((data[pos] as u64) | ((data[pos + 1] as u64) << 8u64) | ((data[pos + 2] as u64)
                << 16u64) | ((data[pos + 3] as u64) << 24u64) | ((data[pos + 4] as u64) << 32u64)
                | ((data[pos + 5] as u64) << 40u64) | ((data[pos + 6] as u64) << 48u64) | ((data[pos
                + 7] as u64) << 56u64)) as i64
        },
    }
}

/// The value `x` keeps when cut down to the unsigned width `w`.
pub open spec fn truncate_index(x: u64, w: IndexSize) -> u64 {
    match w {
        IndexSize::U8 => x as u8 as u64,
        IndexSize::U16 => x as u16 as u64,
        IndexSize::U32 => x as u32 as u64,
        IndexSize::U64 => x,
    }
}

/// Little-endian bytes of the low `w.bytes()` bytes of `x`.
pub open spec fn encode_index(x: u64, w: IndexSize) -> Seq<u8> {
    match w {
        IndexSize::U8 => seq![x as u8],
        IndexSize::U16 => seq![x as u8, (x >> 8u64) as u8],
        IndexSize::U32 => seq![x as u8, (x >> 8u64) as u8, (x >> 16u64) as u8, (x >> 24u64) as u8],
        IndexSize::U64 => seq![
            x as u8,
            (x >> 8u64) as u8,
            (x >> 16u64) as u8,
            (x >> 24u64) as u8,
            (x >> 32u64) as u8,
            (x >> 40u64) as u8,
            (x >> 48u64) as u8,
            (x >> 56u64) as u8,
        ],
    }
}

/// The unsigned value of width `w` whose little-endian bytes start `s`.
pub open spec fn decode_index(s: Seq<u8>, w: IndexSize) -> u64 {
    match w {
        IndexSize::U8 => s[0] as u64,
        IndexSize::U16 => ((s[0] as u16) | ((s[1] as u16) << 8u16)) as u64,
        IndexSize::U32 => ((s[0] as u32) | ((s[1] as u32) << 8u32) | ((s[2] as u32) << 16u32) | ((
        s[3] as u32) << 24u32)) as u64,
        IndexSize::U64 => (s[0] as u64) | ((s[1] as u64) << 8u64) | ((s[2] as u64) << 16u64) | ((
        s[3] as u64) << 24u64) | ((s[4] as u64) << 32u64) | ((s[5] as u64) << 40u64) | ((
        s[6] as u64) << 48u64) | ((s[7] as u64) << 56u64),
    }
}

/// Decoding the encoding of `x` gives `x` truncated to the width; a value the width holds
/// comes back unchanged.
pub proof fn lemma_index_roundtrip(x: u64, w: IndexSize)
    ensures
        encode_index(x, w).len() == w.bytes(),
        decode_index(encode_index(x, w), w) == truncate_index(x, w),
        w.holds(x as int) ==> truncate_index(x, w) == x,
{
    let s = encode_index(x, w);
    match w {
        IndexSize::U8 => {
            assert(s[0] == x as u8);
            assert(x <= 255 ==> x as u8 as u64 == x) by (bit_vector);
        },
        IndexSize::U16 => {
            assert(s[0] == x as u8 && s[1] == (x >> 8u64) as u8);
            assert((((x as u8) as u16) | ((((x >> 8u64) as u8) as u16) << 8u16)) as u64
                == x as u16 as u64) by (bit_vector);
            assert(x <= 65535 ==> x as u16 as u64 == x) by (bit_vector);
        },
        IndexSize::U32 => {
            assert(s[0] == x as u8 && s[1] == (x >> 8u64) as u8 && s[2] == (x >> 16u64) as u8
                && s[3] == (x >> 24u64) as u8);
            assert((((x as u8) as u32) | ((((x >> 8u64) as u8) as u32) << 8u32) | ((((x
                >> 16u64) as u8) as u32) << 16u32) | ((((x >> 24u64) as u8) as u32) << 24u32))
                as u64 == x as u32 as u64) by (bit_vector);
            assert(x <= 4294967295 ==> x as u32 as u64 == x) by (bit_vector);
        },
        IndexSize::U64 => {
            assert(s[0] == x as u8 && s[1] == (x >> 8u64) as u8 && s[2] == (x >> 16u64) as u8
                && s[3] == (x >> 24u64) as u8 && s[4] == (x >> 32u64) as u8 && s[5] == (x
                >> 40u64) as u8 && s[6] == (x >> 48u64) as u8 && s[7] == (x >> 56u64) as u8);
            assert(((x as u8) as u64) | ((((x >> 8u64) as u8) as u64) << 8u64) | ((((x
                >> 16u64) as u8) as u64) << 16u64) | ((((x >> 24u64) as u8) as u64) << 24u64)
                | ((((x >> 32u64) as u8) as u64) << 32u64) | ((((x >> 40u64) as u8) as u64)
                << 40u64) | ((((x >> 48u64) as u8) as u64) << 48u64) | ((((x >> 56u64) as u8)
                as u64) << 56u64) == x) by (bit_vector);
        },
    }
}

/// Appends the little-endian bytes of `x` cut down to width `w`.
pub fn push_index(data: &mut Vec<u8>, x: u64, w: IndexSize)
    ensures
        final(data)@ == old(data)@ + encode_index(x, w),
{
    match w {
        IndexSize::U8 => {
            data.push(x as u8);
        },
        IndexSize::U16 => {
            data.push(x as u8);
            data.push((x >> 8u64) as u8);
        },
        IndexSize::U32 => {
            data.push(x as u8);
            data.push((x >> 8u64) as u8);
            data.push((x >> 16u64) as u8);
            data.push((x >> 24u64) as u8);
        },
        IndexSize::U64 => {
            data.push(x as u8);
            data.push((x >> 8u64) as u8);
            data.push((x >> 16u64) as u8);
            data.push((x >> 24u64) as u8);
            data.push((x >> 32u64) as u8);
            data.push((x >> 40u64) as u8);
            data.push((x >> 48u64) as u8);
            data.push((x >> 56u64) as u8);
        },
    }
    assert(data@ =~= old(data)@ + encode_index(x, w));
}

/// Reads the unsigned value of width `w` stored little-endian at `data[pos..]`.
pub fn read_index(data: &Vec<u8>, pos: usize, w: IndexSize) -> (x: u64)
    requires
        pos + w.bytes() <= data@.len(),
    ensures
        x == decode_index(data@.subrange(pos as int, pos + w.bytes()), w),
{
    let ghost s = data@.subrange(pos as int, pos + w.bytes());
    let len = data.len();
    assert(pos + w.bytes() <= len);
    match w {
        IndexSize::U8 => {
            assert(s[0] == data@[pos as int]);
            data[pos] as u64
        },
        IndexSize::U16 => {
            assert(s[0] == data@[pos as int] && s[1] == data@[pos + 1]);
            ((data[pos] as u16) | ((data[pos + 1] as u16) << 8u16)) as u64
        },
        IndexSize::U32 => {
            assert(s[0] == data@[pos as int] && s[1] == data@[pos + 1] && s[2] == data@[pos + 2]
                && s[3] == data@[pos + 3]);
            ((data[pos] as u32) | ((data[pos + 1] as u32) << 8u32) | ((data[pos + 2] as u32)
                << 16u32) | ((data[pos + 3] as u32) << 24u32)) as u64
        },
        IndexSize::U64 => {
            assert(s[0] == data@[pos as int] && s[1] == data@[pos + 1] && s[2] == data@[pos + 2]
                && s[3] == data@[pos + 3] && s[4] == data@[pos + 4] && s[5] == data@[pos + 5]
                && s[6] == data@[pos + 6] && s[7] == data@[pos + 7]);
            (data[pos] as u64) | ((data[pos + 1] as u64) << 8u64) | ((data[pos + 2] as u64)
                << 16u64) | ((data[pos + 3] as u64) << 24u64) | ((data[pos + 4] as u64) << 32u64)
                | ((data[pos + 5] as u64) << 40u64) | ((data[pos + 6] as u64) << 48u64) | ((data[pos
                + 7] as u64) << 56u64)
        },
    }
}

/// The `i`-th slot of `b` bytes in `data`.
pub open spec fn chunk(data: Seq<u8>, i: int, b: nat) -> Seq<u8> {
    data.subrange(i * b, i * b + b)
}

/// Appending one slot of `b` bytes to `k` full slots keeps the old slots and adds the new one.
pub proof fn lemma_chunk_append(data: Seq<u8>, e: Seq<u8>, b: nat, k: int)
    requires
        b > 0,
        k >= 0,
        data.len() == k * b,
        e.len() == b,
    ensures
        (data + e).len() == (k + 1) * b,
        chunk(data + e, k, b) =~= e,
        forall|j: int| 0 <= j < k ==> #[trigger] chunk(data + e, j, b) =~= chunk(data, j, b),
{
    assert((k + 1) * b == k * b + b) by (nonlinear_arith);
    assert forall|j: int| 0 <= j < k implies #[trigger] chunk(data + e, j, b) =~= chunk(data, j, b) by {
        assert(j * b + b <= k * b) by (nonlinear_arith)
            requires
                0 <= j < k,
                b > 0,
        ;
        assert(0 <= j * b) by (nonlinear_arith)
            requires
                0 <= j,
        ;
    }
}

/// A slot counted by `len / b` lies inside the `len` bytes.
pub proof fn lemma_chunk_in_bounds(i: int, len: int, b: int)
    requires
        b > 0,
        len >= 0,
        0 <= i < len / b,
    ensures
        0 <= i * b,
        i * b + b <= len,
{
    assert(i * b + b <= (len / b) * b) by (nonlinear_arith)
        requires
            0 <= i < len / b,
            b > 0,
    ;
    assert((len / b) * b <= len) by (nonlinear_arith)
        requires
            b > 0,
            len >= 0,
    ;
    assert(0 <= i * b) by (nonlinear_arith)
        requires
            0 <= i,
            b > 0,
    ;
}

/// `k` full slots of `b` bytes count as `k` slots.
pub proof fn lemma_slot_count(k: int, b: int)
    requires
        b > 0,
        k >= 0,
    ensures
        (k * b) / b == k,
{
    assert((k * b) / b == k) by (nonlinear_arith)
        requires
            b > 0,
            k >= 0,
    ;
}

} // verus!
