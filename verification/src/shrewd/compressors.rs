use vstd::prelude::*;
use vstd::layout::size_of;
use crate::shrewd::Compressor;
use crate::shrewd::sizes::{DataSize, HyperLogLog, IndexSize};
use crate::shrewd::codec::{
    chunk, decode_index, decode_signed, encode_index, encode_signed, lemma_chunk_append,
    lemma_chunk_in_bounds, lemma_index_roundtrip, lemma_signed_roundtrip, lemma_slot_count,
    lemma_truncate_held, push_index, push_signed, read_index, read_signed, truncate,
};
use std::collections::HashMap;

verus! {

broadcast use {
    vstd::string::to_string_from_display_ensures_for_str,
    vstd::std_specs::hash::group_hash_axioms,
};

/// An empty byte buffer with room for `count` elements of `width` bytes, when that fits.
fn byte_buffer(count: usize, width: usize) -> (buffer: Vec<u8>)
    ensures
        buffer@.len() == 0,
{
    match count.checked_mul(width) {
        Some(capacity) => Vec::with_capacity(capacity),
        None => Vec::new(),
    }
}

/// `len` shifted right by a width's shift factor counts the width's slots in `len` bytes.
proof fn lemma_shift_counts(len: usize, w: DataSize)
    ensures
        len >> w.rank() as usize == len as int / w.bytes() as int,
{
    vstd::bits::lemma_usize_shr_is_div(len, w.rank() as usize);
    vstd::arithmetic::power2::lemma2_to64();
}

/// `len` shifted right by an index width's shift factor counts the width's slots in `len` bytes.
proof fn lemma_shift_counts_index(len: usize, w: IndexSize)
    ensures
        len >> w.rank() as usize == len as int / w.bytes() as int,
{
    vstd::bits::lemma_usize_shr_is_div(len, w.rank() as usize);
    vstd::arithmetic::power2::lemma2_to64();
}

/// Signed values stored little-endian, `w.bytes()` bytes each.
pub open spec fn decoded(data: Seq<u8>, w: DataSize) -> Seq<i64> {
    Seq::new(data.len() / w.bytes(), |i: int| decode_signed(chunk(data, i, w.bytes()), w))
}

/// Values stored as-is in the narrowest signed width that holds all of them.
pub struct SizeCompressor {
    data: Vec<u8>,
    data_size: DataSize,
}

impl SizeCompressor {
    /// Width each value is stored in.
    pub closed spec fn width(&self) -> DataSize {
        self.data_size
    }

    /// Length of the packed byte buffer.
    pub closed spec fn byte_len(&self) -> nat {
        self.data@.len()
    }

    /// Stores every value of `v` cut down to `data_size`.
    pub fn _compress(v: Vec<i64>, data_size: DataSize) -> (packed: SizeCompressor)
        ensures
            packed.width() == data_size,
            packed.byte_len() == v@.len() * data_size.bytes(),
            packed.elements() == Seq::new(v@.len(), |i: int| truncate(v@[i], data_size)),
    {
        let b = data_size.byte_width();
        let mut data = byte_buffer(v.len(), b);
        let mut i: usize = 0;
        while i < v.len()
            invariant
                b == data_size.bytes(),
                i <= v@.len(),
                data@.len() == i * b,
                forall|j: int| 0 <= j < i ==> #[trigger] chunk(data@, j, b as nat) == encode_signed(v@[j], data_size),
            decreases v@.len() - i,
        {
            let ghost before = data@;
            proof {
                lemma_signed_roundtrip(v@[i as int], data_size);
                lemma_chunk_append(before, encode_signed(v@[i as int], data_size), b as nat, i as int);
            }
            push_signed(&mut data, v[i], data_size);
            i = i + 1;
        }
        let packed = SizeCompressor { data, data_size };
        proof {
            lemma_slot_count(v@.len() as int, b as int);
            assert forall|j: int| 0 <= j < v@.len() implies #[trigger] decoded(data@, data_size)[j] == truncate(v@[j], data_size) by {
                lemma_signed_roundtrip(v@[j], data_size);
            }
            assert(packed.elements() =~= Seq::new(v@.len(), |i: int| truncate(v@[i], data_size)));
        }
        packed
    }

    /// Width each value is stored in.
    pub fn data_size(&self) -> (size: DataSize)
        ensures
            size == self.width(),
    {
        self.data_size
    }
}

impl Compressor for SizeCompressor {
    closed spec fn elements(&self) -> Seq<i64> {
        decoded(self.data@, self.data_size)
    }

    open spec fn footprint(&self) -> nat {
        self.byte_len() + size_of::<SizeCompressor>()
    }

    open spec fn strategy_name(&self) -> Seq<char> {
        "Size"@
    }

    fn pack(v: Vec<i64>) -> (packed: SizeCompressor)
        ensures
            packed.width() == DataSize::narrowest_for(v@),
            packed.byte_len() == v@.len() * packed.width().bytes(),
    {
        let mut size = DataSize::I8;
        let mut i: usize = 0;
        assert(v@.take(v@.len() as int) =~= v@);
        while i < v.len()
            invariant_except_break
                size == DataSize::narrowest_for(v@.take(i as int)),
            invariant
                i <= v@.len(),
                v@.take(v@.len() as int) == v@,
            ensures
                size == DataSize::narrowest_for(v@),
            decreases v@.len() - i,
        {
            let value_data_size = DataSize::calculate(v[i]);
            proof {
                DataSize::lemma_narrowest_for_push(v@.take(i as int), v@[i as int]);
                assert(v@.take(i as int).push(v@[i as int]) =~= v@.take(i + 1));
            }
            if value_data_size.shift_factor() > size.shift_factor() {
                size = value_data_size;
                if size == DataSize::I64 {
                    proof {
                        DataSize::lemma_narrowest_for_prefix(v@, i + 1);
                    }
                    break;
                }
            }
            i = i + 1;
        }
        proof {
            DataSize::lemma_narrowest_for_holds(v@);
            assert forall|j: int| 0 <= j < v@.len() implies truncate(v@[j], size) == v@[j] by {
                lemma_truncate_held(v@[j], size);
            }
        }
        let packed = Self::_compress(v, size);
        assert(packed.elements() =~= v@);
        packed
    }

    fn get(&self, index: usize) -> (value: Option<i64>) {
        if index >= self.length() {
            return None;
        }
        let b = self.data_size.byte_width();
        let len = self.data.len();
        proof {
            lemma_chunk_in_bounds(index as int, self.data@.len() as int, b as int);
        }
        let pos = index * b;
        Some(read_signed(&self.data, pos, self.data_size))
    }

    fn size(&self) -> (bytes: usize) {
        self.data.len() + core::mem::size_of::<SizeCompressor>()
    }

    fn length(&self) -> (len: usize) {
        proof {
            lemma_shift_counts(self.data@.len() as usize, self.data_size);
        }
        self.data.len() >> self.data_size.shift_factor()
    }

    fn compressor_type(&self) -> (name: String) {
        "Size".to_string()
    }
}


/// Smallest element of `s`; `i64::MAX` for an empty sequence.
pub open spec fn least(s: Seq<i64>) -> i64
    decreases s.len(),
{
    if s.len() == 0 {
        i64::MAX
    } else {
        let rest = least(s.drop_last());
        if s.last() < rest {
            s.last()
        } else {
            rest
        }
    }
}

/// Largest element of `s`; `i64::MIN` for an empty sequence.
pub open spec fn greatest(s: Seq<i64>) -> i64
    decreases s.len(),
{
    if s.len() == 0 {
        i64::MIN
    } else {
        let rest = greatest(s.drop_last());
        if s.last() > rest {
            s.last()
        } else {
            rest
        }
    }
}

/// `least` and `greatest` bound every element and, for a non-empty sequence, occur in it.
pub proof fn lemma_extremes(s: Seq<i64>)
    ensures
        forall|i: int| 0 <= i < s.len() ==> least(s) <= #[trigger] s[i] <= greatest(s),
        s.len() > 0 ==> s.contains(least(s)) && s.contains(greatest(s)),
    decreases s.len(),
{
    if s.len() > 0 {
        let t = s.drop_last();
        lemma_extremes(t);
        assert forall|i: int| 0 <= i < s.len() implies least(s) <= #[trigger] s[i] <= greatest(s) by {
            if i < t.len() {
                assert(s[i] == t[i]);
            }
        }
        if t.len() > 0 {
            let a = choose|i: int| 0 <= i < t.len() && t[i] == least(t);
            let b = choose|i: int| 0 <= i < t.len() && t[i] == greatest(t);
            assert(s[a] == t[a] && s[b] == t[b]);
        }
        assert(s[s.len() - 1] == s.last());
    }
}

/// Midpoint of `lo..=hi`, rounded up.
pub open spec fn midpoint(lo: i64, hi: i64) -> i64 {
    ((lo + hi + 1) / 2) as i64
}

/// Narrowest width whose signed range is at least `span + 1` values wide.
pub open spec fn span_width(span: u64) -> DataSize {
    if span <= u8::MAX {
        DataSize::I8
    } else if span <= u16::MAX {
        DataSize::I16
    } else if span <= u32::MAX {
        DataSize::I32
    } else {
        DataSize::I64
    }
}

/// Width in which offsets from the midpoint of `lo..=hi` are stored.
pub open spec fn offset_width(lo: i64, hi: i64) -> DataSize {
    span_width((hi - lo) as u64)
}

/// `x - center`, wrapping around in width `o`.
pub open spec fn offset_from(x: i64, center: i64, o: DataSize) -> i64 {
    match o {
        DataSize::I8 => (x as i8).wrapping_sub(center as i8) as i64,
        DataSize::I16 => (x as i16).wrapping_sub(center as i16) as i64,
        DataSize::I32 => (x as i32).wrapping_sub(center as i32) as i64,
        DataSize::I64 => x.wrapping_sub(center),
    }
}

/// `t + center`, wrapping around in width `o`.
pub open spec fn offset_back(t: i64, center: i64, o: DataSize) -> i64 {
    match o {
        DataSize::I8 => (t as i8).wrapping_add(center as i8) as i64,
        DataSize::I16 => (t as i16).wrapping_add(center as i16) as i64,
        DataSize::I32 => (t as i32).wrapping_add(center as i32) as i64,
        DataSize::I64 => t.wrapping_add(center),
    }
}

/// What an offset-packed value reads back as: its offset from `center` in width `o`,
/// cut down to the stored width `w`, then moved back by `center`.
pub open spec fn offset_roundtrip(x: i64, center: i64, o: DataSize, w: DataSize) -> i64 {
    offset_back(truncate(offset_from(x, center, o), w), center, o)
}

/// Every value between the bounds comes back unchanged from offset packing with the
/// midpoint, stored width and original width that the bounds determine, at the extremes
/// of `i64` too.
pub proof fn lemma_offset_roundtrip(lo: i64, hi: i64, x: i64)
    requires
        lo <= x <= hi,
    ensures
        offset_roundtrip(
            x,
            midpoint(lo, hi),
            DataSize::narrowest(lo as int).wider(DataSize::narrowest(hi as int)),
            offset_width(lo, hi),
        ) == x,
{
    let o = DataSize::narrowest(lo as int).wider(DataSize::narrowest(hi as int));
    let c = midpoint(lo, hi);
    let w = offset_width(lo, hi);
    let d = x - c;
    lemma_midpoint_and_width(lo, hi, x);
    assert(o.holds(lo as int) && o.holds(hi as int));
    assert(o.holds(x as int) && o.holds(c as int));
    assert(o.holds(d));
    lemma_truncate_held(d as i64, w);
    assert(offset_from(x, c, o) == d);
}

/// The midpoint lies between the bounds, the offset of every value between the bounds from
/// it fits the offset width, and that width is never wider than the width the bounds need.
pub proof fn lemma_midpoint_and_width(lo: i64, hi: i64, x: i64)
    requires
        lo <= x <= hi,
    ensures
        lo <= midpoint(lo, hi) <= hi,
        offset_width(lo, hi).holds(x - midpoint(lo, hi)),
        offset_width(lo, hi).rank() <= DataSize::narrowest(lo as int).wider(
            DataSize::narrowest(hi as int),
        ).rank(),
{
}

/// No width narrower than the offset width holds every offset from the midpoint: any width
/// that holds the offset of each value of `lo..=hi` is at least as wide.
pub proof fn lemma_offset_width_narrowest(lo: i64, hi: i64, w: DataSize)
    requires
        lo <= hi,
        forall|x: int| lo <= x <= hi ==> #[trigger] w.holds(x - midpoint(lo, hi)),
    ensures
        offset_width(lo, hi).rank() <= w.rank(),
{
    assert(w.holds(lo - midpoint(lo, hi)));
    assert(w.holds(hi - midpoint(lo, hi)));
}

/// Offset storage never needs more bytes than plain storage.
pub proof fn lemma_offset_never_larger(s: Seq<i64>)
    requires
        s.len() > 0,
    ensures
        offset_estimate(s) <= size_estimate(s),
{
    lemma_extremes(s);
    let lo = least(s);
    let hi = greatest(s);
    assert(s.contains(lo));
    let i = choose|i: int| 0 <= i < s.len() && s[i] == lo;
    assert(lo <= s[i] <= hi);
    lemma_midpoint_and_width(lo, hi, lo);
    let o = DataSize::narrowest(lo as int).wider(DataSize::narrowest(hi as int));
    let w = offset_width(lo, hi);
    assert(w.bytes() <= o.bytes());
    assert(s.len() * w.bytes() <= s.len() * o.bytes()) by (nonlinear_arith)
        requires
            w.bytes() <= o.bytes(),
    ;
}

/// Values stored as offsets from the midpoint of their range, in the narrowest signed width
/// that holds every offset.
pub struct OffsetCompressor {
    data: Vec<u8>,
    data_size: DataSize,
    center: i64,
    original_data_size: DataSize,
}

impl OffsetCompressor {
    /// Width each offset is stored in.
    pub closed spec fn width(&self) -> DataSize {
        self.data_size
    }

    /// Value the offsets are taken from.
    pub closed spec fn center_value(&self) -> i64 {
        self.center
    }

    /// Width in which offsets are computed and added back.
    pub closed spec fn original_width(&self) -> DataSize {
        self.original_data_size
    }

    /// Length of the packed byte buffer.
    pub closed spec fn byte_len(&self) -> nat {
        self.data@.len()
    }

    /// Midpoint of `min_val..=max_val` (rounded up) and the width that holds every offset
    /// from it.
    pub fn midpoint_and_width(min_val: i64, max_val: i64) -> (result: (i64, DataSize))
        ensures
            result.0 == midpoint(min_val, max_val),
            result.1 == offset_width(min_val, max_val),
            min_val <= max_val ==> min_val <= result.0 <= max_val,
            min_val <= max_val ==> forall|x: int|
                min_val <= x <= max_val ==> #[trigger] result.1.holds(x - result.0),
            min_val <= max_val ==> forall|w: DataSize|
                (forall|x: int| min_val <= x <= max_val ==> #[trigger] w.holds(x - result.0))
                    ==> result.1.rank() <= #[trigger] w.rank(),
    {
        proof {
            if min_val <= max_val {
                assert forall|x: int| min_val <= x <= max_val implies #[trigger] offset_width(
                    min_val,
                    max_val,
                ).holds(x - midpoint(min_val, max_val)) by {
                    lemma_midpoint_and_width(min_val, max_val, x as i64);
                }
                assert forall|w: DataSize|
                    (forall|x: int| min_val <= x <= max_val ==> #[trigger] w.holds(
                        x - midpoint(min_val, max_val),
                    )) implies offset_width(min_val, max_val).rank() <= #[trigger] w.rank() by {
                    lemma_offset_width_narrowest(min_val, max_val, w);
                }
                lemma_midpoint_and_width(min_val, max_val, min_val);
            }
        }
        let sum: i128 = min_val as i128 + max_val as i128 + 1;
        assert(sum >> 1u32 == sum / 2) by (bit_vector);
        let mid = (sum >> 1u32) as i64;
        let range = (max_val as i128 - min_val as i128) as u64;
        let width = if range <= u8::MAX as u64 {
            DataSize::I8
        } else if range <= u16::MAX as u64 {
            DataSize::I16
        } else if range <= u32::MAX as u64 {
            DataSize::I32
        } else {
            DataSize::I64
        };
        (mid, width)
    }

    /// Stores each value of `v` as its offset from `center`, computed in width
    /// `original_data_size` and cut down to `max_delta_from_center`.
    pub fn _compress(
        v: Vec<i64>,
        original_data_size: DataSize,
        center: i64,
        max_delta_from_center: DataSize,
    ) -> (packed: OffsetCompressor)
        ensures
            packed.width() == max_delta_from_center,
            packed.center_value() == center,
            packed.original_width() == original_data_size,
            packed.byte_len() == v@.len() * max_delta_from_center.bytes(),
            packed.elements() == Seq::new(
                v@.len(),
                |i: int| offset_roundtrip(v@[i], center, original_data_size, max_delta_from_center),
            ),
    {
        let w = max_delta_from_center;
        let b = w.byte_width();
        let mut compressed_data = byte_buffer(v.len(), b);
        let mut i: usize = 0;
        while i < v.len()
            invariant
                b == w.bytes(),
                i <= v@.len(),
                compressed_data@.len() == i * b,
                forall|j: int| 0 <= j < i ==> #[trigger] chunk(compressed_data@, j, b as nat)
                    == encode_signed(offset_from(v@[j], center, original_data_size), w),
            decreases v@.len() - i,
        {
            let value = v[i];
            let transformed_value = match original_data_size {
                DataSize::I8 => (value as i8).wrapping_sub(center as i8) as i64,
                DataSize::I16 => (value as i16).wrapping_sub(center as i16) as i64,
                DataSize::I32 => (value as i32).wrapping_sub(center as i32) as i64,
                DataSize::I64 => value.wrapping_sub(center),
            };
            let ghost before = compressed_data@;
            proof {
                lemma_signed_roundtrip(transformed_value, w);
                lemma_chunk_append(before, encode_signed(transformed_value, w), b as nat, i as int);
            }
            push_signed(&mut compressed_data, transformed_value, w);
            i = i + 1;
        }
        let packed = OffsetCompressor {
            data: compressed_data,
            data_size: w,
            center,
            original_data_size,
        };
        proof {
            lemma_slot_count(v@.len() as int, b as int);
            assert forall|j: int| 0 <= j < v@.len() implies #[trigger] packed.elements()[j]
                == offset_roundtrip(v@[j], center, original_data_size, w) by {
                lemma_signed_roundtrip(offset_from(v@[j], center, original_data_size), w);
            }
            assert(packed.elements() =~= Seq::new(
                v@.len(),
                |i: int| offset_roundtrip(v@[i], center, original_data_size, w),
            ));
        }
        packed
    }

    /// Width each offset is stored in.
    pub fn data_size(&self) -> (size: DataSize)
        ensures
            size == self.width(),
    {
        self.data_size
    }

    /// Value the offsets are taken from.
    pub fn center(&self) -> (center: i64)
        ensures
            center == self.center_value(),
    {
        self.center
    }

    /// Width in which offsets are computed and added back.
    pub fn original_data_size(&self) -> (size: DataSize)
        ensures
            size == self.original_width(),
    {
        self.original_data_size
    }
}

impl Compressor for OffsetCompressor {
    closed spec fn elements(&self) -> Seq<i64> {
        Seq::new(
            self.data@.len() / self.data_size.bytes(),
            |i: int|
                offset_back(
                    decode_signed(chunk(self.data@, i, self.data_size.bytes()), self.data_size),
                    self.center,
                    self.original_data_size,
                ),
        )
    }

    open spec fn footprint(&self) -> nat {
        self.byte_len() + size_of::<OffsetCompressor>()
    }

    open spec fn strategy_name(&self) -> Seq<char> {
        "Offset"@
    }

    fn pack(v: Vec<i64>) -> (packed: OffsetCompressor)
        ensures
            v@.len() == 0 ==> packed.width() == DataSize::I8 && packed.center_value() == 0
                && packed.original_width() == DataSize::I8,
            v@.len() > 0 ==> {
                &&& packed.width() == offset_width(least(v@), greatest(v@))
                &&& packed.center_value() == midpoint(least(v@), greatest(v@))
                &&& packed.original_width() == DataSize::narrowest_for(v@)
            },
            packed.byte_len() == v@.len() * packed.width().bytes(),
    {
        if v.len() == 0 {
            let packed = OffsetCompressor {
                data: Vec::new(),
                data_size: DataSize::I8,
                center: 0,
                original_data_size: DataSize::I8,
            };
            assert(packed.elements() =~= v@);
            return packed;
        }
        let mut min_val = i64::MAX;
        let mut max_val = i64::MIN;
        let mut i: usize = 0;
        while i < v.len()
            invariant
                i <= v@.len(),
                min_val == least(v@.take(i as int)),
                max_val == greatest(v@.take(i as int)),
            decreases v@.len() - i,
        {
            let value = v[i];
            assert(v@.take(i + 1).drop_last() =~= v@.take(i as int));
            if value < min_val {
                min_val = value;
            }
            if value > max_val {
                max_val = value;
            }
            i = i + 1;
        }
        assert(v@.take(i as int) =~= v@);
        proof {
            lemma_extremes(v@);
            DataSize::lemma_narrowest_for_bounds(v@, min_val, max_val);
        }
        let original_data_size = DataSize::calculate(min_val).widest(DataSize::calculate(max_val));
        let (center, size) = Self::midpoint_and_width(min_val, max_val);
        let packed = Self::_compress(v, original_data_size, center, size);
        proof {
            assert forall|j: int| 0 <= j < v@.len() implies #[trigger] packed.elements()[j] == v@[j] by {
                lemma_offset_roundtrip(min_val, max_val, v@[j]);
            }
            assert(packed.elements() =~= v@);
        }
        packed
    }

    fn get(&self, index: usize) -> (value: Option<i64>) {
        if index >= self.length() {
            return None;
        }
        let b = self.data_size.byte_width();
        let len = self.data.len();
        proof {
            lemma_chunk_in_bounds(index as int, self.data@.len() as int, b as int);
        }
        let pos = index * b;
        let transformed_value = read_signed(&self.data, pos, self.data_size);
        let value = match self.original_data_size {
            DataSize::I8 => (transformed_value as i8).wrapping_add(self.center as i8) as i64,
            DataSize::I16 => (transformed_value as i16).wrapping_add(self.center as i16) as i64,
            DataSize::I32 => (transformed_value as i32).wrapping_add(self.center as i32) as i64,
            DataSize::I64 => transformed_value.wrapping_add(self.center),
        };
        Some(value)
    }

    fn size(&self) -> (bytes: usize) {
        self.data.len() + core::mem::size_of::<OffsetCompressor>()
    }

    fn length(&self) -> (len: usize) {
        proof {
            lemma_shift_counts(self.data@.len() as usize, self.data_size);
        }
        self.data.len() >> self.data_size.shift_factor()
    }

    fn compressor_type(&self) -> (name: String) {
        "Offset".to_string()
    }
}


/// Distinct elements of `s`, in order of first occurrence.
pub open spec fn distinct(s: Seq<i64>) -> Seq<i64>
    decreases s.len(),
{
    if s.len() == 0 {
        Seq::empty()
    } else {
        let d = distinct(s.drop_last());
        if d.contains(s.last()) {
            d
        } else {
            d.push(s.last())
        }
    }
}

/// `distinct(s)` has no repeated element and holds exactly the elements of `s`.
pub proof fn lemma_distinct(s: Seq<i64>)
    ensures
        distinct(s).no_duplicates(),
        forall|x: i64| #[trigger] distinct(s).contains(x) <==> s.contains(x),
    decreases s.len(),
{
    if s.len() > 0 {
        let t = s.drop_last();
        lemma_distinct(t);
        assert forall|x: i64| #[trigger] s.contains(x) <==> (t.contains(x) || x == s.last()) by {
            if s.contains(x) {
                let i = choose|i: int| 0 <= i < s.len() && s[i] == x;
                if i < t.len() {
                    assert(t[i] == x);
                }
            }
            if t.contains(x) {
                let i = choose|i: int| 0 <= i < t.len() && t[i] == x;
                assert(s[i] == x);
            }
            if x == s.last() {
                assert(s[s.len() - 1] == x);
            }
        }
        let d = distinct(t);
        if !d.contains(s.last()) {
            assert forall|x: i64| #[trigger] d.push(s.last()).contains(x) <==> (d.contains(x) || x == s.last()) by {
                if d.push(s.last()).contains(x) {
                    let i = choose|i: int| 0 <= i < d.len() + 1 && d.push(s.last())[i] == x;
                    if i < d.len() {
                        assert(d[i] == x);
                    }
                }
                if d.contains(x) {
                    let i = choose|i: int| 0 <= i < d.len() && d[i] == x;
                    assert(d.push(s.last())[i] == x);
                }
                if x == s.last() {
                    assert(d.push(s.last())[d.len() as int] == x);
                }
            }
        }
    }
}

/// Index width of a dictionary holding `count` values.
pub open spec fn index_width(count: nat) -> IndexSize {
    if count == 0 {
        IndexSize::U8
    } else {
        IndexSize::narrowest(count - 1)
    }
}

/// No index width narrower than that of a dictionary holds every index into it.
pub proof fn lemma_index_width_narrowest(count: nat, w: IndexSize)
    requires
        0 < count,
        count - 1 <= u64::MAX,
        forall|j: int| 0 <= j < count ==> #[trigger] w.holds(j),
    ensures
        index_width(count).rank() <= w.rank(),
{
    assert(w.holds(count - 1));
    IndexSize::lemma_narrowest(count - 1);
}

/// The index width of a dictionary holds every index into it.
pub proof fn lemma_index_width_addresses(count: nat, j: int)
    requires
        0 <= j < count,
        count - 1 <= u64::MAX,
    ensures
        index_width(count).holds(j),
{
}

/// Values stored as indices into a table of the distinct values.
pub struct DictionaryCompressor {
    data: Vec<u8>,
    unique_values: Vec<i64>,
    index_size: IndexSize,
}

impl DictionaryCompressor {
    /// Every stored index points into the table of distinct values.
    #[verifier::type_invariant]
    spec fn well_formed(self) -> bool {
        forall|i: int|
            0 <= i < self.data@.len() / self.index_size.bytes() ==> (#[trigger] decode_index(
                chunk(self.data@, i, self.index_size.bytes()),
                self.index_size,
            ) as int) < self.unique_values@.len()
    }

    /// The table of distinct values.
    pub closed spec fn dictionary(&self) -> Seq<i64> {
        self.unique_values@
    }

    /// Width each index is stored in.
    pub closed spec fn width(&self) -> IndexSize {
        self.index_size
    }

    /// Length of the packed index buffer.
    pub closed spec fn byte_len(&self) -> nat {
        self.data@.len()
    }

    /// Width each index is stored in.
    pub fn index_size(&self) -> (size: IndexSize)
        ensures
            size == self.width(),
    {
        self.index_size
    }

    /// The table of distinct values, in order of first occurrence.
    pub fn unique_values(&self) -> (values: &Vec<i64>)
        ensures
            values@ == self.dictionary(),
    {
        &self.unique_values
    }
}

impl Compressor for DictionaryCompressor {
    closed spec fn elements(&self) -> Seq<i64> {
        Seq::new(
            self.data@.len() / self.index_size.bytes(),
            |i: int|
                self.unique_values@[decode_index(
                    chunk(self.data@, i, self.index_size.bytes()),
                    self.index_size,
                ) as int],
        )
    }

    open spec fn footprint(&self) -> nat {
        self.byte_len() + self.dictionary().len() * 8 + size_of::<DictionaryCompressor>()
    }

    open spec fn strategy_name(&self) -> Seq<char> {
        "Dictionary"@
    }

    fn pack(v: Vec<i64>) -> (packed: DictionaryCompressor)
        ensures
            packed.dictionary() == distinct(v@),
            packed.width() == index_width(distinct(v@).len()),
            packed.byte_len() == v@.len() * packed.width().bytes(),
    {
        if v.len() == 0 {
            let packed = DictionaryCompressor {
                data: Vec::new(),
                unique_values: Vec::new(),
                index_size: IndexSize::U8,
            };
            assert(packed.elements() =~= v@);
            assert(distinct(v@) =~= Seq::<i64>::empty());
            return packed;
        }
        let mut lookup: HashMap<i64, usize> = HashMap::with_capacity(v.len() / 2);
        let mut unique_values: Vec<i64> = Vec::new();
        let mut i: usize = 0;
        while i < v.len()
            invariant
                i <= v@.len(),
                unique_values@ == distinct(v@.take(i as int)),
                forall|k: i64| #[trigger] lookup@.contains_key(k) <==> unique_values@.contains(k),
                forall|j: int|
                    0 <= j < unique_values@.len() ==> lookup@[#[trigger] unique_values@[j]] == j,
            decreases v@.len() - i,
        {
            let value = v[i];
            assert(v@.take(i + 1).drop_last() =~= v@.take(i as int));
            assert(v@.take(i + 1).last() == value);
            if !lookup.contains_key(&value) {
                let ghost before = unique_values@;
                lookup.insert(value, unique_values.len());
                unique_values.push(value);
                assert forall|k: i64| #[trigger] lookup@.contains_key(k) <==> unique_values@.contains(k) by {
                    if unique_values@.contains(k) {
                        let j = choose|j: int| 0 <= j < unique_values@.len() && unique_values@[j] == k;
                        if j < before.len() {
                            assert(before[j] == k);
                        }
                    }
                    if before.contains(k) {
                        let j = choose|j: int| 0 <= j < before.len() && before[j] == k;
                        assert(unique_values@[j] == k);
                    }
                    assert(unique_values@[before.len() as int] == value);
                }
            }
            i = i + 1;
        }
        assert(v@.take(i as int) =~= v@);
        proof {
            lemma_distinct(v@);
        }
        let data_size = IndexSize::calculate(unique_values.len() - 1);
        let b = data_size.byte_width();
        let mut data = byte_buffer(v.len(), b);
        let mut i: usize = 0;
        while i < v.len()
            invariant
                b == data_size.bytes(),
                i <= v@.len(),
                unique_values@ == distinct(v@),
                unique_values@.len() > 0,
                data_size == IndexSize::narrowest(unique_values@.len() - 1),
                forall|k: i64| #[trigger] lookup@.contains_key(k) <==> unique_values@.contains(k),
                forall|j: int|
                    0 <= j < unique_values@.len() ==> lookup@[#[trigger] unique_values@[j]] == j,
                forall|x: i64| #[trigger] distinct(v@).contains(x) <==> v@.contains(x),
                data@.len() == i * b,
                forall|j: int|
                    0 <= j < i ==> #[trigger] chunk(data@, j, b as nat) == encode_index(
                        lookup@[v@[j]] as u64,
                        data_size,
                    ),
            decreases v@.len() - i,
        {
            let value = v[i];
            assert(v@.contains(value));
            let index = *lookup.get(&value).unwrap();
            let ghost before = data@;
            proof {
                lemma_index_roundtrip(index as u64, data_size);
                lemma_chunk_append(before, encode_index(index as u64, data_size), b as nat, i as int);
            }
            push_index(&mut data, index as u64, data_size);
            i = i + 1;
        }
        proof {
            lemma_slot_count(v@.len() as int, b as int);
            assert forall|j: int| 0 <= j < v@.len() implies {
                &&& (#[trigger] decode_index(chunk(data@, j, b as nat), data_size) as int) == lookup@[v@[j]]
                &&& unique_values@[lookup@[v@[j]] as int] == v@[j]
                &&& lookup@[v@[j]] < unique_values@.len()
            } by {
                let k = v@[j];
                assert(v@.contains(k));
                assert(distinct(v@).contains(k));
                assert(unique_values@.contains(k));
                let jj = choose|jj: int| 0 <= jj < unique_values@.len() && unique_values@[jj] == k;
                assert(lookup@[unique_values@[jj]] == jj);
                lemma_index_roundtrip(lookup@[k] as u64, data_size);
            }
        }
        let packed = DictionaryCompressor { data, unique_values, index_size: data_size };
        assert(packed.elements() =~= v@);
        packed
    }

    fn get(&self, index: usize) -> (value: Option<i64>) {
        if index >= self.length() {
            return None;
        }
        proof {
            use_type_invariant(self);
        }
        let b = self.index_size.byte_width();
        let len = self.data.len();
        proof {
            lemma_chunk_in_bounds(index as int, self.data@.len() as int, b as int);
        }
        let pos = index * b;
        let dict_index = read_index(&self.data, pos, self.index_size);
        assert(decode_index(chunk(self.data@, index as int, self.index_size.bytes()), self.index_size)
            == dict_index);
        let count = self.unique_values.len();
        assert((dict_index as int) < count);
        Some(self.unique_values[dict_index as usize])
    }

    fn size(&self) -> (bytes: usize) {
        self.data.len() + self.unique_values.len() * 8 + core::mem::size_of::<DictionaryCompressor>()
    }

    fn length(&self) -> (len: usize) {
        proof {
            lemma_shift_counts_index(self.data@.len() as usize, self.index_size);
        }
        self.data.len() >> self.index_size.shift_factor()
    }

    fn compressor_type(&self) -> (name: String) {
        "Dictionary".to_string()
    }
}


/// Precision of the cardinality sketch that routing takes its estimate from.
pub const SKETCH_PRECISION: u32 = 12;

/// The packing strategies a `Shrewd` chooses between.
#[derive(Debug, PartialEq, Eq, Structural, Copy, Clone)]
pub enum Strategy {
    Size,
    Offset,
    Dictionary,
}

/// Name reported for a strategy.
pub open spec fn strategy_name(strategy: Strategy) -> Seq<char> {
    match strategy {
        Strategy::Size => "Size"@,
        Strategy::Offset => "Offset"@,
        Strategy::Dictionary => "Dictionary"@,
    }
}

/// Payload bytes the plain strategy needs for `s`.
pub open spec fn size_estimate(s: Seq<i64>) -> int {
    (s.len() * DataSize::narrowest(least(s) as int).wider(
        DataSize::narrowest(greatest(s) as int),
    ).bytes()) as int
}

/// Payload bytes the offset strategy needs for `s`.
pub open spec fn offset_estimate(s: Seq<i64>) -> int {
    (s.len() * offset_width(least(s), greatest(s)).bytes()) as int
}

/// Payload bytes the dictionary strategy would need for `s` if it held `unique` distinct values.
pub open spec fn dictionary_estimate(s: Seq<i64>, unique: int) -> int {
    s.len() * index_width(unique as nat).bytes() + unique * 8
}

/// Strategy chosen for `s` given an estimate `unique` of its distinct values: the dictionary
/// when under half the values are distinct and it is smallest, else offsets when they are
/// smaller than plain storage, else plain storage.
pub open spec fn chosen_strategy(s: Seq<i64>, unique: int) -> Strategy {
    if s.len() == 0 {
        Strategy::Size
    } else if unique < s.len() / 2 && dictionary_estimate(s, unique) < size_estimate(s)
        && dictionary_estimate(s, unique) < offset_estimate(s) {
        Strategy::Dictionary
    } else if offset_estimate(s) < size_estimate(s) {
        Strategy::Offset
    } else {
        Strategy::Size
    }
}

/// Estimated payload bytes of packing `s` with strategy `t`, given `unique` estimated distinct
/// values.
pub open spec fn estimate_of(s: Seq<i64>, unique: int, t: Strategy) -> int {
    match t {
        Strategy::Size => size_estimate(s),
        Strategy::Offset => offset_estimate(s),
        Strategy::Dictionary => dictionary_estimate(s, unique),
    }
}

/// Whether routing may pick `t`: the dictionary only when under half of the values are
/// estimated to be distinct.
pub open spec fn eligible(s: Seq<i64>, unique: int, t: Strategy) -> bool {
    t != Strategy::Dictionary || unique < s.len() / 2
}

/// Routing picks an eligible strategy whose estimate is the least of all eligible ones. The
/// dictionary is picked exactly when it is eligible and strictly smaller than both others;
/// offsets only when strictly smaller than plain storage.
pub proof fn lemma_chosen_strategy_is_cheapest(s: Seq<i64>, unique: int)
    requires
        s.len() > 0,
    ensures
        eligible(s, unique, chosen_strategy(s, unique)),
        forall|t: Strategy|
            eligible(s, unique, t) ==> estimate_of(s, unique, chosen_strategy(s, unique))
                <= #[trigger] estimate_of(s, unique, t),
        (chosen_strategy(s, unique) == Strategy::Dictionary) <==> (unique < s.len() / 2
            && dictionary_estimate(s, unique) < size_estimate(s) && dictionary_estimate(s, unique)
            < offset_estimate(s)),
        chosen_strategy(s, unique) == Strategy::Offset ==> offset_estimate(s) < size_estimate(s),
{
}

/// The plain-storage estimate is the buffer size of storing every value in the narrowest
/// width that holds all of them, and the offset estimate never exceeds it.
pub proof fn lemma_size_estimate_is_plain_layout(s: Seq<i64>)
    requires
        s.len() > 0,
    ensures
        size_estimate(s) == s.len() * DataSize::narrowest_for(s).bytes(),
        offset_estimate(s) <= size_estimate(s),
{
    lemma_extremes(s);
    DataSize::lemma_narrowest_for_bounds(s, least(s), greatest(s));
    lemma_offset_never_larger(s);
}

pub(crate) enum Inner {
    Size(SizeCompressor),
    Offset(OffsetCompressor),
    Dictionary(DictionaryCompressor),
}

/// A packed vector that routes its values to the strategy that stores them most compactly.
pub struct Shrewd(Inner);

impl Shrewd {
    /// The values held, in order.
    pub closed spec fn elements(&self) -> Seq<i64> {
        match self.0 {
            Inner::Size(c) => c.elements(),
            Inner::Offset(c) => c.elements(),
            Inner::Dictionary(c) => c.elements(),
        }
    }

    /// The strategy the values are packed with.
    pub closed spec fn strategy(&self) -> Strategy {
        match self.0 {
            Inner::Size(_) => Strategy::Size,
            Inner::Offset(_) => Strategy::Offset,
            Inner::Dictionary(_) => Strategy::Dictionary,
        }
    }

    /// Bytes the packed buffers occupy.
    pub closed spec fn payload(&self) -> int {
        match self.0 {
            Inner::Size(c) => c.byte_len() as int,
            Inner::Offset(c) => c.byte_len() as int,
            Inner::Dictionary(c) => (c.byte_len() + c.dictionary().len() * 8) as int,
        }
    }

    /// Bytes the packed vector occupies: its buffers plus its own inline size.
    pub open spec fn footprint(&self) -> int {
        self.payload() + size_of::<Shrewd>()
    }

    /// Records every value of `v` in a cardinality sketch of `SKETCH_PRECISION` bits.
    pub fn sketch(v: &Vec<i64>) -> (sketch: HyperLogLog)
        ensures
            sketch.well_formed(),
            sketch.view_precision() == SKETCH_PRECISION,
            sketch.view_registers() == HyperLogLog::sketched(SKETCH_PRECISION, v@),
            HyperLogLog::summarizes(sketch.view_registers(), SKETCH_PRECISION, v@),
    {
        let mut hll = HyperLogLog::new(SKETCH_PRECISION);
        let mut i: usize = 0;
        assert(v@.take(0) =~= Seq::<i64>::empty());
        while i < v.len()
            invariant
                i <= v@.len(),
                hll.well_formed(),
                hll.view_precision() == SKETCH_PRECISION,
                hll.view_registers() == HyperLogLog::sketched(SKETCH_PRECISION, v@.take(i as int)),
            decreases v@.len() - i,
        {
            assert(v@.take(i + 1).drop_last() =~= v@.take(i as int));
            hll.insert(v[i]);
            i = i + 1;
        }
        assert(v@.take(i as int) =~= v@);
        proof {
            HyperLogLog::lemma_sketched_summarizes(SKETCH_PRECISION, v@);
        }
        hll
    }

    /// Packs `v` with the strategy `chosen_strategy` picks, given `unique_count`, an estimate
    /// of how many distinct values `v` holds.
    pub fn pack_with_estimate(v: Vec<i64>, unique_count: usize) -> (packed: Shrewd)
        ensures
            packed.elements() == v@,
            packed.strategy() == chosen_strategy(v@, unique_count as int),
            packed.strategy() == Strategy::Size ==> packed.payload() == size_estimate(v@),
            packed.strategy() == Strategy::Offset ==> packed.payload() == offset_estimate(v@),
            packed.strategy() == Strategy::Dictionary ==> packed.payload() == dictionary_estimate(
                v@,
                distinct(v@).len() as int,
            ),
            packed.strategy() != Strategy::Dictionary ==> packed.payload() <= size_estimate(v@)
                && packed.payload() <= offset_estimate(v@),
            v@.len() == 0 ==> packed.strategy() == Strategy::Size,
            v@.len() > 0 ==> eligible(v@, unique_count as int, packed.strategy()),
            v@.len() > 0 ==> forall|t: Strategy|
                eligible(v@, unique_count as int, t) ==> estimate_of(
                    v@,
                    unique_count as int,
                    packed.strategy(),
                ) <= #[trigger] estimate_of(v@, unique_count as int, t),
            v@.len() > 0 ==> ((packed.strategy() == Strategy::Dictionary) <==> (unique_count
                < v@.len() / 2 && dictionary_estimate(v@, unique_count as int) < size_estimate(v@)
                && dictionary_estimate(v@, unique_count as int) < offset_estimate(v@))),
            packed.strategy() == Strategy::Offset ==> offset_estimate(v@) < size_estimate(v@),
    {
        proof {
            if v@.len() > 0 {
                lemma_offset_never_larger(v@);
                lemma_chosen_strategy_is_cheapest(v@, unique_count as int);
            }
        }
        if v.len() == 0 {
            let packed = SizeCompressor::pack(v);
            proof {
                assert(least(v@) == i64::MAX && greatest(v@) == i64::MIN);
            }
            return Shrewd(Inner::Size(packed));
        }
        // One pass for the bounds of the values.
        let mut min_val = v[0];
        let mut max_val = v[0];
        let mut i: usize = 0;
        while i < v.len()
            invariant
                0 < v@.len(),
                i <= v@.len(),
                min_val == (if i == 0 { v@[0] } else { least(v@.take(i as int)) }),
                max_val == (if i == 0 { v@[0] } else { greatest(v@.take(i as int)) }),
            decreases v@.len() - i,
        {
            let value = v[i];
            assert(v@.take(i + 1).drop_last() =~= v@.take(i as int));
            assert(v@.take(i + 1).last() == value);
            assert(v@.take(0) =~= Seq::<i64>::empty());
            assert(least(v@.take(0)) == i64::MAX && greatest(v@.take(0)) == i64::MIN);
            if value < min_val {
                min_val = value;
            }
            if value > max_val {
                max_val = value;
            }
            i = i + 1;
        }
        assert(v@.take(i as int) =~= v@);
        proof {
            lemma_extremes(v@);
            DataSize::lemma_narrowest_for_bounds(v@, min_val, max_val);
        }
        let original_data_size = DataSize::calculate(min_val).widest(DataSize::calculate(max_val));
        let (center, max_delta_from_center) = OffsetCompressor::midpoint_and_width(min_val, max_val);

        // Payload bytes of each strategy, computed wide enough that nothing overflows.
        let n = v.len() as u128;
        let size_width = original_data_size.byte_width() as u128;
        let offset_width_bytes = max_delta_from_center.byte_width() as u128;
        let dict_idx_width = IndexSize::calculate(
            if unique_count > 0 {
                unique_count - 1
            } else {
                0
            },
        );
        let index_width_bytes = dict_idx_width.byte_width() as u128;
        assert(n * size_width <= 8 * 0x1_0000_0000_0000_0000) by (nonlinear_arith)
            requires
                n <= 0x1_0000_0000_0000_0000,
                size_width <= 8,
        ;
        assert(n * offset_width_bytes <= 8 * 0x1_0000_0000_0000_0000) by (nonlinear_arith)
            requires
                n <= 0x1_0000_0000_0000_0000,
                offset_width_bytes <= 8,
        ;
        assert(n * index_width_bytes <= 8 * 0x1_0000_0000_0000_0000) by (nonlinear_arith)
            requires
                n <= 0x1_0000_0000_0000_0000,
                index_width_bytes <= 8,
        ;
        let size_est_bytes = n * size_width;
        let offset_est_bytes = n * offset_width_bytes;
        let dict_est_bytes = n * index_width_bytes + (unique_count as u128) * 8;
        let low_uniqueness = unique_count < v.len() / 2;
        proof {
            assert(index_width(unique_count as nat) == dict_idx_width);
        }

        if low_uniqueness && dict_est_bytes < size_est_bytes && dict_est_bytes < offset_est_bytes {
            Shrewd(Inner::Dictionary(DictionaryCompressor::pack(v)))
        } else if offset_est_bytes < size_est_bytes {
            let packed = OffsetCompressor::_compress(v, original_data_size, center, max_delta_from_center);
            proof {
                assert forall|j: int| 0 <= j < v@.len() implies #[trigger] packed.elements()[j] == v@[j] by {
                    lemma_offset_roundtrip(min_val, max_val, v@[j]);
                }
                assert(packed.elements() =~= v@);
            }
            Shrewd(Inner::Offset(packed))
        } else {
            proof {
                DataSize::lemma_narrowest_for_holds(v@);
                assert forall|j: int| 0 <= j < v@.len() implies truncate(v@[j], original_data_size) == v@[j] by {
                    lemma_truncate_held(v@[j], original_data_size);
                }
            }
            let packed = SizeCompressor::_compress(v, original_data_size);
            assert(packed.elements() =~= v@);
            Shrewd(Inner::Size(packed))
        }
    }

    /// The value at `index`, or `None` past the end.
    pub fn get(&self, index: usize) -> (value: Option<i64>)
        ensures
            value == (if index < self.elements().len() {
                Some(self.elements()[index as int])
            } else {
                None
            }),
    {
        match &self.0 {
            Inner::Size(c) => c.get(index),
            Inner::Offset(c) => c.get(index),
            Inner::Dictionary(c) => c.get(index),
        }
    }

    /// Bytes the packed vector occupies: its buffers plus its own inline size.
    pub fn size(&self) -> (bytes: usize)
        requires
            self.footprint() <= usize::MAX,
        ensures
            bytes == self.footprint(),
    {
        match &self.0 {
            Inner::Size(c) => c.data.len() + core::mem::size_of::<Shrewd>(),
            Inner::Offset(c) => c.data.len() + core::mem::size_of::<Shrewd>(),
            Inner::Dictionary(c) => c.data.len() + c.unique_values.len() * 8
                + core::mem::size_of::<Shrewd>(),
        }
    }

    /// Number of values held.
    pub fn length(&self) -> (len: usize)
        ensures
            len == self.elements().len(),
    {
        match &self.0 {
            Inner::Size(c) => c.length(),
            Inner::Offset(c) => c.length(),
            Inner::Dictionary(c) => c.length(),
        }
    }

    /// Name of the strategy the values are packed with.
    pub fn compressor_type(&self) -> (name: String)
        ensures
            name@ == strategy_name(self.strategy()),
    {
        match &self.0 {
            Inner::Size(c) => c.compressor_type(),
            Inner::Offset(c) => c.compressor_type(),
            Inner::Dictionary(c) => c.compressor_type(),
        }
    }
}

} // verus!
