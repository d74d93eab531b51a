use vstd::prelude::*;
use vstd::arithmetic::power2::pow2;
use vstd::std_specs::bits::u64_trailing_zeros;

verus! {

/// Signed two's-complement widths in which an element can be stored.
#[derive(Debug, PartialEq, Eq, Structural, PartialOrd, Ord, Copy, Clone)]
pub enum DataSize {
    I8,
    I16,
    I32,
    I64,
}

impl DataSize {
    /// Position of the width in the order `I8 < I16 < I32 < I64`; also log2 of its byte count.
    pub open spec fn rank(self) -> nat {
        match self {
            DataSize::I8 => 0,
            DataSize::I16 => 1,
            DataSize::I32 => 2,
            DataSize::I64 => 3,
        }
    }

    /// Number of bytes one element of this width occupies.
    pub open spec fn bytes(self) -> nat {
        match self {
            DataSize::I8 => 1,
            DataSize::I16 => 2,
            DataSize::I32 => 4,
            DataSize::I64 => 8,
        }
    }

    /// Whether `value` is representable as a signed integer of this width.
    pub open spec fn holds(self, value: int) -> bool {
        match self {
            DataSize::I8 => i8::MIN <= value <= i8::MAX,
            DataSize::I16 => i16::MIN <= value <= i16::MAX,
            DataSize::I32 => i32::MIN <= value <= i32::MAX,
            DataSize::I64 => i64::MIN <= value <= i64::MAX,
        }
    }

    /// The narrowest width that represents `value`.
    pub open spec fn narrowest(value: int) -> DataSize {
        if DataSize::I8.holds(value) {
            DataSize::I8
        } else if DataSize::I16.holds(value) {
            DataSize::I16
        } else if DataSize::I32.holds(value) {
            DataSize::I32
        } else {
            DataSize::I64
        }
    }

    /// The larger of two widths.
    pub open spec fn wider(self, other: DataSize) -> DataSize {
        if self.rank() >= other.rank() {
            self
        } else {
            other
        }
    }

    /// Whether every element of `s` is representable in this width.
    pub open spec fn holds_all(self, s: Seq<i64>) -> bool {
        forall|i: int| 0 <= i < s.len() ==> #[trigger] self.holds(s[i] as int)
    }

    /// The narrowest width that represents every element of `s` (`I8` for an empty sequence).
    pub open spec fn narrowest_for(s: Seq<i64>) -> DataSize {
        if DataSize::I8.holds_all(s) {
            DataSize::I8
        } else if DataSize::I16.holds_all(s) {
            DataSize::I16
        } else if DataSize::I32.holds_all(s) {
            DataSize::I32
        } else {
            DataSize::I64
        }
    }

    /// The narrowest width that represents `value`.
    pub fn calculate(value: i64) -> (size: DataSize)
        ensures
            size == DataSize::narrowest(value as int),
            size.holds(value as int),
            forall|w: DataSize| #[trigger] w.holds(value as int) ==> size.rank() <= w.rank(),
    {
        if value >= i8::MIN as i64 && value <= i8::MAX as i64 {
            DataSize::I8
        } else if value >= i16::MIN as i64 && value <= i16::MAX as i64 {
            DataSize::I16
        } else if value >= i32::MIN as i64 && value <= i32::MAX as i64 {
            DataSize::I32
        } else {
            DataSize::I64
        }
    }

    /// log2 of the byte width: shifting a byte count right by it counts elements.
    pub fn shift_factor(self) -> (shift: usize)
        ensures
            shift == self.rank(),
    {
        match self {
            DataSize::I8 => 0,
            DataSize::I16 => 1,
            DataSize::I32 => 2,
            DataSize::I64 => 3,
        }
    }

    /// Number of bytes one element of this width occupies.
    pub fn byte_width(self) -> (width: usize)
        ensures
            width == self.bytes(),
    {
        match self {
            DataSize::I8 => 1,
            DataSize::I16 => 2,
            DataSize::I32 => 4,
            DataSize::I64 => 8,
        }
    }

    /// The larger of `self` and `other`.
    pub fn widest(self, other: DataSize) -> (size: DataSize)
        ensures
            size == self.wider(other),
    {
        if self.shift_factor() >= other.shift_factor() {
            self
        } else {
            other
        }
    }

    /// A wider width represents everything a narrower one does.
    pub proof fn lemma_holds_monotone(self, other: DataSize, value: int)
        requires
            self.rank() <= other.rank(),
            self.holds(value),
        ensures
            other.holds(value),
    {
    }

    /// `narrowest` picks a width that holds the value and no narrower width holds it.
    pub proof fn lemma_narrowest(value: int, other: DataSize)
        requires
            i64::MIN <= value <= i64::MAX,
        ensures
            DataSize::narrowest(value).holds(value),
            other.holds(value) ==> DataSize::narrowest(value).rank() <= other.rank(),
    {
    }

    /// A wider width holds every sequence a narrower one holds.
    pub proof fn lemma_holds_all_monotone(s: Seq<i64>)
        ensures
            DataSize::I8.holds_all(s) ==> DataSize::I16.holds_all(s),
            DataSize::I16.holds_all(s) ==> DataSize::I32.holds_all(s),
            DataSize::I32.holds_all(s) ==> DataSize::I64.holds_all(s),
            DataSize::I64.holds_all(s),
    {
        assert forall|i: int| 0 <= i < s.len() implies DataSize::I64.holds(#[trigger] s[i] as int) by {}
        if DataSize::I8.holds_all(s) {
            assert forall|i: int| 0 <= i < s.len() implies DataSize::I16.holds(#[trigger] s[i] as int) by {
                assert(DataSize::I8.holds(s[i] as int));
            }
        }
        if DataSize::I16.holds_all(s) {
            assert forall|i: int| 0 <= i < s.len() implies DataSize::I32.holds(#[trigger] s[i] as int) by {
                assert(DataSize::I16.holds(s[i] as int));
            }
        }
    }

    /// Widening the narrowest width of a sequence by that of one more element gives the
    /// narrowest width of the longer sequence.
    pub proof fn lemma_narrowest_for_push(s: Seq<i64>, x: i64)
        ensures
            DataSize::narrowest_for(s.push(x)) == DataSize::narrowest_for(s).wider(
                DataSize::narrowest(x as int),
            ),
    {
        let t = s.push(x);
        assert(t[s.len() as int] == x);
        DataSize::lemma_holds_all_monotone(s);
        DataSize::lemma_holds_all_monotone(t);
        assert forall|w: DataSize| #[trigger] w.holds_all(t) == (w.holds_all(s) && w.holds(x as int)) by {
            if w.holds_all(t) {
                assert forall|i: int| 0 <= i < s.len() implies #[trigger] w.holds(s[i] as int) by {
                    assert(t[i] == s[i]);
                }
            }
        }
    }

    /// Once a prefix needs `I64`, so does the whole sequence.
    pub proof fn lemma_narrowest_for_prefix(s: Seq<i64>, k: int)
        requires
            0 <= k <= s.len(),
            DataSize::narrowest_for(s.take(k)) == DataSize::I64,
        ensures
            DataSize::narrowest_for(s) == DataSize::I64,
    {
        let t = s.take(k);
        DataSize::lemma_holds_all_monotone(s);
        DataSize::lemma_holds_all_monotone(t);
        assert forall|w: DataSize| #[trigger] w.holds_all(s) implies w.holds_all(t) by {
            assert forall|i: int| 0 <= i < t.len() implies #[trigger] w.holds(t[i] as int) by {
                assert(t[i] == s[i]);
            }
        }
    }

    /// The narrowest width for a sequence holds each of its elements.
    pub proof fn lemma_narrowest_for_holds(s: Seq<i64>)
        ensures
            DataSize::narrowest_for(s).holds_all(s),
    {
        DataSize::lemma_holds_all_monotone(s);
    }

    /// The width chosen for the extremes of a sequence is the narrowest width for the
    /// whole sequence.
    pub proof fn lemma_narrowest_for_bounds(s: Seq<i64>, lo: i64, hi: i64)
        requires
            s.contains(lo),
            s.contains(hi),
            forall|i: int| 0 <= i < s.len() ==> lo <= #[trigger] s[i] <= hi,
        ensures
            DataSize::narrowest_for(s) == DataSize::narrowest(lo as int).wider(
                DataSize::narrowest(hi as int),
            ),
    {
        let w = DataSize::narrowest(lo as int).wider(DataSize::narrowest(hi as int));
        assert(w.holds(lo as int) && w.holds(hi as int));
        assert(w.holds_all(s));
        let ilo = choose|i: int| 0 <= i < s.len() && s[i] == lo;
        let ihi = choose|i: int| 0 <= i < s.len() && s[i] == hi;
        assert(s[ilo] == lo && s[ihi] == hi);
        assert(DataSize::I8.holds_all(s) ==> DataSize::I8.holds(s[ilo] as int) && DataSize::I8.holds(s[ihi] as int));
        assert(DataSize::I16.holds_all(s) ==> DataSize::I16.holds(s[ilo] as int) && DataSize::I16.holds(s[ihi] as int));
        assert(DataSize::I32.holds_all(s) ==> DataSize::I32.holds(s[ilo] as int) && DataSize::I32.holds(s[ihi] as int));
    }
}

/// Unsigned widths in which a dictionary index can be stored.
#[derive(Debug, PartialEq, Eq, Structural, PartialOrd, Ord, Copy, Clone)]
pub enum IndexSize {
    U8,
    U16,
    U32,
    U64,
}

impl IndexSize {
    /// Position of the width in the order `U8 < U16 < U32 < U64`; also log2 of its byte count.
    pub open spec fn rank(self) -> nat {
        match self {
            IndexSize::U8 => 0,
            IndexSize::U16 => 1,
            IndexSize::U32 => 2,
            IndexSize::U64 => 3,
        }
    }

    /// Number of bytes one index of this width occupies.
    pub open spec fn bytes(self) -> nat {
        match self {
            IndexSize::U8 => 1,
            IndexSize::U16 => 2,
            IndexSize::U32 => 4,
            IndexSize::U64 => 8,
        }
    }

    /// Whether `value` is representable as an unsigned integer of this width.
    pub open spec fn holds(self, value: int) -> bool {
        match self {
            IndexSize::U8 => 0 <= value <= u8::MAX,
            IndexSize::U16 => 0 <= value <= u16::MAX,
            IndexSize::U32 => 0 <= value <= u32::MAX,
            IndexSize::U64 => 0 <= value <= u64::MAX,
        }
    }

    /// The narrowest width that represents `value`.
    pub open spec fn narrowest(value: int) -> IndexSize {
        if IndexSize::U8.holds(value) {
            IndexSize::U8
        } else if IndexSize::U16.holds(value) {
            IndexSize::U16
        } else if IndexSize::U32.holds(value) {
            IndexSize::U32
        } else {
            IndexSize::U64
        }
    }

    /// The narrowest width that represents `value`.
    pub fn calculate(value: usize) -> (size: IndexSize)
        ensures
            size == IndexSize::narrowest(value as int),
            size.holds(value as int),
            forall|w: IndexSize| #[trigger] w.holds(value as int) ==> size.rank() <= w.rank(),
    {
        proof {
            IndexSize::lemma_narrowest(value as int);
        }
        if value <= u8::MAX as usize {
            IndexSize::U8
        } else if value <= u16::MAX as usize {
            IndexSize::U16
        } else if value <= u32::MAX as usize {
            IndexSize::U32
        } else {
            IndexSize::U64
        }
    }

    /// `narrowest` picks a width that holds the value, and every width that holds the value
    /// is at least as wide.
    pub proof fn lemma_narrowest(value: int)
        requires
            0 <= value <= u64::MAX,
        ensures
            IndexSize::narrowest(value).holds(value),
            forall|w: IndexSize| #[trigger] w.holds(value) ==> IndexSize::narrowest(value).rank() <= w.rank(),
    {
    }

    /// log2 of the byte width: shifting a byte count right by it counts indices.
    pub fn shift_factor(self) -> (shift: usize)
        ensures
            shift == self.rank(),
    {
        match self {
            IndexSize::U8 => 0,
            IndexSize::U16 => 1,
            IndexSize::U32 => 2,
            IndexSize::U64 => 3,
        }
    }

    /// Number of bytes one index of this width occupies.
    pub fn byte_width(self) -> (width: usize)
        ensures
            width == self.bytes(),
    {
        match self {
            IndexSize::U8 => 1,
            IndexSize::U16 => 2,
            IndexSize::U32 => 4,
            IndexSize::U64 => 8,
        }
    }
}


/// The splitmix64 finalizer: a cheap, well-distributed 64-bit mixing function.
pub open spec fn splitmix64(z: u64) -> u64 {
    let a = z.wrapping_add(0x9E3779B97F4A7C15u64);
    let b = (a ^ (a >> 30u64)).wrapping_mul(0xbf58476d1ce4e5b9u64);
    let c = (b ^ (b >> 27u64)).wrapping_mul(0x94d049bb133111ebu64);
    c ^ (c >> 31u64)
}

/// A HyperLogLog sketch: `2^precision` registers, each the largest rank seen in its slot.
pub struct HyperLogLog {
    registers: Vec<u8>,
    precision: u32,
}

impl HyperLogLog {
    /// Register of the sketch with this precision that `value` lands in.
    pub open spec fn slot(precision: u32, value: i64) -> int {
        (splitmix64(value as u64) as nat % pow2(precision as nat)) as int
    }

    /// Rank `value` offers its register: one more than the trailing zeros of the hash bits
    /// above the slot bits.
    pub open spec fn rank(precision: u32, value: i64) -> u8 {
        (u64_trailing_zeros(
            (splitmix64(value as u64) as nat / pow2(precision as nat)) as u64,
        ) + 1) as u8
    }

    /// Registers after `value` is recorded into `registers`.
    pub open spec fn recorded(registers: Seq<u8>, precision: u32, value: i64) -> Seq<u8> {
        let i = HyperLogLog::slot(precision, value);
        let r = HyperLogLog::rank(precision, value);
        if r > registers[i] {
            registers.update(i, r)
        } else {
            registers
        }
    }

    /// Registers of a sketch with this precision after recording every element of `s` in order.
    pub open spec fn sketched(precision: u32, s: Seq<i64>) -> Seq<u8>
        decreases s.len(),
    {
        if s.len() == 0 {
            Seq::new(pow2(precision as nat), |i: int| 0u8)
        } else {
            HyperLogLog::recorded(
                HyperLogLog::sketched(precision, s.drop_last()),
                precision,
                s.last(),
            )
        }
    }

    /// Recording a value never lowers a register.
    pub proof fn lemma_record_grows(registers: Seq<u8>, precision: u32, value: i64)
        requires
            registers.len() == pow2(precision as nat),
        ensures
            HyperLogLog::recorded(registers, precision, value).len() == registers.len(),
            forall|i: int|
                0 <= i < registers.len() ==> #[trigger] HyperLogLog::recorded(
                    registers,
                    precision,
                    value,
                )[i] >= registers[i],
    {
        vstd::arithmetic::power2::lemma_pow2_pos(precision as nat);
    }

    /// Recording a value twice leaves the registers as recording it once.
    pub proof fn lemma_record_idempotent(registers: Seq<u8>, precision: u32, value: i64)
        requires
            registers.len() == pow2(precision as nat),
        ensures
            HyperLogLog::recorded(HyperLogLog::recorded(registers, precision, value), precision, value)
                == HyperLogLog::recorded(registers, precision, value),
    {
        vstd::arithmetic::power2::lemma_pow2_pos(precision as nat);
    }

    /// The order in which two values are recorded does not matter.
    pub proof fn lemma_record_commutes(registers: Seq<u8>, precision: u32, a: i64, b: i64)
        requires
            registers.len() == pow2(precision as nat),
        ensures
            HyperLogLog::recorded(HyperLogLog::recorded(registers, precision, a), precision, b)
                == HyperLogLog::recorded(HyperLogLog::recorded(registers, precision, b), precision, a),
    {
        vstd::arithmetic::power2::lemma_pow2_pos(precision as nat);
        let ab = HyperLogLog::recorded(HyperLogLog::recorded(registers, precision, a), precision, b);
        let ba = HyperLogLog::recorded(HyperLogLog::recorded(registers, precision, b), precision, a);
        assert(ab =~= ba);
    }

    /// The registers summarize `s`: there are `2^precision` of them, the register each element
    /// lands in is at least that element's rank, and each non-zero register is the rank of an
    /// element of `s` that lands in it. Registers are thus the largest rank landing in each
    /// slot, and zero where none lands.
    pub open spec fn summarizes(registers: Seq<u8>, precision: u32, s: Seq<i64>) -> bool {
        &&& registers.len() == pow2(precision as nat)
        &&& forall|j: int|
            0 <= j < s.len() ==> registers[HyperLogLog::slot(precision, #[trigger] s[j])]
                >= HyperLogLog::rank(precision, s[j])
        &&& forall|i: int|
            0 <= i < registers.len() && #[trigger] registers[i] != 0 ==> exists|j: int|
                0 <= j < s.len() && HyperLogLog::slot(precision, #[trigger] s[j]) == i
                    && registers[i] == HyperLogLog::rank(precision, s[j])
    }

    /// Every rank is at least one, and every slot is a register index.
    pub proof fn lemma_slot_and_rank(precision: u32, value: i64)
        ensures
            0 <= HyperLogLog::slot(precision, value) < pow2(precision as nat),
            HyperLogLog::rank(precision, value) >= 1,
    {
        vstd::arithmetic::power2::lemma_pow2_pos(precision as nat);
        vstd::std_specs::bits::axiom_u64_trailing_zeros(
            (splitmix64(value as u64) as nat / pow2(precision as nat)) as u64,
        );
    }

    /// The sketch of a sequence summarizes it.
    pub proof fn lemma_sketched_summarizes(precision: u32, s: Seq<i64>)
        ensures
            HyperLogLog::summarizes(HyperLogLog::sketched(precision, s), precision, s),
        decreases s.len(),
    {
        vstd::arithmetic::power2::lemma_pow2_pos(precision as nat);
        if s.len() == 0 {
        } else {
            let t = s.drop_last();
            let y = s.last();
            HyperLogLog::lemma_sketched_summarizes(precision, t);
            let r = HyperLogLog::sketched(precision, t);
            let r2 = HyperLogLog::recorded(r, precision, y);
            HyperLogLog::lemma_slot_and_rank(precision, y);
            HyperLogLog::lemma_record_grows(r, precision, y);
            assert(r2 == HyperLogLog::sketched(precision, s));
            assert forall|j: int| 0 <= j < s.len() implies r2[HyperLogLog::slot(
                precision,
                #[trigger] s[j],
            )] >= HyperLogLog::rank(precision, s[j]) by {
                HyperLogLog::lemma_slot_and_rank(precision, s[j]);
                if j < t.len() {
                    assert(t[j] == s[j]);
                    assert(r[HyperLogLog::slot(precision, t[j])] >= HyperLogLog::rank(precision, t[j]));
                } else {
                    assert(s[j] == y);
                }
            }
            assert forall|i: int| 0 <= i < r2.len() && #[trigger] r2[i] != 0 implies exists|j: int|
                0 <= j < s.len() && HyperLogLog::slot(precision, #[trigger] s[j]) == i
                    && r2[i] == HyperLogLog::rank(precision, s[j]) by {
                if i == HyperLogLog::slot(precision, y) && HyperLogLog::rank(precision, y) > r[i] {
                    assert(s[s.len() - 1] == y);
                } else {
                    assert(r2[i] == r[i]);
                    assert(r[i] != 0);
                    let j = choose|j: int|
                        0 <= j < t.len() && HyperLogLog::slot(precision, #[trigger] t[j]) == i
                            && r[i] == HyperLogLog::rank(precision, t[j]);
                    assert(s[j] == t[j]);
                }
            }
        }
    }

    /// Registers that summarize two sequences with the same elements are equal: a sketch
    /// depends only on the set of values recorded, not on their order or repetition.
    pub proof fn lemma_summary_depends_on_set(
        r1: Seq<u8>,
        r2: Seq<u8>,
        precision: u32,
        s1: Seq<i64>,
        s2: Seq<i64>,
    )
        requires
            HyperLogLog::summarizes(r1, precision, s1),
            HyperLogLog::summarizes(r2, precision, s2),
            forall|x: i64| s1.contains(x) <==> s2.contains(x),
        ensures
            r1 == r2,
    {
        assert forall|i: int| 0 <= i < r1.len() implies r1[i] == r2[i] by {
            HyperLogLog::lemma_summary_bound(r1, r2, precision, s1, s2, i);
            HyperLogLog::lemma_summary_bound(r2, r1, precision, s2, s1, i);
        }
        assert(r1 =~= r2);
    }

    proof fn lemma_summary_bound(
        r1: Seq<u8>,
        r2: Seq<u8>,
        precision: u32,
        s1: Seq<i64>,
        s2: Seq<i64>,
        i: int,
    )
        requires
            HyperLogLog::summarizes(r1, precision, s1),
            HyperLogLog::summarizes(r2, precision, s2),
            forall|x: i64| s1.contains(x) <==> s2.contains(x),
            0 <= i < r1.len(),
        ensures
            r1[i] <= r2[i],
    {
        if r1[i] != 0 {
            let j = choose|j: int|
                0 <= j < s1.len() && HyperLogLog::slot(precision, #[trigger] s1[j]) == i
                    && r1[i] == HyperLogLog::rank(precision, s1[j]);
            let x = s1[j];
            assert(s1.contains(x));
            assert(s2.contains(x));
            let k = choose|k: int| 0 <= k < s2.len() && s2[k] == x;
            assert(r2[HyperLogLog::slot(precision, s2[k])] >= HyperLogLog::rank(precision, s2[k]));
        }
    }

    /// Sketching two sequences with the same elements gives the same registers.
    pub proof fn lemma_sketch_depends_on_set(precision: u32, s1: Seq<i64>, s2: Seq<i64>)
        requires
            forall|x: i64| s1.contains(x) <==> s2.contains(x),
        ensures
            HyperLogLog::sketched(precision, s1) == HyperLogLog::sketched(precision, s2),
    {
        HyperLogLog::lemma_sketched_summarizes(precision, s1);
        HyperLogLog::lemma_sketched_summarizes(precision, s2);
        HyperLogLog::lemma_summary_depends_on_set(
            HyperLogLog::sketched(precision, s1),
            HyperLogLog::sketched(precision, s2),
            precision,
            s1,
            s2,
        );
    }

    pub closed spec fn view_registers(self) -> Seq<u8> {
        self.registers@
    }

    pub closed spec fn view_precision(self) -> u32 {
        self.precision
    }

    /// The register count matches the precision, and the precision is small enough for the
    /// registers to be allocated.
    pub closed spec fn well_formed(self) -> bool {
        &&& (self.precision as int) < usize::BITS - 1
        &&& self.registers@.len() == pow2(self.precision as nat)
    }

    /// An empty sketch with `2^precision` registers.
    pub fn new(precision: u32) -> (sketch: HyperLogLog)
        requires
            (precision as int) < usize::BITS - 1,
        ensures
            sketch.well_formed(),
            sketch.view_precision() == precision,
            sketch.view_registers() == Seq::new(pow2(precision as nat), |i: int| 0u8),
    {
        proof {
            vstd::bits::lemma_usize_pow2_no_overflow(precision as nat);
            vstd::bits::lemma_usize_shl_is_mul(1, precision as usize);
        }
        let count: usize = 1usize << (precision as usize);
        let mut registers: Vec<u8> = Vec::with_capacity(count);
        while registers.len() < count
            invariant
                count == pow2(precision as nat),
                registers@.len() <= count,
                forall|i: int| 0 <= i < registers@.len() ==> registers@[i] == 0u8,
            decreases count - registers@.len(),
        {
            registers.push(0u8);
        }
        assert(registers@ =~= Seq::new(pow2(precision as nat), |i: int| 0u8));
        HyperLogLog { registers, precision }
    }

    /// The splitmix64 finalizer.
    pub fn mix(z: u64) -> (h: u64)
        ensures
            h == splitmix64(z),
    {
        let a = z.wrapping_add(0x9E3779B97F4A7C15u64);
        let b = (a ^ (a >> 30u64)).wrapping_mul(0xbf58476d1ce4e5b9u64);
        let c = (b ^ (b >> 27u64)).wrapping_mul(0x94d049bb133111ebu64);
        c ^ (c >> 31u64)
    }

    /// Records `value`: its register keeps the larger of its old rank and the value's rank.
    pub fn insert(&mut self, value: i64)
        requires
            old(self).well_formed(),
        ensures
            final(self).well_formed(),
            final(self).view_precision() == old(self).view_precision(),
            final(self).view_registers() == HyperLogLog::recorded(
                old(self).view_registers(),
                old(self).view_precision(),
                value,
            ),
    {
        let p = self.precision;
        let hash = Self::mix(value as u64);
        proof {
            vstd::bits::lemma_u64_pow2_no_overflow(p as nat);
            vstd::bits::lemma_u64_shl_is_mul(1, p as u64);
            vstd::bits::lemma_u64_low_bits_mask_is_mod(hash, p as nat);
            vstd::bits::lemma_u64_shr_is_div(hash, p as u64);
        }
        let mask: u64 = (1u64 << (p as u64)) - 1;
        assert(mask == vstd::bits::low_bits_mask(p as nat) as u64);
        assert(hash & mask == hash % (pow2(p as nat) as u64));
        assert(hash == splitmix64(value as u64));
        proof {
            vstd::bits::lemma_usize_pow2_no_overflow(p as nat);
        }
        assert((hash & mask) < pow2(p as nat));
        let idx = (hash & mask) as usize;
        assert(idx as int == HyperLogLog::slot(p, value));
        let rest = hash >> (p as u64);
        assert(rest == (hash as nat / pow2(p as nat)) as u64);
        proof {
            vstd::std_specs::bits::axiom_u64_trailing_zeros(rest);
        }
        let rank = (rest.trailing_zeros() + 1) as u8;
        if rank > self.registers[idx] {
            self.registers.set(idx, rank);
        }
    }

    /// The registers of the sketch.
    pub fn registers(&self) -> (registers: &Vec<u8>)
        ensures
            registers@ == self.view_registers(),
    {
        &self.registers
    }

    /// The number of hash bits that select a register.
    pub fn precision(&self) -> (precision: u32)
        ensures
            precision == self.view_precision(),
    {
        self.precision
    }
}

} // verus!
