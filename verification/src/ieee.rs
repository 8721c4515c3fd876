//! Single-precision IEEE-754 values held as their bit patterns, with the
//! tests and comparisons the engine needs decided on the bits alone.

use vstd::prelude::*;

verus! {

/// Bit pattern of 0.0.
pub const ZERO_BITS: u32 = 0;

/// Bit pattern of the single-precision value nearest to 0.2. It lies just
/// above 0.2, so a single-precision value is below it exactly when it is
/// below 0.2 (`exact::lemma_fifth`).
pub const FIFTH_BITS: u32 = 0x3e4c_cccd;

/// Bit pattern of the single-precision value nearest to 0.3. It lies just
/// above 0.3, so a single-precision value is below it exactly when it is
/// below 0.3 (`exact::lemma_three_tenths`).
pub const THREE_TENTHS_BITS: u32 = 0x3e99_999a;

/// Bit pattern of 0.5 (`exact::lemma_half`).
pub const HALF_BITS: u32 = 0x3f00_0000;

/// Bit pattern of 1000.0 (`exact::lemma_thousand`).
pub const THOUSAND_BITS: u32 = 0x447a_0000;

/// Bit pattern of 100000.0 (`exact::lemma_hundred_thousand`).
pub const HUNDRED_THOUSAND_BITS: u32 = 0x47c3_5000;

/// A single-precision value: one sign bit, eight exponent bits, twenty-three
/// fraction bits.
#[derive(Debug, Clone, Copy, PartialEq, Eq, Structural)]
pub struct F32Bits {
    pub bits: u32,
}

/// A double-precision IEEE-754 value, held as its bit pattern.
#[derive(Debug, Clone, Copy, PartialEq, Eq, Structural)]
pub struct F64Bits {
    pub bits: u64,
}

/// The 32-bit number that four bytes spell, least significant byte first.
pub open spec fn le_u32(b0: u8, b1: u8, b2: u8, b3: u8) -> int {
    b0 + 256 * b1 + 65536 * b2 + 16777216 * b3
}

/// Byte `i` (0 the least significant) of a 32-bit number.
pub open spec fn le_byte(v: int, i: int) -> int {
    if i == 0 {
        v % 256
    } else if i == 1 {
        (v / 256) % 256
    } else if i == 2 {
        (v / 65536) % 256
    } else {
        (v / 16777216) % 256
    }
}

/// The 64-bit number that the eight bytes of `s` from `at` on spell, least
/// significant byte first.
pub open spec fn le_u64(s: Seq<u8>, at: int) -> int {
    le_u32(s[at], s[at + 1], s[at + 2], s[at + 3]) + 4294967296 * le_u32(
        s[at + 4],
        s[at + 5],
        s[at + 6],
        s[at + 7],
    )
}

impl F32Bits {
    /// The sign bit is set.
    pub open spec fn negative(self) -> bool {
        self.bits >= 0x8000_0000
    }

    /// The bits without the sign bit.
    pub open spec fn magnitude(self) -> int {
        if self.negative() {
            self.bits - 0x8000_0000
        } else {
            self.bits as int
        }
    }

    /// Not a number: all exponent bits set and a fraction that is not zero.
    pub open spec fn nan(self) -> bool {
        self.magnitude() > 0x7f80_0000
    }

    /// Neither infinite nor not a number.
    pub open spec fn finite(self) -> bool {
        self.magnitude() < 0x7f80_0000
    }

    /// Place of the value on the number line: for values that are numbers,
    /// a lower rank means a lower value (`exact::lemma_order_is_numeric`).
    /// The two zeros share rank 0.
    pub open spec fn rank(self) -> int {
        if self.negative() {
            -self.magnitude()
        } else {
            self.magnitude()
        }
    }

    /// `self < other` as IEEE-754 compares: false if either is not a number.
    pub open spec fn below(self, other: F32Bits) -> bool {
        !self.nan() && !other.nan() && self.rank() < other.rank()
    }

    /// `self <= other` as IEEE-754 compares: false if either is not a number.
    pub open spec fn at_most(self, other: F32Bits) -> bool {
        !self.nan() && !other.nan() && self.rank() <= other.rank()
    }

    /// The value with its sign bit cleared.
    pub open spec fn positive(self) -> F32Bits {
        F32Bits { bits: self.magnitude() as u32 }
    }

    /// The value with the given bit pattern.
    pub fn from_bits(bits: u32) -> (v: F32Bits)
        ensures
            v.bits == bits,
    {
        F32Bits { bits }
    }

    /// The bit pattern of the value.
    pub fn to_bits(&self) -> (bits: u32)
        ensures
            bits == self.bits,
    {
        self.bits
    }

    fn magnitude_bits(&self) -> (m: u32)
        ensures
            m == self.magnitude(),
            m < 0x8000_0000,
    {
        if self.bits >= 0x8000_0000 {
            self.bits - 0x8000_0000
        } else {
            self.bits
        }
    }

    fn rank_value(&self) -> (r: i64)
        ensures
            r == self.rank(),
    {
        let m: i64 = self.magnitude_bits() as i64;
        if self.bits >= 0x8000_0000 {
            -m
        } else {
            m
        }
    }

    /// Whether the value is not a number.
    pub fn is_nan(&self) -> (b: bool)
        ensures
            b == self.nan(),
    {
        self.magnitude_bits() > 0x7f80_0000
    }

    /// Whether the value is neither infinite nor not a number.
    pub fn is_finite(&self) -> (b: bool)
        ensures
            b == self.finite(),
    {
        self.magnitude_bits() < 0x7f80_0000
    }

    /// `self < other`.
    pub fn lt(&self, other: &F32Bits) -> (b: bool)
        ensures
            b == self.below(*other),
    {
        !self.is_nan() && !other.is_nan() && self.rank_value() < other.rank_value()
    }

    /// `self <= other`.
    pub fn le(&self, other: &F32Bits) -> (b: bool)
        ensures
            b == self.at_most(*other),
    {
        !self.is_nan() && !other.is_nan() && self.rank_value() <= other.rank_value()
    }

    /// `self > other`.
    pub fn gt(&self, other: &F32Bits) -> (b: bool)
        ensures
            b == other.below(*self),
    {
        other.lt(self)
    }

    /// `self >= other`.
    pub fn ge(&self, other: &F32Bits) -> (b: bool)
        ensures
            b == other.at_most(*self),
    {
        other.le(self)
    }

    /// Absolute value.
    pub fn abs(&self) -> (v: F32Bits)
        ensures
            v == self.positive(),
    {
        F32Bits { bits: self.magnitude_bits() }
    }

    /// The value whose four bytes, least significant first, start at `at`.
    pub fn read_le(data: &[u8], at: usize) -> (v: F32Bits)
        requires
            at + 4 <= data@.len(),
        ensures
            v.bits == le_u32(data@[at as int], data@[at + 1], data@[at + 2], data@[at + 3]),
    {
        F32Bits { bits: read_le_u32(data, at) }
    }

    /// The four bytes of the value, least significant first.
    pub fn to_le_bytes(&self) -> (b: Vec<u8>)
        ensures
            b@.len() == 4,
            forall|i: int| 0 <= i < 4 ==> b@[i] == le_byte(self.bits as int, i),
    {
        encode_le_u32(self.bits)
    }
}

/// The 32-bit number whose four bytes, least significant first, start at
/// `at`.
pub fn read_le_u32(data: &[u8], at: usize) -> (v: u32)
    requires
        at + 4 <= data@.len(),
    ensures
        v == le_u32(data@[at as int], data@[at + 1], data@[at + 2], data@[at + 3]),
{
    let len: usize = data.len();
    assert(at + 4 <= len);
    let b0: u32 = data[at] as u32;
    let b1: u32 = data[at + 1] as u32;
    let b2: u32 = data[at + 2] as u32;
    let b3: u32 = data[at + 3] as u32;
    b0 + 256 * b1 + 65536 * b2 + 16777216 * b3
}

/// The 64-bit number whose eight bytes, least significant first, start at
/// `at`.
pub fn read_le_u64(data: &[u8], at: usize) -> (v: u64)
    requires
        at + 8 <= data@.len(),
    ensures
        v == le_u64(data@, at as int),
{
    let len: usize = data.len();
    assert(at + 8 <= len);
    let low: u64 = read_le_u32(data, at) as u64;
    let high: u64 = read_le_u32(data, at + 4) as u64;
    low + 4294967296 * high
}

/// The four bytes of a 32-bit number, least significant first.
pub fn encode_le_u32(v: u32) -> (b: Vec<u8>)
    ensures
        b@.len() == 4,
        forall|i: int| 0 <= i < 4 ==> b@[i] == le_byte(v as int, i),
{
    let mut b: Vec<u8> = Vec::new();
    b.push((v % 256) as u8);
    b.push(((v / 256) % 256) as u8);
    b.push(((v / 65536) % 256) as u8);
    b.push(((v / 16777216) % 256) as u8);
    b
}

/// The bit pattern of a signed 32-bit number in two's complement.
pub open spec fn twos_complement(v: i32) -> int {
    if v < 0 {
        v + 0x1_0000_0000
    } else {
        v as int
    }
}

/// The four bytes of a signed 32-bit number, least significant first.
pub fn encode_le_i32(v: i32) -> (b: Vec<u8>)
    ensures
        b@.len() == 4,
        forall|i: int| 0 <= i < 4 ==> b@[i] == le_byte(twos_complement(v), i),
{
    let wide: i64 = if v < 0 {
        v as i64 + 0x1_0000_0000
    } else {
        v as i64
    };
    encode_le_u32(wide as u32)
}

/// The signed 32-bit number whose four bytes, least significant first, start
/// at `at`.
pub fn read_le_i32(data: &[u8], at: usize) -> (v: i32)
    requires
        at + 4 <= data@.len(),
    ensures
        twos_complement(v) == le_u32(data@[at as int], data@[at + 1], data@[at + 2], data@[at + 3]),
{
    let raw: i64 = read_le_u32(data, at) as i64;
    if raw >= 0x8000_0000 {
        (raw - 0x1_0000_0000) as i32
    } else {
        raw as i32
    }
}

/// Reading back the bytes of a number gives the number.
pub proof fn lemma_le_round_trip(v: u32)
    ensures
        le_u32(
            le_byte(v as int, 0) as u8,
            le_byte(v as int, 1) as u8,
            le_byte(v as int, 2) as u8,
            le_byte(v as int, 3) as u8,
        ) == v,
{
}

} // verus!
