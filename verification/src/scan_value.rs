//! Typed scan values and the comparisons the scan engine makes between
//! them. A float is held as its IEEE 754 bit pattern, and every comparison
//! on it is the one IEEE 754 defines, worked out on the bits: so a value
//! read from memory is kept exactly as it was read.
use vstd::prelude::*;

use crate::bytes::{
    le_bytes, le_bytes_of, le_u64, le_value, lemma_le_value_of_bytes, lemma_pow256_values, pow256,
};

verus! {

/// A value the scan engine can search for or compare. `F32` and `F64` hold
/// the float's bit pattern (`f32::to_bits`, `f64::to_bits`).
#[derive(Debug, Clone, Copy)]
pub enum ScanValue {
    I8(i8),
    I16(i16),
    I32(i32),
    I64(i64),
    F32(u32),
    F64(u64),
}

// ---- IEEE 754 on bit patterns ---------------------------------------------------

/// A float of the format whose sign bit is worth `sign`, whose significand
/// is the bits below `unit`, and whose exponent field is all ones at
/// `top`: finite unless its exponent field is all ones.
pub open spec fn float_finite(bits: nat, unit: nat, top: nat) -> bool {
    (bits / unit) % (top + 1) != top
}

/// Not a number: exponent all ones, significand not zero.
pub open spec fn float_nan(bits: nat, unit: nat, top: nat) -> bool {
    !float_finite(bits, unit, top) && bits % unit != 0
}

/// IEEE equality: a NaN equals nothing, and the two zeros are equal.
pub open spec fn float_eq(a: nat, b: nat, sign: nat, unit: nat, top: nat) -> bool {
    &&& !float_nan(a, unit, top)
    &&& !float_nan(b, unit, top)
    &&& (a == b || (a % sign == 0 && b % sign == 0))
}

/// IEEE `<` on two values that are not NaN: by magnitude within a sign,
/// negatives below positives, and the two zeros not below each other.
pub open spec fn float_lt(a: nat, b: nat, sign: nat) -> bool {
    let (ma, mb) = (a % sign, b % sign);
    let (na, nb) = (a >= sign, b >= sign);
    if ma == 0 && mb == 0 {
        false
    } else if !na && !nb {
        ma < mb
    } else if na && nb {
        mb < ma
    } else {
        na
    }
}

pub open spec fn f32_finite(b: u32) -> bool {
    float_finite(b as nat, 0x80_0000, 0xFF)
}

pub open spec fn f64_finite(b: u64) -> bool {
    float_finite(b as nat, 0x10_0000_0000_0000, 0x7FF)
}

// ---- values ------------------------------------------------------------------

impl ScanValue {
    /// Size in bytes of this value's type.
    pub open spec fn spec_size(self) -> nat {
        match self {
            ScanValue::I8(_) => 1,
            ScanValue::I16(_) => 2,
            ScanValue::I32(_) | ScanValue::F32(_) => 4,
            ScanValue::I64(_) | ScanValue::F64(_) => 8,
        }
    }

    /// The value's bits as an unsigned number of its width (two's
    /// complement for the integers).
    pub open spec fn bits(self) -> nat {
        match self {
            ScanValue::I8(v) => (v as u8) as nat,
            ScanValue::I16(v) => (v as u16) as nat,
            ScanValue::I32(v) => (v as u32) as nat,
            ScanValue::I64(v) => (v as u64) as nat,
            ScanValue::F32(b) => b as nat,
            ScanValue::F64(b) => b as nat,
        }
    }

    /// A value of the same type as `self`, with the bits `n`.
    pub open spec fn with_bits(self, n: nat) -> ScanValue {
        match self {
            ScanValue::I8(_) => ScanValue::I8((n as u8) as i8),
            ScanValue::I16(_) => ScanValue::I16((n as u16) as i16),
            ScanValue::I32(_) => ScanValue::I32((n as u32) as i32),
            ScanValue::I64(_) => ScanValue::I64((n as u64) as i64),
            ScanValue::F32(_) => ScanValue::F32(n as u32),
            ScanValue::F64(_) => ScanValue::F64(n as u64),
        }
    }

    pub open spec fn is_float(self) -> bool {
        self is F32 || self is F64
    }

    /// False for a NaN or an infinity; always true for an integer.
    pub open spec fn finite(self) -> bool {
        match self {
            ScanValue::F32(b) => f32_finite(b),
            ScanValue::F64(b) => f64_finite(b),
            _ => true,
        }
    }

    /// Size in bytes of this value's type.
    pub fn size(self) -> (r: usize)
        ensures
            r == self.spec_size(),
    {
        match self {
            ScanValue::I8(_) => 1,
            ScanValue::I16(_) => 2,
            ScanValue::I32(_) | ScanValue::F32(_) => 4,
            ScanValue::I64(_) | ScanValue::F64(_) => 8,
        }
    }

    fn bits_exec(self) -> (r: u64)
        ensures
            r == self.bits(),
    {
        match self {
            ScanValue::I8(v) => (v as u8) as u64,
            ScanValue::I16(v) => (v as u16) as u64,
            ScanValue::I32(v) => (v as u32) as u64,
            ScanValue::I64(v) => v as u64,
            ScanValue::F32(b) => b as u64,
            ScanValue::F64(b) => b,
        }
    }

    /// This value's little-endian byte representation.
    pub fn to_le_bytes(self) -> (r: Vec<u8>)
        ensures
            r@ == le_bytes(self.bits(), self.spec_size()),
    {
        le_bytes_of(self.bits_exec(), self.size())
    }

    /// `bytes` reinterpreted as this value's type, to compare a freshly read
    /// value with `self`.
    pub fn from_le_bytes_like(self, bytes: &[u8]) -> (r: ScanValue)
        requires
            bytes@.len() == self.spec_size(),
        ensures
            r == self.with_bits(le_value(bytes@)),
    {
        let n = le_u64(bytes);
        match self {
            ScanValue::I8(_) => ScanValue::I8((n as u8) as i8),
            ScanValue::I16(_) => ScanValue::I16((n as u16) as i16),
            ScanValue::I32(_) => ScanValue::I32((n as u32) as i32),
            ScanValue::I64(_) => ScanValue::I64(n as i64),
            ScanValue::F32(_) => ScanValue::F32(n as u32),
            ScanValue::F64(_) => ScanValue::F64(n),
        }
    }

    /// False for a non-finite float (NaN or infinity), common when garbage
    /// memory is reinterpreted as a float; always true for integers.
    pub fn is_finite(self) -> (r: bool)
        ensures
            r == self.finite(),
    {
        match self {
            ScanValue::F32(b) => (b / 0x80_0000) % 0x100 != 0xFF,
            ScanValue::F64(b) => (b / 0x10_0000_0000_0000) % 0x800 != 0x7FF,
            _ => true,
        }
    }
}

/// Reading a value's bytes back as its type gives the value itself.
pub proof fn reading_back_the_bytes_gives_the_value(v: ScanValue)
    ensures
        v.with_bits(le_value(le_bytes(v.bits(), v.spec_size()))) == v,
{
    let n = v.bits();
    let len = v.spec_size();
    lemma_le_value_of_bytes(n, len);
    lemma_bits_fit(v);
    vstd::arithmetic::div_mod::lemma_small_mod(n, pow256(len));
    lemma_with_own_bits(v);
}

proof fn lemma_bits_fit(v: ScanValue)
    ensures
        v.bits() < pow256(v.spec_size()),
{
    lemma_pow256_values();
}

proof fn lemma_with_own_bits(v: ScanValue)
    ensures
        v.with_bits(v.bits()) == v,
{
    match v {
        ScanValue::I8(x) => {
            let y = x as u8;
            assert((y as i8) == x) by (bit_vector)
                requires
                    y == x as u8,
            ;
            assert(((y as nat) as u8) == y);
        },
        ScanValue::I16(x) => {
            let y = x as u16;
            assert((y as i16) == x) by (bit_vector)
                requires
                    y == x as u16,
            ;
            assert(((y as nat) as u16) == y);
        },
        ScanValue::I32(x) => {
            let y = x as u32;
            assert((y as i32) == x) by (bit_vector)
                requires
                    y == x as u32,
            ;
            assert(((y as nat) as u32) == y);
        },
        ScanValue::I64(x) => {
            let y = x as u64;
            assert((y as i64) == x) by (bit_vector)
                requires
                    y == x as u64,
            ;
            assert(((y as nat) as u64) == y);
        },
        ScanValue::F32(b) => {
            assert(((b as nat) as u32) == b);
        },
        ScanValue::F64(b) => {
            assert(((b as nat) as u64) == b);
        },
    }
}

/// Two values of the same type, or not.
pub open spec fn same_type(a: ScanValue, b: ScanValue) -> bool {
    match (a, b) {
        (ScanValue::I8(_), ScanValue::I8(_)) => true,
        (ScanValue::I16(_), ScanValue::I16(_)) => true,
        (ScanValue::I32(_), ScanValue::I32(_)) => true,
        (ScanValue::I64(_), ScanValue::I64(_)) => true,
        (ScanValue::F32(_), ScanValue::F32(_)) => true,
        (ScanValue::F64(_), ScanValue::F64(_)) => true,
        _ => false,
    }
}

/// `==` on scan values: same type and equal, floats by IEEE equality.
pub open spec fn value_eq(a: ScanValue, b: ScanValue) -> bool {
    match (a, b) {
        (ScanValue::I8(x), ScanValue::I8(y)) => x == y,
        (ScanValue::I16(x), ScanValue::I16(y)) => x == y,
        (ScanValue::I32(x), ScanValue::I32(y)) => x == y,
        (ScanValue::I64(x), ScanValue::I64(y)) => x == y,
        (ScanValue::F32(x), ScanValue::F32(y)) => float_eq(
            x as nat,
            y as nat,
            0x8000_0000,
            0x80_0000,
            0xFF,
        ),
        (ScanValue::F64(x), ScanValue::F64(y)) => float_eq(
            x as nat,
            y as nat,
            0x8000_0000_0000_0000,
            0x10_0000_0000_0000,
            0x7FF,
        ),
        _ => false,
    }
}

/// `<` on two scan values of the same type, floats by IEEE order.
pub open spec fn value_lt(a: ScanValue, b: ScanValue) -> bool {
    match (a, b) {
        (ScanValue::I8(x), ScanValue::I8(y)) => x < y,
        (ScanValue::I16(x), ScanValue::I16(y)) => x < y,
        (ScanValue::I32(x), ScanValue::I32(y)) => x < y,
        (ScanValue::I64(x), ScanValue::I64(y)) => x < y,
        (ScanValue::F32(x), ScanValue::F32(y)) => float_lt(x as nat, y as nat, 0x8000_0000),
        (ScanValue::F64(x), ScanValue::F64(y)) => float_lt(
            x as nat,
            y as nat,
            0x8000_0000_0000_0000,
        ),
        _ => false,
    }
}

fn float_eq_exec(a: u64, b: u64, sign: u64, unit: u64, top: u64) -> (r: bool)
    requires
        unit > 0,
        sign > 0,
        top < u64::MAX,
    ensures
        r == float_eq(a as nat, b as nat, sign as nat, unit as nat, top as nat),
{
    let a_nan = (a / unit) % (top + 1) == top && a % unit != 0;
    let b_nan = (b / unit) % (top + 1) == top && b % unit != 0;
    !a_nan && !b_nan && (a == b || (a % sign == 0 && b % sign == 0))
}

fn float_lt_exec(a: u64, b: u64, sign: u64) -> (r: bool)
    requires
        sign > 0,
    ensures
        r == float_lt(a as nat, b as nat, sign as nat),
{
    let ma = a % sign;
    let mb = b % sign;
    let na = a >= sign;
    let nb = b >= sign;
    if ma == 0 && mb == 0 {
        false
    } else if !na && !nb {
        ma < mb
    } else if na && nb {
        mb < ma
    } else {
        na
    }
}

impl PartialEq for ScanValue {
    fn eq(&self, other: &Self) -> (r: bool) {
        match (*self, *other) {
            (ScanValue::I8(x), ScanValue::I8(y)) => x == y,
            (ScanValue::I16(x), ScanValue::I16(y)) => x == y,
            (ScanValue::I32(x), ScanValue::I32(y)) => x == y,
            (ScanValue::I64(x), ScanValue::I64(y)) => x == y,
            (ScanValue::F32(x), ScanValue::F32(y)) => float_eq_exec(
                x as u64,
                y as u64,
                0x8000_0000,
                0x80_0000,
                0xFF,
            ),
            (ScanValue::F64(x), ScanValue::F64(y)) => float_eq_exec(
                x,
                y,
                0x8000_0000_0000_0000,
                0x10_0000_0000_0000,
                0x7FF,
            ),
            _ => false,
        }
    }
}

impl vstd::std_specs::cmp::PartialEqSpecImpl for ScanValue {
    open spec fn obeys_eq_spec() -> bool {
        true
    }

    open spec fn eq_spec(&self, other: &Self) -> bool {
        value_eq(*self, *other)
    }
}

/// Whether `a < b`, for two values of the same type.
pub fn value_less(a: ScanValue, b: ScanValue) -> (r: bool)
    ensures
        r == value_lt(a, b),
{
    match (a, b) {
        (ScanValue::I8(x), ScanValue::I8(y)) => x < y,
        (ScanValue::I16(x), ScanValue::I16(y)) => x < y,
        (ScanValue::I32(x), ScanValue::I32(y)) => x < y,
        (ScanValue::I64(x), ScanValue::I64(y)) => x < y,
        (ScanValue::F32(x), ScanValue::F32(y)) => float_lt_exec(x as u64, y as u64, 0x8000_0000),
        (ScanValue::F64(x), ScanValue::F64(y)) => float_lt_exec(x, y, 0x8000_0000_0000_0000),
        _ => false,
    }
}

/// A next-scan filter, applied to a previously matched address's old value
/// and its freshly read new one.
#[derive(Debug, Clone, Copy, PartialEq, Eq, Structural)]
pub enum ScanFilter {
    Changed,
    Unchanged,
    Increased,
    Decreased,
}

/// A value's little-endian bytes, as it sits in memory.
pub open spec fn value_bytes(v: ScanValue) -> Seq<u8> {
    le_bytes(v.bits(), v.spec_size())
}

/// What [`passes_filter`] decides: nothing non-finite passes any filter;
/// changed and unchanged compare the values' bytes (no tolerance: a tiny
/// real change is still a change, and `0.0` and `-0.0` differ); increased
/// and decreased compare in order.
pub open spec fn passes(old: ScanValue, new: ScanValue, filter: ScanFilter) -> bool {
    if !old.finite() || !new.finite() {
        false
    } else {
        match filter {
            ScanFilter::Changed => value_bytes(old) != value_bytes(new),
            ScanFilter::Unchanged => value_bytes(old) == value_bytes(new),
            ScanFilter::Increased => value_lt(old, new),
            ScanFilter::Decreased => value_lt(new, old),
        }
    }
}

/// Whether `new` passes `filter` relative to `old`, the value recorded at
/// the address by the previous scan. An ordered filter compares two values
/// of the same type.
pub fn passes_filter(old: ScanValue, new: ScanValue, filter: ScanFilter) -> (r: bool)
    requires
        (filter is Increased || filter is Decreased) ==> same_type(old, new),
    ensures
        r == passes(old, new, filter),
{
    if !old.is_finite() || !new.is_finite() {
        return false;
    }
    let same = crate::aob::bytes_equal(old.to_le_bytes().as_slice(), new.to_le_bytes().as_slice());
    match filter {
        ScanFilter::Changed => !same,
        ScanFilter::Unchanged => same,
        ScanFilter::Increased => value_less(old, new),
        ScanFilter::Decreased => value_less(new, old),
    }
}

/// Whether `bytes` hold exactly `target`, for an integer target: a literal
/// byte comparison, no decoding needed.
pub fn bytes_match_integer(bytes: &[u8], target: ScanValue) -> (r: bool)
    requires
        !target.is_float(),
    ensures
        r == (bytes@ == le_bytes(target.bits(), target.spec_size())),
{
    let want = target.to_le_bytes();
    crate::aob::bytes_equal(bytes, want.as_slice())
}

/// Whether `bytes` hold `target` for an exact-value first scan: an integer
/// target by its exact bytes; a float target when the value the bytes hold
/// is finite and `floats_agree`, the outcome of comparing it with the
/// target rounded to the scan's decimal places (a floating-point
/// computation made by the caller).
pub fn bytes_match_exact_given(bytes: &[u8], target: ScanValue, floats_agree: bool) -> (r: bool)
    requires
        bytes@.len() == target.spec_size(),
    ensures
        r == if target.is_float() {
            target.with_bits(le_value(bytes@)).finite() && floats_agree
        } else {
            bytes@ == le_bytes(target.bits(), target.spec_size())
        },
{
    match target {
        ScanValue::F32(_) | ScanValue::F64(_) => {
            let candidate = target.from_le_bytes_like(bytes);
            candidate.is_finite() && floats_agree
        },
        _ => bytes_match_integer(bytes, target),
    }
}

/// Nothing non-finite passes any next-scan filter.
pub proof fn a_non_finite_value_passes_no_filter(old: ScanValue, new: ScanValue, filter: ScanFilter)
    requires
        !old.finite() || !new.finite(),
    ensures
        !passes(old, new, filter),
{
}

proof fn lemma_float_order(a: nat, b: nat, sign: nat)
    requires
        sign > 0,
        a < 2 * sign,
        b < 2 * sign,
    ensures
        !(float_lt(a, b, sign) && float_lt(b, a, sign)),
        (a == b || (a % sign == 0 && b % sign == 0)) ==> !float_lt(a, b, sign),
        !(a == b || (a % sign == 0 && b % sign == 0)) ==> (float_lt(a, b, sign) || float_lt(
            b,
            a,
            sign,
        )),
{
    if a >= sign {
        vstd::arithmetic::div_mod::lemma_fundamental_div_mod_converse(a as int, sign as int, 1, a - sign);
    } else {
        vstd::arithmetic::div_mod::lemma_small_mod(a, sign);
    }
    if b >= sign {
        vstd::arithmetic::div_mod::lemma_fundamental_div_mod_converse(b as int, sign as int, 1, b - sign);
    } else {
        vstd::arithmetic::div_mod::lemma_small_mod(b, sign);
    }
}

/// For two finite values of one type, exactly one of `Changed` and
/// `Unchanged` passes; `Increased` and `Decreased` each pass only for a
/// changed value, and never both.
pub proof fn the_filters_partition_finite_values(old: ScanValue, new: ScanValue)
    requires
        same_type(old, new),
        old.finite(),
        new.finite(),
    ensures
        passes(old, new, ScanFilter::Changed) != passes(old, new, ScanFilter::Unchanged),
        passes(old, new, ScanFilter::Increased) ==> passes(old, new, ScanFilter::Changed),
        passes(old, new, ScanFilter::Decreased) ==> passes(old, new, ScanFilter::Changed),
        !(passes(old, new, ScanFilter::Increased) && passes(old, new, ScanFilter::Decreased)),
{
    lemma_bits_fit(old);
    lemma_bits_fit(new);
    lemma_le_value_of_bytes(old.bits(), old.spec_size());
    lemma_le_value_of_bytes(new.bits(), new.spec_size());
    vstd::arithmetic::div_mod::lemma_small_mod(old.bits(), pow256(old.spec_size()));
    vstd::arithmetic::div_mod::lemma_small_mod(new.bits(), pow256(new.spec_size()));
    match (old, new) {
        (ScanValue::F32(x), ScanValue::F32(y)) => {
            lemma_float_order(x as nat, y as nat, 0x8000_0000);
        },
        (ScanValue::F64(x), ScanValue::F64(y)) => {
            lemma_float_order(x as nat, y as nat, 0x8000_0000_0000_0000);
        },
        _ => {},
    }
    if value_bytes(old) == value_bytes(new) {
        assert(old.bits() == new.bits());
        lemma_with_own_bits(old);
        lemma_with_own_bits(new);
        assert(old.with_bits(old.bits()) == new.with_bits(new.bits()));
        assert(old == new);
    }
}

/// For integers of one width, `Increased` passes exactly when the new
/// value is numerically greater than the old one and `Decreased` exactly
/// when it is smaller.
pub proof fn integer_filters_follow_numeric_order(
    a8: i8,
    b8: i8,
    a16: i16,
    b16: i16,
    a32: i32,
    b32: i32,
    a64: i64,
    b64: i64,
)
    ensures
        passes(ScanValue::I8(a8), ScanValue::I8(b8), ScanFilter::Increased) <==> a8 < b8,
        passes(ScanValue::I8(a8), ScanValue::I8(b8), ScanFilter::Decreased) <==> b8 < a8,
        passes(ScanValue::I16(a16), ScanValue::I16(b16), ScanFilter::Increased) <==> a16 < b16,
        passes(ScanValue::I16(a16), ScanValue::I16(b16), ScanFilter::Decreased) <==> b16 < a16,
        passes(ScanValue::I32(a32), ScanValue::I32(b32), ScanFilter::Increased) <==> a32 < b32,
        passes(ScanValue::I32(a32), ScanValue::I32(b32), ScanFilter::Decreased) <==> b32 < a32,
        passes(ScanValue::I64(a64), ScanValue::I64(b64), ScanFilter::Increased) <==> a64 < b64,
        passes(ScanValue::I64(a64), ScanValue::I64(b64), ScanFilter::Decreased) <==> b64 < a64,
{
}

/// For finite non-negative floats (sign bit clear), `Increased` and
/// `Decreased` follow the order of the bit patterns, which for such floats
/// is their numeric order; for finite negative ones it is reversed; and a
/// negative value is below every non-negative one except that the two
/// zeros are neither above nor below each other.
pub proof fn float_filters_follow_numeric_order(x: u32, y: u32)
    requires
        ScanValue::F32(x).finite(),
        ScanValue::F32(y).finite(),
    ensures
        (x < 0x8000_0000u32 && y < 0x8000_0000u32) ==> (passes(
            ScanValue::F32(x),
            ScanValue::F32(y),
            ScanFilter::Increased,
        ) <==> (x < y && y != 0u32)),
        (x >= 0x8000_0000u32 && y >= 0x8000_0000u32) ==> (passes(
            ScanValue::F32(x),
            ScanValue::F32(y),
            ScanFilter::Increased,
        ) <==> (y < x && x != 0x8000_0000u32)),
        (x > 0x8000_0000u32 && y < 0x8000_0000u32) ==> passes(
            ScanValue::F32(x),
            ScanValue::F32(y),
            ScanFilter::Increased,
        ),
        (x == 0x8000_0000u32 && y == 0u32) ==> !passes(ScanValue::F32(x), ScanValue::F32(y), ScanFilter::Increased)
            && !passes(ScanValue::F32(x), ScanValue::F32(y), ScanFilter::Decreased),
{
}

} // verus!
