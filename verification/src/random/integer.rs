//! The integer types that can be sampled, as one capability.
//!
//! Sampling works on offsets from the start of a range, held in 128 bits.
//! Each integer type says which raw width it is drawn with and how its
//! values relate to such offsets; signed types go through the
//! order-preserving shift onto their unsigned twin.
use crate::math::basic::from_to::{
    i128u128, i16u16, i32u32, i64u64, i8u8, u128i128, u16i16, u32i32, u64i64, u8i8,
};
use crate::random::model::{pointer_width, valid_picks, SampleError, Width};
use vstd::prelude::*;

verus! {

/// An integer type that the sampler can draw.
pub trait SampleInt: Copy + Sized {
    /// The width of the raw draws that values of this type are made from.
    spec fn width() -> Width;

    /// The mathematical value.
    spec fn value(self) -> int;

    /// The smallest value of the type.
    spec fn lowest() -> int;

    /// The values of the type are the `modulus` integers from `lowest` on.
    proof fn lemma_value_bounds(self)
        ensures
            Self::lowest() <= self.value() < Self::lowest() + Self::width().modulus(),
    ;

    /// Different values of the type are different integers.
    proof fn lemma_value_determines(self, other: Self)
        requires
            self.value() == other.value(),
        ensures
            self == other,
    ;

    /// The width of the raw draws for this type.
    fn raw_width() -> (w: Width)
        ensures
            w == Self::width(),
    ;

    /// Whether `self` is below `other`.
    fn below(self, other: Self) -> (r: bool)
        ensures
            r == (self.value() < other.value()),
    ;

    /// The distance from `self` up to `end`.
    fn span(self, end: Self) -> (d: u128)
        requires
            self.value() <= end.value(),
        ensures
            d == end.value() - self.value(),
    ;

    /// The value `by` above `self`.
    fn shifted(self, by: u128) -> (r: Self)
        requires
            self.value() + by < Self::lowest() + Self::width().modulus(),
        ensures
            r.value() == self.value() + by,
    ;

    /// The value that a raw draw stands for: the raw draw counted from the
    /// smallest value of the type.
    fn from_raw(raw: u128) -> (r: Self)
        requires
            raw < Self::width().modulus(),
        ensures
            r.value() == Self::lowest() + raw,
    ;
}

/// The outcome of drawing one value, with the value as an integer.
pub open spec fn outcome<T: SampleInt>(r: Result<T, SampleError>) -> Result<int, SampleError> {
    match r {
        Ok(x) => Ok(x.value()),
        Err(e) => Err(e),
    }
}

/// The values of a sequence of integers of one type.
pub open spec fn values<T: SampleInt>(s: Seq<T>) -> Seq<int> {
    s.map_values(|x: T| x.value())
}

/// The outcome of drawing several values, with the values as integers.
pub open spec fn outcomes<T: SampleInt>(r: Result<Vec<T>, SampleError>) -> Result<
    Seq<int>,
    SampleError,
> {
    match r {
        Ok(s) => Ok(values(s@)),
        Err(e) => Err(e),
    }
}

/// Valid picks as integers are valid picks as values of their type.
pub proof fn lemma_values_valid<T: SampleInt>(
    s: Seq<T>,
    start: int,
    end: int,
    k: nat,
    can_repeat: bool,
)
    requires
        valid_picks(values(s), start, end, k, can_repeat),
    ensures
        s.len() == k,
        forall|i: int| 0 <= i < s.len() ==> start <= (#[trigger] s[i]).value() < end,
        !can_repeat ==> s.no_duplicates(),
{
    assert forall|i: int| 0 <= i < s.len() implies start <= (#[trigger] s[i]).value() < end by {
        assert(values(s)[i] == s[i].value());
    }
    if !can_repeat {
        assert forall|i: int, j: int| 0 <= i < s.len() && 0 <= j < s.len() && i != j implies s[i]
            != s[j] by {
            assert(values(s)[i] == s[i].value());
            assert(values(s)[j] == s[j].value());
        }
    }
}

impl SampleInt for u8 {
    open spec fn width() -> Width {
        Width::W8
    }

    open spec fn value(self) -> int {
        self as int
    }

    open spec fn lowest() -> int {
        0
    }

    proof fn lemma_value_bounds(self) {
    }

    proof fn lemma_value_determines(self, other: Self) {
    }

    fn raw_width() -> (w: Width) {
        Width::W8
    }

    fn below(self, other: Self) -> (r: bool) {
        self < other
    }

    fn span(self, end: Self) -> (d: u128) {
        (end - self) as u128
    }

    fn shifted(self, by: u128) -> (r: Self) {
        self + by as u8
    }

    fn from_raw(raw: u128) -> (r: Self) {
        raw as u8
    }
}

impl SampleInt for i8 {
    open spec fn width() -> Width {
        Width::W8
    }

    open spec fn value(self) -> int {
        self as int
    }

    open spec fn lowest() -> int {
        -0x80
    }

    proof fn lemma_value_bounds(self) {
    }

    proof fn lemma_value_determines(self, other: Self) {
    }

    fn raw_width() -> (w: Width) {
        Width::W8
    }

    fn below(self, other: Self) -> (r: bool) {
        self < other
    }

    fn span(self, end: Self) -> (d: u128) {
        (i8u8(end) - i8u8(self)) as u128
    }

    fn shifted(self, by: u128) -> (r: Self) {
        u8i8(i8u8(self) + by as u8)
    }

    fn from_raw(raw: u128) -> (r: Self) {
        u8i8(raw as u8)
    }
}

impl SampleInt for u16 {
    open spec fn width() -> Width {
        Width::W16
    }

    open spec fn value(self) -> int {
        self as int
    }

    open spec fn lowest() -> int {
        0
    }

    proof fn lemma_value_bounds(self) {
    }

    proof fn lemma_value_determines(self, other: Self) {
    }

    fn raw_width() -> (w: Width) {
        Width::W16
    }

    fn below(self, other: Self) -> (r: bool) {
        self < other
    }

    fn span(self, end: Self) -> (d: u128) {
        (end - self) as u128
    }

    fn shifted(self, by: u128) -> (r: Self) {
        self + by as u16
    }

    fn from_raw(raw: u128) -> (r: Self) {
        raw as u16
    }
}

impl SampleInt for i16 {
    open spec fn width() -> Width {
        Width::W16
    }

    open spec fn value(self) -> int {
        self as int
    }

    open spec fn lowest() -> int {
        -0x8000
    }

    proof fn lemma_value_bounds(self) {
    }

    proof fn lemma_value_determines(self, other: Self) {
    }

    fn raw_width() -> (w: Width) {
        Width::W16
    }

    fn below(self, other: Self) -> (r: bool) {
        self < other
    }

    fn span(self, end: Self) -> (d: u128) {
        (i16u16(end) - i16u16(self)) as u128
    }

    fn shifted(self, by: u128) -> (r: Self) {
        u16i16(i16u16(self) + by as u16)
    }

    fn from_raw(raw: u128) -> (r: Self) {
        u16i16(raw as u16)
    }
}

impl SampleInt for u32 {
    open spec fn width() -> Width {
        Width::W32
    }

    open spec fn value(self) -> int {
        self as int
    }

    open spec fn lowest() -> int {
        0
    }

    proof fn lemma_value_bounds(self) {
    }

    proof fn lemma_value_determines(self, other: Self) {
    }

    fn raw_width() -> (w: Width) {
        Width::W32
    }

    fn below(self, other: Self) -> (r: bool) {
        self < other
    }

    fn span(self, end: Self) -> (d: u128) {
        (end - self) as u128
    }

    fn shifted(self, by: u128) -> (r: Self) {
        self + by as u32
    }

    fn from_raw(raw: u128) -> (r: Self) {
        raw as u32
    }
}

impl SampleInt for i32 {
    open spec fn width() -> Width {
        Width::W32
    }

    open spec fn value(self) -> int {
        self as int
    }

    open spec fn lowest() -> int {
        -0x80000000
    }

    proof fn lemma_value_bounds(self) {
    }

    proof fn lemma_value_determines(self, other: Self) {
    }

    fn raw_width() -> (w: Width) {
        Width::W32
    }

    fn below(self, other: Self) -> (r: bool) {
        self < other
    }

    fn span(self, end: Self) -> (d: u128) {
        (i32u32(end) - i32u32(self)) as u128
    }

    fn shifted(self, by: u128) -> (r: Self) {
        u32i32(i32u32(self) + by as u32)
    }

    fn from_raw(raw: u128) -> (r: Self) {
        u32i32(raw as u32)
    }
}

impl SampleInt for u64 {
    open spec fn width() -> Width {
        Width::W64
    }

    open spec fn value(self) -> int {
        self as int
    }

    open spec fn lowest() -> int {
        0
    }

    proof fn lemma_value_bounds(self) {
    }

    proof fn lemma_value_determines(self, other: Self) {
    }

    fn raw_width() -> (w: Width) {
        Width::W64
    }

    fn below(self, other: Self) -> (r: bool) {
        self < other
    }

    fn span(self, end: Self) -> (d: u128) {
        (end - self) as u128
    }

    fn shifted(self, by: u128) -> (r: Self) {
        self + by as u64
    }

    fn from_raw(raw: u128) -> (r: Self) {
        raw as u64
    }
}

impl SampleInt for i64 {
    open spec fn width() -> Width {
        Width::W64
    }

    open spec fn value(self) -> int {
        self as int
    }

    open spec fn lowest() -> int {
        -0x8000000000000000
    }

    proof fn lemma_value_bounds(self) {
    }

    proof fn lemma_value_determines(self, other: Self) {
    }

    fn raw_width() -> (w: Width) {
        Width::W64
    }

    fn below(self, other: Self) -> (r: bool) {
        self < other
    }

    fn span(self, end: Self) -> (d: u128) {
        (i64u64(end) - i64u64(self)) as u128
    }

    fn shifted(self, by: u128) -> (r: Self) {
        u64i64(i64u64(self) + by as u64)
    }

    fn from_raw(raw: u128) -> (r: Self) {
        u64i64(raw as u64)
    }
}

impl SampleInt for u128 {
    open spec fn width() -> Width {
        Width::W128
    }

    open spec fn value(self) -> int {
        self as int
    }

    open spec fn lowest() -> int {
        0
    }

    proof fn lemma_value_bounds(self) {
    }

    proof fn lemma_value_determines(self, other: Self) {
    }

    fn raw_width() -> (w: Width) {
        Width::W128
    }

    fn below(self, other: Self) -> (r: bool) {
        self < other
    }

    fn span(self, end: Self) -> (d: u128) {
        end - self
    }

    fn shifted(self, by: u128) -> (r: Self) {
        self + by
    }

    fn from_raw(raw: u128) -> (r: Self) {
        raw
    }
}

impl SampleInt for i128 {
    open spec fn width() -> Width {
        Width::W128
    }

    open spec fn value(self) -> int {
        self as int
    }

    open spec fn lowest() -> int {
        -0x80000000000000000000000000000000int
    }

    proof fn lemma_value_bounds(self) {
    }

    proof fn lemma_value_determines(self, other: Self) {
    }

    fn raw_width() -> (w: Width) {
        Width::W128
    }

    fn below(self, other: Self) -> (r: bool) {
        self < other
    }

    fn span(self, end: Self) -> (d: u128) {
        i128u128(end) - i128u128(self)
    }

    fn shifted(self, by: u128) -> (r: Self) {
        u128i128(i128u128(self) + by)
    }

    fn from_raw(raw: u128) -> (r: Self) {
        u128i128(raw)
    }
}

impl SampleInt for usize {
    open spec fn width() -> Width {
        pointer_width()
    }

    open spec fn value(self) -> int {
        self as int
    }

    open spec fn lowest() -> int {
        0
    }

    proof fn lemma_value_bounds(self) {
    }

    proof fn lemma_value_determines(self, other: Self) {
    }

    fn raw_width() -> (w: Width) {
        if usize::BITS == 64 {
            Width::W64
        } else {
            Width::W32
        }
    }

    fn below(self, other: Self) -> (r: bool) {
        self < other
    }

    fn span(self, end: Self) -> (d: u128) {
        (end - self) as u128
    }

    fn shifted(self, by: u128) -> (r: Self) {
        self + by as usize
    }

    fn from_raw(raw: u128) -> (r: Self) {
        raw as usize
    }
}

} // verus!
