use vstd::prelude::*;

verus! {

/// A symbol that can be stored in a wavelet tree.
///
/// Symbols are ordered and compared by their numeric value, which is a
/// non-negative integer that fits in a `u64`; two symbols with the same
/// value are the same symbol.
pub trait Symbol: Copy + Sized {
    /// The numeric value of the symbol.
    spec fn value(self) -> int;

    /// The numeric value, as a machine integer.
    fn to_u64(&self) -> (r: u64)
        ensures
            r == self.value(),
    ;

    /// The value determines the symbol.
    proof fn value_injective(a: Self, b: Self)
        ensures
            a.value() == b.value() ==> a == b,
    ;
}

impl Symbol for u8 {
    open spec fn value(self) -> int {
        self as int
    }

    fn to_u64(&self) -> (r: u64) {
        *self as u64
    }

    proof fn value_injective(a: Self, b: Self) {
    }
}

impl Symbol for u16 {
    open spec fn value(self) -> int {
        self as int
    }

    fn to_u64(&self) -> (r: u64) {
        *self as u64
    }

    proof fn value_injective(a: Self, b: Self) {
    }
}

impl Symbol for u32 {
    open spec fn value(self) -> int {
        self as int
    }

    fn to_u64(&self) -> (r: u64) {
        *self as u64
    }

    proof fn value_injective(a: Self, b: Self) {
    }
}

impl Symbol for u64 {
    open spec fn value(self) -> int {
        self as int
    }

    fn to_u64(&self) -> (r: u64) {
        *self
    }

    proof fn value_injective(a: Self, b: Self) {
    }
}

/// The split point of a symbol range: the floor of the mean of its
/// smallest and largest value.
pub open spec fn midpoint(lo: int, hi: int) -> int {
    (lo + hi) / 2
}

/// Computes `(lo + hi) / 2` without overflowing.
pub fn midpoint_u64(lo: u64, hi: u64) -> (m: u64)
    requires
        lo <= hi,
    ensures
        m == midpoint(lo as int, hi as int),
        lo <= m <= hi,
{
    lo + (hi - lo) / 2
}

/// The symbols whose value exceeds `m`, as a predicate.
pub open spec fn above<T: Symbol>(m: int) -> spec_fn(T) -> bool {
    |x: T| x.value() > m
}

/// The symbols whose value is at most `m`, as a predicate.
pub open spec fn at_most<T: Symbol>(m: int) -> spec_fn(T) -> bool {
    |x: T| x.value() <= m
}

} // verus!
