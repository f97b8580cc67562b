//! An index from byte-string keys to small unsigned integers, in two forms: a
//! mutable radix trie, and a compact byte layout that is queried in place.

use vstd::prelude::*;

pub mod format;
pub mod fst;
pub mod layout;
pub mod lcp;
pub mod model;
pub mod node;
pub mod pending;
pub mod roundtrip;
pub mod stream;
pub mod traverse;
pub mod trie;
pub mod writer;
mod sealed;

verus! {

/// Number of values that `w` bytes can hold: 256 to the power `w`.
pub open spec fn limit(w: nat) -> nat
    decreases w,
{
    if w == 0 {
        1
    } else {
        256 * limit((w - 1) as nat)
    }
}

/// The `w` bytes that hold `v` in little-endian order, lowest byte first.
/// Where `v` does not fit, its higher part is dropped.
pub open spec fn le_bytes(v: nat, w: nat) -> Seq<u8>
    decreases w,
{
    if w == 0 {
        Seq::empty()
    } else {
        seq![(v % 256) as u8] + le_bytes(v / 256, (w - 1) as nat)
    }
}

/// The number that `bytes` hold in little-endian order.
pub open spec fn le_value(bytes: Seq<u8>) -> nat
    decreases bytes.len(),
{
    if bytes.len() == 0 {
        0
    } else {
        bytes[0] as nat + 256 * le_value(bytes.skip(1))
    }
}

/// The widths, in bytes, of the supported value types.
pub open spec fn valid_width(w: nat) -> bool {
    w == 1 || w == 2 || w == 4 || w == 8 || w == 16
}

/// The limits of the supported widths, as numbers.
pub proof fn lemma_limits()
    ensures
        limit(0) == 1,
        limit(1) == 0x100,
        limit(2) == 0x1_0000,
        limit(4) == 0x1_0000_0000,
        limit(8) == 0x1_0000_0000_0000_0000,
        limit(16) == 0x1_0000_0000_0000_0000_0000_0000_0000_0000,
{
    reveal_with_fuel(limit, 17);
}

/// `limit` grows with the width.
pub proof fn lemma_limit_monotonic(a: nat, b: nat)
    requires
        a <= b,
    ensures
        0 < limit(a) <= limit(b),
    decreases b,
{
    if b > 0 {
        if a < b {
            lemma_limit_monotonic(a, (b - 1) as nat);
        } else {
            lemma_limit_monotonic((a - 1) as nat, (b - 1) as nat);
        }
    }
}

/// `le_bytes` gives as many bytes as asked for.
pub proof fn lemma_le_bytes_len(v: nat, w: nat)
    ensures
        le_bytes(v, w).len() == w,
    decreases w,
{
    if w > 0 {
        lemma_le_bytes_len(v / 256, (w - 1) as nat);
    }
}

/// What bytes hold is below the limit of their number.
pub proof fn lemma_le_value_bound(bytes: Seq<u8>)
    ensures
        le_value(bytes) < limit(bytes.len()),
    decreases bytes.len(),
{
    if bytes.len() > 0 {
        lemma_le_value_bound(bytes.skip(1));
    }
}

/// Reading back the bytes of a number that fits gives the number.
pub proof fn lemma_le_value_of_bytes(v: nat, w: nat)
    requires
        v < limit(w),
    ensures
        le_value(le_bytes(v, w)) == v,
    decreases w,
{
    if w > 0 {
        let rest = le_bytes(v / 256, (w - 1) as nat);
        lemma_le_value_of_bytes(v / 256, (w - 1) as nat);
        assert(le_bytes(v, w).skip(1) =~= rest);
    }
}

/// Appends the `w` little-endian bytes of `v` to `out`.
pub fn push_le_bytes(out: &mut Vec<u8>, v: u128, w: usize)
    ensures
        final(out)@ == old(out)@ + le_bytes(v as nat, w as nat),
{
    let mut x: u128 = v;
    let mut i: usize = 0;
    while i < w
        invariant
            i <= w,
            out@ + le_bytes(x as nat, (w - i) as nat) == old(out)@ + le_bytes(v as nat, w as nat),
        decreases w - i,
    {
        let ghost before = out@;
        let ghost rest = le_bytes((x / 256) as nat, (w - i - 1) as nat);
        out.push((x % 256) as u8);
        proof {
            assert(le_bytes(x as nat, (w - i) as nat) == seq![(x % 256) as u8] + rest);
            assert(out@ + rest =~= before + (seq![(x % 256) as u8] + rest));
        }
        x = x / 256;
        i += 1;
    }
    proof {
        assert(out@ + le_bytes(x as nat, 0) =~= out@);
    }
}

/// Reads the number that the `w` bytes of `data` from `at` on hold in
/// little-endian order.
pub fn read_le_value(data: &[u8], at: usize, w: usize) -> (v: u128)
    requires
        w <= 16,
        at + w <= data.len(),
    ensures
        v == le_value(data@.subrange(at as int, at + w)),
{
    let mut acc: u128 = 0;
    let mut k: usize = w;
    proof {
        assert(data@.subrange(at + w, at + w).len() == 0);
    }
    while k > 0
        invariant
            k <= w <= 16,
            at + w <= data.len(),
            acc == le_value(data@.subrange(at + k, at + w)),
        decreases k,
    {
        k -= 1;
        proof {
            let cur = data@.subrange(at + k, at + w);
            let prev = data@.subrange(at + k + 1, at + w);
            assert(cur.skip(1) =~= prev);
            lemma_le_value_bound(prev);
            lemma_limit_monotonic(prev.len(), 15);
            lemma_limits();
            reveal_with_fuel(limit, 16);
        }
        acc = acc * 256 + data[at + k] as u128;
    }
    acc
}

/// An unsigned integer type that can be stored as a value: one of `u8`,
/// `u16`, `u32`, `u64` and `u128`.
pub trait Integer:
    Default + core::fmt::Display + core::fmt::Debug + Copy + sealed::Sealed + TryFrom<u64>
{
    /// Width of the type in bytes.
    spec fn spec_size() -> nat;

    /// The value as a number.
    spec fn as_nat(self) -> nat;

    /// The width is one of 1, 2, 4, 8 and 16.
    proof fn lemma_size()
        ensures
            valid_width(Self::spec_size()),
    ;

    /// Values are below the limit of the width.
    proof fn lemma_range(self)
        ensures
            self.as_nat() < limit(Self::spec_size()),
    ;

    /// Different values are different numbers.
    proof fn lemma_injective(self, other: Self)
        ensures
            self.as_nat() == other.as_nat() ==> self == other,
    ;

    /// Width of the type in bytes.
    fn size() -> (n: usize)
        ensures
            n == Self::spec_size(),
    ;

    /// The value, widened.
    fn to_u128(self) -> (v: u128)
        ensures
            v == self.as_nat(),
    ;

    /// The value of this type that equals `v`, if `v` fits.
    fn from_u128(v: u128) -> (r: Option<Self>)
        ensures
            r is Some <==> v < limit(Self::spec_size()),
            r matches Some(x) ==> x.as_nat() == v,
    ;

    /// Appends the value to `writer` in little-endian order.
    fn write_le_bytes(self, writer: &mut Vec<u8>)
        ensures
            final(writer)@ == old(writer)@ + le_bytes(self.as_nat(), Self::spec_size()),
    ;
}

impl Integer for u128 {
    open spec fn spec_size() -> nat {
        16
    }

    open spec fn as_nat(self) -> nat {
        self as nat
    }

    proof fn lemma_size() {
    }

    proof fn lemma_range(self) {
        lemma_limits();
    }

    proof fn lemma_injective(self, other: Self) {
    }

    fn size() -> (n: usize) {
        16
    }

    fn to_u128(self) -> (v: u128) {
        self
    }

    fn from_u128(v: u128) -> (r: Option<Self>) {
        proof {
            lemma_limits();
        }
        Some(v)
    }

    #[inline]
    fn write_le_bytes(self, writer: &mut Vec<u8>) {
        push_le_bytes(writer, self, 16)
    }
}

impl Integer for u64 {
    open spec fn spec_size() -> nat {
        8
    }

    open spec fn as_nat(self) -> nat {
        self as nat
    }

    proof fn lemma_size() {
    }

    proof fn lemma_range(self) {
        lemma_limits();
    }

    proof fn lemma_injective(self, other: Self) {
    }

    fn size() -> (n: usize) {
        8
    }

    fn to_u128(self) -> (v: u128) {
        self as u128
    }

    fn from_u128(v: u128) -> (r: Option<Self>) {
        proof {
            lemma_limits();
        }
        if v <= 0xffff_ffff_ffff_ffff {
            Some(v as u64)
        } else {
            None
        }
    }

    #[inline]
    fn write_le_bytes(self, writer: &mut Vec<u8>) {
        push_le_bytes(writer, self as u128, 8)
    }
}

impl Integer for u32 {
    open spec fn spec_size() -> nat {
        4
    }

    open spec fn as_nat(self) -> nat {
        self as nat
    }

    proof fn lemma_size() {
    }

    proof fn lemma_range(self) {
        lemma_limits();
    }

    proof fn lemma_injective(self, other: Self) {
    }

    fn size() -> (n: usize) {
        4
    }

    fn to_u128(self) -> (v: u128) {
        self as u128
    }

    fn from_u128(v: u128) -> (r: Option<Self>) {
        proof {
            lemma_limits();
        }
        if v <= 0xffff_ffff {
            Some(v as u32)
        } else {
            None
        }
    }

    #[inline]
    fn write_le_bytes(self, writer: &mut Vec<u8>) {
        push_le_bytes(writer, self as u128, 4)
    }
}

impl Integer for u16 {
    open spec fn spec_size() -> nat {
        2
    }

    open spec fn as_nat(self) -> nat {
        self as nat
    }

    proof fn lemma_size() {
    }

    proof fn lemma_range(self) {
        lemma_limits();
    }

    proof fn lemma_injective(self, other: Self) {
    }

    fn size() -> (n: usize) {
        2
    }

    fn to_u128(self) -> (v: u128) {
        self as u128
    }

    fn from_u128(v: u128) -> (r: Option<Self>) {
        proof {
            lemma_limits();
        }
        if v <= 0xffff {
            Some(v as u16)
        } else {
            None
        }
    }

    #[inline]
    fn write_le_bytes(self, writer: &mut Vec<u8>) {
        push_le_bytes(writer, self as u128, 2)
    }
}

impl Integer for u8 {
    open spec fn spec_size() -> nat {
        1
    }

    open spec fn as_nat(self) -> nat {
        self as nat
    }

    proof fn lemma_size() {
    }

    proof fn lemma_range(self) {
        lemma_limits();
    }

    proof fn lemma_injective(self, other: Self) {
    }

    fn size() -> (n: usize) {
        1
    }

    fn to_u128(self) -> (v: u128) {
        self as u128
    }

    fn from_u128(v: u128) -> (r: Option<Self>) {
        proof {
            lemma_limits();
        }
        if v <= 0xff {
            Some(v as u8)
        } else {
            None
        }
    }

    #[inline]
    fn write_le_bytes(self, writer: &mut Vec<u8>) {
        push_le_bytes(writer, self as u128, 1)
    }
}

} // verus!
