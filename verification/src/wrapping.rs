//! Unsigned integers whose arithmetic wraps around, as the indices of a ring
//! buffer do.
//!
//! [`WrappingOps`] gives each such type a mathematical model: a value stands
//! for a natural number below the type's modulus, and addition and
//! subtraction are those of the integers modulo that modulus. The trait is
//! implemented for `u8`, `u16`, `u32` and `u64`.
use vstd::arithmetic::div_mod::{lemma_mod_sub_multiples_vanish, lemma_small_mod};
use vstd::arithmetic::power2::{lemma2_to64, pow2};
use vstd::prelude::*;
use vstd::std_specs::cmp::PartialEqSpec;

verus! {

/// An unsigned integer type with wrap-around addition and subtraction.
///
/// Nothing here fails or panics: a sum that passes the largest value starts
/// again at zero, and a difference that would fall below zero comes down from
/// the largest value.
///
/// An implementation states which number each value stands for and proves
/// the four lemmas; the contracts of the executable methods then speak of
/// those numbers.
pub trait WrappingOps: Copy + PartialEq {
    /// The bit width of the type.
    spec fn bits() -> nat;

    /// The number of values of the type: two to the power of its bit width.
    spec fn modulus() -> nat;

    /// The number that a value stands for.
    spec fn as_nat(self) -> nat;

    /// The value that stands for `n` modulo `modulus()`.
    spec fn from_nat(n: nat) -> Self;

    /// The modulus is two to the power of the bit width, and the type has
    /// at least the eight bits of a byte.
    proof fn lemma_modulus()
        ensures
            Self::modulus() == pow2(Self::bits()),
            Self::bits() >= 8,
            Self::modulus() >= 0x100,
    ;

    /// A value stands for a number below the modulus, and for no other
    /// value's number.
    proof fn lemma_as_nat(self)
        ensures
            self.as_nat() < Self::modulus(),
            Self::from_nat(self.as_nat()) == self,
    ;

    /// Every number has its value, found by reducing it modulo `modulus()`.
    proof fn lemma_from_nat(n: nat)
        ensures
            Self::from_nat(n).as_nat() == n % Self::modulus(),
    ;

    /// `==` on the type tells whether two values are the same.
    proof fn lemma_eq(self, other: Self)
        ensures
            Self::obeys_eq_spec(),
            self.eq_spec(&other) == (self == other),
    ;

    /// The value that stands for the number of a byte.
    fn from_u8(value: u8) -> (index: Self)
        ensures
            index.as_nat() == value,
    ;

    /// The sum modulo `modulus()`.
    fn wrapping_add(self, rhs: Self) -> (sum: Self)
        ensures
            sum.as_nat() == (self.as_nat() + rhs.as_nat()) % Self::modulus(),
    ;

    /// The difference modulo `modulus()`.
    fn wrapping_sub(self, rhs: Self) -> (difference: Self)
        ensures
            difference.as_nat() == (self.as_nat() - rhs.as_nat()) % (Self::modulus() as int),
    ;
}

impl WrappingOps for u8 {
    open spec fn bits() -> nat {
        8
    }

    open spec fn modulus() -> nat {
        0x100
    }

    open spec fn as_nat(self) -> nat {
        self as nat
    }

    open spec fn from_nat(n: nat) -> Self {
        (n % 0x100) as u8
    }

    proof fn lemma_modulus() {
        lemma2_to64();
    }

    proof fn lemma_as_nat(self) {
    }

    proof fn lemma_from_nat(n: nat) {
    }

    proof fn lemma_eq(self, other: Self) {
    }

    fn from_u8(value: u8) -> (index: Self) {
        value
    }

    fn wrapping_add(self, rhs: Self) -> (sum: Self) {
        self.wrapping_add(rhs)
    }

    fn wrapping_sub(self, rhs: Self) -> (difference: Self) {
        self.wrapping_sub(rhs)
    }
}

impl WrappingOps for u16 {
    open spec fn bits() -> nat {
        16
    }

    open spec fn modulus() -> nat {
        0x1_0000
    }

    open spec fn as_nat(self) -> nat {
        self as nat
    }

    open spec fn from_nat(n: nat) -> Self {
        (n % 0x1_0000) as u16
    }

    proof fn lemma_modulus() {
        lemma2_to64();
    }

    proof fn lemma_as_nat(self) {
    }

    proof fn lemma_from_nat(n: nat) {
    }

    proof fn lemma_eq(self, other: Self) {
    }

    fn from_u8(value: u8) -> (index: Self) {
        u16::from(value)
    }

    fn wrapping_add(self, rhs: Self) -> (sum: Self) {
        self.wrapping_add(rhs)
    }

    fn wrapping_sub(self, rhs: Self) -> (difference: Self) {
        self.wrapping_sub(rhs)
    }
}

impl WrappingOps for u32 {
    open spec fn bits() -> nat {
        32
    }

    open spec fn modulus() -> nat {
        0x1_0000_0000
    }

    open spec fn as_nat(self) -> nat {
        self as nat
    }

    open spec fn from_nat(n: nat) -> Self {
        (n % 0x1_0000_0000) as u32
    }

    proof fn lemma_modulus() {
        lemma2_to64();
    }

    proof fn lemma_as_nat(self) {
    }

    proof fn lemma_from_nat(n: nat) {
    }

    proof fn lemma_eq(self, other: Self) {
    }

    fn from_u8(value: u8) -> (index: Self) {
        u32::from(value)
    }

    fn wrapping_add(self, rhs: Self) -> (sum: Self) {
        self.wrapping_add(rhs)
    }

    fn wrapping_sub(self, rhs: Self) -> (difference: Self) {
        self.wrapping_sub(rhs)
    }
}

impl WrappingOps for u64 {
    open spec fn bits() -> nat {
        64
    }

    open spec fn modulus() -> nat {
        0x1_0000_0000_0000_0000
    }

    open spec fn as_nat(self) -> nat {
        self as nat
    }

    open spec fn from_nat(n: nat) -> Self {
        (n % 0x1_0000_0000_0000_0000) as u64
    }

    proof fn lemma_modulus() {
        lemma2_to64();
    }

    proof fn lemma_as_nat(self) {
    }

    proof fn lemma_from_nat(n: nat) {
    }

    proof fn lemma_eq(self, other: Self) {
    }

    fn from_u8(value: u8) -> (index: Self) {
        u64::from(value)
    }

    fn wrapping_add(self, rhs: Self) -> (sum: Self) {
        self.wrapping_add(rhs)
    }

    fn wrapping_sub(self, rhs: Self) -> (difference: Self) {
        self.wrapping_sub(rhs)
    }
}

/// The index `steps` places after `index`, going round at the modulus.
pub open spec fn index_after<Index: WrappingOps>(index: Index, steps: nat) -> Index {
    Index::from_nat(index.as_nat() + steps)
}

/// How many steps lead from `start` to `end`, going round at the modulus.
pub open spec fn distance<Index: WrappingOps>(start: Index, end: Index) -> nat {
    if start.as_nat() <= end.as_nat() {
        (end.as_nat() - start.as_nat()) as nat
    } else {
        (Index::modulus() - start.as_nat() + end.as_nat()) as nat
    }
}

/// A sum of a number below `m` and one of at most `m`, reduced modulo `m`,
/// is the sum itself or the sum less `m`.
proof fn lemma_mod_of_sum(a: nat, k: nat, m: nat)
    requires
        a < m,
        k <= m,
    ensures
        (a + k) % m == if a + k < m {
            (a + k) as int
        } else {
            a + k - m
        },
{
    if a + k < m {
        lemma_small_mod(a + k, m);
    } else {
        lemma_mod_sub_multiples_vanish((a + k) as int, m as int);
        lemma_small_mod((a + k - m) as nat, m);
    }
}

/// Two values that stand for the same number are the same value.
pub proof fn lemma_same_number<Index: WrappingOps>(a: Index, b: Index)
    requires
        a.as_nat() == b.as_nat(),
    ensures
        a == b,
{
    a.lemma_as_nat();
    b.lemma_as_nat();
}

/// Where `index_after` lands, without division: up to `modulus()` steps
/// pass the modulus at most once.
pub proof fn lemma_index_after<Index: WrappingOps>(index: Index, steps: nat)
    requires
        steps <= Index::modulus(),
    ensures
        index_after(index, steps).as_nat() == if index.as_nat() + steps < Index::modulus() {
            (index.as_nat() + steps) as int
        } else {
            index.as_nat() + steps - Index::modulus()
        },
{
    index.lemma_as_nat();
    Index::lemma_from_nat(index.as_nat() + steps);
    lemma_mod_of_sum(index.as_nat(), steps, Index::modulus());
}

/// `distance(start, end)` is below the modulus, and that many steps after
/// `start` comes `end`; no fewer steps reach it.
pub proof fn lemma_distance<Index: WrappingOps>(start: Index, end: Index)
    ensures
        distance(start, end) < Index::modulus(),
        index_after(start, distance(start, end)) == end,
        forall|steps: nat| steps < distance(start, end) ==> index_after(start, steps) != end,
        distance(start, end) == 0 <==> start == end,
{
    start.lemma_as_nat();
    end.lemma_as_nat();
    lemma_index_after(start, distance(start, end));
    lemma_same_number(index_after(start, distance(start, end)), end);
    assert forall|steps: nat| steps < distance(start, end) implies index_after(start, steps)
        != end by {
        lemma_index_after(start, steps);
    }
}

/// An index plus one, modulo `modulus()`, is the index one step on.
pub proof fn lemma_successor<Index: WrappingOps>(index: Index, sum: Index)
    requires
        sum.as_nat() == (index.as_nat() + 1) % Index::modulus(),
    ensures
        sum == index_after(index, 1),
{
    Index::lemma_from_nat(index.as_nat() + 1);
    lemma_same_number(sum, index_after(index, 1));
}

} // verus!
