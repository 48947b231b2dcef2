//! Duplicate Inverse Storage: error-detecting redundancy for scalar state.
//!
//! A [`Dis<T>`] keeps a value together with its bitwise complement, a
//! [`Dup<T>`] keeps two identical copies. Reads are only valid on intact
//! storage; [`Dis::is_intact`] and [`Dup::is_intact`] check integrity without
//! faulting.

use vstd::prelude::*;

verus! {

/// Marker restricting [`DisInt`] to the primitive integer types.
pub trait Sealed {}

/// Integer scalars whose bitwise complement is a reversible redundant encoding.
pub trait DisInt: Copy + Sealed + Sized {
    /// Bitwise complement.
    spec fn complement(self) -> Self;

    /// Complementing twice gives the value back, and no value is its own
    /// complement.
    proof fn lemma_complement(x: Self)
        ensures
            x.complement().complement() == x,
            x.complement() != x,
    ;

    /// Computes the bitwise complement.
    fn invert(self) -> (r: Self)
        ensures
            r == self.complement(),
    ;

    /// Compares two values.
    fn same(self, other: Self) -> (r: bool)
        ensures
            r == (self == other),
    ;
}

/// Proves the complement facts for every supported width at once.
proof fn lemma_not_involution()
    by (bit_vector)
    ensures
        forall|x: u8| #![auto] !(!x) == x && !x != x,
        forall|x: u16| #![auto] !(!x) == x && !x != x,
        forall|x: u32| #![auto] !(!x) == x && !x != x,
        forall|x: u64| #![auto] !(!x) == x && !x != x,
        forall|x: u128| #![auto] !(!x) == x && !x != x,
        forall|x: usize| #![auto] !(!x) == x && !x != x,
        forall|x: i8| #![auto] !(!x) == x && !x != x,
        forall|x: i16| #![auto] !(!x) == x && !x != x,
        forall|x: i32| #![auto] !(!x) == x && !x != x,
        forall|x: i64| #![auto] !(!x) == x && !x != x,
        forall|x: i128| #![auto] !(!x) == x && !x != x,
        forall|x: isize| #![auto] !(!x) == x && !x != x,
{
}

impl Sealed for u8 {}
impl DisInt for u8 {
    open spec fn complement(self) -> u8 { !self }
    proof fn lemma_complement(x: u8) { lemma_not_involution(); }
    fn invert(self) -> (r: u8) { !self }
    fn same(self, other: u8) -> (r: bool) { self == other }
}

impl Sealed for u16 {}
impl DisInt for u16 {
    open spec fn complement(self) -> u16 { !self }
    proof fn lemma_complement(x: u16) { lemma_not_involution(); }
    fn invert(self) -> (r: u16) { !self }
    fn same(self, other: u16) -> (r: bool) { self == other }
}

impl Sealed for u32 {}
impl DisInt for u32 {
    open spec fn complement(self) -> u32 { !self }
    proof fn lemma_complement(x: u32) { lemma_not_involution(); }
    fn invert(self) -> (r: u32) { !self }
    fn same(self, other: u32) -> (r: bool) { self == other }
}

impl Sealed for u64 {}
impl DisInt for u64 {
    open spec fn complement(self) -> u64 { !self }
    proof fn lemma_complement(x: u64) { lemma_not_involution(); }
    fn invert(self) -> (r: u64) { !self }
    fn same(self, other: u64) -> (r: bool) { self == other }
}

impl Sealed for u128 {}
impl DisInt for u128 {
    open spec fn complement(self) -> u128 { !self }
    proof fn lemma_complement(x: u128) { lemma_not_involution(); }
    fn invert(self) -> (r: u128) { !self }
    fn same(self, other: u128) -> (r: bool) { self == other }
}

impl Sealed for usize {}
impl DisInt for usize {
    open spec fn complement(self) -> usize { !self }
    proof fn lemma_complement(x: usize) { lemma_not_involution(); }
    fn invert(self) -> (r: usize) { !self }
    fn same(self, other: usize) -> (r: bool) { self == other }
}

impl Sealed for i8 {}
impl DisInt for i8 {
    open spec fn complement(self) -> i8 { !self }
    proof fn lemma_complement(x: i8) { lemma_not_involution(); }
    fn invert(self) -> (r: i8) { !self }
    fn same(self, other: i8) -> (r: bool) { self == other }
}

impl Sealed for i16 {}
impl DisInt for i16 {
    open spec fn complement(self) -> i16 { !self }
    proof fn lemma_complement(x: i16) { lemma_not_involution(); }
    fn invert(self) -> (r: i16) { !self }
    fn same(self, other: i16) -> (r: bool) { self == other }
}

impl Sealed for i32 {}
impl DisInt for i32 {
    open spec fn complement(self) -> i32 { !self }
    proof fn lemma_complement(x: i32) { lemma_not_involution(); }
    fn invert(self) -> (r: i32) { !self }
    fn same(self, other: i32) -> (r: bool) { self == other }
}

impl Sealed for i64 {}
impl DisInt for i64 {
    open spec fn complement(self) -> i64 { !self }
    proof fn lemma_complement(x: i64) { lemma_not_involution(); }
    fn invert(self) -> (r: i64) { !self }
    fn same(self, other: i64) -> (r: bool) { self == other }
}

impl Sealed for i128 {}
impl DisInt for i128 {
    open spec fn complement(self) -> i128 { !self }
    proof fn lemma_complement(x: i128) { lemma_not_involution(); }
    fn invert(self) -> (r: i128) { !self }
    fn same(self, other: i128) -> (r: bool) { self == other }
}

impl Sealed for isize {}
impl DisInt for isize {
    open spec fn complement(self) -> isize { !self }
    proof fn lemma_complement(x: isize) { lemma_not_involution(); }
    fn invert(self) -> (r: isize) { !self }
    fn same(self, other: isize) -> (r: bool) { self == other }
}

/// A scalar stored together with its bitwise complement.
#[derive(Clone, Copy)]
pub struct Dis<T: DisInt> {
    value: T,
    inverse: T,
}

impl<T: DisInt> View for Dis<T> {
    type V = T;

    /// The protected value.
    closed spec fn view(&self) -> T {
        self.value
    }
}

impl<T: DisInt> Dis<T> {
    /// The redundant (complemented) copy.
    pub closed spec fn redundant(self) -> T {
        self.inverse
    }

    /// The two halves are exact complements of each other.
    pub open spec fn intact(self) -> bool {
        self@ == self.redundant().complement()
    }

    /// Wraps `value`, computing its complement.
    pub fn new(value: T) -> (d: Dis<T>)
        ensures
            d@ == value,
            d.intact(),
    {
        proof { T::lemma_complement(value); }
        Dis { value, inverse: value.invert() }
    }

    /// Reads the protected value; the storage must be intact (a corrupted
    /// read is a fault).
    pub fn get(&self) -> (v: T)
        requires
            self.intact(),
        ensures
            v == self@,
    {
        self.value
    }

    /// Overwrites the value, refreshing its complement.
    pub fn set(&mut self, value: T)
        ensures
            final(self)@ == value,
            final(self).intact(),
    {
        proof { T::lemma_complement(value); }
        self.value = value;
        self.inverse = value.invert();
    }

    /// Whether the two halves are consistent, without faulting.
    pub fn is_intact(&self) -> (r: bool)
        ensures
            r == self.intact(),
    {
        self.value.same(self.inverse.invert())
    }

    /// Flips the redundant copy without touching the value (simulates a
    /// storage upset).
    pub fn corrupt_for_test(&mut self)
        ensures
            final(self)@ == old(self)@,
            final(self).redundant() == old(self).redundant().complement(),
            old(self).intact() ==> !final(self).intact(),
    {
        proof {
            T::lemma_complement(self.inverse);
            T::lemma_complement(self.inverse.complement());
        }
        self.inverse = self.inverse.invert();
    }
}

impl Dis<usize> {
    /// Constructor for the `usize` specialisation.
    pub fn new_usize(value: usize) -> (d: Dis<usize>)
        ensures
            d@ == value,
            d.intact(),
    {
        Dis::new(value)
    }
}

/// Duplicate storage: two identical copies of a value.
#[derive(Clone, Copy)]
pub struct Dup<T: DisInt> {
    a: T,
    b: T,
}

impl<T: DisInt> View for Dup<T> {
    type V = T;

    /// The protected value (the primary copy).
    closed spec fn view(&self) -> T {
        self.a
    }
}

impl<T: DisInt> Dup<T> {
    /// The secondary copy.
    pub closed spec fn copy(self) -> T {
        self.b
    }

    /// Both copies agree.
    pub open spec fn intact(self) -> bool {
        self@ == self.copy()
    }

    /// Stores `value` in both copies.
    pub fn new(value: T) -> (d: Dup<T>)
        ensures
            d@ == value,
            d.intact(),
    {
        Dup { a: value, b: value }
    }

    /// Reads the protected value; both copies must agree.
    pub fn get(&self) -> (v: T)
        requires
            self.intact(),
        ensures
            v == self@,
    {
        self.a
    }

    /// Overwrites both copies.
    pub fn set(&mut self, value: T)
        ensures
            final(self)@ == value,
            final(self).intact(),
    {
        self.a = value;
        self.b = value;
    }

    /// Whether both copies agree, without faulting.
    pub fn is_intact(&self) -> (r: bool)
        ensures
            r == self.intact(),
    {
        self.a.same(self.b)
    }

    /// Replaces the secondary copy only (simulates a storage upset).
    pub fn corrupt_with(&mut self, other: T)
        ensures
            final(self)@ == old(self)@,
            final(self).copy() == other,
            final(self).intact() == (old(self)@ == other),
    {
        self.b = other;
    }
}

/// The single-word encoding of a 16-bit count and its complement: low half the
/// count, high half its bitwise complement.
pub open spec fn packed_count(v: u16) -> u32 {
    (v as u32) | (((!v) as u32) << 16u32)
}

/// Encodes a 16-bit count together with its complement in one word.
pub fn pack_count(v: u16) -> (w: u32)
    ensures
        w == packed_count(v),
        w as u16 == v,
        (w >> 16u32) as u16 == !v,
{
    let w = (v as u32) | (((!v) as u32) << 16u32);
    assert(w as u16 == v && (w >> 16u32) as u16 == !v) by (bit_vector)
        requires
            w == (v as u32) | (((!v) as u32) << 16u32),
    ;
    w
}

/// Decodes a packed count: the count when the two halves are complements of
/// each other, `None` when the word is corrupted.
pub fn unpack_count(word: u32) -> (r: Option<u16>)
    ensures
        r == (if word as u16 == !((word >> 16u32) as u16) {
            Some(word as u16)
        } else {
            None::<u16>
        }),
        r.is_some() ==> word == packed_count(r.unwrap()),
{
    let lo = word as u16;
    let hi = (word >> 16u32) as u16;
    if lo == !hi {
        assert(word == (lo as u32) | (((!lo) as u32) << 16u32)) by (bit_vector)
            requires
                lo == word as u16,
                hi == (word >> 16u32) as u16,
                lo == !hi,
        ;
        Some(lo)
    } else {
        None
    }
}

/// One increment of a packed count: the new word, or `None` when the word
/// is corrupted or the count would overflow.
pub fn increment_word(word: u32) -> (r: Option<u32>)
    ensures
        r == (match unpacked(word) {
            Some(v) => if v < u16::MAX { Some(packed_count((v + 1) as u16)) } else { None::<u32> },
            None => None::<u32>,
        }),
{
    match unpack_count(word) {
        Some(v) => {
            if v < u16::MAX {
                Some(pack_count(v + 1))
            } else {
                None
            }
        },
        None => None,
    }
}

/// One decrement of a packed count: the new word and the count before it,
/// or `None` when the word is corrupted or the count is already zero (a
/// double release).
pub fn decrement_word(word: u32) -> (r: Option<(u32, u16)>)
    ensures
        r == (match unpacked(word) {
            Some(v) => if v > 0 { Some((packed_count((v - 1) as u16), v)) } else { None::<(u32, u16)> },
            None => None::<(u32, u16)>,
        }),
{
    match unpack_count(word) {
        Some(v) => {
            if v > 0 {
                Some((pack_count(v - 1), v))
            } else {
                None
            }
        },
        None => None,
    }
}

/// The count a packed word holds, when its halves agree.
pub open spec fn unpacked(word: u32) -> Option<u16> {
    if word as u16 == !((word >> 16u32) as u16) {
        Some(word as u16)
    } else {
        None
    }
}

/// Law: a packed count reads back as the count.
pub proof fn lemma_pack_unpack(v: u16)
    ensures
        unpacked(packed_count(v)) == Some(v),
{
    let w = packed_count(v);
    assert(w as u16 == v && (w >> 16u32) as u16 == !v) by (bit_vector)
        requires
            w == (v as u32) | (((!v) as u32) << 16u32),
    ;
    assert(!(!v) == v) by (bit_vector);
}

/// Law: an increment followed by a decrement gives the word back.
pub proof fn lemma_increment_decrement(v: u16)
    requires
        v < u16::MAX,
    ensures
        unpacked(packed_count((v + 1) as u16)) == Some((v + 1) as u16),
        ((v + 1) as u16 - 1) as u16 == v,
{
    lemma_pack_unpack((v + 1) as u16);
}

} // verus!
