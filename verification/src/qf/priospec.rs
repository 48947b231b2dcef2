//! Priority and preemption threshold packed into one 16-bit word: the base
//! priority in the low byte, the threshold in the high byte (a zero threshold
//! byte means "same as the priority").

use vstd::prelude::*;

verus! {

/// Packed priority specification.
#[derive(Debug, Clone, Copy, PartialEq, Eq, Structural, PartialOrd, Ord)]
pub struct QPrioSpec(pub u16);

/// The packed word for a priority and threshold.
pub open spec fn prio_word(priority: u8, threshold: u8) -> u16 {
    (priority as u16) | ((threshold as u16) << 8u16)
}

/// The low byte of a packed word.
pub open spec fn low_byte(w: u16) -> u8 {
    (w & 0xFFu16) as u8
}

/// The high byte of a packed word.
pub open spec fn high_byte(w: u16) -> u8 {
    (w >> 8u16) as u8
}

proof fn lemma_bytes_of_word(priority: u8, threshold: u8)
    ensures
        low_byte(prio_word(priority, threshold)) == priority,
        high_byte(prio_word(priority, threshold)) == threshold,
{
    assert(((((priority as u16) | ((threshold as u16) << 8u16)) & 0xFFu16) as u8) == priority
        && ((((priority as u16) | ((threshold as u16) << 8u16)) >> 8u16) as u8) == threshold)
        by (bit_vector);
}

impl QPrioSpec {
    /// The effective threshold: the high byte, or the priority when it is zero.
    pub open spec fn threshold_of(self) -> u8 {
        if high_byte(self.0) == 0 {
            low_byte(self.0)
        } else {
            high_byte(self.0)
        }
    }

    /// Packs a base priority and a preemption threshold.
    pub fn new(priority: u8, threshold: u8) -> (p: QPrioSpec)
        ensures
            p.0 == prio_word(priority, threshold),
            low_byte(p.0) == priority,
            high_byte(p.0) == threshold,
    {
        proof { lemma_bytes_of_word(priority, threshold); }
        QPrioSpec((priority as u16) | ((threshold as u16) << 8u16))
    }

    /// A specification whose threshold equals its priority.
    pub fn priority_only(priority: u8) -> (p: QPrioSpec)
        ensures
            p.0 == prio_word(priority, priority),
            low_byte(p.0) == priority,
            p.threshold_of() == priority,
    {
        QPrioSpec::new(priority, priority)
    }

    /// The base priority.
    pub fn priority(self) -> (r: u8)
        ensures
            r == low_byte(self.0),
    {
        (self.0 & 0xFFu16) as u8
    }

    /// The preemption threshold; a zero threshold byte yields the priority.
    pub fn threshold(self) -> (r: u8)
        ensures
            r == self.threshold_of(),
    {
        let th = (self.0 >> 8u16) as u8;
        if th == 0 {
            self.priority()
        } else {
            th
        }
    }
}

/// Same as [`QPrioSpec::new`].
pub fn q_prio(priority: u8, threshold: u8) -> (p: QPrioSpec)
    ensures
        p.0 == prio_word(priority, threshold),
        low_byte(p.0) == priority,
        high_byte(p.0) == threshold,
{
    QPrioSpec::new(priority, threshold)
}

/// Law: packing then reading back gives the priority, and the threshold
/// (or the priority, when the threshold is zero).
pub proof fn lemma_prio_spec_round_trip(priority: u8, threshold: u8)
    ensures
        low_byte(prio_word(priority, threshold)) == priority,
        QPrioSpec(prio_word(priority, threshold)).threshold_of()
            == (if threshold == 0 { priority } else { threshold }),
{
    lemma_bytes_of_word(priority, threshold);
}

} // verus!
