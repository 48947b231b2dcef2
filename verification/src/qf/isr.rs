//! Interrupt nesting depth, kept by the port around interrupt handlers.

use vstd::prelude::*;

verus! {

/// Depth of interrupt nesting (0: thread context).
#[derive(Debug, Default, Clone, Copy)]
pub struct IsrNesting {
    depth: u8,
}

impl View for IsrNesting {
    type V = u8;

    closed spec fn view(&self) -> u8 {
        self.depth
    }
}

impl IsrNesting {
    /// Thread context: depth 0.
    pub fn new() -> (n: IsrNesting)
        ensures
            n@ == 0,
    {
        IsrNesting { depth: 0 }
    }

    /// Current depth.
    pub fn isr_nesting(&self) -> (d: u8)
        ensures
            d == self@,
    {
        self.depth
    }

    /// Whether an interrupt handler is running.
    pub fn in_isr(&self) -> (b: bool)
        ensures
            b == (self@ > 0),
    {
        self.depth > 0
    }

    /// Entry into an interrupt handler (the counter wraps as an 8-bit
    /// atomic would).
    pub fn isr_enter(&mut self)
        ensures
            final(self)@ == old(self)@.wrapping_add(1),
    {
        self.depth = self.depth.wrapping_add(1);
    }

    /// Exit from an interrupt handler; there must be one to leave.
    pub fn isr_exit(&mut self)
        requires
            old(self)@ > 0,
        ensures
            final(self)@ == old(self)@ - 1,
    {
        self.depth = self.depth - 1;
    }
}

/// Law: leaving an interrupt handler undoes entering it.
pub proof fn lemma_enter_exit(d: u8)
    requires
        d < 255,
    ensures
        (d.wrapping_add(1) - 1) as u8 == d,
        d.wrapping_add(1) > 0,
{
}

/// Net number of entries in a run of interrupt entries (`true`) and exits
/// (`false`).
pub open spec fn net_entries(ops: Seq<bool>) -> int
    decreases ops.len(),
{
    if ops.len() == 0 {
        0
    } else {
        net_entries(ops.drop_last()) + if ops.last() {
            1int
        } else {
            -1int
        }
    }
}

/// `h` holds the nesting depth before and after each of `ops`, as
/// [`IsrNesting::isr_enter`] and [`IsrNesting::isr_exit`] leave it.
pub open spec fn isr_history(h: Seq<u8>, ops: Seq<bool>) -> bool {
    &&& h.len() == ops.len() + 1
    &&& forall|k: int| 0 <= k < ops.len() ==> (if #[trigger] ops[k] {
        h[k + 1] == h[k].wrapping_add(1)
    } else {
        h[k] > 0 && h[k + 1] == h[k] - 1
    })
}

/// Law: as long as the depth never wraps, the depth after a run of
/// entries and exits is the depth before plus the net number of entries;
/// a balanced run (as many exits as entries) comes back to where it began.
pub proof fn lemma_isr_history(h: Seq<u8>, ops: Seq<bool>)
    requires
        isr_history(h, ops),
        forall|k: int| 0 <= k < ops.len() && #[trigger] ops[k] ==> h[k] < 255,
    ensures
        h.last() == h[0] + net_entries(ops),
    decreases ops.len(),
{
    if ops.len() > 0 {
        let n = ops.len() - 1;
        let h2 = h.drop_last();
        let o2 = ops.drop_last();
        assert forall|k: int| 0 <= k < o2.len() implies (if #[trigger] o2[k] {
            h2[k + 1] == h2[k].wrapping_add(1)
        } else {
            h2[k] > 0 && h2[k + 1] == h2[k] - 1
        }) by {
            assert(ops[k] == o2[k]);
        }
        assert forall|k: int| 0 <= k < o2.len() && #[trigger] o2[k] implies h2[k] < 255 by {
            assert(ops[k] == o2[k]);
        }
        lemma_isr_history(h2, o2);
        assert(h2.last() == h[n]);
        assert(ops[n] == ops.last());
        if ops[n] {
            assert(h[n] < 255);
        }
    }
}

} // verus!
