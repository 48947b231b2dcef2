//! Signals and events.
//!
//! A [`Signal`] is an opaque 16-bit identifier. Values below
//! [`FIRST_USER_SIG`] are reserved for the framework; application signals
//! start at that value. An [`Event`] pairs an [`EventHeader`] (signal, pool id,
//! reference count) with a payload.

use vstd::prelude::*;
use std::sync::Arc;

verus! {

/// First signal value legal for application code (values `0..4` are the
/// framework's empty/entry/exit/init signals).
pub const FIRST_USER_SIG: u16 = 4;

/// Identifier of a signal.
#[derive(Debug, Default, Clone, Copy, PartialEq, Eq, Structural, PartialOrd, Ord, Hash)]
pub struct Signal(u16);

impl View for Signal {
    type V = u16;

    closed spec fn view(&self) -> u16 {
        self.0
    }
}

impl Signal {
    /// A framework-reserved signal; `n` must lie below [`FIRST_USER_SIG`].
    pub fn reserved(n: u16) -> (s: Signal)
        requires
            n < FIRST_USER_SIG,
        ensures
            s@ == n,
    {
        Signal(n)
    }

    /// An application signal; `n` must not be a reserved value.
    pub fn user(n: u16) -> (s: Signal)
        requires
            n >= FIRST_USER_SIG,
        ensures
            s@ == n,
    {
        Signal(n)
    }

    /// The raw numeric value.
    pub fn raw(self) -> (r: u16)
        ensures
            r == self@,
    {
        self.0
    }

    /// A signal from any runtime value, with no range check.
    pub fn from_raw(n: u16) -> (s: Signal)
        ensures
            s@ == n,
    {
        Signal(n)
    }
}

/// A named, contiguous block of user-signal values `[base, base + len)`.
#[derive(Debug, Clone, Copy)]
pub struct SignalBlock {
    /// Human-readable name of the block.
    pub name: &'static str,
    /// First signal value of the block (inclusive).
    pub base: u16,
    /// Number of signal values the block reserves.
    pub len: u16,
}

/// Whether the half-open ranges `[a, a_end)` and `[b, b_end)` intersect.
pub open spec fn ranges_overlap(a: int, a_end: int, b: int, b_end: int) -> bool {
    a < b_end && b < a_end
}

/// Exclusive end of a block, as a mathematical integer.
pub open spec fn block_end(b: SignalBlock) -> int {
    b.base + b.len
}

/// No two distinct blocks of `blocks` overlap.
pub open spec fn blocks_disjoint(blocks: Seq<SignalBlock>) -> bool {
    forall|i: int, j: int|
        0 <= i < j < blocks.len() ==> !ranges_overlap(
            blocks[i].base as int,
            block_end(blocks[i]),
            blocks[j].base as int,
            block_end(blocks[j]),
        )
}

impl SignalBlock {
    /// Declares a block of `len` values starting at `base`; `base` must be a
    /// user value, `len` nonzero, and the block must fit in 16 bits.
    pub fn new(name: &'static str, base: u16, len: u16) -> (b: SignalBlock)
        requires
            base >= FIRST_USER_SIG,
            len > 0,
            base + len <= u16::MAX,
        ensures
            b.name == name,
            b.base == base,
            b.len == len,
    {
        SignalBlock { name, base, len }
    }

    /// First value past the end of the block.
    pub fn end(&self) -> (e: u16)
        requires
            self.base + self.len <= u16::MAX,
        ensures
            e == self.base + self.len,
    {
        self.base + self.len
    }
}

/// Checks that no two blocks overlap; overlapping blocks are a
/// configuration error, ruled out by the `requires`.
pub fn assert_no_overlap(blocks: &[SignalBlock])
    requires
        forall|i: int| 0 <= i < blocks@.len() ==> #[trigger] blocks@[i].base + blocks@[i].len <= u16::MAX,
        blocks_disjoint(blocks@),
{
    let mut i: usize = 0;
    while i < blocks.len()
        invariant
            i <= blocks@.len(),
            forall|k: int| 0 <= k < blocks@.len() ==> #[trigger] blocks@[k].base + blocks@[k].len <= u16::MAX,
            blocks_disjoint(blocks@),
        decreases blocks@.len() - i,
    {
        let mut j: usize = i + 1;
        while j < blocks.len()
            invariant
                i < blocks@.len(),
                i + 1 <= j <= blocks@.len(),
                forall|k: int| 0 <= k < blocks@.len() ==> #[trigger] blocks@[k].base + blocks@[k].len <= u16::MAX,
                blocks_disjoint(blocks@),
            decreases blocks@.len() - j,
        {
            let a = &blocks[i];
            let b = &blocks[j];
            let overlaps = a.base < b.end() && b.base < a.end();
            assert(!ranges_overlap(
                blocks@[i as int].base as int,
                block_end(blocks@[i as int]),
                blocks@[j as int].base as int,
                block_end(blocks@[j as int]),
            ));
            assert(!overlaps);
            j += 1;
        }
        i += 1;
    }
}

/// Whether a sequence of blocks is pairwise disjoint, as a runtime check.
pub fn blocks_are_disjoint(blocks: &[SignalBlock]) -> (r: bool)
    requires
        forall|i: int| 0 <= i < blocks@.len() ==> #[trigger] blocks@[i].base + blocks@[i].len <= u16::MAX,
    ensures
        r == blocks_disjoint(blocks@),
{
    let mut i: usize = 0;
    while i < blocks.len()
        invariant
            i <= blocks@.len(),
            forall|k: int| 0 <= k < blocks@.len() ==> #[trigger] blocks@[k].base + blocks@[k].len <= u16::MAX,
            forall|p: int, q: int|
                0 <= p < i && p < q < blocks@.len() ==> !ranges_overlap(
                    blocks@[p].base as int,
                    block_end(blocks@[p]),
                    blocks@[q].base as int,
                    block_end(blocks@[q]),
                ),
        decreases blocks@.len() - i,
    {
        let mut j: usize = i + 1;
        while j < blocks.len()
            invariant
                i < blocks@.len(),
                i + 1 <= j <= blocks@.len(),
                forall|k: int| 0 <= k < blocks@.len() ==> #[trigger] blocks@[k].base + blocks@[k].len <= u16::MAX,
                forall|p: int, q: int|
                    0 <= p < i && p < q < blocks@.len() ==> !ranges_overlap(
                        blocks@[p].base as int,
                        block_end(blocks@[p]),
                        blocks@[q].base as int,
                        block_end(blocks@[q]),
                    ),
                forall|q: int|
                    i < q < j ==> !ranges_overlap(
                        blocks@[i as int].base as int,
                        block_end(blocks@[i as int]),
                        blocks@[q].base as int,
                        block_end(blocks@[q]),
                    ),
            decreases blocks@.len() - j,
        {
            let a = &blocks[i];
            let b = &blocks[j];
            if a.base < b.end() && b.base < a.end() {
                assert(ranges_overlap(
                    blocks@[i as int].base as int,
                    block_end(blocks@[i as int]),
                    blocks@[j as int].base as int,
                    block_end(blocks@[j as int]),
                ));
                return false;
            }
            j += 1;
        }
        i += 1;
    }
    true
}

/// Metadata shared by all events.
#[derive(Debug, Clone, Copy)]
pub struct EventHeader {
    /// Event signal.
    pub signal: Signal,
    /// Pool the event was obtained from, if any.
    pub pool_id: Option<u8>,
    /// Reference count for pool-managed events.
    pub ref_count: u8,
}

impl EventHeader {
    /// Header for `signal`: no pool, reference count 1.
    pub fn new(signal: Signal) -> (h: EventHeader)
        ensures
            h.signal == signal,
            h.pool_id.is_none(),
            h.ref_count == 1,
    {
        EventHeader { signal, pool_id: None, ref_count: 1 }
    }

    /// The header tagged with the originating pool id.
    pub fn with_pool(self, pool_id: u8) -> (h: EventHeader)
        ensures
            h.signal == self.signal,
            h.pool_id == Some(pool_id),
            h.ref_count == self.ref_count,
    {
        let mut h = self;
        h.pool_id = Some(pool_id);
        h
    }

    /// The header with the given reference count.
    pub fn with_ref_count(self, ref_count: u8) -> (h: EventHeader)
        ensures
            h.signal == self.signal,
            h.pool_id == self.pool_id,
            h.ref_count == ref_count,
    {
        let mut h = self;
        h.ref_count = ref_count;
        h
    }
}

/// An event: header plus payload.
#[derive(Debug, Clone)]
pub struct Event<T> {
    /// Shared event metadata.
    pub header: EventHeader,
    /// Application payload.
    pub payload: T,
}

impl<T> Event<T> {
    /// An event carrying `payload` for `signal`, with a fresh header.
    pub fn new(signal: Signal, payload: T) -> (e: Event<T>)
        ensures
            e.header.signal == signal,
            e.header.pool_id.is_none(),
            e.header.ref_count == 1,
            e.payload == payload,
    {
        Event { header: EventHeader::new(signal), payload }
    }

    /// The event's signal.
    pub fn signal(&self) -> (s: Signal)
        ensures
            s == self.header.signal,
    {
        self.header.signal
    }
}

impl Event<()> {
    /// A signal-only event with no payload.
    pub fn empty(signal: Signal) -> (e: Event<()>)
        ensures
            e.header.signal == signal,
            e.header.pool_id.is_none(),
            e.header.ref_count == 1,
    {
        Event::new(signal, ())
    }
}

/// The payloads the framework and the RF stack exchange through type-erased
/// events.
#[derive(Debug, Clone)]
pub enum Payload {
    /// Signal-only event.
    Empty,
    /// An application-defined numeric value.
    Word(u64),
    /// Raw bytes.
    Bytes(Vec<u8>),
    /// A transmit request for the RF stack.
    TxReq(crate::comms::events::RfTxReqPayload),
    /// A frame delivered by the RF stack.
    RxFrame(crate::comms::events::RfRxFramePayload),
    /// A PHY interrupt report.
    PhyIrq(crate::comms::events::PhyIrqPayload),
}

/// Shared, type-erased event payload.
pub type DynPayload = Arc<Payload>;

/// The event envelope the kernels deliver to active objects.
pub type DynEvent = Event<DynPayload>;

/// Another handle on a shared payload. Calls `Arc::clone`, which the
/// standard library documents as making a new pointer to the same
/// allocation; the contract claims only that the handle designates the same
/// payload value.
#[verifier::external_body]
fn share_payload(p: &DynPayload) -> (r: DynPayload)
    ensures
        r == *p,
{
    Arc::clone(p)
}

impl Event<DynPayload> {
    /// A dynamic event from an already shared payload.
    pub fn with_arc(signal: Signal, payload: DynPayload) -> (e: DynEvent)
        ensures
            e.header.signal == signal,
            e.header.pool_id.is_none(),
            e.header.ref_count == 1,
            e.payload == payload,
    {
        Event::new(signal, payload)
    }

    /// A copy of this event sharing its payload, with its signal replaced.
    pub fn retarget(&self, signal: Signal) -> (e: DynEvent)
        ensures
            e.header.signal == signal,
            e.header.pool_id == self.header.pool_id,
            e.header.ref_count == self.header.ref_count,
            e.payload == self.payload,
    {
        let header = EventHeader { signal, pool_id: self.header.pool_id, ref_count: self.header.ref_count };
        Event { header, payload: share_payload(&self.payload) }
    }

    /// A signal-only dynamic event.
    pub fn empty_dyn(signal: Signal) -> (e: DynEvent)
        ensures
            e.header.signal == signal,
            e.header.pool_id.is_none(),
            e.header.ref_count == 1,
            *e.payload == Payload::Empty,
    {
        Event::with_arc(signal, Arc::new(Payload::Empty))
    }

    /// A dynamic event carrying `payload`.
    pub fn with_payload(signal: Signal, payload: Payload) -> (e: DynEvent)
        ensures
            e.header.signal == signal,
            e.header.pool_id.is_none(),
            e.header.ref_count == 1,
            *e.payload == payload,
    {
        Event::with_arc(signal, Arc::new(payload))
    }
}

} // verus!
