//! Network layer: a 3-byte `[src, dst, proto]` header and a table routing
//! ports to application signals.

use vstd::prelude::*;
use crate::comms::buf::Frame;
use crate::comms::error::CommsError;
use crate::comms::stack::Layer;
use crate::comms::transport::TransportAction;
use crate::qf::event::Signal;

verus! {

/// Number of port bindings the routing table holds.
pub const MAX_PORT_BINDINGS: usize = 8;

/// Length of the network header.
pub const NET_HEADER_LEN: usize = 3;

/// Destination address every node accepts.
pub const BROADCAST_ADDR: u8 = 0xFF;

/// Address a new network layer gives its node.
pub const DEFAULT_NODE_ADDR: u8 = 0x01;

/// Routes a port (a LoRaWAN FPort or other service identifier) to a signal.
#[derive(Debug, Clone, Copy, PartialEq, Eq, Structural)]
pub struct PortBinding {
    /// The port.
    pub port: u8,
    /// Signal posted for frames on that port.
    pub signal: Signal,
}

/// Whether slot `i` is the first free slot of a binding table.
pub open spec fn is_first_free(t: Seq<Option<PortBinding>>, i: int) -> bool {
    &&& 0 <= i < t.len()
    &&& t[i] is None
    &&& forall|j: int| 0 <= j < i ==> #[trigger] t[j] is Some
}

/// Index of the first free slot of a binding table, if any.
pub open spec fn first_free(t: Seq<Option<PortBinding>>) -> Option<int> {
    if exists|i: int| is_first_free(t, i) {
        Some(choose|i: int| is_first_free(t, i))
    } else {
        None
    }
}

/// The first free slot is unique.
proof fn lemma_first_free_at(t: Seq<Option<PortBinding>>, k: int)
    requires
        is_first_free(t, k),
    ensures
        first_free(t) == Some(k),
{
    let c = choose|i: int| is_first_free(t, i);
    assert(is_first_free(t, c));
    if c < k {
        assert(t[c] is Some);
    }
    if c > k {
        assert(t[k] is Some);
    }
}

/// Signal bound to `port` by the first matching slot of a binding table.
pub open spec fn route(t: Seq<Option<PortBinding>>, port: u8) -> Option<Signal>
    decreases t.len(),
{
    if t.len() == 0 {
        None
    } else if t[0] is Some && t[0]->Some_0.port == port {
        Some(t[0]->Some_0.signal)
    } else {
        route(t.drop_first(), port)
    }
}

/// A port that no slot binds routes nowhere.
pub proof fn lemma_route_unbound(t: Seq<Option<PortBinding>>, port: u8)
    requires
        forall|i: int| 0 <= i < t.len() ==> #[trigger] t[i] is None || t[i]->Some_0.port != port,
    ensures
        route(t, port) is None,
    decreases t.len(),
{
    if t.len() > 0 {
        assert(t[0] is None || t[0]->Some_0.port != port);
        assert forall|i: int| 0 <= i < t.drop_first().len() implies #[trigger] t.drop_first()[i] is None
            || t.drop_first()[i]->Some_0.port != port by {
            assert(t.drop_first()[i] == t[i + 1]);
        }
        lemma_route_unbound(t.drop_first(), port);
    }
}

/// The first `n` slots of a table holding the bindings `binds`, in order,
/// in its first slots and nothing after them.
pub open spec fn table_of(binds: Seq<(u8, Signal)>, n: nat) -> Seq<Option<PortBinding>> {
    Seq::new(
        n,
        |i: int|
            if i < binds.len() {
                Some(PortBinding { port: binds[i].0, signal: binds[i].1 })
            } else {
                None
            },
    )
}

/// The signal of the first of `binds` for `port`, if any.
pub open spec fn first_bound(binds: Seq<(u8, Signal)>, port: u8) -> Option<Signal>
    decreases binds.len(),
{
    if binds.len() == 0 {
        None
    } else if binds[0].0 == port {
        Some(binds[0].1)
    } else {
        first_bound(binds.drop_first(), port)
    }
}

/// A table holding `binds` routes each port as the first of them that binds
/// it, and routes the other ports nowhere.
proof fn lemma_route_table_of(binds: Seq<(u8, Signal)>, n: nat, port: u8)
    requires
        binds.len() <= n,
    ensures
        route(table_of(binds, n), port) == first_bound(binds, port),
    decreases binds.len(),
{
    let t = table_of(binds, n);
    if binds.len() == 0 {
        lemma_route_unbound(t, port);
    } else {
        assert(t.drop_first() =~= table_of(binds.drop_first(), (n - 1) as nat));
        lemma_route_table_of(binds.drop_first(), (n - 1) as nat, port);
    }
}

/// Law: a table that holds exactly the bindings `binds` that succeeded so
/// far, in order, takes a further binding exactly while it holds fewer than
/// [`MAX_PORT_BINDINGS`], and then holds `binds` followed by it; `resolve`
/// on such a table gives, for each port, the signal of its first binding,
/// and nothing for a port never bound.
pub proof fn lemma_bind_history(binds: Seq<(u8, Signal)>, port: u8, signal: Signal, q: u8)
    requires
        binds.len() <= MAX_PORT_BINDINGS,
    ensures
        binds.len() < MAX_PORT_BINDINGS ==> first_free(table_of(binds, MAX_PORT_BINDINGS as nat)) == Some(binds.len() as int)
            && table_of(binds, MAX_PORT_BINDINGS as nat).update(binds.len() as int, Some(PortBinding { port, signal }))
            == table_of(binds.push((port, signal)), MAX_PORT_BINDINGS as nat),
        binds.len() == MAX_PORT_BINDINGS ==> first_free(table_of(binds, MAX_PORT_BINDINGS as nat)) is None,
        route(table_of(binds, MAX_PORT_BINDINGS as nat), q) == first_bound(binds, q),
{
    let t = table_of(binds, MAX_PORT_BINDINGS as nat);
    if binds.len() < MAX_PORT_BINDINGS {
        assert(is_first_free(t, binds.len() as int));
        lemma_first_free_at(t, binds.len() as int);
        assert(t.update(binds.len() as int, Some(PortBinding { port, signal })) =~= table_of(
            binds.push((port, signal)),
            MAX_PORT_BINDINGS as nat,
        ));
    } else {
        if exists|i: int| is_first_free(t, i) {
            let c = choose|i: int| is_first_free(t, i);
            assert(t[c] is Some);
        }
    }
    lemma_route_table_of(binds, MAX_PORT_BINDINGS as nat, q);
}

/// Header the network layer of node `addr` puts in front of a payload.
pub open spec fn net_header(addr: u8) -> Seq<u8> {
    seq![addr, BROADCAST_ADDR, 0u8]
}

/// Whether node `addr` accepts a frame whose header is `hdr`.
pub open spec fn accepts(addr: u8, hdr: Seq<u8>) -> bool {
    hdr[1] == addr || hdr[1] == BROADCAST_ADDR
}

/// Network layer with a port routing table.
pub struct Network {
    bindings: Vec<Option<PortBinding>>,
    address: u8,
}

impl Network {
    /// Well-formedness: the table has its full size.
    pub closed spec fn wf(&self) -> bool {
        self.bindings@.len() == MAX_PORT_BINDINGS
    }

    /// The routing table, slot by slot.
    pub closed spec fn table(&self) -> Seq<Option<PortBinding>> {
        self.bindings@
    }

    /// This node's address.
    pub closed spec fn addr(&self) -> u8 {
        self.address
    }

    /// A well-formed table has [`MAX_PORT_BINDINGS`] slots.
    pub proof fn lemma_table_len(&self)
        requires
            self.wf(),
        ensures
            self.table().len() == MAX_PORT_BINDINGS,
    {
    }

    /// A network layer at [`DEFAULT_NODE_ADDR`] with an empty table.
    pub fn new() -> (n: Network)
        ensures
            n.wf(),
            n.addr() == DEFAULT_NODE_ADDR,
            n.table().len() == MAX_PORT_BINDINGS,
            forall|i: int| 0 <= i < MAX_PORT_BINDINGS ==> #[trigger] n.table()[i] is None,
            n.table() == table_of(Seq::empty(), MAX_PORT_BINDINGS as nat),
    {
        Network::with_address(DEFAULT_NODE_ADDR)
    }

    /// A network layer at `address` with an empty table.
    pub fn with_address(address: u8) -> (n: Network)
        ensures
            n.wf(),
            n.addr() == address,
            n.table().len() == MAX_PORT_BINDINGS,
            forall|i: int| 0 <= i < MAX_PORT_BINDINGS ==> #[trigger] n.table()[i] is None,
            n.table() == table_of(Seq::empty(), MAX_PORT_BINDINGS as nat),
    {
        let mut bindings: Vec<Option<PortBinding>> = Vec::new();
        let mut k: usize = 0;
        while k < MAX_PORT_BINDINGS
            invariant
                k <= MAX_PORT_BINDINGS,
                bindings@.len() == k,
                forall|i: int| 0 <= i < k ==> #[trigger] bindings@[i] is None,
            decreases MAX_PORT_BINDINGS - k,
        {
            bindings.push(None);
            k = k + 1;
        }
        Network { bindings, address }
    }

    /// This node's address.
    pub fn address(&self) -> (a: u8)
        ensures
            a == self.addr(),
    {
        self.address
    }

    /// Binds `port` to `signal` in the first free slot; fails with
    /// [`CommsError::TableFull`] when no slot is free.
    pub fn bind(&mut self, port: u8, signal: Signal) -> (r: Result<(), CommsError>)
        requires
            old(self).wf(),
        ensures
            final(self).wf(),
            final(self).addr() == old(self).addr(),
            final(self).table().len() == old(self).table().len(),
            first_free(old(self).table()) is None ==> r == Err::<(), CommsError>(
                CommsError::TableFull,
            ) && final(self).table() == old(self).table(),
            first_free(old(self).table()) matches Some(i) ==> r is Ok && final(self).table()
                == old(self).table().update(i, Some(PortBinding { port, signal })),
    {
        let mut k: usize = 0;
        while k < self.bindings.len()
            invariant
                *self == *old(self),
                old(self).wf(),
                k <= MAX_PORT_BINDINGS,
                forall|j: int| 0 <= j < k ==> #[trigger] self.bindings@[j] is Some,
            decreases MAX_PORT_BINDINGS - k,
        {
            if self.bindings[k].is_none() {
                proof {
                    lemma_first_free_at(self.bindings@, k as int);
                }
                self.bindings.set(k, Some(PortBinding { port, signal }));
                return Ok(());
            }
            k = k + 1;
        }
        assert(first_free(self.bindings@) is None) by {
            if exists|i: int| is_first_free(self.bindings@, i) {
                let c = choose|i: int| is_first_free(self.bindings@, i);
                assert(self.bindings@[c] is Some);
            }
        }
        Err(CommsError::TableFull)
    }

    /// Signal bound to `port` (the first binding for it), if any.
    pub fn resolve(&self, port: u8) -> (r: Option<Signal>)
        requires
            self.wf(),
        ensures
            r == route(self.table(), port),
    {
        let mut k: usize = 0;
        assert(self.table().subrange(0, MAX_PORT_BINDINGS as int) =~= self.table());
        while k < self.bindings.len()
            invariant
                self.wf(),
                k <= MAX_PORT_BINDINGS,
                route(self.table(), port) == route(self.table().subrange(k as int, MAX_PORT_BINDINGS as int), port),
            decreases MAX_PORT_BINDINGS - k,
        {
            let ghost rest = self.table().subrange(k as int, MAX_PORT_BINDINGS as int);
            assert(rest.drop_first() =~= self.table().subrange(k + 1, MAX_PORT_BINDINGS as int));
            match self.bindings[k] {
                Some(b) => {
                    if b.port == port {
                        return Some(b.signal);
                    }
                },
                None => {},
            }
            k = k + 1;
        }
        None
    }
}

impl Default for Network {
    fn default() -> (n: Network)
        ensures
            n.wf(),
            n.addr() == DEFAULT_NODE_ADDR,
            n.table().len() == MAX_PORT_BINDINGS,
            forall|i: int| 0 <= i < MAX_PORT_BINDINGS ==> #[trigger] n.table()[i] is None,
    {
        Network::new()
    }
}

impl Layer for Network {
    open spec fn timeout_spec(self, a: TransportAction, after: Self) -> bool {
        a == TransportAction::Nothing && after == self
    }

    /// Nothing to retransmit at this layer.
    fn on_timeout(&mut self) -> (a: TransportAction) {
        TransportAction::Nothing
    }

    open spec fn down_spec(self, frame: Frame, r: Result<(), CommsError>, after: Self, frame_after: Frame) -> bool {
        &&& after == self
        &&& frame.head() < NET_HEADER_LEN ==> r == Err::<(), CommsError>(CommsError::BufferTooSmall)
            && frame_after == frame
        &&& frame.head() >= NET_HEADER_LEN ==> r is Ok && frame_after@ == net_header(self.addr()) + frame@
            && frame_after.head() == frame.head() - NET_HEADER_LEN
    }

    open spec fn up_spec(self, frame: Frame, r: Result<bool, CommsError>, after: Self, frame_after: Frame) -> bool {
        &&& after == self
        &&& frame@.len() < NET_HEADER_LEN ==> r == Ok::<bool, CommsError>(false) && frame_after == frame
        &&& frame@.len() >= NET_HEADER_LEN ==> {
            &&& frame_after@ == frame@.subrange(NET_HEADER_LEN as int, frame@.len() as int)
            &&& r == Ok::<bool, CommsError>(accepts(self.addr(), frame@.subrange(0, NET_HEADER_LEN as int)))
        }
    }

    /// Prepends `[address, broadcast, 0]`, keeping the headroom below it for
    /// the MAC layer; fails, changing nothing, without headroom.
    fn down(&mut self, frame: &mut Frame) -> (r: Result<(), CommsError>)
        ensures
            *final(self) == *old(self),
            old(frame).head() < NET_HEADER_LEN ==> r == Err::<(), CommsError>(
                CommsError::BufferTooSmall,
            ) && *final(frame) == *old(frame),
            old(frame).head() >= NET_HEADER_LEN ==> r is Ok && final(frame)@ == net_header(
                old(self).addr(),
            ) + old(frame)@ && final(frame).head() == old(frame).head() - NET_HEADER_LEN,
    {
        let hdr: Vec<u8> = vec![self.address, BROADCAST_ADDR, 0u8];
        assert(hdr@ =~= net_header(self.address));
        frame.prepend_header(hdr.as_slice())
    }

    /// Strips the header and accepts the frame when it is addressed to this
    /// node or broadcast; shorter frames are dropped untouched.
    fn up(&mut self, frame: &mut Frame) -> (r: Result<bool, CommsError>)
        ensures
            *final(self) == *old(self),
            old(frame)@.len() < NET_HEADER_LEN ==> r == Ok::<bool, CommsError>(false)
                && *final(frame) == *old(frame),
            old(frame)@.len() >= NET_HEADER_LEN ==> {
                &&& final(frame)@ == old(frame)@.subrange(
                    NET_HEADER_LEN as int,
                    old(frame)@.len() as int,
                )
                &&& r == Ok::<bool, CommsError>(
                    accepts(old(self).addr(), old(frame)@.subrange(0, NET_HEADER_LEN as int)),
                )
            },
    {
        if frame.len() < NET_HEADER_LEN {
            return Ok(false);
        }
        let hdr = match frame.strip_header(NET_HEADER_LEN) {
            Ok(v) => v,
            Err(e) => {
                return Err(e);
            },
        };
        let dst = hdr[1];
        if dst != self.address && dst != BROADCAST_ADDR {
            return Ok(false);
        }
        Ok(true)
    }
}

/// Law: a frame the network layer of node `addr` sends down is accepted by
/// every node's network layer, which hands back the payload unchanged.
pub proof fn lemma_network_round_trip(addr: u8, receiver: u8, payload: Seq<u8>)
    ensures
        ({
            let pdu = net_header(addr) + payload;
            &&& pdu.len() >= NET_HEADER_LEN
            &&& pdu.subrange(NET_HEADER_LEN as int, pdu.len() as int) == payload
            &&& accepts(receiver, pdu.subrange(0, NET_HEADER_LEN as int))
        }),
{
    let pdu = net_header(addr) + payload;
    assert(pdu.subrange(NET_HEADER_LEN as int, pdu.len() as int) =~= payload);
}

/// Law: after `bind` succeeds in an empty slot, `resolve` finds the binding
/// unless an earlier slot already routes the port.
pub proof fn lemma_bind_then_route(t: Seq<Option<PortBinding>>, port: u8, signal: Signal)
    requires
        first_free(t) is Some,
        route(t, port) is None,
    ensures
        route(t.update(first_free(t)->Some_0, Some(PortBinding { port, signal })), port) == Some(
            signal,
        ),
    decreases t.len(),
{
    let i = first_free(t)->Some_0;
    let t2 = t.update(i, Some(PortBinding { port, signal }));
    assert(is_first_free(t, i));
    if i == 0 {
    } else {
        assert(t[0] is Some);
        assert(t2[0] == t[0]);
        let rest = t.drop_first();
        assert(is_first_free(rest, i - 1)) by {
            assert forall|j: int| 0 <= j < i - 1 implies #[trigger] rest[j] is Some by {
                assert(rest[j] == t[j + 1]);
            }
        }
        lemma_first_free_at(rest, i - 1);
        assert(t2.drop_first() =~= rest.update(i - 1, Some(PortBinding { port, signal })));
        lemma_bind_then_route(rest, port, signal);
    }
}

/// Network layer that adds and checks nothing.
pub struct NoopNetwork;

impl Layer for NoopNetwork {
    open spec fn timeout_spec(self, a: TransportAction, after: Self) -> bool {
        a == TransportAction::Nothing && after == self
    }

    /// Nothing to retransmit at this layer.
    fn on_timeout(&mut self) -> (a: TransportAction) {
        TransportAction::Nothing
    }

    open spec fn down_spec(self, frame: Frame, r: Result<(), CommsError>, after: Self, frame_after: Frame) -> bool {
        r is Ok && frame_after == frame
    }

    open spec fn up_spec(self, frame: Frame, r: Result<bool, CommsError>, after: Self, frame_after: Frame) -> bool {
        r == Ok::<bool, CommsError>(true) && frame_after == frame
    }

    fn down(&mut self, frame: &mut Frame) -> (r: Result<(), CommsError>)
        ensures
            r is Ok,
            *final(frame) == *old(frame),
    {
        Ok(())
    }

    fn up(&mut self, frame: &mut Frame) -> (r: Result<bool, CommsError>)
        ensures
            r == Ok::<bool, CommsError>(true),
            *final(frame) == *old(frame),
    {
        Ok(true)
    }
}

} // verus!
