use qp_rs::comms::events::{
    rf_signal, RfTxReqPayload, RF_PHY_TX_DONE_SIG_VAL, RF_RX_FRAME_SIG_VAL, RF_RX_START_SIG_VAL,
    RF_TRANSPORT_TIMEOUT_SIG_VAL, RF_TX_DONE_SIG_VAL, RF_TX_FAIL_SIG_VAL, RF_TX_REQ_SIG_VAL,
};
use qp_rs::comms::fota::{FotaDriver, FotaStatus};
use qp_rs::comms::mac::noop::NoopMac;
use qp_rs::comms::net::NoopNetwork;
use qp_rs::comms::phy::{LoopbackPhy, RfRxConfig, RfTxConfig};
use qp_rs::comms::stack::{Layer, RfAoState, RfStack, RfStackAO};
use qp_rs::comms::transport::{ReliableTransport, UnreliableTransport};
use qp_rs::qf::active::{ActiveBehavior, ActiveContext, ActiveObject, ActiveObjectId};
use qp_rs::qf::event::{DynEvent, Payload};
use qp_rs::qf::kernel::QvKernel;

const RF_AO_ID: ActiveObjectId = ActiveObjectId(1);
const APP_ID: ActiveObjectId = ActiveObjectId(0);

fn eu868_tx() -> RfTxConfig {
    RfTxConfig { frequency_hz: 868_100_000, tx_power_dbm: 14 }
}

fn eu868_rx() -> RfRxConfig {
    RfRxConfig { frequency_hz: 868_100_000, timeout_ms: None }
}

/// Records the notifications the RF stack sends to the application.
struct CaptureAo {
    done: u32,
    fail: u32,
    frames: Vec<Vec<u8>>,
}

impl ActiveBehavior for CaptureAo {
    fn on_start(&mut self, _c: &mut ActiveContext) {}
    fn on_event(&mut self, _c: &mut ActiveContext, e: DynEvent) {
        let sig = e.signal().raw();
        if sig == RF_TX_DONE_SIG_VAL {
            self.done += 1;
        }
        if sig == RF_TX_FAIL_SIG_VAL {
            self.fail += 1;
        }
        if sig == RF_RX_FRAME_SIG_VAL {
            if let Payload::RxFrame(p) = &*e.payload {
                self.frames.push(p.data.clone());
            }
        }
    }
}

/// The two active objects of these tests.
enum Node<T: Layer> {
    Rf(RfStackAO<T, NoopNetwork, NoopMac, LoopbackPhy>),
    Capture(CaptureAo),
}

impl<T: Layer> ActiveBehavior for Node<T> {
    fn on_start(&mut self, c: &mut ActiveContext) {
        match self {
            Node::Rf(rf) => rf.on_start(c),
            Node::Capture(cap) => cap.on_start(c),
        }
    }
    fn on_event(&mut self, c: &mut ActiveContext, e: DynEvent) {
        match self {
            Node::Rf(rf) => rf.on_event(c, e),
            Node::Capture(cap) => cap.on_event(c, e),
        }
    }
}

fn build<T: Layer>(transport: T) -> QvKernel<Node<T>> {
    let stack = RfStack::new(transport, NoopNetwork, NoopMac, LoopbackPhy::new());
    let capture = ActiveObject::new(APP_ID, 1, Node::Capture(CaptureAo { done: 0, fail: 0, frames: vec![] }));
    let rf_ao = ActiveObject::new(RF_AO_ID, 2, Node::Rf(RfStackAO::new(stack, eu868_tx(), eu868_rx(), APP_ID)));
    let mut kernel = QvKernel::builder().register(rf_ao).register(capture).build();
    kernel.start();
    kernel
}

fn tx_req(data: &[u8], reliable: bool) -> DynEvent {
    DynEvent::with_payload(
        rf_signal(RF_TX_REQ_SIG_VAL),
        Payload::TxReq(RfTxReqPayload::with_reliability(data.to_vec(), 1, reliable)),
    )
}

fn signal(v: u16) -> DynEvent {
    DynEvent::empty_dyn(rf_signal(v))
}

/// Dispatches once, then lets the RF active object drain its radio.
fn pump<T: Layer>(kernel: &mut QvKernel<Node<T>>, n: usize) {
    for _ in 0..n {
        kernel.dispatch_once();
        let mut ctx = ActiveContext::new(RF_AO_ID);
        let idx = kernel.position_of(RF_AO_ID).unwrap();
        if let Node::Rf(rf) = kernel.behavior_mut(idx) {
            rf.pump(&mut ctx);
        }
        for (target, event) in ctx.take_sent() {
            let _ = kernel.post(target, event);
        }
    }
}

fn capture<T: Layer>(kernel: &QvKernel<Node<T>>) -> &CaptureAo {
    let idx = kernel.position_of(APP_ID).unwrap();
    match kernel.object(idx).behavior() {
        Node::Capture(c) => c,
        Node::Rf(_) => panic!("not the capture object"),
    }
}

#[test]
fn unreliable_tx_delivers_done_to_app() {
    let mut kernel = build(UnreliableTransport::new());

    kernel.post(RF_AO_ID, tx_req(b"hello", false)).unwrap();
    kernel.dispatch_once();

    kernel.post(RF_AO_ID, signal(RF_PHY_TX_DONE_SIG_VAL)).unwrap();
    kernel.dispatch_once();
    kernel.dispatch_once();

    let c = capture(&kernel);
    assert_eq!(c.done, 1, "TX_DONE must be delivered for unreliable TX");
    assert_eq!(c.fail, 0);
}

#[test]
fn receive_first_rx_frame_delivered() {
    let mut kernel = build(UnreliableTransport::new());

    kernel.post(RF_AO_ID, signal(RF_RX_START_SIG_VAL)).unwrap();
    kernel.dispatch_once();

    kernel.post(RF_AO_ID, tx_req(b"from_listen", false)).unwrap();
    kernel.dispatch_once();

    pump(&mut kernel, 10);

    assert_eq!(capture(&kernel).frames.len(), 1, "RX frame must be delivered to app AO");
}

#[test]
fn tx_req_while_busy_is_queued_and_sent_on_resolve() {
    let mut kernel = build(UnreliableTransport::new());

    kernel.post(RF_AO_ID, tx_req(b"first", false)).unwrap();
    kernel.dispatch_once();

    kernel.post(RF_AO_ID, tx_req(b"second", false)).unwrap();
    kernel.dispatch_once();

    kernel.post(RF_AO_ID, signal(RF_PHY_TX_DONE_SIG_VAL)).unwrap();
    kernel.dispatch_once();
    kernel.dispatch_once();

    kernel.post(RF_AO_ID, signal(RF_PHY_TX_DONE_SIG_VAL)).unwrap();
    kernel.dispatch_once();
    kernel.dispatch_once();

    {
        let c = capture(&kernel);
        assert_eq!(c.done, 2, "both the in-flight and the queued TX must complete");
        assert_eq!(c.fail, 0);
    }

    pump(&mut kernel, 10);
    let c = capture(&kernel);
    assert_eq!(c.frames.len(), 2, "both frames must have actually been transmitted");
    assert!(c.frames.iter().any(|f| f == b"first"));
    assert!(c.frames.iter().any(|f| f == b"second"));
}

#[test]
fn third_tx_req_while_slot_occupied_is_still_dropped() {
    let mut kernel = build(UnreliableTransport::new());

    kernel.post(RF_AO_ID, tx_req(b"first", false)).unwrap();
    kernel.dispatch_once();

    kernel.post(RF_AO_ID, tx_req(b"second", false)).unwrap();
    kernel.dispatch_once();

    kernel.post(RF_AO_ID, tx_req(b"third", false)).unwrap();
    kernel.dispatch_once();

    kernel.post(RF_AO_ID, signal(RF_PHY_TX_DONE_SIG_VAL)).unwrap();
    kernel.dispatch_once();
    kernel.dispatch_once();
    kernel.post(RF_AO_ID, signal(RF_PHY_TX_DONE_SIG_VAL)).unwrap();
    kernel.dispatch_once();
    kernel.dispatch_once();

    assert_eq!(capture(&kernel).done, 2, "only the in-flight + one queued TX complete, the third is dropped");

    pump(&mut kernel, 10);
    let c = capture(&kernel);
    assert_eq!(c.frames.len(), 2);
    assert!(c.frames.iter().any(|f| f == b"first"));
    assert!(c.frames.iter().any(|f| f == b"second"));
    assert!(!c.frames.iter().any(|f| f == b"third"));
}

#[test]
fn reliable_tx_no_ack_gives_tx_fail_after_exhaustion() {
    let mut kernel = build(ReliableTransport::new(2));

    kernel.post(RF_AO_ID, tx_req(b"reliable", true)).unwrap();
    kernel.dispatch_once();

    for _ in 0..3 {
        kernel.post(RF_AO_ID, signal(RF_TRANSPORT_TIMEOUT_SIG_VAL)).unwrap();
        kernel.dispatch_once();
        kernel.dispatch_once();
    }

    let c = capture(&kernel);
    assert_eq!(c.fail, 1, "TX_FAIL must be delivered after retransmit exhaustion");
    assert_eq!(c.done, 0);
}

/// Hands the driver's transmit requests to the kernel.
fn forward(fota: &mut FotaDriver, kernel: &mut QvKernel<Node<ReliableTransport>>) {
    for ev in fota.take_posted() {
        kernel.post(fota.rf_ao(), ev).unwrap();
    }
}

#[test]
fn fota_loopback_reliable_transfer() {
    let image_bytes: Vec<u8> = (0..450).map(|i| (i % 251) as u8).collect();
    let expected_total_chunks = 3u32;

    let mut kernel = build(ReliableTransport::new(3));

    let mut fota = FotaDriver::new(RF_AO_ID, image_bytes);
    assert_eq!(fota.total_chunks(), expected_total_chunks);

    fota.start_announce(0x0100_0000).expect("announce");
    forward(&mut fota, &mut kernel);
    pump(&mut kernel, 5);

    let mut status = fota.on_tx_done();
    forward(&mut fota, &mut kernel);
    assert_eq!(status, FotaStatus::Sending);

    for _ in 0..expected_total_chunks {
        pump(&mut kernel, 10);
        status = fota.on_tx_done();
        forward(&mut fota, &mut kernel);
    }

    assert!(!fota.is_failed(), "FOTA transfer must not fail");
    assert_eq!(status, FotaStatus::Done, "FOTA should complete after all chunks");
    assert_eq!(fota.next_chunk_index(), expected_total_chunks);
    assert_eq!(capture(&kernel).fail, 0, "no TX_FAIL expected in loopback test");
}

#[test]
fn fota_packets_carry_chunks_and_crc() {
    let image: Vec<u8> = (0..250u32).map(|i| i as u8).collect();
    let mut fota = FotaDriver::new(RF_AO_ID, image.clone());
    assert_eq!(fota.total_chunks(), 2);
    assert_eq!(fota.on_tx_done(), FotaStatus::Sending);
    assert_eq!(fota.on_tx_done(), FotaStatus::Sending);
    assert_eq!(fota.on_tx_done(), FotaStatus::Done);
    let posted = fota.take_posted();
    assert_eq!(posted.len(), 3);
    let data = |e: &DynEvent| match &*e.payload {
        Payload::TxReq(p) => (p.data.clone(), p.fport, p.reliable),
        _ => panic!("not a transmit request"),
    };
    let (c0, port, rel) = data(&posted[0]);
    assert_eq!((port, rel), (2, true));
    assert_eq!(&c0[..9], &[1, 0, 0, 0, 0, 2, 0, 0, 0]);
    assert_eq!(&c0[9..], &image[..200]);
    let (c1, _, _) = data(&posted[1]);
    assert_eq!(&c1[..5], &[1, 1, 0, 0, 0]);
    assert_eq!(&c1[9..], &image[200..]);
    let (v, _, _) = data(&posted[2]);
    let crc = qp_rs::comms::fota::compute_crc32(&image);
    let mut expected = vec![3, 250, 0, 0, 0];
    expected.extend_from_slice(&crc.to_le_bytes());
    assert_eq!(v, expected);
    fota.on_tx_fail();
    assert_eq!(fota.on_tx_done(), FotaStatus::Failed);
}

#[test]
fn crc32_known_vector() {
    assert_eq!(qp_rs::comms::fota::compute_crc32(b"123456789"), 0xCBF4_3926);
    assert_eq!(qp_rs::comms::fota::compute_crc32(b""), 0);
}

#[test]
fn rf_ao_starts_idle_with_the_radio_up() {
    let kernel = build(UnreliableTransport::new());
    let idx = kernel.position_of(RF_AO_ID).unwrap();
    match kernel.object(idx).behavior() {
        Node::Rf(rf) => {
            assert_eq!(rf.start_error(), None);
            assert_eq!(rf.state(), RfAoState::Idle);
            assert!(!rf.has_pending_tx());
        }
        Node::Capture(_) => panic!("not the RF object"),
    }
}
