use qp_rs::comms::buf::{Frame, FramePool, MAX_FRAME};
use qp_rs::comms::error::CommsError;
use qp_rs::comms::mac::ble_l2cap::BleL2capMac;
use qp_rs::comms::mac::lorawan::{compute_mic, encrypt_frm_payload, LoRaWanMac};
use qp_rs::comms::lora::{LoRaRf, Rf, MAX_UPLINK_PAYLOAD};
use qp_rs::comms::mac::noop::NoopMac;
use qp_rs::comms::net::{Network, NoopNetwork};
use qp_rs::comms::phy::{LoopbackPhy, NullRf, RfPhy, RfTxConfig};
use qp_rs::comms::session::LoRaSession;
use qp_rs::comms::stack::{Layer, RfStack};
use qp_rs::comms::events::PhyEvent;
use qp_rs::comms::transport::{
    ReliableTransport, TransportAction, TransportFlags, TransportState, UnreliableTransport,
};
use qp_rs::qf::event::Signal;

/// Moves the on-air bytes of `tx` into a fresh received frame, as the radio
/// does on reception.
fn loopback(tx: &Frame) -> Frame {
    let on_air = tx.phy_bytes().to_vec();
    let mut recv = Frame::new();
    recv.set_received_len(on_air.len());
    recv.raw_buf_for_dma()[..on_air.len()].copy_from_slice(&on_air);
    recv
}

fn eu868_tx() -> RfTxConfig {
    RfTxConfig { frequency_hz: 868_100_000, tx_power_dbm: 14 }
}

// ── NoopMac ──────────────────────────────────────────────────────────────────

#[test]
fn noop_mac_down_is_transparent() {
    let mut mac = NoopMac;
    let mut f = Frame::new();
    let payload = b"transparent payload";
    f.write_payload(payload).unwrap();

    let len_before = f.len();
    mac.down(&mut f).unwrap();
    assert_eq!(f.len(), len_before, "NoopMac::down must not change frame length");
    assert_eq!(f.payload(), payload);
}

#[test]
fn noop_mac_up_is_transparent() {
    let mut mac = NoopMac;
    let mut f = Frame::new();
    f.write_payload(b"rx data").unwrap();

    let len_before = f.len();
    let keep = mac.up(&mut f).unwrap();
    assert!(keep, "NoopMac::up must always accept");
    assert_eq!(f.len(), len_before);
}

// ── Network ──────────────────────────────────────────────────────────────────

#[test]
fn network_roundtrip() {
    let mut net = Network::new();
    let mut f = Frame::new();
    f.write_payload(b"payload").unwrap();
    net.down(&mut f).unwrap();
    assert_eq!(f.len(), 3 + 7);

    let mut recv = loopback(&f);
    let ok = net.up(&mut recv).unwrap();
    assert!(ok);
    assert_eq!(recv.payload(), b"payload");
}

#[test]
fn network_composes_with_mac_headroom() {
    let mut net = Network::new();
    let mut f = Frame::new();
    f.write_payload(b"payload").unwrap();
    net.down(&mut f).unwrap();
    assert!(f.prepend_header(&[0u8; 9]).is_ok(), "network must leave MAC headroom");
}

#[test]
fn network_drops_wrong_dst() {
    let mut net = Network::with_address(0x10);
    let mut f = Frame::new();
    f.write_payload(b"x").unwrap();
    f.prepend_header(&[0x20, 0x30, 0]).unwrap();

    let mut recv = loopback(&f);
    let ok = net.up(&mut recv).unwrap();
    assert!(!ok);
}

#[test]
fn network_bind_and_resolve() {
    let mut net = Network::new();
    for port in 0..8u8 {
        net.bind(port, Signal::from_raw(100 + port as u16)).unwrap();
    }
    assert_eq!(net.resolve(3), Some(Signal::from_raw(103)));
    assert_eq!(net.resolve(42), None);
    assert_eq!(net.bind(9, Signal::from_raw(9)), Err(CommsError::TableFull));
}

#[test]
fn network_accepts_broadcast_and_own_address() {
    let mut net = Network::with_address(0x10);
    for dst in [0x10u8, 0xFF] {
        let mut f = Frame::new();
        f.write_payload(b"y").unwrap();
        f.prepend_header(&[0x20, dst, 0]).unwrap();
        let mut recv = loopback(&f);
        assert!(net.up(&mut recv).unwrap());
        assert_eq!(recv.payload(), b"y");
    }
}

// ── Frames ───────────────────────────────────────────────────────────────────

#[test]
fn frame_rejects_oversized_payload_and_header() {
    let mut f = Frame::new();
    assert_eq!(f.write_payload(&[0u8; 225]), Err(CommsError::BufferTooSmall));
    assert!(f.write_payload(&[7u8; 224]).is_ok());
    assert_eq!(f.len(), 224);
    assert_eq!(f.prepend_header(&[0u8; 33]), Err(CommsError::BufferTooSmall));
    assert_eq!(f.append_trailer(&[1u8]), Err(CommsError::BufferTooSmall));
    assert!(f.prepend_header(&[9u8; 32]).is_ok());
    assert_eq!(f.len(), MAX_FRAME);
}

#[test]
fn frame_strip_and_trim() {
    let mut f = Frame::new();
    f.write_payload(b"hello").unwrap();
    f.prepend_header(b"HD").unwrap();
    f.append_trailer(b"TR").unwrap();
    assert_eq!(f.payload(), b"HDhelloTR");
    assert_eq!(f.strip_header(2).unwrap(), b"HD".to_vec());
    assert_eq!(f.trim_trailer(2).unwrap(), b"TR".to_vec());
    assert_eq!(f.payload(), b"hello");
    assert_eq!(f.strip_header(6), Err(CommsError::MacError));
    assert_eq!(f.trim_trailer(6), Err(CommsError::MacError));
    f.set_received_len(1000);
    assert_eq!(f.len(), MAX_FRAME);
    assert!(!f.is_empty());
}

#[test]
fn frame_pool_hands_out_lowest_free_slot() {
    let mut pool = FramePool::new();
    let a = pool.alloc_frame().unwrap();
    let b = pool.alloc_frame().unwrap();
    assert_eq!(a.index(), 0);
    assert_eq!(b.index(), 1);
    for _ in 2..8 {
        assert!(pool.alloc_frame().is_some());
    }
    assert!(pool.alloc_frame().is_none());
    pool.free(a);
    assert_eq!(pool.alloc_frame().unwrap().index(), 0);
    pool.get_mut(b).write_payload(b"abc").unwrap();
    assert_eq!(pool.get(b).payload(), b"abc");
}

// ── ReliableTransport ────────────────────────────────────────────────────────

#[test]
fn reliable_down_sets_waiting_ack_state() {
    let mut t = ReliableTransport::new(3);
    let mut f = Frame::new();
    f.write_payload(b"hello world").unwrap();

    t.down(&mut f).unwrap();

    assert_eq!(t.state(), TransportState::WaitingAck);
    assert_eq!(t.seq(), 1);
    assert_eq!(t.retries(), 3);

    assert_eq!(f.len(), 16);
    let payload = f.payload();
    assert_eq!(payload[0], 0);
    assert_eq!(payload[2], TransportFlags::FIRST_FRAG | TransportFlags::LAST_FRAG | TransportFlags::ACK_REQ);
    assert_eq!(payload[3], 11);
}

#[test]
fn reliable_on_timeout_returns_should_retransmit_then_give_up() {
    let mut t = ReliableTransport::new(2);
    let mut f = Frame::new();
    f.write_payload(b"x").unwrap();
    t.down(&mut f).unwrap();

    assert!(matches!(t.on_timeout(), TransportAction::ShouldRetransmit));
    assert_eq!(t.retries(), 1);

    assert!(matches!(t.on_timeout(), TransportAction::ShouldRetransmit));
    assert_eq!(t.retries(), 0);

    assert!(matches!(t.on_timeout(), TransportAction::GiveUp));
    assert_eq!(t.state(), TransportState::Idle);
}

#[test]
fn reliable_ack_received_clears_state() {
    let mut t = ReliableTransport::new(3);
    let mut f = Frame::new();
    f.write_payload(b"hello").unwrap();
    t.down(&mut f).unwrap();

    let action = t.on_ack_received(0);
    assert!(matches!(action, TransportAction::TxComplete));
    assert_eq!(t.state(), TransportState::Idle);
}

#[test]
fn reliable_stale_ack_ignored() {
    let mut t = ReliableTransport::new(3);
    let mut f = Frame::new();
    f.write_payload(b"hi").unwrap();
    t.down(&mut f).unwrap();

    let action = t.on_ack_received(5);
    assert!(matches!(action, TransportAction::Nothing));
    assert_eq!(t.state(), TransportState::WaitingAck);
}

#[test]
fn reliable_up_strips_header_and_passes_payload() {
    let mut t = ReliableTransport::new(3);
    let hdr_payload: &[u8] = &[5, 0, 0x07, 4, 0, b't', b'e', b's', b't'];
    let mut raw = Frame::new();
    raw.set_received_len(hdr_payload.len());
    raw.raw_buf_for_dma()[..hdr_payload.len()].copy_from_slice(hdr_payload);

    let keep = t.up(&mut raw).unwrap();
    assert!(keep);
    assert_eq!(raw.payload(), b"test");
    assert_eq!(t.acked(), 5);
}

#[test]
fn reliable_up_rejects_pure_ack() {
    let mut t = ReliableTransport::new(3);
    let mut f = Frame::new();
    f.write_payload(b"data").unwrap();
    t.down(&mut f).unwrap();

    let ack_bytes: &[u8] = &[0, 0, TransportFlags::IS_ACK, 0, 0];
    let mut ack_frame = Frame::new();
    ack_frame.set_received_len(ack_bytes.len());
    ack_frame.raw_buf_for_dma()[..5].copy_from_slice(ack_bytes);

    let keep = t.up(&mut ack_frame).unwrap();
    assert!(!keep);
    assert_eq!(t.state(), TransportState::Idle);
}

#[test]
fn reliable_up_drops_duplicate_while_waiting() {
    let mut t = ReliableTransport::new(3);
    let mut f = Frame::new();
    f.write_payload(b"a").unwrap();
    t.down(&mut f).unwrap();
    let pdu: &[u8] = &[0, 0, 0x07, 1, 0, b'z'];
    let mut rx = Frame::new();
    rx.set_received_len(pdu.len());
    rx.raw_buf_for_dma()[..pdu.len()].copy_from_slice(pdu);
    assert!(!t.up(&mut rx).unwrap(), "SEQ equal to the last accepted one is a duplicate");
    let mut short = Frame::new();
    short.set_received_len(4);
    assert!(!t.up(&mut short).unwrap());
}

// ── UnreliableTransport ──────────────────────────────────────────────────────

#[test]
fn unreliable_down_up_round_trip() {
    let mut tx = UnreliableTransport::new();
    let mut rx = UnreliableTransport::new();

    let payload = b"datagram payload";
    let mut f = Frame::new();
    f.write_payload(payload).unwrap();

    tx.down(&mut f).unwrap();
    assert_eq!(f.len(), 5 + payload.len());

    rx.up(&mut f).unwrap();
    assert_eq!(f.payload(), payload);
}

#[test]
fn unreliable_seq_increments() {
    let mut t = UnreliableTransport::new();
    for expected_seq in 0u8..4 {
        let mut f = Frame::new();
        f.write_payload(b"x").unwrap();
        t.down(&mut f).unwrap();
        assert_eq!(f.payload()[0], expected_seq);
    }
}

// ── BLE L2CAP ────────────────────────────────────────────────────────────────

#[test]
fn ble_stack_type_checks() {
    let stack: RfStack<ReliableTransport, NoopNetwork, BleL2capMac, LoopbackPhy> = RfStack::new(
        ReliableTransport::new(3),
        NoopNetwork,
        BleL2capMac::new(0x0004),
        LoopbackPhy::new(),
    );
    assert_eq!(stack.mac.cid(), 0x0004);
}

#[test]
fn ble_down_writes_header_then_reports_unsupported() {
    let mut mac = BleL2capMac::new(0x0040);
    let mut f = Frame::new();
    f.write_payload(&[1, 2, 3]).unwrap();
    assert_eq!(mac.down(&mut f), Err(CommsError::MacError));
    assert_eq!(f.payload(), &[3, 0, 0x40, 0, 1, 2, 3]);
    assert_eq!(mac.up(&mut f), Err(CommsError::MacError));
}

// ── LoRaWAN MAC ──────────────────────────────────────────────────────────────

#[test]
fn test_lorawan_mac_round_trip() {
    let session = LoRaSession::test_abp();
    let mut mac_up = LoRaWanMac::new(session.clone(), 1);

    let plaintext = b"hello world";
    let mut frame = Frame::new();
    frame.write_payload(plaintext).unwrap();

    mac_up.down(&mut frame).unwrap();

    assert_eq!(frame.len(), 9 + plaintext.len() + 4);
    let phy_bytes = frame.phy_bytes();
    assert_eq!(phy_bytes[0], 0x40);
    assert_eq!(&phy_bytes[1..5], &session.dev_addr);
    assert_eq!(phy_bytes[5], 0x00);
    assert_eq!(phy_bytes[6], 0x00);
    assert_eq!(phy_bytes[7], 0x00);
    assert_eq!(phy_bytes[8], 1);

    let downlink_payload = b"downlink response";
    let fcnt_dn = 0u32;

    let mut transport_frame = Frame::new();
    transport_frame.write_payload(downlink_payload).unwrap();

    let mut frm_payload = transport_frame.payload().to_vec();
    encrypt_frm_payload(&mut frm_payload, &session.app_skey, &session.dev_addr, fcnt_dn, 1).unwrap();

    let mut msg = Vec::new();
    msg.push(0x60);
    msg.extend_from_slice(&session.dev_addr);
    msg.push(0x00);
    msg.push(fcnt_dn as u8);
    msg.push((fcnt_dn >> 8) as u8);
    msg.push(1);
    msg.extend_from_slice(&frm_payload);

    let mic = compute_mic(&msg, &session.nwk_skey, &session.dev_addr, fcnt_dn, 1).unwrap();
    msg.extend_from_slice(&mic);

    let mut rx_frame = Frame::new();
    rx_frame.set_received_len(msg.len());
    rx_frame.raw_buf_for_dma()[..msg.len()].copy_from_slice(&msg);

    let mut mac_dn = LoRaWanMac::new(session.clone(), 1);
    let keep = mac_dn.up(&mut rx_frame).unwrap();
    assert!(keep);
    assert_eq!(rx_frame.payload(), downlink_payload);
    assert_eq!(mac_dn.fcnt_dn(), 1);
}

#[test]
fn test_mic_known_vector() {
    let nwk_skey = [0u8; 16];
    let dev_addr = [0x04, 0x03, 0x02, 0x01];
    let fcnt = 0u32;
    let msg = b"\x40\x04\x03\x02\x01\x00\x00\x00\x01\x00";

    let mic = compute_mic(msg, &nwk_skey, &dev_addr, fcnt, 0).unwrap();
    assert_eq!(mic.len(), 4);

    let expected_mic = [246, 25, 1, 172];
    assert_eq!(mic, expected_mic);
}

#[test]
fn lorawan_encryption_uses_aes_keystream() {
    let key = [0u8; 16];
    let addr = [1, 2, 3, 4];
    let plain: Vec<u8> = (0..40u8).collect();
    let mut data = plain.clone();
    encrypt_frm_payload(&mut data, &key, &addr, 7, 0).unwrap();
    assert_eq!(&data[..8], &[173, 156, 2, 154, 36, 111, 146, 195]);
    encrypt_frm_payload(&mut data, &key, &addr, 7, 0).unwrap();
    assert_eq!(data, plain);
}

#[test]
fn lorawan_up_drops_foreign_address_and_bad_mic() {
    let session = LoRaSession::test_abp();
    let mut mac = LoRaWanMac::new(session, 1);
    let mut msg = vec![0x60, 9, 9, 9, 9, 0, 0, 0, 1, 0xAA, 0, 0, 0, 0];
    let mut rx = Frame::new();
    rx.set_received_len(msg.len());
    rx.raw_buf_for_dma()[..msg.len()].copy_from_slice(&msg);
    assert!(!mac.up(&mut rx).unwrap());

    msg[1..5].copy_from_slice(&session.dev_addr);
    let mut rx = Frame::new();
    rx.set_received_len(msg.len());
    rx.raw_buf_for_dma()[..msg.len()].copy_from_slice(&msg);
    assert!(!mac.up(&mut rx).unwrap(), "a zero MIC is not the CMAC");

    let mut short = Frame::new();
    short.set_received_len(12);
    assert!(!mac.up(&mut short).unwrap());
}

// ── RfStack ──────────────────────────────────────────────────────────────────

#[test]
fn test_stack_tx_uplink() {
    let phy = LoopbackPhy::new();
    let session = LoRaSession::test_abp();
    let mac = LoRaWanMac::new(session.clone(), 1);
    let transport = UnreliableTransport::new();
    let network = NoopNetwork;

    let mut stack = RfStack::new(transport, network, mac, phy);

    let payload = b"hello modular stack tx";
    stack.transmit(payload, &eu868_tx()).expect("transmit failed");

    let rx_event = stack.phy.poll_irq().expect("poll_irq failed");
    assert!(rx_event.is_some());
    if let Some(PhyEvent::RxDone(meta)) = rx_event {
        let mut buf = vec![0u8; meta.pkt_len as usize];
        stack.phy.read_rx(&mut buf, &meta).unwrap();

        assert_eq!(buf.len(), 9 + 5 + payload.len() + 4);
        assert_eq!(buf[0], 0x40);
        assert_eq!(&buf[1..5], &session.dev_addr);
    } else {
        panic!("Expected RxDone event");
    }
}

#[test]
fn test_stack_rx_downlink() {
    let phy = LoopbackPhy::new();
    let session = LoRaSession::test_abp();
    let mac = LoRaWanMac::new(session.clone(), 1);
    let transport = UnreliableTransport::new();
    let network = NoopNetwork;

    let mut stack = RfStack::new(transport, network, mac, phy);

    let dev_addr = session.dev_addr;
    let fcnt = 0u32;
    let dir = 1;

    let app_payload = b"hello modular stack rx";
    let mut transport_frame = Frame::new();
    transport_frame.write_payload(app_payload).unwrap();
    stack.transport.down(&mut transport_frame).unwrap();

    let mut frm_payload = transport_frame.payload().to_vec();
    encrypt_frm_payload(&mut frm_payload, &session.app_skey, &dev_addr, fcnt, dir).unwrap();

    let mut msg = Vec::new();
    msg.push(0x60);
    msg.extend_from_slice(&dev_addr);
    msg.push(0x00);
    msg.push(fcnt as u8);
    msg.push((fcnt >> 8) as u8);
    msg.push(1);
    msg.extend_from_slice(&frm_payload);

    let mic = compute_mic(&msg, &session.nwk_skey, &dev_addr, fcnt, dir).unwrap();
    msg.extend_from_slice(&mic);

    let mut raw_frame = Frame::new();
    raw_frame.set_received_len(msg.len());
    raw_frame.raw_buf_for_dma()[..msg.len()].copy_from_slice(&msg);

    let out_frame = stack.receive_raw(&mut raw_frame).expect("receive_raw failed");
    assert!(out_frame.is_some());
    if let Some(out) = out_frame {
        assert_eq!(out.payload(), app_payload);
    }
}

#[test]
fn noop_mac_stack_compiles_and_tx_rx() {
    let mut stack = RfStack::new(UnreliableTransport::new(), NoopNetwork, NoopMac, LoopbackPhy::new());
    stack.transmit(b"loopback test", &eu868_tx()).unwrap();

    if let Some(PhyEvent::RxDone(meta)) = stack.phy.poll_irq().unwrap() {
        let mut raw = Frame::new();
        stack.phy.read_rx(raw.raw_buf_for_dma(), &meta).unwrap();
        raw.set_received_len(meta.pkt_len as usize);

        let out = stack.receive_raw(&mut raw).unwrap();
        assert!(out.is_some());
        assert_eq!(out.unwrap().payload(), b"loopback test");
    }
}

#[test]
fn stack_build_frame_rejects_oversized_payload() {
    let mut stack = RfStack::new(UnreliableTransport::new(), NoopNetwork, NoopMac, NullRf::new());
    assert!(matches!(stack.build_frame(&[0u8; 300]), Err(CommsError::BufferTooSmall)));
    let f = stack.build_frame(b"ok").unwrap();
    assert_eq!(f.len(), 5 + 2);
}

#[test]
fn null_rf_reports_tx_done_once() {
    let mut phy = NullRf::new();
    assert_eq!(phy.poll_irq(), Ok(None));
    phy.transmit(b"abc").unwrap();
    assert_eq!(phy.poll_irq(), Ok(Some(PhyEvent::TxDone)));
    assert_eq!(phy.poll_irq(), Ok(None));
    assert_eq!(phy.chip_name(), "NullRf");
}

#[test]
fn stack_round_trip_returns_payload_to_any_node() {
    let mut sender = RfStack::new(UnreliableTransport::new(), Network::with_address(7), NoopMac, NullRf::new());
    let mut receiver = RfStack::new(UnreliableTransport::new(), Network::with_address(9), NoopMac, NullRf::new());
    let frame = sender.build_frame(b"hello stack").unwrap();
    // Network header (src, broadcast, 0), then the numbered datagram header.
    assert_eq!(&frame.phy_bytes()[..3], &[7, 0xFF, 0]);
    assert_eq!(frame.len(), 3 + 5 + 11);
    let mut raw = Frame::from_received(frame.phy_bytes());
    let out = receiver.receive_raw(&mut raw).unwrap().expect("delivered");
    assert_eq!(out.payload(), b"hello stack");

    // A payload beyond the headroom is refused before any layer runs.
    let big = vec![0u8; MAX_FRAME];
    assert_eq!(sender.build_frame(&big).err(), Some(CommsError::BufferTooSmall));
}

#[test]
fn lora_rf_sends_uplinks_and_counts_frames() {
    let mut rf = LoRaRf::new(LoopbackPhy::new(), LoRaSession::test_abp(), eu868_tx());
    assert_eq!(rf.chip_name(), "Loopback");
    rf.init().unwrap();
    rf.send(b"ping").unwrap();
    assert_eq!(rf.session().fcnt_up, 1);

    // Too long for the MIC: refused, counter unchanged.
    let long = vec![0u8; MAX_UPLINK_PAYLOAD + 1];
    assert_eq!(rf.send_with_fport(&long, 2), Err(CommsError::BufferTooSmall));
    assert_eq!(rf.session().fcnt_up, 1);

    let longest = vec![0u8; MAX_UPLINK_PAYLOAD];
    rf.send_with_fport(&longest, 2).unwrap();
    assert_eq!(rf.session().fcnt_up, 2);
}

/// A LoRaWAN downlink frame (fcnt_dn 0, FPort 1) carrying `plain` as its
/// encrypted application payload.
fn lora_downlink(session: &LoRaSession, plain: &[u8]) -> Vec<u8> {
    let mut frm = plain.to_vec();
    encrypt_frm_payload(&mut frm, &session.app_skey, &session.dev_addr, 0, 1).unwrap();
    let mut msg = vec![0x60];
    msg.extend_from_slice(&session.dev_addr);
    msg.extend_from_slice(&[0x00, 0, 0, 1]);
    msg.extend_from_slice(&frm);
    let mic = compute_mic(&msg, &session.nwk_skey, &session.dev_addr, 0, 1).unwrap();
    msg.extend_from_slice(&mic);
    msg
}

#[test]
fn lora_receive_decodes_a_downlink_into_the_buffer() {
    let session = LoRaSession::test_abp();
    let flags = TransportFlags::FIRST_FRAG | TransportFlags::LAST_FRAG;
    let plain = [7u8, 0, flags, 3, 0, b'h', b'i', b'!'];
    let mut phy = LoopbackPhy::new();
    phy.inject(&lora_downlink(&session, &plain));
    let mut rf = LoRaRf::new(phy, session.clone(), eu868_tx());
    let mut buf = [0xAAu8; 64];
    assert_eq!(rf.receive(&mut buf), Ok(3));
    assert_eq!(&buf[..3], b"hi!");
    assert!(buf[3..].iter().all(|&b| b == 0xAA));
}

#[test]
fn lora_receive_into_a_short_buffer_reads_a_truncated_frame() {
    let session = LoRaSession::test_abp();
    let flags = TransportFlags::FIRST_FRAG | TransportFlags::LAST_FRAG;
    let plain = [7u8, 0, flags, 3, 0, b'h', b'i', b'!'];
    let mut phy = LoopbackPhy::new();
    phy.inject(&lora_downlink(&session, &plain));
    let mut rf = LoRaRf::new(phy, session.clone(), eu868_tx());
    let mut buf = [5u8; 6];
    assert!(rf.receive(&mut buf).is_err());
    assert_eq!(buf, [5u8; 6]);
}

#[test]
fn lora_receive_without_a_frame_reports_nothing() {
    let mut rf = LoRaRf::new(NullRf::new(), LoRaSession::test_abp(), eu868_tx());
    let mut buf = [1u8; 8];
    assert_eq!(rf.receive(&mut buf), Err(CommsError::NothingReceived));
    assert_eq!(buf, [1u8; 8]);
}
