use renet::channel::{encode_channel_payload, Channel, ChannelPacketData};
use renet::error::{FragmentError, RenetError};
use renet::packet::{decode_packet, encode_packet, AckData, Connection, Fragment, Packet};
use renet::protocol::SecurityService;
use renet::reassembly_fragment::FragmentConfig;
use renet::remote_connection::{ConnectionConfig, RemoteConnection};
use std::cell::RefCell;
use std::rc::Rc;

#[derive(Default)]
struct ChannelState {
    outgoing: Vec<Vec<u8>>,
    delivered: Vec<Vec<u8>>,
    acked: Vec<u16>,
}

#[derive(Clone)]
struct TestChannel {
    state: Rc<RefCell<ChannelState>>,
}

impl TestChannel {
    fn new() -> (TestChannel, Rc<RefCell<ChannelState>>) {
        let state = Rc::new(RefCell::new(ChannelState::default()));
        (TestChannel { state: state.clone() }, state)
    }
}

impl Channel for TestChannel {
    fn send_message(&mut self, payload: Vec<u8>) {
        self.state.borrow_mut().outgoing.push(payload);
    }

    fn get_messages_to_send(&mut self, _available_bytes: Option<u32>, _sequence: u16) -> Option<Vec<Vec<u8>>> {
        let mut st = self.state.borrow_mut();
        if st.outgoing.is_empty() {
            None
        } else {
            Some(std::mem::take(&mut st.outgoing))
        }
    }

    fn process_ack(&mut self, ack: u16) {
        self.state.borrow_mut().acked.push(ack);
    }

    fn process_messages(&mut self, messages: Vec<Vec<u8>>) {
        self.state.borrow_mut().delivered.extend(messages);
    }

    fn receive_message(&mut self) -> Option<Vec<u8>> {
        let mut st = self.state.borrow_mut();
        if st.delivered.is_empty() {
            None
        } else {
            Some(st.delivered.remove(0))
        }
    }
}

struct Passthrough;

impl SecurityService for Passthrough {
    fn ss_wrap(&mut self, data: &[u8]) -> Result<Vec<u8>, RenetError> {
        Ok(data.to_vec())
    }

    fn ss_unwrap(&mut self, data: &[u8]) -> Result<Vec<u8>, RenetError> {
        Ok(data.to_vec())
    }
}

fn framed(byte: u8) -> Vec<u8> {
    encode_channel_payload(&vec![ChannelPacketData::new(vec![vec![byte]], 0)]).unwrap()
}

fn make_conn() -> (RemoteConnection<Passthrough, TestChannel>, Rc<RefCell<ChannelState>>) {
    let mut conn = RemoteConnection::new(ConnectionConfig::default(), Passthrough, 0);
    let (chan, state) = TestChannel::new();
    conn.add_channel(0, chan);
    (conn, state)
}

#[test]
fn small_round_trip() {
    let (mut a, _a_state) = make_conn();
    let (mut b, _b_state) = make_conn();
    a.send_message(0, b"hi".to_vec());
    let datagrams = a.send_packets(1_000).unwrap();
    assert_eq!(datagrams.len(), 1);
    b.process_payload(&datagrams[0], 2_000).unwrap();
    assert_eq!(b.receive_message(0), Some(b"hi".to_vec()));
    assert_eq!(b.receive_message(0), None);
}

#[test]
fn ack_propagation() {
    let (mut a, a_state) = make_conn();
    let (mut b, _b_state) = make_conn();
    // A sends sequences 0..4.
    let mut datagrams = Vec::new();
    for i in 0..5u8 {
        let sent = a.send_payload(&framed(i), 10 + i as u64).unwrap();
        assert_eq!(sent.len(), 1);
        datagrams.push(sent.into_iter().next().unwrap());
    }
    // B receives 0, 2, 3 (1 and 4 lost).
    b.process_payload(&datagrams[0], 100).unwrap();
    b.process_payload(&datagrams[2], 110).unwrap();
    b.process_payload(&datagrams[3], 120).unwrap();
    // B's next outbound packet carries ack = 3, ack_bits = 0b1101.
    let reply = b.send_payload(&framed(9), 200).unwrap();
    match decode_packet(&reply[0]) {
        Ok(Packet::Normal(n)) => {
            assert_eq!(n.ack_data.ack, 3);
            assert_eq!(n.ack_data.ack_bits, 0b1011);
        },
        _ => panic!("expected a Normal packet"),
    }
    // A dispatches process_ack exactly once each, in bit order 3, 2, 0.
    a.process_payload(&reply[0], 300).unwrap();
    assert_eq!(a_state.borrow().acked, vec![3, 2, 0]);
}

#[test]
fn duplicate_ack_is_idempotent() {
    let (mut a, a_state) = make_conn();
    let (mut b, _b_state) = make_conn();
    let mut last = Vec::new();
    for i in 0..8u8 {
        last = a.send_payload(&framed(i), i as u64).unwrap();
    }
    b.process_payload(&last[0], 50).unwrap();
    let reply = b.send_payload(&framed(1), 60).unwrap();
    a.process_payload(&reply[0], 70).unwrap();
    a.process_payload(&reply[0], 80).unwrap();
    assert_eq!(a_state.borrow().acked, vec![7]);
}

#[test]
fn sequence_wrap_allocates_consecutively() {
    let (mut a, _state) = make_conn();
    let mut seen = Vec::new();
    for i in 0..65540u64 {
        let sent = a.send_payload(&framed(1), i).unwrap();
        if i >= 65530 {
            match decode_packet(&sent[0]) {
                Ok(Packet::Normal(n)) => seen.push(n.sequence),
                _ => panic!("expected a Normal packet"),
            }
        }
    }
    assert_eq!(seen, vec![65530, 65531, 65532, 65533, 65534, 65535, 0, 1, 2, 3]);
}

#[test]
fn heartbeat_cadence() {
    // heartbeat_time is 100 ms = 100_000 us; tick every 50 ms with no data.
    let (mut a, _state) = make_conn();
    assert_eq!(a.send_packets(50_000).unwrap().len(), 0);
    let beat = a.send_packets(100_000).unwrap();
    assert_eq!(beat.len(), 1);
    assert!(matches!(decode_packet(&beat[0]), Ok(Packet::Heartbeat(_))));
    assert_eq!(a.send_packets(150_000).unwrap().len(), 0);
    assert_eq!(a.send_packets(200_000).unwrap().len(), 1);
}

#[test]
fn timeout_and_reset() {
    let (mut a, _a_state) = make_conn();
    let (mut b, _b_state) = make_conn();
    // timeout_duration is 5 s = 5_000_000 us.
    assert!(!a.has_timed_out(4_999_999));
    assert!(a.has_timed_out(5_000_000));
    // Any valid inbound datagram resets the timer.
    let datagrams = b.send_payload(&framed(1), 0).unwrap();
    a.process_payload(&datagrams[0], 4_000_000).unwrap();
    assert!(!a.has_timed_out(8_000_000));
    assert!(a.has_timed_out(9_000_000));
}

#[test]
fn oversize_payload_is_rejected() {
    let (mut a, _state) = make_conn();
    let payload = vec![0u8; 16 * 1024 + 1];
    assert!(matches!(
        a.send_payload(&payload, 0),
        Err(RenetError::MaximumPacketSizeExceeded)
    ));
    // The connection stays healthy and the sequence was not consumed.
    let ok = a.send_payload(&framed(1), 1).unwrap();
    match decode_packet(&ok[0]) {
        Ok(Packet::Normal(n)) => assert_eq!(n.sequence, 0),
        _ => panic!("expected a Normal packet"),
    }
}

#[test]
fn peer_error_kills_processing() {
    let (mut a, _state) = make_conn();
    let bytes = encode_packet(&Packet::Connection(Connection { error: Some(7) }));
    assert!(matches!(
        a.process_payload(&bytes, 10),
        Err(RenetError::ConnectionError(7))
    ));
    let bytes = encode_packet(&Packet::Connection(Connection { error: None }));
    assert!(a.process_payload(&bytes, 20).is_ok());
}

#[test]
fn fragmented_message_round_trip() {
    let config = ConnectionConfig {
        fragment_config: FragmentConfig {
            fragment_above: 1024,
            fragment_size: 512,
            max_fragments: 8,
            reassembly_buffer_size: 256,
        },
        ..ConnectionConfig::default()
    };
    let mut a = RemoteConnection::new(config.clone(), Passthrough, 0);
    let (chan_a, _a_state) = TestChannel::new();
    a.add_channel(0, chan_a);
    let mut b = RemoteConnection::new(config, Passthrough, 0);
    let (chan_b, _b_state) = TestChannel::new();
    b.add_channel(0, chan_b);

    let message: Vec<u8> = (0..1400u32).map(|i| (i % 256) as u8).collect();
    a.send_message(0, message.clone());
    let datagrams = a.send_packets(1_000).unwrap();
    assert_eq!(datagrams.len(), 3);
    // Deliver out of order: 2, 0, 1.
    b.process_payload(&datagrams[2], 2_000).unwrap();
    assert_eq!(b.receive_message(0), None);
    b.process_payload(&datagrams[0], 2_100).unwrap();
    assert_eq!(b.receive_message(0), None);
    b.process_payload(&datagrams[1], 2_200).unwrap();
    assert_eq!(b.receive_message(0), Some(message));
}

#[test]
fn rtt_is_smoothed_from_ack_samples() {
    let (mut a, _a_state) = make_conn();
    let (mut b, _b_state) = make_conn();
    let sent = a.send_payload(&framed(1), 1_000).unwrap();
    b.process_payload(&sent[0], 5_000).unwrap();
    let reply = b.send_payload(&framed(2), 6_000).unwrap();
    // The ack arrives 10_000 us after the packet was sent: first sample taken as-is.
    a.process_payload(&reply[0], 11_000).unwrap();
    assert_eq!(a.network_info().rtt, 10_000);
}

#[test]
fn bandwidth_and_loss_estimates() {
    let (mut a, _a_state) = make_conn();
    let (mut b, _b_state) = make_conn();
    // Four packets of 1011 payload bytes at one-second spacing.
    let message = vec![7u8; 1000];
    let payload = encode_channel_payload(&vec![ChannelPacketData::new(vec![message], 0)]).unwrap();
    assert_eq!(payload.len(), 1011);
    let mut datagrams = Vec::new();
    for i in 0..4u64 {
        let sent = a.send_payload(&payload, i * 1_000_000).unwrap();
        datagrams.push(sent.into_iter().next().unwrap());
    }
    // Only the first arrives; its ack reaches A four seconds after the send.
    b.process_payload(&datagrams[0], 3_500_000).unwrap();
    let reply = b.send_payload(&framed(1), 3_600_000).unwrap();
    a.process_payload(&reply[0], 4_000_000).unwrap();
    assert_eq!(a.network_info().rtt, 4_000_000);

    a.update_network_info();
    // Sampling window of 256 / 4 = 64 sequences: 3 of the 4 tracked packets
    // unacknowledged, so the loss sample is 3 * 10000 / 64 hundredths of a
    // percent, taken as-is for the first sample.
    assert_eq!(a.network_info().packet_loss, 468);
    // 4 * 1011 bytes over the 3 s between first and last send.
    assert_eq!(a.network_info().sent_bandwidth_kbps, 4 * 1011 * 8000 / 3_000_000);
    // A has received a single datagram: no time span, no estimate.
    assert_eq!(a.network_info().received_bandwidth_kbps, 0);
    // A constant loss sample leaves the smoothed metric in place.
    a.update_network_info();
    assert_eq!(a.network_info().packet_loss, 468);
}

struct Rejecting;

impl SecurityService for Rejecting {
    fn ss_wrap(&mut self, _data: &[u8]) -> Result<Vec<u8>, RenetError> {
        Err(RenetError::SecurityError)
    }

    fn ss_unwrap(&mut self, _data: &[u8]) -> Result<Vec<u8>, RenetError> {
        Err(RenetError::SecurityError)
    }
}

#[test]
fn security_failure_drops_the_datagram() {
    let mut a: RemoteConnection<Rejecting, TestChannel> =
        RemoteConnection::new(ConnectionConfig::default(), Rejecting, 0);
    let (chan, _state) = TestChannel::new();
    a.add_channel(0, chan);
    assert!(matches!(a.process_payload(&[1, 2, 3], 10), Err(RenetError::SecurityError)));
    // The timeout timer was not reset by the rejected datagram.
    assert!(a.has_timed_out(5_000_000));
    assert!(matches!(a.send_payload(&framed(1), 20), Err(RenetError::SecurityError)));
}

#[test]
fn routing_skips_unknown_channels() {
    let mut a: RemoteConnection<Passthrough, TestChannel> =
        RemoteConnection::new(ConnectionConfig::default(), Passthrough, 0);
    let (chan_a0, _s0) = TestChannel::new();
    let (chan_a2, _s2) = TestChannel::new();
    a.add_channel(0, chan_a0);
    a.add_channel(2, chan_a2);
    a.send_message(0, b"zero".to_vec());
    a.send_message(2, b"two".to_vec());
    let datagrams = a.send_packets(1_000).unwrap();
    assert_eq!(datagrams.len(), 1);
    // B only knows channel 2: the entry for channel 0 is skipped, not fatal.
    let mut b: RemoteConnection<Passthrough, TestChannel> =
        RemoteConnection::new(ConnectionConfig::default(), Passthrough, 0);
    let (chan_b2, _sb) = TestChannel::new();
    b.add_channel(2, chan_b2);
    b.process_payload(&datagrams[0], 2_000).unwrap();
    assert_eq!(b.receive_message(2), Some(b"two".to_vec()));
    assert_eq!(b.receive_message(0), None);
}

#[test]
fn acks_are_dispatched_even_when_the_fragment_is_rejected() {
    let (mut a, a_state) = make_conn();
    // A sends sequence 0 and awaits its ack.
    a.send_payload(&framed(1), 10).unwrap();
    // A malformed fragment (id past the announced total) still carries a
    // valid ack for sequence 0; the datagram is rejected, the ack is not.
    let bad = Packet::Fragment(Fragment {
        sequence: 5,
        ack_data: AckData { ack: 0, ack_bits: 1 },
        fragment_id: 9,
        num_fragments: 3,
        payload: vec![0u8; 512],
    });
    let bytes = encode_packet(&bad);
    assert!(matches!(
        a.process_payload(&bytes, 20),
        Err(RenetError::Fragment(FragmentError::InvalidFragmentId))
    ));
    assert_eq!(a_state.borrow().acked, vec![0]);
}
