use renet::packet::{decode_packet, encode_packet, AckData, Connection, Fragment, HeartBeat, Normal, Packet};
use renet::channel::{decode_channel_payload, encode_channel_payload, ChannelPacketData};
use renet::error::RenetError;

#[test]
fn normal_round_trip() {
    let packet = Packet::Normal(Normal {
        sequence: 513,
        ack_data: AckData { ack: 65535, ack_bits: 0xDEAD_BEEF },
        payload: vec![1, 2, 3, 4, 5],
    });
    let bytes = encode_packet(&packet);
    match decode_packet(&bytes) {
        Ok(Packet::Normal(n)) => {
            assert_eq!(n.sequence, 513);
            assert_eq!(n.ack_data.ack, 65535);
            assert_eq!(n.ack_data.ack_bits, 0xDEAD_BEEF);
            assert_eq!(n.payload, vec![1, 2, 3, 4, 5]);
        },
        _ => panic!("expected a Normal packet"),
    }
}

#[test]
fn fragment_round_trip() {
    let packet = Packet::Fragment(Fragment {
        sequence: 7,
        ack_data: AckData { ack: 3, ack_bits: 0b1011 },
        fragment_id: 2,
        num_fragments: 3,
        payload: vec![9; 512],
    });
    let bytes = encode_packet(&packet);
    match decode_packet(&bytes) {
        Ok(Packet::Fragment(f)) => {
            assert_eq!(f.sequence, 7);
            assert_eq!(f.fragment_id, 2);
            assert_eq!(f.num_fragments, 3);
            assert_eq!(f.payload.len(), 512);
        },
        _ => panic!("expected a Fragment packet"),
    }
}

#[test]
fn heartbeat_round_trip() {
    let packet = Packet::Heartbeat(HeartBeat { ack_data: AckData { ack: 42, ack_bits: 1 } });
    let bytes = encode_packet(&packet);
    assert_eq!(bytes.len(), 7);
    match decode_packet(&bytes) {
        Ok(Packet::Heartbeat(h)) => {
            assert_eq!(h.ack_data.ack, 42);
            assert_eq!(h.ack_data.ack_bits, 1);
        },
        _ => panic!("expected a Heartbeat packet"),
    }
}

#[test]
fn connection_round_trip() {
    let bytes = encode_packet(&Packet::Connection(Connection { error: None }));
    assert!(matches!(decode_packet(&bytes), Ok(Packet::Connection(Connection { error: None }))));
    let bytes = encode_packet(&Packet::Connection(Connection { error: Some(42) }));
    assert!(
        matches!(decode_packet(&bytes), Ok(Packet::Connection(Connection { error: Some(42) })))
    );
}

#[test]
fn decode_rejects_garbage() {
    assert!(matches!(decode_packet(&[]), Err(RenetError::SerializationFailed)));
    assert!(decode_packet(&[9, 9, 9]).is_err());
    // A Normal header cut short.
    assert!(decode_packet(&[0, 1, 2, 3]).is_err());
    // A Heartbeat with trailing bytes.
    assert!(decode_packet(&[2, 0, 0, 0, 0, 0, 0, 7]).is_err());
}

#[test]
fn channel_payload_round_trip() {
    let entries = vec![
        ChannelPacketData::new(vec![vec![1, 2, 3], vec![], vec![4]], 0),
        ChannelPacketData::new(vec![vec![5; 100]], 9),
    ];
    let bytes = encode_channel_payload(&entries).unwrap();
    let decoded = decode_channel_payload(&bytes).unwrap();
    assert_eq!(decoded.len(), 2);
    assert_eq!(decoded[0].channel_id, 0);
    assert_eq!(decoded[0].messages, vec![vec![1, 2, 3], vec![], vec![4]]);
    assert_eq!(decoded[1].channel_id, 9);
    assert_eq!(decoded[1].messages, vec![vec![5; 100]]);
}

#[test]
fn channel_payload_rejects_trailing_bytes() {
    let entries = vec![ChannelPacketData::new(vec![vec![1]], 3)];
    let mut bytes = encode_channel_payload(&entries).unwrap();
    bytes.push(0);
    assert!(decode_channel_payload(&bytes).is_err());
    assert!(decode_channel_payload(&[]).is_err());
    assert!(decode_channel_payload(&[1, 0]).is_err());
}
