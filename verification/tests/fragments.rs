use renet::error::{FragmentError, RenetError};
use renet::packet::{decode_packet, AckData, Fragment, Packet};
use renet::reassembly_fragment::{build_fragments, FragmentConfig, ReassemblyFragment};
use renet::sequence_buffer::SequenceBuffer;

fn test_config() -> FragmentConfig {
    FragmentConfig {
        fragment_above: 1024,
        fragment_size: 512,
        max_fragments: 8,
        reassembly_buffer_size: 256,
    }
}

fn decode_fragment(bytes: &[u8]) -> Fragment {
    match decode_packet(bytes) {
        Ok(Packet::Fragment(f)) => f,
        _ => panic!("expected a Fragment packet"),
    }
}

#[test]
fn build_splits_into_chunks() {
    let config = test_config();
    let payload: Vec<u8> = (0..1500u32).map(|i| (i % 251) as u8).collect();
    let frames = build_fragments(&payload, 7, AckData { ack: 3, ack_bits: 0b1011 }, &config)
        .unwrap();
    assert_eq!(frames.len(), 3);
    for (i, frame) in frames.iter().enumerate() {
        let f = decode_fragment(frame);
        assert_eq!(f.sequence, 7);
        assert_eq!(f.fragment_id, i as u8);
        assert_eq!(f.num_fragments, 3);
        assert_eq!(f.ack_data.ack, 3);
        assert_eq!(f.ack_data.ack_bits, 0b1011);
        let expected_len = if i < 2 { 512 } else { 1500 - 1024 };
        assert_eq!(f.payload.len(), expected_len);
    }
}

#[test]
fn build_rejects_too_many_chunks() {
    let config = test_config();
    // 8 * 512 = 4096 is the most that fits; one byte more needs 9 chunks.
    let payload = vec![1u8; 4097];
    assert!(matches!(
        build_fragments(&payload, 0, AckData { ack: 0, ack_bits: 0 }, &config),
        Err(RenetError::Fragment(FragmentError::ExceededMaxFragments))
    ));
    let payload = vec![1u8; 4096];
    assert_eq!(
        build_fragments(&payload, 0, AckData { ack: 0, ack_bits: 0 }, &config).unwrap().len(),
        8
    );
}

#[test]
fn reassemble_out_of_order() {
    let config = test_config();
    let payload: Vec<u8> = (0..1500u32).map(|i| (i * 7 % 256) as u8).collect();
    let frames = build_fragments(&payload, 7, AckData { ack: 0, ack_bits: 0 }, &config)
        .unwrap();
    let mut buf: SequenceBuffer<ReassemblyFragment> =
        SequenceBuffer::with_capacity(config.reassembly_buffer_size);
    // Deliver in order 2, 0, 1.
    assert_eq!(buf.handle_fragment(decode_fragment(&frames[2]), &config).unwrap(), None);
    assert_eq!(buf.handle_fragment(decode_fragment(&frames[0]), &config).unwrap(), None);
    let out = buf.handle_fragment(decode_fragment(&frames[1]), &config).unwrap();
    assert_eq!(out, Some(payload));
    // The entry is gone once the payload is returned.
    assert!(buf.get(7).is_none());
}

#[test]
fn duplicate_fragment_is_ignored() {
    let config = test_config();
    let payload = vec![5u8; 1500];
    let frames = build_fragments(&payload, 1, AckData { ack: 0, ack_bits: 0 }, &config)
        .unwrap();
    let mut buf: SequenceBuffer<ReassemblyFragment> = SequenceBuffer::with_capacity(256);
    assert_eq!(buf.handle_fragment(decode_fragment(&frames[0]), &config).unwrap(), None);
    assert_eq!(buf.handle_fragment(decode_fragment(&frames[0]), &config).unwrap(), None);
    assert_eq!(buf.handle_fragment(decode_fragment(&frames[1]), &config).unwrap(), None);
    let out = buf.handle_fragment(decode_fragment(&frames[2]), &config).unwrap();
    assert_eq!(out, Some(payload));
}

#[test]
fn malformed_fragments_are_rejected() {
    let config = test_config();
    let mut buf: SequenceBuffer<ReassemblyFragment> = SequenceBuffer::with_capacity(256);
    let base = Fragment {
        sequence: 4,
        ack_data: AckData { ack: 0, ack_bits: 0 },
        fragment_id: 0,
        num_fragments: 3,
        payload: vec![0u8; 512],
    };
    // Announces more chunks than the configured cap.
    let mut f = base.clone();
    f.num_fragments = 9;
    assert!(matches!(
        buf.handle_fragment(f, &config),
        Err(RenetError::Fragment(FragmentError::ExceededMaxFragments))
    ));
    // An id at the announced total.
    let mut f = base.clone();
    f.fragment_id = 3;
    assert!(matches!(
        buf.handle_fragment(f, &config),
        Err(RenetError::Fragment(FragmentError::InvalidFragmentId))
    ));
    // A non-final chunk that is not exactly fragment_size bytes.
    let mut f = base.clone();
    f.payload = vec![0u8; 100];
    assert!(matches!(
        buf.handle_fragment(f, &config),
        Err(RenetError::Fragment(FragmentError::InvalidFragmentSize))
    ));
    // Store a valid first chunk, then announce a different total.
    assert_eq!(buf.handle_fragment(base.clone(), &config).unwrap(), None);
    let mut f = base.clone();
    f.num_fragments = 2;
    f.payload = vec![0u8; 512];
    assert!(matches!(
        buf.handle_fragment(f, &config),
        Err(RenetError::Fragment(FragmentError::MismatchedTotal))
    ));
}
