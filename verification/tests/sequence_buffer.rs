use renet::sequence_buffer::{sequence_greater_than, SequenceBuffer};

#[test]
fn insert_and_get() {
    let mut buf: SequenceBuffer<u32> = SequenceBuffer::with_capacity(8);
    assert_eq!(buf.capacity(), 8);
    assert_eq!(buf.sequence(), 0);
    assert!(buf.get(0).is_none());
    buf.insert(0, 10);
    buf.insert(1, 11);
    assert_eq!(buf.sequence(), 1);
    assert_eq!(buf.get(0), Some(&10));
    assert_eq!(buf.get(1), Some(&11));
    assert!(buf.get(2).is_none());
}

#[test]
fn sliding_eviction() {
    let mut buf: SequenceBuffer<u32> = SequenceBuffer::with_capacity(4);
    for s in 0..4u16 {
        buf.insert(s, s as u32);
    }
    // Sliding to 5 evicts 1 (swept) and 4's slot collision leaves 0's slot to 4... 0 and 1 fall out.
    buf.insert(5, 105);
    assert_eq!(buf.sequence(), 5);
    assert_eq!(buf.get(5), Some(&105));
    assert!(buf.get(0).is_none());
    assert!(buf.get(1).is_none());
    assert_eq!(buf.get(2), Some(&2));
    assert_eq!(buf.get(3), Some(&3));
}

#[test]
fn stale_insert_is_dropped() {
    let mut buf: SequenceBuffer<u32> = SequenceBuffer::with_capacity(4);
    buf.insert(100, 1);
    buf.insert(90, 2);
    assert!(buf.get(90).is_none());
    assert_eq!(buf.get(100), Some(&1));
}

#[test]
fn remove_and_update() {
    let mut buf: SequenceBuffer<u32> = SequenceBuffer::with_capacity(8);
    buf.insert(3, 30);
    assert_eq!(buf.remove(3), Some(30));
    assert!(buf.get(3).is_none());
    assert_eq!(buf.remove(3), None);
    buf.insert(4, 40);
    assert!(buf.update_value(4, 44));
    assert_eq!(buf.get(4), Some(&44));
    assert!(!buf.update_value(5, 55));
    assert!(buf.get(5).is_none());
}

#[test]
fn at_most_capacity_entries_retrievable() {
    let mut buf: SequenceBuffer<u16> = SequenceBuffer::with_capacity(256);
    for s in 0..1000u16 {
        buf.insert(s, s);
    }
    let mut count = 0usize;
    for s in 0..=u16::MAX {
        if buf.is_present(s) {
            count += 1;
        }
    }
    assert!(count <= 256);
    assert!(buf.is_present(999));
    assert!(!buf.is_present(743));
    assert!(buf.is_present(744));
}

#[test]
fn ack_bits_reports_last_32() {
    let mut buf: SequenceBuffer<u8> = SequenceBuffer::with_capacity(256);
    // Receive 0, 2, 3 (1 lost): ack = 3, bit i set iff 3 - i was received.
    buf.insert(0, 0);
    buf.insert(2, 0);
    buf.insert(3, 0);
    let (ack, ack_bits) = buf.ack_bits();
    assert_eq!(ack, 3);
    assert_eq!(ack_bits & 0xF, 0b1011);
    assert_eq!(ack_bits >> 4, 0);
}

#[test]
fn ack_bits_across_wrap() {
    let mut buf: SequenceBuffer<u8> = SequenceBuffer::with_capacity(256);
    buf.insert(65534, 0);
    buf.insert(65535, 0);
    buf.insert(0, 0);
    buf.insert(1, 0);
    let (ack, ack_bits) = buf.ack_bits();
    assert_eq!(ack, 1);
    // bits for 1, 0, 65535, 65534
    assert_eq!(ack_bits & 0xF, 0b1111);
}

#[test]
fn wrapping_order() {
    assert!(sequence_greater_than(1, 0));
    assert!(sequence_greater_than(0, 65535));
    assert!(!sequence_greater_than(65535, 0));
    assert!(sequence_greater_than(32768, 1));
    assert!(!sequence_greater_than(5, 5));
}

#[test]
fn successor_of_head_is_never_present() {
    let mut buf: SequenceBuffer<u16> = SequenceBuffer::with_capacity(8);
    for s in 0..100u16 {
        buf.insert(s, s);
        assert!(!buf.is_present(s.wrapping_add(1)));
    }
}
