use tpt_dsp::ring::{RingBuffer, RingRead, RingWrite};

#[test]
fn push_pop_roundtrip() {
    let mut storage = [0f32; 4];
    let mut ring = RingBuffer::new(&mut storage);
    assert!(ring.is_empty());
    assert!(ring.push(1.0).is_ok());
    assert!(ring.push(2.0).is_ok());
    assert_eq!(ring.pop(), Some(1.0));
    assert_eq!(ring.pop(), Some(2.0));
    assert_eq!(ring.pop(), None);
    assert!(ring.is_empty());
}

#[test]
fn wraps_around() {
    let mut storage = [0u32; 4];
    let mut ring = RingBuffer::new(&mut storage);
    for i in 0..3 {
        assert!(ring.push(i).is_ok());
    }
    assert!(ring.push(99).is_err(), "ring should be full");
    for i in 0..3 {
        assert_eq!(ring.pop(), Some(i));
    }
    assert!(ring.is_empty());
    for i in 10..13 {
        assert!(ring.push(i).is_ok());
    }
    for i in 10..13 {
        assert_eq!(ring.pop(), Some(i));
    }
}

#[test]
fn capacity_is_len_minus_one() {
    let mut storage = [0f64; 5];
    let ring = RingBuffer::new(&mut storage);
    assert_eq!(ring.capacity(), 4);
}

#[test]
fn front_peeks_without_removing() {
    let mut storage = [0f32; 4];
    let mut ring = RingBuffer::new(&mut storage);
    let _ = ring.push(7.0);
    assert_eq!(ring.front(), Some(7.0));
    assert_eq!(ring.len(), 1);
}

#[test]
fn clear_empties() {
    let mut storage = [0f32; 4];
    let mut ring = RingBuffer::new(&mut storage);
    let _ = ring.push(1.0);
    let _ = ring.push(2.0);
    ring.clear();
    assert!(ring.is_empty());
    assert_eq!(ring.pop(), None);
}

#[test]
fn full_ring_returns_value_unmodified() {
    let mut storage = [0u8; 3];
    let mut ring = RingBuffer::new(&mut storage);
    assert!(ring.push(1).is_ok());
    assert!(ring.push(2).is_ok());
    assert!(ring.is_full());
    assert_eq!(ring.push(3), Err(3));
    assert_eq!(ring.len(), 2);
    assert_eq!(ring.front(), Some(1));
}

fn drain_through_traits<R: RingRead<u16> + RingWrite<u16>>(ring: &mut R) -> Vec<u16> {
    let mut out = Vec::new();
    while let Some(v) = RingRead::pop(ring) {
        out.push(v);
    }
    out
}

#[test]
fn trait_views_agree_with_inherent_methods() {
    let mut storage = [0u16; 5];
    let mut ring = RingBuffer::new(&mut storage);
    for v in [5u16, 6, 7, 8] {
        assert!(RingWrite::push(&mut ring, v).is_ok());
    }
    assert!(RingWrite::is_full(&ring));
    assert_eq!(RingRead::len(&ring), 4);
    assert_eq!(RingRead::front(&ring), Some(5));
    assert_eq!(drain_through_traits(&mut ring), vec![5, 6, 7, 8]);
    assert!(RingRead::is_empty(&ring));
    RingWrite::clear(&mut ring);
    assert!(ring.is_empty());
}

#[test]
fn len_counts_accepted_pushes_minus_pops_since_clear() {
    let mut storage = [0u32; 4];
    let mut ring = RingBuffer::new(&mut storage);
    let mut net: usize = 0;
    for v in 0..10u32 {
        if ring.push(v).is_ok() {
            net += 1;
        }
        if v % 3 == 0 && ring.pop().is_some() {
            net -= 1;
        }
        let _ = ring.front();
        assert_eq!(ring.len(), net);
        assert!(ring.len() <= ring.capacity());
        assert_eq!(ring.is_empty(), ring.len() == 0);
        assert_eq!(ring.is_full(), ring.len() == ring.capacity());
    }
    ring.clear();
    assert_eq!(ring.len(), 0);
    ring.push(1).unwrap();
    assert_eq!(ring.len(), 1);
    assert_eq!(ring.capacity(), 3);
}
