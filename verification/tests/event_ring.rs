use rfq::runtime::event_ring::EventRing;

#[test]
fn a_full_ring_evicts_its_oldest_entry_rather_than_refusing_the_writer() {

    let mut ring: EventRing<u32> = EventRing::with_capacity(3);
    for _ in 0..3 {
        ring.push(0);
    }
    assert_eq!(ring.len(), 3);
    assert_eq!(ring.dropped(), 0);

    let sequence = ring.push(1);
    assert_eq!(sequence, 3, "the writer was served");
    assert_eq!(ring.len(), 3, "the ring did not grow");
    assert_eq!(ring.capacity(), 3);
    assert_eq!(ring.dropped(), 1, "the oldest was evicted, not the newest refused");

    assert_eq!(ring.pop().unwrap().sequence, 1);
    assert_eq!(ring.pop().unwrap().sequence, 2);
    assert_eq!(ring.pop().unwrap().sequence, 3);
    assert_eq!(ring.pop(), None);
}

#[test]
fn sequence_numbers_are_assigned_to_dropped_events_too_so_gaps_are_visible() {

    let mut ring: EventRing<u32> = EventRing::with_capacity(2);
    for _ in 0..10 {
        ring.push(0);
    }

    let first = ring.pop().unwrap();
    let second = ring.pop().unwrap();
    assert_eq!(first.sequence, 8, "eight events were pushed past a two-slot ring");
    assert_eq!(second.sequence, 9);
    assert_eq!(ring.dropped(), 8);

    let previously_seen = 0_u64;
    assert_eq!(first.sequence - previously_seen, 8, "eight events are missing, and knowably so");
    assert!(ring.is_empty());
}

#[test]
fn a_ring_that_is_kept_drained_never_drops() {

    let mut ring: EventRing<u32> = EventRing::with_capacity(2);
    for expected in 0..20 {
        let sequence = ring.push(2);
        assert_eq!(sequence, expected);
        assert_eq!(ring.pop().unwrap().sequence, expected);
    }
    assert_eq!(ring.dropped(), 0);
    assert!(ring.is_empty());
}

#[test]
fn the_ring_wraps_without_losing_order() {
    let mut ring: EventRing<u32> = EventRing::with_capacity(4);
    for _ in 0..3 {
        ring.push(0);
    }
    assert_eq!(ring.pop().unwrap().sequence, 0);
    assert_eq!(ring.pop().unwrap().sequence, 1);

    for _ in 0..4 {
        ring.push(1);
    }
    assert_eq!(ring.len(), 4);
    assert_eq!(ring.dropped(), 1, "one of the five live entries had to go");
    let drained: Vec<u64> = std::iter::from_fn(|| ring.pop()).map(|event| event.sequence).collect();
    assert_eq!(drained, vec![3, 4, 5, 6], "still oldest-first, and sequence 2 was the eviction");
}
