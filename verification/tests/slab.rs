use rfq::slab::{Handle, Slab, SlabFull};

#[test]
fn stale_handle_is_rejected_after_the_slot_is_reused() {
    let mut slab: Slab<u32> = Slab::with_capacity(1);

    let first = slab.insert(7).unwrap();
    assert_eq!(slab.remove(first), Some(7));
    let second = slab.insert(9).unwrap();

    assert_eq!(first.index(), second.index(), "the test needs the slot to be reused");
    assert_ne!(first.generation(), second.generation(), "reuse must bump the generation");

    assert_eq!(slab.get(first), None);
    assert_eq!(slab.get_mut(first), None);
    assert!(!slab.contains(first));
    assert_eq!(slab.get(second), Some(&9));

    assert_eq!(slab.remove(first), None);
    assert_eq!(slab.get(second), Some(&9));
    assert_eq!(slab.len(), 1);
}

#[test]
fn exhaustion_is_a_rejection_not_a_reallocation() {
    let mut slab: Slab<u32> = Slab::with_capacity(2);
    let a = slab.insert(1).unwrap();
    let _b = slab.insert(2).unwrap();

    assert_eq!(slab.insert(3), Err(SlabFull));
    assert_eq!(slab.capacity(), 2, "a rejected insert must not grow the slab");
    assert_eq!(slab.len(), 2);

    assert_eq!(slab.remove(a), Some(1));
    assert!(slab.insert(3).is_ok());
    assert_eq!(slab.insert(4), Err(SlabFull));
    assert_eq!(slab.capacity(), 2);
}

#[test]
fn a_zero_capacity_slab_admits_nothing() {
    let mut slab: Slab<u32> = Slab::with_capacity(0);
    assert!(slab.is_empty());
    assert_eq!(slab.insert(1), Err(SlabFull));
    assert_eq!(slab.capacity(), 0);
}

#[derive(Clone, Copy, Debug)]
enum Op {
    Insert(u32),
    Remove(usize),
    RemoveStale(usize),
}

struct Dice(u64);

impl Dice {
    fn roll(&mut self) -> u64 {
        self.0 = self.0.wrapping_mul(6_364_136_223_846_793_005).wrapping_add(1_442_695_040_888_963_407);
        self.0 >> 33
    }

    fn op(&mut self) -> Op {
        match self.roll() % 6 {
            0..=2 => Op::Insert(self.roll() as u32),
            3..=4 => Op::Remove(self.roll() as usize),
            _ => Op::RemoveStale(self.roll() as usize),
        }
    }
}

#[test]
fn capacity_is_never_exceeded_and_stale_handles_never_resolve() {
    for seed in 0..60_u64 {
        let mut dice = Dice(seed);
        let capacity = 1 + (dice.roll() % 11) as u32;
        let mut slab: Slab<u32> = Slab::with_capacity(capacity);
        let mut live: Vec<(Handle<u32>, u32)> = Vec::new();
        let mut stale: Vec<Handle<u32>> = Vec::new();

        for _ in 0..300 {
            match dice.op() {
                Op::Insert(value) => {
                    if let Ok(handle) = slab.insert(value) {
                        assert!(live.len() < capacity as usize);
                        live.push((handle, value));
                    } else {
                        assert_eq!(slab.len(), capacity);
                        assert_eq!(live.len(), capacity as usize);
                    }
                }
                Op::Remove(pick) => {
                    if !live.is_empty() {
                        let (handle, value) = live.remove(pick % live.len());
                        assert_eq!(slab.remove(handle), Some(value));
                        stale.push(handle);
                    }
                }
                Op::RemoveStale(pick) => {
                    if !stale.is_empty() {
                        let handle = stale[pick % stale.len()];
                        assert_eq!(slab.remove(handle), None);
                    }
                }
            }

            assert_eq!(slab.capacity(), capacity);
            assert!(slab.len() <= capacity);
            assert_eq!(slab.len() as usize, live.len());
            for (handle, value) in &live {
                assert_eq!(slab.get(*handle), Some(value));
            }
            for handle in &stale {
                assert_eq!(slab.get(*handle), None);
            }
        }
    }
}
