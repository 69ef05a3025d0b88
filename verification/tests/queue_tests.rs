use std::collections::HashMap;

use priority_queue::PriorityQueue;
use queue_variants::{
    ordinary_with_capacity, AbstractPriorityQueue, Access, BlockingQueue, BucketQueue, DenseSlots,
    IsraeliPriority, Keyed, MaxCombiner, NoPriorityQueue, TenfoldCoarse,
};

#[test]
fn presence() {
    let q = BlockingQueue::<Access>::default_empty();
    assert!(q.is_empty());
}

#[test]
fn nothing_in_out() {
    let mut q = NoPriorityQueue::<u8>::new();
    assert_eq!(q.my_len(), 0);
    assert!(q.is_empty());
    assert!(q.my_dequeue().is_none());
    assert!(q.dequeue_batch(10, 10).is_empty());
}

#[test]
fn ordinary_priority_queue_nothing_in_out() {
    let mut q = PriorityQueue::<u64, u64>::new();
    assert_eq!(q.my_len(), 0);
    assert!(q.is_empty());
    assert!(q.my_dequeue().is_none());
    assert!(q.dequeue_batch(10, 10).is_empty());
}

#[test]
fn same_order_inout() {
    let mut q = PriorityQueue::<u64, u64>::new();
    let max_num: u64 = 7;
    for (a, b) in std::iter::zip(0..max_num, (0..max_num).rev()) {
        q.my_enqueue(a, b);
    }
    assert_eq!(q.my_len(), max_num as usize);
    assert!(!q.is_empty());
    let removed = q.my_dequeue();
    assert_eq!(removed, Some((0, max_num - 1)));
    assert_eq!(
        q.dequeue_batch(10, 10),
        (1..max_num).map(|z| (z, max_num - 1 - z)).collect::<Vec<_>>()
    );
}

#[test]
fn israeli_priority_nothing_in_out() {
    let mut q = IsraeliPriority::<Keyed, MaxCombiner>::with_capacity(2);
    assert_eq!(q.my_len(), 0);
    assert!(q.is_empty());
    assert!(q.my_dequeue().is_none());
    assert!(q.dequeue_batch(10, 10).is_empty());
}

fn keyed(i: u64) -> Keyed {
    Keyed { key: i, group: i % 5 }
}

#[test]
fn israeli_priority_same_order_inout() {
    const FRIENDLINESS: u64 = 5;
    for max_num in 0..=FRIENDLINESS {
        let mut q = IsraeliPriority::<Keyed, MaxCombiner>::with_capacity(max_num as usize);
        for (a, b) in std::iter::zip(0..max_num, (0..max_num).rev()) {
            q.my_enqueue(keyed(a), b);
        }
        assert_eq!(q.my_len(), max_num as usize);
        if max_num > 0 {
            assert!(!q.is_empty());
            let removed = q.my_dequeue();
            assert_eq!(removed, Some((keyed(0), max_num - 1)));
        } else {
            assert!(q.is_empty());
            let removed = q.my_dequeue();
            assert_eq!(removed, None);
        }
        assert_eq!(
            q.dequeue_batch(10, 10),
            (1..max_num).map(|z| (keyed(z), max_num - 1 - z)).collect::<Vec<_>>()
        );

        let mut q = IsraeliPriority::<Keyed, MaxCombiner>::with_capacity(max_num as usize);
        for (a, b) in std::iter::zip(0..max_num, (0..max_num).rev()) {
            q.my_enqueue(keyed(a), b);
        }
        assert_eq!(q.my_len(), max_num as usize);
        assert!(!q.is_empty() || max_num == 0);
        for idx in 0..max_num {
            assert!(!q.has_serving_group());
            let removed = q.my_dequeue();
            assert_eq!(removed, Some((keyed(idx), max_num - 1 - idx)));
            assert!(!q.has_serving_group());
        }
        assert!(q.is_empty());
        let removed = q.my_dequeue();
        assert_eq!(removed, None);
        assert!(q.is_empty());
    }
}

#[test]
fn ordinary_queue_scenario() {
    // items a, b, c at priorities 1, 3, 2 leave as b, c, a
    let mut q = PriorityQueue::<u64, u64>::new();
    q.my_enqueue(10, 1);
    q.my_enqueue(20, 3);
    q.my_enqueue(30, 2);
    assert_eq!(q.my_dequeue(), Some((20, 3)));
    assert_eq!(q.my_dequeue(), Some((30, 2)));
    assert_eq!(q.my_dequeue(), Some((10, 1)));
    assert_eq!(q.my_dequeue(), None);
}

#[test]
fn peek_agrees_with_dequeue() {
    let mut q = PriorityQueue::<u64, u64>::new();
    q.my_enqueue(4, 9);
    q.my_enqueue(5, 11);
    let peeked = q.my_peek().map(|(t, p)| (*t, *p));
    assert_eq!(peeked, q.my_dequeue());
    let peeked = q.my_peek().map(|(t, p)| (*t, *p));
    assert_eq!(peeked, q.my_dequeue());
    assert!(q.my_peek().is_none());
}

#[test]
fn drain_leaves_queue_usable() {
    let mut q = NoPriorityQueue::<u64>::new();
    q.my_enqueue(1, 5);
    q.my_enqueue(2, 6);
    q.my_enqueue(3, 7);
    let drained = q.drain_all();
    assert_eq!(drained.len(), 3);
    assert!(q.is_empty());
    q.my_enqueue(9, 0);
    assert_eq!(q.my_len(), 1);
    assert_eq!(q.my_dequeue(), Some((9, 0)));
}

#[test]
fn enqueue_many_groups_runs() {
    let mut q = PriorityQueue::<u64, u64>::new();
    q.enqueue_many(vec![(1, 5), (2, 5), (3, 5), (4, 2), (5, 9)]);
    assert_eq!(q.my_len(), 5);
    assert_eq!(q.my_dequeue(), Some((5, 9)));
    let rest = q.dequeue_batch(10, 10);
    assert_eq!(rest.len(), 4);
    assert_eq!(rest[3], (4, 2));
}

#[test]
fn all_items_iter_hands_items_back() {
    let mut q = NoPriorityQueue::<u64>::new();
    q.my_enqueue(7, 0);
    q.my_enqueue(8, 0);
    let items = q.all_items_iter();
    assert_eq!(items, vec![7, 8]);
}

#[test]
fn blocking_queue_scenario() {
    // two reads, then a write on the same resource, then one more read: the
    // write waits for both reads, the late read waits for the write
    let mut q = BlockingQueue::<Access>::default_empty();
    let read = Access { is_write: false, resource: 1 };
    let write = Access { is_write: true, resource: 1 };
    q.my_enqueue(read, 0);
    q.my_enqueue(read, 0);
    q.my_enqueue(write, 0);
    q.my_enqueue(read, 0);
    assert_eq!(q.my_len(), 4);
    let order: Vec<bool> = q.drain_all().into_iter().map(|(a, _)| a.is_write).collect();
    assert_eq!(order, vec![false, false, true, false]);
    assert!(q.is_empty());
}

#[test]
fn blocking_queue_priorities_respect_obligations() {
    // the high-priority write still waits for the earlier read
    let mut q = BlockingQueue::<Access>::default_empty();
    let read = Access { is_write: false, resource: 7 };
    let write = Access { is_write: true, resource: 7 };
    let other = Access { is_write: false, resource: 8 };
    q.my_enqueue(read, 1);
    q.my_enqueue(write, 9);
    q.my_enqueue(other, 5);
    let first = q.my_dequeue().unwrap();
    assert_eq!(first.0, other);
    let second = q.my_dequeue().unwrap();
    assert_eq!(second.0, read);
    let third = q.my_dequeue().unwrap();
    assert_eq!(third.0, write);
}

#[test]
fn israeli_scenario_distinct_groups() {
    // shibboleth i mod 5; priorities 4, 3, 2, 1, 0 give the keys in order
    let mut q = IsraeliPriority::<Keyed, MaxCombiner>::with_capacity(8);
    for i in 0..5u64 {
        q.my_enqueue(keyed(i), 4 - i);
    }
    let keys: Vec<u64> = q.drain_all().into_iter().map(|(k, _)| k.key).collect();
    assert_eq!(keys, vec![0, 1, 2, 3, 4]);
}

#[test]
fn israeli_scenario_one_group_fifo() {
    // all three share shibboleth 0; the group leaves in arrival order
    let mut q = IsraeliPriority::<Keyed, MaxCombiner>::with_capacity(8);
    q.my_enqueue(keyed(0), 0);
    q.my_enqueue(keyed(5), 0);
    q.my_enqueue(keyed(10), 0);
    let keys: Vec<u64> = q.drain_all().into_iter().map(|(k, _)| k.key).collect();
    assert_eq!(keys, vec![0, 5, 10]);
}

#[test]
fn israeli_late_friend_boosts_group() {
    // a high-priority friend joining a waiting group pulls it forward
    let mut q = IsraeliPriority::<Keyed, MaxCombiner>::with_capacity(8);
    q.my_enqueue(Keyed { key: 1, group: 1 }, 5);
    q.my_enqueue(Keyed { key: 2, group: 2 }, 7);
    q.my_enqueue(Keyed { key: 11, group: 1 }, 9);
    let keys: Vec<u64> = q.drain_all().into_iter().map(|(k, _)| k.key).collect();
    assert_eq!(keys, vec![1, 11, 2]);
}

#[test]
fn israeli_hard_limit_keeps_friends_waiting_together() {
    // a group of three split by the hard limit: two leave, the third stays
    let mut q = IsraeliPriority::<Keyed, MaxCombiner>::with_capacity(8);
    q.my_enqueue(Keyed { key: 1, group: 3 }, 4);
    q.my_enqueue(Keyed { key: 2, group: 3 }, 4);
    q.my_enqueue(Keyed { key: 3, group: 3 }, 4);
    let out = q.dequeue_batch(1, 2);
    assert_eq!(out.len(), 2);
    assert_eq!(q.my_len(), 1);
    assert_eq!(q.my_dequeue(), Some((Keyed { key: 3, group: 3 }, 4)));
}

#[test]
fn israeli_serving_group_absorbs_late_friend() {
    // once a group starts being served, a late friend joins that same group
    let mut q = IsraeliPriority::<Keyed, MaxCombiner>::with_capacity(8);
    q.my_enqueue(Keyed { key: 1, group: 4 }, 2);
    q.my_enqueue(Keyed { key: 2, group: 4 }, 2);
    q.my_enqueue(Keyed { key: 3, group: 0 }, 1);
    let first = q.my_dequeue().unwrap();
    assert_eq!(first.0.key, 1);
    assert!(q.has_serving_group());
    // the serving group cannot be overtaken, even by a higher priority
    q.my_enqueue(Keyed { key: 9, group: 1 }, 99);
    q.my_enqueue(Keyed { key: 12, group: 4 }, 0);
    let keys: Vec<u64> = q.drain_all().into_iter().map(|(k, _)| k.key).collect();
    assert_eq!(keys, vec![2, 12, 9, 3]);
}

#[test]
fn bucket_queue_scenario() {
    // coarse key is priority / 10: the two high buckets leave first
    let dummy = PriorityQueue::<u64, u64>::new();
    let mut q = BucketQueue::<u64, _, HashMap<i64, PriorityQueue<u64, u64>>, TenfoldCoarse>::new(
        0, 1, &dummy,
    );
    q.my_enqueue(100, 7);
    q.my_enqueue(200, 12);
    q.my_enqueue(300, 3);
    q.my_enqueue(400, 15);
    assert_eq!(q.my_len(), 4);
    let order: Vec<u64> = q.drain_all().into_iter().map(|(t, _)| t).collect();
    assert_eq!(order, vec![400, 200, 100, 300]);
    assert!(q.is_empty());
}

#[test]
fn bucket_queue_batch_bounds() {
    let dummy = PriorityQueue::<u64, u64>::new();
    let mut q = BucketQueue::<u64, _, HashMap<i64, PriorityQueue<u64, u64>>, TenfoldCoarse>::new(
        0, 1, &dummy,
    );
    for i in 0..6u64 {
        q.my_enqueue(i, i * 4);
    }
    let got = q.dequeue_batch(4, 5);
    assert_eq!(got.len(), 4);
    assert_eq!(q.my_len(), 2);
    let rest = q.dequeue_batch(10, 10);
    assert_eq!(rest.len(), 2);
}

#[test]
fn dequeue_batch_bounds_hold() {
    let mut q = PriorityQueue::<u64, u64>::new();
    for i in 0..5u64 {
        q.my_enqueue(i, i);
    }
    let got = q.dequeue_batch(3, 4);
    assert_eq!(got.len(), 3);
    let rest = q.dequeue_batch(10, 12);
    assert_eq!(rest.len(), 2);
    assert!(q.dequeue_batch(2, 2).is_empty());
}

#[test]
fn israeli_without_grouping_matches_the_oracle() {
    // every item its own group: the grouping queue reduces to the oracle
    let inputs: Vec<(u64, u64)> = vec![(0, 3), (1, 9), (2, 1), (3, 7), (4, 5)];
    let mut oracle = PriorityQueue::<u64, u64>::new();
    let mut grouping = IsraeliPriority::<Keyed, MaxCombiner>::with_capacity(8);
    for (i, p) in &inputs {
        oracle.my_enqueue(*i, *p);
        grouping.my_enqueue(Keyed { key: *i, group: *i }, *p);
    }
    let expected: Vec<(u64, u64)> = oracle.drain_all();
    let got: Vec<(u64, u64)> = grouping.drain_all().into_iter().map(|(k, p)| (k.key, p)).collect();
    assert_eq!(got, expected);
}

#[test]
fn blocking_without_obligations_matches_the_oracle() {
    // nothing ever blocks: the blocking queue reduces to the oracle
    let inputs: Vec<(u64, u64)> = vec![(0, 3), (1, 9), (2, 1), (3, 7), (4, 5)];
    let mut oracle = PriorityQueue::<u64, u64>::new();
    let mut blocking = BlockingQueue::<Access>::default_empty();
    for (i, p) in &inputs {
        oracle.my_enqueue(*i, *p);
        blocking.my_enqueue(Access { is_write: false, resource: *i }, *p);
    }
    let expected: Vec<(u64, u64)> = oracle.drain_all();
    let got: Vec<(u64, u64)> =
        blocking.drain_all().into_iter().map(|(a, p)| (a.resource, p)).collect();
    assert_eq!(got, expected);
}

#[test]
fn israeli_batch_of_friends_fuses() {
    // a batch of friends forms one group and leaves together
    let mut q = IsraeliPriority::<Keyed, MaxCombiner>::with_capacity(8);
    q.my_enqueue(Keyed { key: 50, group: 9 }, 5);
    q.enqueue_batch(
        vec![
            Keyed { key: 1, group: 2 },
            Keyed { key: 2, group: 2 },
            Keyed { key: 3, group: 2 },
        ],
        7,
    );
    assert_eq!(q.my_len(), 4);
    let keys: Vec<u64> = q.drain_all().into_iter().map(|(k, _)| k.key).collect();
    assert_eq!(keys, vec![1, 2, 3, 50]);
}

#[test]
fn israeli_mixed_batch_splits_up() {
    let mut q = IsraeliPriority::<Keyed, MaxCombiner>::with_capacity(8);
    q.enqueue_batch(
        vec![
            Keyed { key: 1, group: 1 },
            Keyed { key: 2, group: 2 },
            Keyed { key: 3, group: 1 },
        ],
        4,
    );
    assert_eq!(q.my_len(), 3);
    let keys: Vec<u64> = q.drain_all().into_iter().map(|(k, _)| k.key).collect();
    assert_eq!(keys, vec![1, 3, 2]);
}

#[test]
fn bucket_queue_enqueue_batch_lands_in_one_bucket() {
    let dummy = PriorityQueue::<u64, u64>::new();
    let mut q = BucketQueue::<u64, _, HashMap<i64, PriorityQueue<u64, u64>>, TenfoldCoarse>::new(
        0, 1, &dummy,
    );
    q.enqueue_batch(vec![1, 2, 3], 25);
    q.my_enqueue(4, 7);
    assert_eq!(q.my_len(), 4);
    let out = q.drain_all();
    assert_eq!(out.len(), 4);
    // the three batch members, in the priority-25 bucket, all leave first
    assert!(out[..3].iter().all(|(_, p)| *p == 25));
    assert_eq!(out[3], (4, 7));
}

#[test]
fn dense_slots_grow_and_trim() {
    let mut store: DenseSlots<u64> = DenseSlots::new();
    assert!(store.get(&0).is_none());
    assert_eq!(store.insert(3, 30), None);
    assert_eq!(store.insert(0, 10), None);
    assert_eq!(store.get(&3), Some(&30));
    assert_eq!(store.get(&0), Some(&10));
    assert!(store.get(&1).is_none());
    assert!(store.get(&7).is_none());
    assert_eq!(store.insert(3, 33), Some(30));
    assert_eq!(store.remove(&3), Some(33));
    assert!(store.get(&3).is_none());
    assert_eq!(store.remove(&3), None);
    assert_eq!(store.remove(&9), None);
    assert_eq!(store.get(&0), Some(&10));
}

#[test]
fn dense_slots_values_in_key_order() {
    let mut store: DenseSlots<u64> = DenseSlots::new();
    store.insert(4, 44);
    store.insert(1, 11);
    store.insert(2, 22);
    let vals: Vec<u64> = store.values().into_iter().copied().collect();
    assert_eq!(vals, vec![11, 22, 44]);
    store.remove(&2);
    let vals: Vec<u64> = store.values().into_iter().copied().collect();
    assert_eq!(vals, vec![11, 44]);
}

#[test]
fn ordinary_with_capacity_starts_empty() {
    let mut q = ordinary_with_capacity(4);
    assert!(q.is_empty());
    q.my_enqueue(9, 1);
    q.my_enqueue(8, 5);
    assert_eq!(q.my_dequeue(), Some((8, 5)));
    assert_eq!(q.my_dequeue(), Some((9, 1)));
    assert_eq!(q.my_dequeue(), None);
}

#[test]
fn bucket_batch_dequeue_keeps_friend_groups() {
    // an inner grouping queue may overshoot the target, up to the hard
    // limit, so a friend group is not splintered across batches
    let dummy = IsraeliPriority::<Keyed, MaxCombiner>::with_capacity(4);
    let mut q = BucketQueue::<
        Keyed,
        _,
        HashMap<i64, IsraeliPriority<Keyed, MaxCombiner>>,
        TenfoldCoarse,
    >::new(0, 1, &dummy);
    q.my_enqueue(keyed(10), 15);
    q.enqueue_batch(vec![keyed(1), keyed(6), keyed(11)], 5);
    let got = q.dequeue_batch(2, 4);
    let items: Vec<u64> = got.into_iter().map(|(t, _)| t.key).collect();
    assert_eq!(items, vec![10, 1, 6, 11]);
    assert!(q.is_empty());
}
