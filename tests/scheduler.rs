use weighted_fair_queue::{IpPrecedence, Item, WeightMode, WeightedFairQueue};

fn item(flow: u64, weight: u64, len: usize, tag: u8) -> Item {
    Item::new(flow, weight, vec![tag; len])
}

#[test]
fn two_flows_overflow_then_promotion() {
    let mut q = WeightedFairQueue::new(100);
    assert!(q.enqueue(item(1, 1, 60, b'a')).is_none());
    assert_eq!(q.queue_size().normal(), 60);
    assert_eq!(q.queue_size().overflow(), 0);

    assert!(q.enqueue(item(2, 3, 60, b'b')).is_none());
    assert_eq!(q.queue_size().normal(), 60);
    assert_eq!(q.queue_size().overflow(), 60);
    assert_eq!(q.queue_size().total(), 120);
    assert_eq!(q.flows().len(), 2);

    let first = q.dequeue().unwrap();
    assert_eq!(*first.flow_key(), 1);
    assert_eq!(first.data(), &vec![b'a'; 60]);
    // The overflowed item was promoted into the primary queue.
    assert_eq!(q.queue_size().normal(), 60);
    assert_eq!(q.queue_size().overflow(), 0);
    assert_eq!(q.flows().len(), 1);
    assert!(q.flows().get(&1).is_none());

    let second = q.dequeue().unwrap();
    assert_eq!(*second.flow_key(), 2);
    assert_eq!(second.weight(), 3);
    assert_eq!(q.queue_size().total(), 0);
    assert!(q.flows().is_empty());
    assert_eq!(q.weight_sum(), 0);
    assert!(q.dequeue().is_none());
}

#[test]
fn empty_queue_dequeues_nothing() {
    let mut q = WeightedFairQueue::new(10);
    assert!(q.dequeue().is_none());
    assert_eq!(q.queue_size().total(), 0);
    assert_eq!(q.virtual_time(), 0);
}

#[test]
fn precedence_weights() {
    let expected: [(IpPrecedence, u64); 8] = [
        (IpPrecedence::P0, 32768),
        (IpPrecedence::P1, 16384),
        (IpPrecedence::P2, 10920),
        (IpPrecedence::P3, 8192),
        (IpPrecedence::P4, 6552),
        (IpPrecedence::P5, 5456),
        (IpPrecedence::P6, 4680),
        (IpPrecedence::P7, 4096),
    ];
    for (p, w) in expected {
        assert_eq!(p.weight(), w);
    }
}

#[test]
fn finish_time_uses_inverse_weight() {
    let mut q = WeightedFairQueue::new(1000);
    // weight 4 -> inverse 16384 per byte; 10 bytes -> finish 163840
    assert!(q.enqueue(item(7, 4, 10, 0)).is_none());
    let fs = q.flows().get(&7).unwrap();
    assert_eq!(fs.weight, 4);
    assert_eq!(fs.inverse_weight, 16384);
    assert_eq!(fs.last_virtual_finish_time, 163840);
    assert_eq!(fs.queue_size.normal(), 10);
    q.dequeue().unwrap();
    assert_eq!(q.virtual_time(), 163840);
}

#[test]
fn heavier_flow_is_served_first() {
    let mut q = WeightedFairQueue::new(10_000);
    // light flow: weight 1, heavy flow: P0 precedence
    for _ in 0..3 {
        assert!(q.enqueue(item(1, 1, 100, 1)).is_none());
        assert!(q.enqueue(item(2, IpPrecedence::P0.weight(), 100, 2)).is_none());
    }
    let mut order = Vec::new();
    let mut last = 0u128;
    while let Some(it) = q.dequeue() {
        assert!(q.virtual_time() >= last);
        last = q.virtual_time();
        order.push(*it.flow_key());
    }
    assert_eq!(order, vec![2, 2, 2, 1, 1, 1]);
}

#[test]
fn per_flow_cap_rejects_unchanged() {
    let mut q = WeightedFairQueue::with_max_flow_size(100, 50);
    assert!(q.enqueue(item(1, 1, 30, 1)).is_none());
    let before_seq = q.queue_size();
    let rejected = q.enqueue(item(1, 1, 30, 9)).unwrap();
    assert_eq!(*rejected.flow_key(), 1);
    assert_eq!(rejected.into_data(), vec![9u8; 30]);
    assert_eq!(q.queue_size().normal(), before_seq.normal());
    assert_eq!(q.queue_size().overflow(), before_seq.overflow());
    assert_eq!(q.flows().get(&1).unwrap().queue_size.total(), 30);
    // exactly at the cap is accepted
    assert!(q.enqueue(item(1, 1, 20, 1)).is_none());
    // another flow is unaffected
    assert!(q.enqueue(item(2, 1, 50, 1)).is_none());
    // an unknown flow with an item over the cap is rejected and not created
    assert!(q.enqueue(item(3, 1, 51, 1)).is_some());
    assert!(q.flows().get(&3).is_none());
}

#[test]
fn promotion_prefers_weight_then_arrival() {
    let mut q = WeightedFairQueue::new(10);
    assert!(q.enqueue(item(1, 1, 10, 0)).is_none()); // fills primary
    assert!(q.enqueue(item(2, 5, 5, 0)).is_none()); // overflow, weight 5, older
    assert!(q.enqueue(item(3, 9, 5, 0)).is_none()); // overflow, weight 9
    assert!(q.enqueue(item(4, 5, 5, 0)).is_none()); // overflow, weight 5, newer
    assert_eq!(q.queue_size().overflow(), 15);

    let first = q.dequeue().unwrap();
    assert_eq!(*first.flow_key(), 1);
    // flows 3 then 2 were promoted; flow 4 still waits
    assert_eq!(q.queue_size().normal(), 10);
    assert_eq!(q.queue_size().overflow(), 5);
    assert_eq!(q.flows().get(&4).unwrap().queue_size.overflow(), 5);
    assert_eq!(q.flows().get(&3).unwrap().queue_size.normal(), 5);
    assert_eq!(q.flows().get(&2).unwrap().queue_size.normal(), 5);
}

#[test]
fn teardown_reduces_weight_sum() {
    let mut q = WeightedFairQueue::new(1000);
    assert!(q.enqueue(item(1, 3, 10, 0)).is_none());
    assert!(q.enqueue(item(1, 3, 10, 0)).is_none());
    assert!(q.enqueue(item(2, 5, 10, 0)).is_none());
    assert_eq!(q.weight_sum(), 8);
    q.dequeue().unwrap();
    q.dequeue().unwrap();
    q.dequeue().unwrap();
    assert_eq!(q.weight_sum(), 0);
    assert!(q.flows().is_empty());
}

#[test]
fn teardown_of_one_flow_keeps_others() {
    let mut q = WeightedFairQueue::new(1000);
    assert!(q.enqueue(item(1, 1, 10, 0)).is_none()); // finish 655360
    assert!(q.enqueue(item(2, 2, 10, 0)).is_none()); // finish 327680
    assert_eq!(q.weight_sum(), 3);
    let it = q.dequeue().unwrap();
    assert_eq!(*it.flow_key(), 2);
    assert_eq!(q.weight_sum(), 1);
    assert!(q.flows().get(&2).is_none());
    assert!(q.flows().get(&1).is_some());
}

#[test]
fn everything_accepted_comes_out_once() {
    let mut q = WeightedFairQueue::new(50);
    let mut accepted = 0usize;
    for i in 0..20u64 {
        let len = (i as usize % 7) + 1;
        if q.enqueue(item(i % 4, (i % 3) + 1, len, i as u8)).is_none() {
            accepted += 1;
        }
    }
    let mut seen = Vec::new();
    loop {
        match q.dequeue() {
            Some(it) => seen.push(it.data()[0]),
            None => {
                if q.queue_size().overflow() == 0 {
                    break;
                }
                // primary drained while overflow waits: a new arrival lets a
                // later dequeue trigger promotion
                assert!(q.enqueue(item(99, 1, 1, 200)).is_none());
                accepted += 1;
            }
        }
    }
    assert_eq!(seen.len(), accepted);
    seen.sort();
    let mut expected: Vec<u8> = (0..20u8).collect();
    let extra = accepted - 20;
    expected.extend(std::iter::repeat(200u8).take(extra));
    expected.sort();
    assert_eq!(seen, expected);
    assert!(q.flows().is_empty());
}

#[test]
fn item_accessors() {
    let it = Item::new(42, 7, vec![1, 2, 3]);
    assert_eq!(*it.flow_key(), 42);
    assert_eq!(it.weight(), 7);
    assert_eq!(it.data(), &vec![1, 2, 3]);
    assert_eq!(it.data_size(), 3);
    assert_eq!(it.into_data(), vec![1, 2, 3]);
}

#[test]
fn per_item_mode_prices_weight_times_size() {
    let mut q = WeightedFairQueue::with_config(1000, None, WeightMode::PerItem);
    assert!(q.enqueue(item(5, 3, 10, 0)).is_none()); // finish 30
    assert!(q.enqueue(item(5, 1, 10, 0)).is_none()); // finish 40
    assert!(q.enqueue(item(6, 2, 10, 0)).is_none()); // finish 20
    let fs = q.flows().get(&5).unwrap();
    assert_eq!(fs.weight, 3);
    assert_eq!(fs.last_virtual_finish_time, 40);
    assert_eq!(*q.dequeue().unwrap().flow_key(), 6);
    assert_eq!(q.virtual_time(), 20);
    assert_eq!(q.dequeue().unwrap().weight(), 3);
    assert_eq!(q.virtual_time(), 30);
    assert_eq!(q.dequeue().unwrap().weight(), 1);
    assert_eq!(q.virtual_time(), 40);
}

#[test]
fn new_flow_starts_at_virtual_time() {
    let mut q = WeightedFairQueue::new(1000);
    assert!(q.enqueue(item(1, 65536, 10, 0)).is_none()); // inverse 1: finish 10
    q.dequeue().unwrap();
    assert_eq!(q.virtual_time(), 10);
    assert!(q.enqueue(item(2, 32768, 5, 0)).is_none()); // starts at 10: finish 20
    assert_eq!(q.flows().get(&2).unwrap().last_virtual_finish_time, 20);
}
