use queuing_port::registry::{check_region, SharedRegistry};
use queuing_port::ring::{QueueError, QueuingPort, MSG_COUNT};

#[test]
fn test_basic_enqueue_dequeue_shared() {
    let os_id = "test_queue_1";
    let mut registry = SharedRegistry::new();

    QueuingPort::enqueue_shared(&mut registry, 10, os_id).unwrap();
    QueuingPort::enqueue_shared(&mut registry, 20, os_id).unwrap();

    let x = QueuingPort::dequeue_shared(&mut registry, os_id).unwrap();
    let y = QueuingPort::dequeue_shared(&mut registry, os_id).unwrap();

    println!("Dequeued values: {}, {}", x, y);
    assert_eq!(x, 10);
    assert_eq!(y, 20);
}

#[test]
fn test_single_writer_reader() {
    let os_id = "test_queue_fixed";
    let mut registry = SharedRegistry::new();

    for i in 0..10 {
        let _ = QueuingPort::enqueue_shared(&mut registry, i, os_id);
    }

    let mut results = vec![];
    for _ in 0..10 {
        if let Ok(val) = QueuingPort::dequeue_shared(&mut registry, os_id) {
            results.push(val);
        }
    }

    // the producer finished before the consumer started: order is kept exactly
    assert_eq!(results, (0..10).collect::<Vec<_>>());
}

#[test]
fn fresh_port_is_empty() {
    let mut p = QueuingPort::new();
    assert_eq!(p.len(), 0);
    assert_eq!(p.dequeue(), Err(QueueError::Empty));
    assert_eq!(p.len(), 0);
}

#[test]
fn three_in_three_out() {
    let mut p = QueuingPort::new();
    assert_eq!(p.enqueue(100), Ok(()));
    assert_eq!(p.enqueue(200), Ok(()));
    assert_eq!(p.enqueue(300), Ok(()));
    assert_eq!(p.dequeue(), Ok(100));
    assert_eq!(p.dequeue(), Ok(200));
    assert_eq!(p.dequeue(), Ok(300));
    assert_eq!(p.dequeue(), Err(QueueError::Empty));
}

#[test]
fn full_after_capacity_minus_one() {
    let mut p = QueuingPort::new();
    for i in 0..(MSG_COUNT as i32 - 1) {
        assert_eq!(p.enqueue(i), Ok(()));
    }
    assert_eq!(p.len(), MSG_COUNT - 1);
    assert_eq!(p.enqueue(99), Err(QueueError::Full));
    assert_eq!(p.len(), MSG_COUNT - 1);
    assert_eq!(p.dequeue(), Ok(0));
    assert_eq!(p.enqueue(99), Ok(()));
    assert_eq!(p.enqueue(100), Err(QueueError::Full));
    for i in 1..(MSG_COUNT as i32 - 1) {
        assert_eq!(p.dequeue(), Ok(i));
    }
    assert_eq!(p.dequeue(), Ok(99));
    assert_eq!(p.dequeue(), Err(QueueError::Empty));
}

#[test]
fn fifo_order_kept() {
    let mut p = QueuingPort::new();
    let values = [7, -3, 0, 42, i32::MAX, i32::MIN, 5];
    for v in values {
        assert_eq!(p.enqueue(v), Ok(()));
    }
    for v in values {
        assert_eq!(p.dequeue(), Ok(v));
    }
    assert_eq!(p.dequeue(), Err(QueueError::Empty));
}

#[test]
fn cursors_wrap_around() {
    let mut p = QueuingPort::new();
    for i in 0..(3 * MSG_COUNT as i32 + 5) {
        assert_eq!(p.enqueue(i), Ok(()));
        assert_eq!(p.dequeue(), Ok(i));
        assert_eq!(p.dequeue(), Err(QueueError::Empty));
    }
    // the cursors now stand mid-ring: a full fill still holds MSG_COUNT - 1
    for i in 0..(MSG_COUNT as i32 - 1) {
        assert_eq!(p.enqueue(1000 + i), Ok(()));
    }
    assert_eq!(p.enqueue(-1), Err(QueueError::Full));
    for i in 0..(MSG_COUNT as i32 - 1) {
        assert_eq!(p.dequeue(), Ok(1000 + i));
    }
    assert_eq!(p.dequeue(), Err(QueueError::Empty));
}

#[test]
fn same_name_reaches_same_port() {
    let mut registry = SharedRegistry::new();
    let name = "queuing_port_identity";
    assert!(!registry.is_bound(name));
    assert_eq!(QueuingPort::enqueue_shared(&mut registry, 5, name), Ok(()));
    assert!(registry.is_bound(name));
    assert_eq!(QueuingPort::dequeue_shared(&mut registry, name), Ok(5));
    assert_eq!(QueuingPort::dequeue_shared(&mut registry, name), Err(QueueError::Empty));
}

#[test]
fn different_names_reach_different_ports() {
    let mut registry = SharedRegistry::new();
    assert_eq!(QueuingPort::enqueue_shared(&mut registry, 1, "queuing_port_a"), Ok(()));
    assert_eq!(QueuingPort::enqueue_shared(&mut registry, 2, "queuing_port_b"), Ok(()));
    assert_eq!(QueuingPort::dequeue_shared(&mut registry, "queuing_port_b"), Ok(2));
    assert_eq!(QueuingPort::dequeue_shared(&mut registry, "queuing_port_a"), Ok(1));
    assert_eq!(QueuingPort::dequeue_shared(&mut registry, "queuing_port_a"), Err(QueueError::Empty));
}

#[test]
fn shared_port_fills_up() {
    let mut registry = SharedRegistry::new();
    let name = "queuing_port_full";
    for i in 0..(MSG_COUNT as i32 - 1) {
        assert_eq!(QueuingPort::enqueue_shared(&mut registry, i, name), Ok(()));
    }
    assert_eq!(QueuingPort::enqueue_shared(&mut registry, 0, name), Err(QueueError::Full));
}

#[test]
fn unusable_name_gives_region_unavailable() {
    let mut registry = SharedRegistry::new();
    let name = "queuing_port/no/such/dir";
    assert_eq!(QueuingPort::enqueue_shared(&mut registry, 1, name), Err(QueueError::RegionUnavailable));
    assert!(!registry.is_bound(name));
    assert_eq!(QueuingPort::dequeue_shared(&mut registry, name), Err(QueueError::RegionUnavailable));
}

#[test]
fn region_check_accepts_exactly_regions_large_enough() {
    let size = std::mem::size_of::<QueuingPort>();
    assert_eq!(check_region(None), Err(QueueError::RegionUnavailable));
    assert_eq!(check_region(Some(0)), Err(QueueError::RegionUnavailable));
    assert_eq!(check_region(Some(size - 1)), Err(QueueError::RegionUnavailable));
    assert_eq!(check_region(Some(size)), Ok(()));
    assert_eq!(check_region(Some(4096)), Ok(()));
}

#[test]
fn first_dequeue_on_new_name_is_empty() {
    let mut registry = SharedRegistry::new();
    let name = "queuing_port_first_dequeue";
    assert_eq!(QueuingPort::dequeue_shared(&mut registry, name), Err(QueueError::Empty));
    assert!(registry.is_bound(name));
    assert_eq!(QueuingPort::enqueue_shared(&mut registry, 8, name), Ok(()));
    assert_eq!(QueuingPort::dequeue_shared(&mut registry, name), Ok(8));
}
