use latency_probe::window::{SampleWindow, DEFAULT_CAPACITY};

#[test]
fn new_window_is_empty_with_default_capacity() {
    let window = SampleWindow::new();
    assert_eq!(window.len(), 0);
    assert!(window.is_empty());
    assert_eq!(window.capacity(), 1000);
    assert_eq!(DEFAULT_CAPACITY, 1000);
    assert_eq!(window.snapshot(), Vec::<u64>::new());
}

#[test]
fn push_below_capacity_keeps_everything_in_order() {
    let mut window = SampleWindow::with_capacity(4);
    window.push(30);
    window.push(10);
    window.push(20);
    assert_eq!(window.len(), 3);
    assert!(!window.is_empty());
    assert_eq!(window.snapshot(), vec![30, 10, 20]);
}

#[test]
fn push_at_capacity_evicts_the_oldest_only() {
    let mut window = SampleWindow::with_capacity(3);
    for sample in [5u64, 6, 7] {
        window.push(sample);
    }
    assert_eq!(window.snapshot(), vec![5, 6, 7]);
    window.push(8);
    assert_eq!(window.len(), 3);
    assert_eq!(window.snapshot(), vec![6, 7, 8]);
    window.push(9);
    assert_eq!(window.snapshot(), vec![7, 8, 9]);
}

#[test]
fn length_never_exceeds_capacity() {
    let mut window = SampleWindow::with_capacity(7);
    for sample in 0..100u64 {
        window.push(sample * 3);
        assert!(window.len() <= 7);
        let expected = std::cmp::min(sample as usize + 1, 7);
        assert_eq!(window.len(), expected);
    }
}

#[test]
fn window_retains_the_most_recent_in_arrival_order() {
    let mut window = SampleWindow::with_capacity(1000);
    let pushed: Vec<u64> = (0..2500u64).map(|i| (i * 7919) % 1013).collect();
    for sample in &pushed {
        window.push(*sample);
    }
    assert_eq!(window.len(), 1000);
    assert_eq!(window.snapshot(), pushed[1500..].to_vec());
}

#[test]
fn window_of_capacity_one_holds_the_last_sample() {
    let mut window = SampleWindow::with_capacity(1);
    window.push(11);
    window.push(22);
    assert_eq!(window.snapshot(), vec![22]);
    assert_eq!(window.len(), 1);
}

#[test]
fn window_of_capacity_zero_stays_empty() {
    let mut window = SampleWindow::with_capacity(0);
    window.push(11);
    window.push(22);
    assert_eq!(window.len(), 0);
    assert!(window.is_empty());
    assert_eq!(window.snapshot(), Vec::<u64>::new());
}

#[test]
fn snapshot_is_a_copy() {
    let mut window = SampleWindow::with_capacity(3);
    window.push(3);
    window.push(1);
    window.push(2);
    let mut copy = window.snapshot();
    copy.sort();
    copy.push(99);
    assert_eq!(window.snapshot(), vec![3, 1, 2]);
    window.push(4);
    assert_eq!(copy, vec![1, 2, 3, 99]);
    assert_eq!(window.snapshot(), vec![1, 2, 4]);
}
