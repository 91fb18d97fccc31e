use porthole::backoff::{Backoff, HEALTHY_NS};

#[test]
fn delays_double_up_to_half_a_minute() {
    let mut backoff = Backoff::new();
    let mut waits = Vec::new();
    for _ in 0..8 {
        waits.push(backoff.next_wait(0, 0));
    }
    assert_eq!(waits, vec![1000, 2000, 4000, 8000, 16000, 30000, 30000, 30000]);
}

#[test]
fn healthy_connections_start_over() {
    let mut backoff = Backoff::new();
    for _ in 0..4 {
        backoff.next_wait(1, 0);
    }
    // Exactly ten seconds is not healthy yet.
    assert_eq!(backoff.next_wait(HEALTHY_NS, 0), 16000);
    assert_eq!(backoff.next_wait(HEALTHY_NS + 1, 123), 1123);
    assert_eq!(backoff.next_wait(0, 0), 2000);
}

#[test]
fn jitter_stays_below_half_a_second() {
    let mut seen = std::collections::HashSet::new();
    for _ in 0..200 {
        let wait = Backoff::new().next_wait_jittered(0);
        assert!((1000..1500).contains(&wait));
        seen.insert(wait);
    }
    assert!(seen.len() > 1);
}
