use porthole::diagnostics::{
    duration_us, LatencyBatch, LatencyMirror, LatencySnapshot, LatencyStats, PlainUdpDiagnostics,
};

#[test]
fn latency_stats_tracks_basic_snapshot() {
    let mut stats = LatencyStats::default();
    assert!(stats.snapshot().is_none());

    stats.record(10);
    stats.record(30);

    let snap = stats.snapshot().unwrap();
    assert_eq!(snap.samples, 2);
    assert_eq!(snap.last_us, 30);
    assert_eq!(snap.avg_us, 20);
    assert_eq!(snap.min_us, 10);
    assert_eq!(snap.max_us, 30);
}

#[test]
fn latency_mirror_stores_and_resets_snapshot() {
    let mut mirror = LatencyMirror::default();
    let snap = LatencySnapshot { samples: 3, last_us: 7, avg_us: 5, min_us: 2, max_us: 9 };
    mirror.store(Some(snap));
    assert_eq!(mirror.snapshot(), Some(snap));

    mirror.store(None);
    assert!(mirror.snapshot().is_none());
}

#[test]
fn batches_merge_without_loss() {
    let mut whole = LatencyStats::default();
    let mut stats = LatencyStats::default();
    let mut batch = LatencyBatch::default();
    for us in [40u128, 10, 25] {
        whole.record(us);
        stats.record(us);
    }
    for us in [5u128, 90] {
        whole.record(us);
        batch.record(us);
    }
    stats.record_batch(&mut batch);
    assert_eq!(stats.snapshot(), whole.snapshot());
    assert_eq!(
        stats.snapshot(),
        Some(LatencySnapshot { samples: 5, last_us: 90, avg_us: 34, min_us: 5, max_us: 90 })
    );
    // A merged batch is empty again.
    stats.record_batch(&mut batch);
    assert_eq!(stats.snapshot(), whole.snapshot());
}

#[test]
fn durations_are_capped() {
    assert_eq!(duration_us(0), 1);
    assert_eq!(duration_us(1500), 1500);
    assert_eq!(duration_us(u128::MAX), u64::MAX);
}

#[test]
fn diagnostics_reset_forgets_everything() {
    let mut d = PlainUdpDiagnostics::default();
    d.rtt.record(1);
    d.client_local_to_server.record(2);
    d.server_client_to_public.store(Some(LatencySnapshot {
        samples: 1,
        last_us: 1,
        avg_us: 1,
        min_us: 1,
        max_us: 1,
    }));
    d.reset();
    assert!(d.rtt.snapshot().is_none());
    assert!(d.client_local_to_server.snapshot().is_none());
    assert!(d.server_client_to_public.snapshot().is_none());
}

#[test]
fn extremes_are_measurements() {
    let values = [40u128, 7, 900, 8, 7, 899];
    let mut stats = LatencyStats::default();
    for us in values {
        stats.record(us);
    }
    let s = stats.snapshot().unwrap();
    assert_eq!((s.min_us, s.max_us), (7, 900));
}
