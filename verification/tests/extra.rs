use tracing_log_sample::level::{Level, LevelFilter};
use tracing_log_sample::reservoir::Item;
use tracing_log_sample::sampler::{Sampler, SamplerBuilder};

const MS: u64 = 1_000_000;

fn build_sampler(bucket_ms: u64, budgets: &[(Level, u64)]) -> Sampler {
    let mut b = SamplerBuilder::new().bucket_duration(bucket_ms * MS);
    for &(max, limit) in budgets {
        b = b.budget(LevelFilter::new(max), limit);
    }
    b.build()
}

fn emit(sampler: &mut Sampler, sink: &mut Vec<Item>, level: Level, text: &str, now_ns: u64) {
    let bytes = format!("{text}\n").into_bytes();
    let (batch, _leftover) = sampler.on_event(level, bytes, now_ns);
    sink.extend(batch);
}

#[test]
fn level_filter_admits_up_to_max() {
    let error_only = LevelFilter::new(Level::Error);
    assert!(error_only.enabled(Level::Error));
    assert!(!error_only.enabled(Level::Warn));
    assert!(!error_only.enabled(Level::Trace));

    let all = LevelFilter::new(Level::Trace);
    assert!(all.enabled(Level::Error));
    assert!(all.enabled(Level::Info));
    assert!(all.enabled(Level::Trace));

    let debug = LevelFilter::new(Level::Debug);
    assert!(debug.enabled(Level::Debug));
    assert!(!debug.enabled(Level::Trace));
}

#[test]
fn zero_capacity_budget_is_dropped_at_build() {
    // ceil(0 events/s x 1 s) = 0: the budget is silently omitted.
    let sampler = build_sampler(1_000, &[(Level::Error, 0), (Level::Trace, 10)]);
    assert_eq!(sampler.reservoirs.len(), 1);
    assert_eq!(sampler.filters.len(), 1);
    assert_eq!(sampler.reservoirs[0].slots.len(), 10);

    // ceil(1000/s x 50 ms) = 50 items per bucket.
    let sampler = build_sampler(50, &[(Level::Trace, 1_000)]);
    assert_eq!(sampler.reservoirs[0].slots.len(), 50);

    // ceil(3/s x 100 ms) = 1: rounding up keeps rare budgets alive.
    let sampler = build_sampler(100, &[(Level::Error, 3)]);
    assert_eq!(sampler.reservoirs[0].slots.len(), 1);
}

#[test]
fn flush_emits_min_of_offered_and_total_capacity() {
    // Two budgets of capacity 3 and 4: a flush after N events emits
    // min(N, 7), and a second flush emits nothing.
    let mut sampler = build_sampler(1_000, &[(Level::Trace, 3), (Level::Trace, 4)]);
    let mut sink = Vec::new();
    for _ in 0..5 {
        emit(&mut sampler, &mut sink, Level::Info, "event", 0);
    }
    assert_eq!(sink.len(), 0);
    assert_eq!(sampler.flush().len(), 5);
    assert_eq!(sampler.flush().len(), 0);

    let mut sampler = build_sampler(1_000, &[(Level::Trace, 3), (Level::Trace, 4)]);
    let mut sink = Vec::new();
    for _ in 0..100 {
        emit(&mut sampler, &mut sink, Level::Info, "event", 0);
    }
    assert_eq!(sink.len(), 0);
    assert_eq!(sampler.flush().len(), 7);
    assert_eq!(sampler.flush().len(), 0);
}

#[test]
fn teardown_emits_what_flush_would() {
    // With fewer offers than capacity nothing is random: both paths emit
    // exactly the offered items in arrival order.
    let mut a = build_sampler(1_000, &[(Level::Trace, 10)]);
    let mut b = build_sampler(1_000, &[(Level::Trace, 10)]);
    let mut sink = Vec::new();
    for i in 0..5 {
        emit(&mut a, &mut sink, Level::Info, &format!("e{i}"), 0);
        emit(&mut b, &mut sink, Level::Info, &format!("e{i}"), 0);
    }
    let flushed: Vec<(u64, Vec<u8>)> = a.flush().into_iter().map(|it| (it.seq, it.bytes)).collect();
    let torn: Vec<(u64, Vec<u8>)> = b.teardown().into_iter().map(|it| (it.seq, it.bytes)).collect();
    assert_eq!(flushed, torn);
    assert_eq!(flushed.len(), 5);
    let seqs: Vec<u64> = flushed.iter().map(|p| p.0).collect();
    assert_eq!(seqs, vec![1, 2, 3, 4, 5]);
}

#[test]
fn stats_balance_received_sampled_dropped() {
    let mut sampler = build_sampler(1_000, &[(Level::Error, 10)]);
    let mut sink = Vec::new();
    for _ in 0..100 {
        emit(&mut sampler, &mut sink, Level::Error, "event", 0);
    }
    let stats = sampler.stats();
    assert_eq!(stats.received(), 100);
    assert_eq!(stats.sampled(), 10);
    assert_eq!(stats.dropped(), 90);
    assert_eq!(stats.received(), stats.sampled() + stats.dropped());
}

#[test]
fn format_failure_counts_as_dropped() {
    let mut sampler = build_sampler(1_000, &[(Level::Error, 10)]);
    // Empty bytes stand for a formatter error: the event is received and
    // dropped, never sampled.
    let (batch, leftover) = sampler.on_event(Level::Error, Vec::new(), 0);
    assert!(batch.is_empty());
    assert!(leftover.is_none());
    let stats = sampler.stats();
    assert_eq!(stats.received(), 1);
    assert_eq!(stats.sampled(), 0);
    assert_eq!(stats.dropped(), 1);
}

#[test]
fn rotation_mid_format_keeps_in_flight_event() {
    // The pipeline in its split form: the bucket rotates between the
    // accounting tick and the sample step, exactly as when another thread
    // rotates while this event is being formatted. The in-flight event is
    // sampled into the new bucket, not lost.
    let mut sampler = build_sampler(50, &[(Level::Trace, 1_000)]);
    let mut sink = Vec::new();
    emit(&mut sampler, &mut sink, Level::Info, "before", 0);

    let mask = sampler.match_filters(Level::Info);
    sampler.account_received();
    let batch = sampler.tick_smear(60 * MS);
    sink.extend(batch);
    // The event is formatted here, while the rotation has already happened.
    let bytes = b"after\n".to_vec();
    let leftover = sampler.sample_event(bytes, &mask);
    assert!(leftover.is_none());

    let stats = sampler.stats();
    assert_eq!(stats.received(), 2);
    assert_eq!(stats.sampled(), 2);

    sink.extend(sampler.flush());
    let seqs: Vec<u64> = sink.iter().map(|it| it.seq).collect();
    assert_eq!(seqs, vec![1, 2]);
    let last = String::from_utf8(sink.last().unwrap().bytes.clone()).unwrap();
    assert_eq!(last.trim_end(), "after");
}

#[test]
fn smear_releases_pending_gradually() {
    // Ten survivors of the first 100 ms bucket are smeared over the next
    // bucket. 20 ms in, 80 ms remain for 10 pending items, so the release
    // interval is 8 ms and the scheduler owes 20ms / 8ms = 2 items.
    let mut sampler = build_sampler(100, &[(Level::Trace, 100)]);
    let mut sink = Vec::new();
    for i in 0..10 {
        emit(&mut sampler, &mut sink, Level::Info, &format!("e{i}"), 0);
    }
    // Rotation at the boundary parks the batch in the pending queue.
    emit(&mut sampler, &mut sink, Level::Info, "next", 100 * MS);
    assert_eq!(sink.len(), 0);

    let batch = sampler.tick_smear(120 * MS);
    assert_eq!(batch.len(), 2);
    let seqs: Vec<u64> = batch.iter().map(|it| it.seq).collect();
    assert_eq!(seqs, vec![1, 2]);

    // Near the deadline everything still pending is owed.
    let batch = sampler.tick_smear(199 * MS);
    assert_eq!(batch.len(), 8);
}

#[test]
fn emitted_batches_never_interleave_buckets() {
    // Three buckets of traffic: every item of bucket i is written before
    // any item of bucket i+1, and sequence numbers increase throughout.
    let mut sampler = build_sampler(50, &[(Level::Trace, 100)]);
    let mut sink = Vec::new();
    for round in 0u64..3 {
        for i in 0..4 {
            emit(
                &mut sampler,
                &mut sink,
                Level::Info,
                &format!("r{round}e{i}"),
                round * 60 * MS,
            );
        }
    }
    sink.extend(sampler.flush());
    let seqs: Vec<u64> = sink.iter().map(|it| it.seq).collect();
    let mut sorted = seqs.clone();
    sorted.sort_unstable();
    assert_eq!(seqs, sorted);
    assert_eq!(seqs.len(), 12);
    for w in seqs.windows(2) {
        assert!(w[0] < w[1]);
    }
}
