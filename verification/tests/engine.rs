use tracing_log_sample::level::{Level, LevelFilter};
use tracing_log_sample::reservoir::Item;
use tracing_log_sample::sampler::{Sampler, SamplerBuilder};

const MS: u64 = 1_000_000;

fn build_sampler(bucket_ms: u64, budgets: &[(Level, u64)]) -> Sampler {
    let mut b = SamplerBuilder::new().bucket_duration(bucket_ms * MS);
    for &(max, limit) in budgets {
        b = b.budget(LevelFilter::new(max), limit);
    }
    b.build()
}

/// Drive one event through the pipeline, appending whatever the engine
/// releases to `sink`, as the embedding layer would.
fn emit(sampler: &mut Sampler, sink: &mut Vec<Item>, level: Level, text: &str, now_ns: u64) {
    let bytes = format!("{text}\n").into_bytes();
    let (batch, _leftover) = sampler.on_event(level, bytes, now_ns);
    sink.extend(batch);
}

fn flush_into(sampler: &mut Sampler, sink: &mut Vec<Item>) {
    let out = sampler.flush();
    sink.extend(out);
}

fn lines(sink: &[Item]) -> Vec<String> {
    sink.iter()
        .map(|it| String::from_utf8(it.bytes.clone()).unwrap().trim_end().to_string())
        .collect()
}

#[test]
fn reservoir_keeps_at_most_limit() {
    let mut sampler = build_sampler(1_000, &[(Level::Error, 10)]);
    let mut sink = Vec::new();

    for _ in 0..100 {
        emit(&mut sampler, &mut sink, Level::Error, "event", 0);
    }
    flush_into(&mut sampler, &mut sink);

    let lines = lines(&sink);
    assert_eq!(lines.len(), 10, "expected 10 events, got {}", lines.len());
}

#[test]
fn ejected_events_cascade_to_next_budget() {
    let mut sampler = build_sampler(1_000, &[(Level::Error, 5), (Level::Trace, 50)]);
    let mut sink = Vec::new();

    for _ in 0..100 {
        emit(&mut sampler, &mut sink, Level::Error, "event", 0);
    }
    flush_into(&mut sampler, &mut sink);

    let lines = lines(&sink);
    assert!(
        lines.len() > 5,
        "cascade should produce more than budget 1's limit of 5, got {}",
        lines.len()
    );
    assert!(
        lines.len() <= 55,
        "total should be at most 5 + 50 = 55, got {}",
        lines.len()
    );
}

#[test]
fn non_matching_events_are_dropped() {
    let mut sampler = build_sampler(1_000, &[(Level::Error, 100)]);
    let mut sink = Vec::new();

    for _ in 0..50 {
        emit(&mut sampler, &mut sink, Level::Debug, "should be dropped", 0);
    }
    flush_into(&mut sampler, &mut sink);

    let lines = lines(&sink);
    assert_eq!(lines.len(), 0, "debug events should not match error filter");
    let stats = sampler.stats();
    assert_eq!(stats.received(), 0);
    assert_eq!(stats.sampled(), 0);
    assert_eq!(stats.dropped(), 0);
}

#[test]
fn multiple_budgets_separate_levels() {
    let mut sampler = build_sampler(1_000, &[(Level::Error, 10), (Level::Debug, 10)]);
    let mut sink = Vec::new();

    for _ in 0..50 {
        emit(&mut sampler, &mut sink, Level::Error, "ERROR err", 0);
    }
    for _ in 0..50 {
        emit(&mut sampler, &mut sink, Level::Debug, "DEBUG dbg", 0);
    }
    flush_into(&mut sampler, &mut sink);

    let lines = lines(&sink);
    let error_count = lines.iter().filter(|l| l.contains("ERROR")).count();
    let debug_count = lines.iter().filter(|l| l.contains("DEBUG")).count();

    assert!(
        error_count >= 10,
        "should have at least 10 errors, got {error_count}"
    );
    assert!(
        debug_count >= 1,
        "should have at least 1 debug, got {debug_count}"
    );
}

#[test]
fn flushed_events_are_in_arrival_order() {
    let mut sampler = build_sampler(1_000, &[(Level::Error, 10)]);
    let mut sink = Vec::new();

    for i in 0..200 {
        emit(&mut sampler, &mut sink, Level::Error, &format!("seq i={i}"), 0);
    }
    flush_into(&mut sampler, &mut sink);

    let lines = lines(&sink);
    assert_eq!(lines.len(), 10);

    let numbers: Vec<usize> = lines
        .iter()
        .map(|line| {
            let s = line.rsplit("i=").next().unwrap().trim();
            s.parse().unwrap()
        })
        .collect();

    for w in numbers.windows(2) {
        assert!(
            w[0] < w[1],
            "events not in arrival order: {} came before {}",
            w[0],
            w[1]
        );
    }
}

#[test]
fn flushed_cascade_events_are_in_arrival_order() {
    let mut sampler = build_sampler(1_000, &[(Level::Error, 5), (Level::Trace, 10)]);
    let mut sink = Vec::new();

    for i in 0..200u32 {
        if i % 2 == 0 {
            emit(&mut sampler, &mut sink, Level::Error, &format!("seq i={i}"), 0);
        } else {
            emit(&mut sampler, &mut sink, Level::Trace, &format!("seq i={i}"), 0);
        }
    }
    flush_into(&mut sampler, &mut sink);

    let lines = lines(&sink);
    assert!(
        lines.len() > 5,
        "cascade should produce more than first budget's limit of 5, got {}",
        lines.len()
    );

    let numbers: Vec<usize> = lines
        .iter()
        .map(|line| {
            let s = line.rsplit("i=").next().unwrap().trim();
            s.parse().unwrap()
        })
        .collect();

    for w in numbers.windows(2) {
        assert!(
            w[0] < w[1],
            "events not in arrival order: {} came before {}",
            w[0],
            w[1]
        );
    }
}

#[test]
fn bucket_rotation_flushes() {
    let mut sampler = build_sampler(50, &[(Level::Trace, 1_000)]);
    let mut sink = Vec::new();

    for _ in 0..10 {
        emit(&mut sampler, &mut sink, Level::Info, "batch1", 0);
    }
    // 60 ms later the bucket boundary has passed; the next event rotates.
    emit(&mut sampler, &mut sink, Level::Info, "batch2", 60 * MS);
    sink.extend(sampler.teardown());

    let lines = lines(&sink);
    assert!(
        lines.len() >= 10,
        "should have flushed batch1 on rotation, got {}",
        lines.len()
    );
    // The first batch is fully emitted before the later event appears.
    let first_batch2 = lines.iter().position(|l| l.contains("batch2")).unwrap();
    assert!(first_batch2 >= 10);
}
