use tracing_log_sample::reservoir::{Item, Reservoir};

fn item(seq: u64) -> Item {
    Item { seq, bytes: vec![b'x'] }
}

#[test]
fn underfull() {
    let mut reservoir = Reservoir::new(10);
    for i in 1..=5 {
        assert!(reservoir.sample(item(i)).is_empty());
    }
    assert_eq!(reservoir.count, 5);
    let drained: Vec<u64> = reservoir.drain().into_iter().map(|it| it.seq).collect();
    assert_eq!(drained, vec![1, 2, 3, 4, 5]);
}

#[test]
fn overfull_returns_ejected() {
    let mut reservoir = Reservoir::new(10);
    let mut ejected_count = 0;
    for i in 1..=1000 {
        if !reservoir.sample(item(i)).is_empty() {
            ejected_count += 1;
        }
    }
    assert_eq!(reservoir.count, 1000);
    assert_eq!(ejected_count, 990);
    let drained: Vec<Item> = reservoir.drain();
    assert_eq!(drained.len(), 10);
}

/// Chi-squared goodness-of-fit test for reservoir sampling uniformity.
///
/// Runs many trials of sampling N items into a reservoir of size K,
/// counts how often each item index appears, and checks that the
/// distribution is uniform via the chi-squared statistic. The acceptance
/// bound is the 0.999 quantile of the chi-squared distribution with
/// N - 1 = 49 degrees of freedom, about 85.4, so a uniform sampler fails
/// with probability below 0.001.
#[test]
fn uniformity_chi_squared() {
    const N: usize = 50;
    const K: usize = 10;
    const TRIALS: usize = 500_000;

    let mut counts = vec![0u64; N];

    for _ in 0..TRIALS {
        let mut reservoir = Reservoir::new(K);
        for i in 1..=N {
            reservoir.sample(item(i as u64));
        }
        for it in reservoir.drain() {
            counts[(it.seq - 1) as usize] += 1;
        }
    }

    let expected = (TRIALS * K) as f64 / N as f64;
    let chi_sq: f64 = counts
        .iter()
        .map(|&c| {
            let diff = c as f64 - expected;
            diff * diff / expected
        })
        .sum();

    let critical = 85.4;
    assert!(
        chi_sq < critical,
        "chi-squared {chi_sq:.1} with df=49 exceeds the p=0.001 bound {critical} - distribution is not uniform"
    );
}
