use homelab_s3::metrics::LatencySummary;

fn ms(v: u128) -> u128 {
    v * 1_000_000
}

#[test]
fn percentile_nearest_rank_on_known_data() {
    let mut s: Vec<u128> = (1..=10).map(|i| ms(i * 10)).collect();
    let sum = LatencySummary::from_samples(&mut s).unwrap();
    assert_eq!(sum.count, 10);
    assert_eq!(sum.min, ms(10));
    assert_eq!(sum.max, ms(100));
    assert_eq!(sum.mean, ms(55));
    assert_eq!(sum.p50, ms(50));
    assert_eq!(sum.p90, ms(90));
    assert_eq!(sum.p99, ms(100));
    assert_eq!(sum.p999, ms(100));
}

#[test]
fn sorts_unsorted_input() {
    let mut s = vec![ms(100), ms(10), ms(50), ms(30), ms(80)];
    let sum = LatencySummary::from_samples(&mut s).unwrap();
    assert_eq!(sum.min, ms(10));
    assert_eq!(sum.max, ms(100));
    assert_eq!(sum.p50, ms(50));
    assert_eq!(s, vec![ms(10), ms(30), ms(50), ms(80), ms(100)]);
}

#[test]
fn single_sample_all_percentiles_equal() {
    let mut s = vec![ms(42)];
    let sum = LatencySummary::from_samples(&mut s).unwrap();
    assert_eq!(sum.min, ms(42));
    assert_eq!(sum.max, ms(42));
    assert_eq!(sum.p50, ms(42));
    assert_eq!(sum.p99, ms(42));
    assert_eq!(sum.p999, ms(42));
}

#[test]
fn empty_is_none() {
    let mut s: Vec<u128> = vec![];
    assert!(LatencySummary::from_samples(&mut s).is_none());
}

#[test]
fn rank_is_rounded_up_exactly() {
    let mut s: Vec<u128> = (1..=1000).rev().collect();
    let sum = LatencySummary::from_samples(&mut s).unwrap();
    assert_eq!((sum.p50, sum.p90, sum.p99, sum.p999), (500, 900, 990, 999));
    let mut s: Vec<u128> = (1..=1001).collect();
    let sum = LatencySummary::from_samples(&mut s).unwrap();
    assert_eq!((sum.p50, sum.p90, sum.p99, sum.p999), (501, 901, 991, 1000));
}

#[test]
fn order_of_samples_does_not_matter() {
    let mut a = vec![5, 1, 4, 1, 3];
    let mut b = vec![1, 1, 3, 4, 5];
    let x = LatencySummary::from_samples(&mut a).unwrap();
    let y = LatencySummary::from_samples(&mut b).unwrap();
    assert_eq!(a, b);
    assert_eq!((x.mean, x.p50, x.p99), (y.mean, y.p50, y.p99));
    assert_eq!(x.mean, 2);
}

#[test]
fn mean_of_large_samples() {
    let x = u64::MAX as u128 + 6;
    let mut s = vec![x, x];
    let sum = LatencySummary::from_samples(&mut s).unwrap();
    assert_eq!((sum.min, sum.mean, sum.max), (x, x, x));
}
