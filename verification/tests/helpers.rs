use bench_harness::fixture::gen_bucket;
use bench_harness::rusage::{timeval_us, Rusage};
use bench_harness::timing::summarize_samples;

#[test]
fn fixture_buckets() {
    assert_eq!(gen_bucket(0, 0), 0);
    assert_eq!(gen_bucket(1, 0), 1433);
    assert_eq!(gen_bucket(2, 0), 191);
    assert_eq!(gen_bucket(1, 1), 993);
    assert_eq!(gen_bucket(7, 3), 1238);
    assert_eq!(gen_bucket(12345, 77), 1533);
    assert_eq!(gen_bucket(1_000_000, 2), 1013);
    for i in 0..1000 {
        assert!(gen_bucket(i, 5) < 2003);
    }
}

#[test]
fn rusage_delta() {
    let before = Rusage { min_flt: 100, maj_flt: 2, utime_us: timeval_us(1, 500_000), stime_us: timeval_us(0, 250) };
    let after = Rusage { min_flt: 8292, maj_flt: 2, utime_us: timeval_us(3, 250_000), stime_us: timeval_us(2, 0) };
    let d = after.delta(&before);
    assert_eq!(d.min_flt, 8192);
    assert_eq!(d.maj_flt, 0);
    assert_eq!(d.utime_us, 1_750_000);
    assert_eq!(d.stime_us, 1_999_750);
    assert_eq!(timeval_us(-2, 5), -1_999_995);
}

#[test]
fn sample_median_and_min() {
    let mut s: Vec<u64> = vec![30, 10, 50, 20, 40];
    assert_eq!(summarize_samples(&mut s), (30, 10));
    assert_eq!(s, vec![10, 20, 30, 40, 50]);
    let mut t: Vec<u64> = (0..30).rev().map(|x| x * 3).collect();
    assert_eq!(summarize_samples(&mut t), (45, 0));
    let mut one = vec![7u64];
    assert_eq!(summarize_samples(&mut one), (7, 7));
}

#[test]
fn rusage_delta_laws() {
    let a = Rusage { min_flt: 10, maj_flt: 1, utime_us: 1_000, stime_us: 50 };
    let b = Rusage { min_flt: 250, maj_flt: 1, utime_us: 4_500, stime_us: 75 };
    let c = Rusage { min_flt: 900, maj_flt: 3, utime_us: 9_000, stime_us: 80 };
    let (ca, cb, ba) = (c.delta(&a), c.delta(&b), b.delta(&a));
    assert_eq!(ca.min_flt, cb.min_flt + ba.min_flt);
    assert_eq!(ca.maj_flt, cb.maj_flt + ba.maj_flt);
    assert_eq!(ca.utime_us, cb.utime_us + ba.utime_us);
    assert_eq!(ca.stime_us, cb.stime_us + ba.stime_us);
    let z = a.delta(&a);
    assert_eq!((z.min_flt, z.maj_flt, z.utime_us, z.stime_us), (0, 0, 0, 0));
}
