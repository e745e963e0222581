use bench_harness::float_key::F64Key;
use bench_harness::scan::{
    prescan_only, scan_block8, scan_fused, scan_fused_no_earlyret_BROKEN, scan_plain, scan_pre_whole,
    scan_tiled,
};

fn keys(xs: &[f64]) -> Vec<F64Key> {
    xs.iter().map(|x| F64Key::from_bits(x.to_bits())).collect()
}

fn nan_mid() -> Vec<f64> {
    let mut v: Vec<f64> = (0..1000).map(|i| i as f64).collect();
    v[777] = f64::NAN;
    v
}

#[test]
fn spot_checks_nan_mid() {
    let xs = keys(&nan_mid());
    assert_eq!(scan_plain(&xs), 999); // NaN skipped: plain max at 999
    assert_eq!(scan_fused(&xs), 777); // first NaN wins
    assert_eq!(scan_block8(&xs), 777);
    assert_eq!(scan_fused_no_earlyret_BROKEN(&xs), 999); // the documented defect
    assert_eq!(scan_fused(&keys(&[f64::NAN; 8])), 0);
}

#[test]
fn prescan_variants() {
    let xs = keys(&nan_mid());
    assert_eq!(prescan_only(&xs), 777);
    assert_eq!(scan_pre_whole(&xs), 777);
    assert_eq!(scan_tiled(&xs), 777);
    let clean = keys(&[3.0, 9.0, -1.0, 9.0, 2.0]);
    assert_eq!(prescan_only(&clean), usize::MAX);
    assert_eq!(scan_pre_whole(&clean), 1);
    assert_eq!(scan_tiled(&clean), 1);
    assert_eq!(scan_tiled(&keys(&[])), 0);
    // NaN-free over several blocks: the first maximum across blocks wins
    let mut big: Vec<f64> = (0..7000).map(|i| (i % 101) as f64).collect();
    big[3000] = 500.0;
    big[6500] = 500.0;
    assert_eq!(scan_tiled(&keys(&big)), 3000);
    assert_eq!(scan_tiled(&keys(&big)), scan_plain(&keys(&big)));
    // a NaN in a later block of the tiled scan
    let mut long: Vec<f64> = (0..5000).map(|i| (i % 17) as f64).collect();
    long[4500] = f64::NAN;
    assert_eq!(scan_tiled(&keys(&long)), 4500);
}

#[test]
fn plain_first_maximum_and_front_nan() {
    // ties resolve to the first index, across lanes
    let xs = keys(&[1.0, 5.0, 3.0, 5.0, 0.0, 0.0, 0.0, 0.0, 0.0, 5.0]);
    assert_eq!(scan_plain(&xs), 1);
    // the first element is the maximum
    assert_eq!(scan_plain(&keys(&[7.0, 1.0, 7.0, 2.0])), 0);
    // a NaN in front poisons the plain scan to index 0, all-NaN included
    assert_eq!(scan_plain(&keys(&[f64::NAN, 1.0, 2.0])), 0);
    assert_eq!(scan_plain(&keys(&[f64::NAN; 11])), 0);
    // -0.0 and +0.0 compare equal: the first one wins
    assert_eq!(scan_plain(&keys(&[-1.0, -0.0, 0.0])), 1);
    // negative values order by magnitude
    assert_eq!(scan_plain(&keys(&[-3.5, -2.25, -7.0])), 1);
}

#[test]
fn block8_checks_the_tail() {
    let mut v: Vec<f64> = (0..12).map(|i| i as f64).collect();
    v[10] = f64::NAN;
    assert_eq!(scan_block8(&keys(&v)), 10);
    let w: Vec<f64> = (0..12).map(|i| i as f64).collect();
    assert_eq!(scan_block8(&keys(&w)), 11);
}

#[test]
fn fused_covers_the_tail() {
    let mut v: Vec<f64> = (0..12).map(|i| i as f64).collect();
    v[10] = f64::NAN;
    assert_eq!(scan_fused(&keys(&v)), 10);
    let w: Vec<f64> = (1..10).map(|i| i as f64).collect();
    assert_eq!(scan_fused(&keys(&w)), 8);
    // fewer than 8 elements
    assert_eq!(scan_fused(&keys(&[1.0, 9.0, 3.0])), 1);
    assert_eq!(scan_fused(&keys(&[f64::NAN, 9.0, 3.0])), 0);
    assert_eq!(scan_fused(&keys(&[1.0, 9.0, f64::NAN])), 2);
}

#[test]
fn broken_variant_loses_the_nan_and_returns_the_plain_max() {
    // the NaN resets the lane that held the maximum: the NaN index is lost
    // and the result is the plain maximum
    let mut u = vec![0.0f64; 18];
    u[1] = 10.0;
    u[9] = f64::NAN;
    u[17] = 1.0;
    assert_eq!(scan_fused_no_earlyret_BROKEN(&keys(&u)), 1);
    assert_eq!(scan_fused_no_earlyret_BROKEN(&keys(&u)), scan_plain(&keys(&u)));
    // a NaN in front that later elements of its lane replace: the maximum
    // of the rest
    let mut w = vec![0.0f64; 9];
    w[0] = f64::NAN;
    w[8] = 5.0;
    assert_eq!(scan_fused_no_earlyret_BROKEN(&keys(&w)), 8);
    // without NaN it is the plain scan
    let c: Vec<f64> = (0..20).map(|i| ((i * 7) % 11) as f64).collect();
    assert_eq!(scan_fused_no_earlyret_BROKEN(&keys(&c)), scan_plain(&keys(&c)));
}

#[test]
fn broken_variant_returns_first_nan_when_a_nan_survives_in_its_lane() {
    // a NaN that ends its lane survives: the first NaN is returned
    assert_eq!(scan_fused_no_earlyret_BROKEN(&keys(&[0.0, 1.0, f64::NAN])), 2);
    let mut v: Vec<f64> = (0..16).map(|i| i as f64).collect();
    v[13] = f64::NAN;
    assert_eq!(scan_fused_no_earlyret_BROKEN(&keys(&v)), 13);
    // an earlier NaN in another lane is the one returned
    let mut x: Vec<f64> = (0..16).map(|i| i as f64).collect();
    x[2] = f64::NAN;
    x[15] = f64::NAN;
    assert_eq!(scan_fused_no_earlyret_BROKEN(&keys(&x)), 2);
    // a NaN in front with nothing after it in its lane
    assert_eq!(scan_fused_no_earlyret_BROKEN(&keys(&[f64::NAN, 4.0, 2.0])), 0);
}

#[test]
fn key_from_bits() {
    assert!(F64Key::from_bits(f64::NAN.to_bits()).is_nan());
    assert!(!F64Key::from_bits(f64::INFINITY.to_bits()).is_nan());
    let z = F64Key::from_bits(0.0f64.to_bits());
    let nz = F64Key::from_bits((-0.0f64).to_bits());
    assert!(z.feq(&nz));
    let one = F64Key::from_bits(1.0f64.to_bits());
    let two = F64Key::from_bits(2.0f64.to_bits());
    let m_two = F64Key::from_bits((-2.0f64).to_bits());
    assert!(two.gt(&one));
    assert!(one.gt(&m_two));
    assert!(m_two.le(&one));
    let nan = F64Key::from_bits(f64::NAN.to_bits());
    assert!(!nan.gt(&one) && !one.gt(&nan) && !nan.le(&nan) && !nan.feq(&nan));
    assert!(F64Key::from_bits(f64::INFINITY.to_bits()).gt(&F64Key::from_bits(f64::MAX.to_bits())));
}

#[test]
fn variants_agree_where_the_laws_say() {
    // fused == block8 == pre-scan then plain == tiled
    let mut v: Vec<f64> = (0..67).map(|i| ((i * 37) % 23) as f64).collect();
    let k = keys(&v);
    assert_eq!(scan_fused(&k), scan_block8(&k));
    assert_eq!(scan_block8(&k), scan_pre_whole(&k));
    assert_eq!(scan_block8(&k), scan_tiled(&k));
    // without NaN: plain == block8
    assert_eq!(scan_plain(&k), scan_block8(&k));
    // with NaN: pre-scan, tiled and block8 all give the first NaN
    v[65] = f64::NAN;
    v[66] = f64::NAN;
    let k = keys(&v);
    assert_eq!(prescan_only(&k), 65);
    assert_eq!(scan_tiled(&k), 65);
    assert_eq!(scan_block8(&k), 65);
    assert_eq!(scan_fused(&k), 65);
}
