use bench_harness::elementwise::{op_muta_refb_func, op_mutc_refa_refb_func};
use bench_harness::layout::{Layout2, LayoutError};
use rstsr_core::prelude_dev::{IterLayoutColMajor, Ix2, Layout};

fn layout2(shape: [usize; 2], stride: [isize; 2], offset: usize) -> Layout2 {
    Layout2::new(shape, stride, offset)
}

/// The same layout as rstsr sees it (checked constructor: bounds and
/// non-overlapping strides).
fn rlayout2(shape: [usize; 2], stride: [isize; 2], offset: usize) -> Layout<Ix2> {
    Layout::new(shape, stride, offset).unwrap()
}

// Adversarial layout matrix for the 3-layout kernel: every scenario is
// compared against the column-major layout walk. Negative strides on each
// operand (flip views), all-negative combos, interleaved (sliced) strides,
// nonzero offsets, column-major c, and shapes at/around the tile boundary
// that are not multiples of 64.
#[test]
fn test_blocked_3layout_matrix() {
    for &(m, n) in &[
        (70usize, 130usize),
        (130, 70),
        (4096, 2),
        (2, 4096),
        (64, 64),
        (65, 65),
        (1, 5000),
        (5000, 1),
        (63, 129),
        (4096, 1),
    ] {
        let size = m * n;
        if size < 4096 {
            continue;
        }
        // scenarios: (name, c=(strides, offset), a=(strides, offset, buffer len), b=same)
        let scenarios: Vec<(&str, ([isize; 2], usize), ([isize; 2], usize, usize), ([isize; 2], usize, usize))> = vec![
            ("c_row_a_row_b_col", ([n as isize, 1], 0), ([n as isize, 1], 0, size), ([1, m as isize], 0, size)),
            ("c_col_a_row_b_col", ([1, m as isize], 0), ([n as isize, 1], 0, size), ([1, m as isize], 0, size)),
            ("neg_a_flip0", ([n as isize, 1], 0), ([-(n as isize), 1], (m - 1) * n, size), ([1, m as isize], 0, size)),
            ("neg_c_flip1", ([n as isize, -1], n - 1), ([n as isize, 1], 0, size), ([1, m as isize], 0, size)),
            ("neg_b_flip0_col", ([n as isize, 1], 0), ([n as isize, 1], 0, size), ([-1, m as isize], m - 1, size)),
            (
                "neg_all",
                ([n as isize, -1], n - 1),
                ([-(n as isize), 1], (m - 1) * n, size),
                ([-1, -(m as isize)], (m - 1) + (n - 1) * m, size),
            ),
            ("sliced_a_and_b", ([n as isize, 1], 0), ([2 * n as isize, 2], 0, 2 * size), ([2, 2 * m as isize], 0, 2 * size)),
            ("sliced_c", ([2 * n as isize, 2], 0), ([n as isize, 1], 0, size), ([1, m as isize], 0, size)),
            ("offset_views", ([n as isize, 1], n), ([n as isize, 1], 2 * n, 3 * size), ([1, m as isize], m, 2 * size)),
        ];
        for (name, (sc, oc), (sa, oa, len_a), (sb, ob, len_b)) in scenarios {
            let buf_a: Vec<f64> = (0..len_a).map(|i| i as f64 * 0.25 - 100.0).collect();
            let buf_b: Vec<f64> = (0..len_b).map(|i| -(i as f64) * 0.5 + 7.0).collect();
            let len_c = match name {
                "sliced_c" => 2 * size,
                "offset_views" => 2 * size,
                _ => size,
            };
            let mut buf_c: Vec<f64> = (0..len_c).map(|_| 1e300).collect();
            let lc = layout2([m, n], sc, oc);
            let la = layout2([m, n], sa, oa);
            let lb = layout2([m, n], sb, ob);
            op_mutc_refa_refb_func(&mut buf_c, &lc, &buf_a, &la, &buf_b, &lb, |a: f64, b: f64| a + b).unwrap();
            // reference: rstsr's layout-iterator walk over identical layouts
            let lc2 = rlayout2([m, n], sc, oc);
            let la2 = rlayout2([m, n], sa, oa);
            let lb2 = rlayout2([m, n], sb, ob);
            let it = IterLayoutColMajor::new(&lc2).unwrap();
            let ita = IterLayoutColMajor::new(&la2).unwrap();
            let itb = IterLayoutColMajor::new(&lb2).unwrap();
            for ((ic, ia), ib) in it.zip(ita).zip(itb) {
                let expect = buf_a[ia] + buf_b[ib];
                let got = buf_c[ic];
                assert!((got - expect).abs() < 1e-9, "case {} shape ({},{}) idx {}: got {} expect {}", name, m, n, ic, got, expect);
            }
            // no unwritten sentinel remains — dense-c scenarios only;
            // strided-c scenarios legitimately leave interleaved slots alone
            if name != "sliced_c" && name != "offset_views" {
                for (i, v) in buf_c.iter().enumerate() {
                    let x = *v;
                    assert!(x.abs() < 1e6, "case {} shape ({},{}): sentinel/unwritten at {}", name, m, n, i);
                }
            }
        }
    }
}

// 2-layout (in-place) kernel: same matrix shape, c -> a.
#[test]
fn test_blocked_2layout_inplace_matrix() {
    for &(m, n) in &[(70usize, 130usize), (130, 70), (4096, 2), (64, 64), (65, 65), (1, 5000), (5000, 1)] {
        let size = m * n;
        if size < 4096 {
            continue;
        }
        let scenarios: Vec<(&str, ([isize; 2], usize, usize), ([isize; 2], usize, usize))> = vec![
            ("a_row_b_col", ([n as isize, 1], 0, size), ([1, m as isize], 0, size)),
            ("a_col_b_row", ([1, m as isize], 0, size), ([n as isize, 1], 0, size)),
            ("neg_a_flip0", ([-(n as isize), 1], (m - 1) * n, size), ([1, m as isize], 0, size)),
            ("neg_b_flip1", ([n as isize, 1], 0, size), ([n as isize, -1], n - 1, size)),
            ("sliced", ([2 * n as isize, 2], 0, 2 * size), ([2, 2 * m as isize], 0, 2 * size)),
        ];
        for (name, (sa, oa, len_a), (sb, ob, len_b)) in scenarios {
            let mut buf_a: Vec<f64> = (0..len_a).map(|i| i as f64 * 0.25 - 100.0).collect();
            let buf_a0: Vec<f64> = (0..len_a).map(|i| i as f64 * 0.25 - 100.0).collect();
            let buf_b: Vec<f64> = (0..len_b).map(|i| -(i as f64) * 0.5 + 7.0).collect();
            let la = layout2([m, n], sa, oa);
            let lb = layout2([m, n], sb, ob);
            op_muta_refb_func(&mut buf_a, &la, &buf_b, &lb, |a: f64, b: f64| a + b).unwrap();
            let ita = IterLayoutColMajor::new(&rlayout2([m, n], sa, oa)).unwrap();
            let itb = IterLayoutColMajor::new(&rlayout2([m, n], sb, ob)).unwrap();
            for (ia, ib) in ita.zip(itb) {
                let expect = buf_a0[ia] + buf_b[ib];
                let got = buf_a[ia];
                assert!((got - expect).abs() < 1e-9, "case {} shape ({},{}) idx {}: got {} expect {}", name, m, n, ia, got, expect);
            }
        }
    }
}

#[test]
fn small_problem_takes_col_major_walk_with_same_result() {
    // 3 x 4 = 12 elements, below the tile switch: c = a + b.t()
    let (m, n) = (3usize, 4usize);
    let a: Vec<i64> = (0..12).collect();
    let b: Vec<i64> = (0..12).map(|x| 100 * x).collect();
    let mut c: Vec<i64> = vec![-1; 12];
    let lc = Layout2::new([m, n], [n as isize, 1], 0);
    let la = Layout2::new([m, n], [n as isize, 1], 0);
    let lb = Layout2::new([m, n], [1, m as isize], 0);
    op_mutc_refa_refb_func(&mut c, &lc, &a, &la, &b, &lb, |x: i64, y: i64| x + y).unwrap();
    for i in 0..m {
        for j in 0..n {
            assert_eq!(c[i * n + j], (i * n + j) as i64 + 100 * (j * m + i) as i64);
        }
    }
}

#[test]
fn broadcast_operand_is_written_everywhere() {
    // row broadcast: b has stride 0 on axis 0 (70 x 130 >= tile switch)
    let (m, n) = (70usize, 130usize);
    let a: Vec<i64> = (0..(m * n) as i64).collect();
    let row: Vec<i64> = (0..n as i64).map(|x| 1000 * x).collect();
    let mut c: Vec<i64> = vec![0; m * n];
    let lc = Layout2::new([m, n], [n as isize, 1], 0);
    let lb = Layout2::new([m, n], [0, 1], 0);
    op_mutc_refa_refb_func(&mut c, &lc, &a, &lc, &row, &lb, |x: i64, y: i64| x + y).unwrap();
    for i in 0..m {
        for j in 0..n {
            assert_eq!(c[i * n + j], (i * n + j) as i64 + 1000 * j as i64);
        }
    }
}

#[test]
fn shape_mismatch_leaves_output_alone() {
    let a = vec![1i64; 6];
    let mut c = vec![7i64; 6];
    let lc = Layout2::new([2, 3], [3, 1], 0);
    let la = Layout2::new([3, 2], [2, 1], 0);
    let r = op_mutc_refa_refb_func(&mut c, &lc, &a, &la, &a, &lc, |x: i64, y: i64| x + y);
    assert_eq!(r, Err(LayoutError::ShapeMismatch));
    assert_eq!(c, vec![7i64; 6]);
    let mut a2 = vec![1i64; 6];
    let r2 = op_muta_refb_func(&mut a2, &lc, &a, &la, |x: i64, y: i64| x + y);
    assert_eq!(r2, Err(LayoutError::ShapeMismatch));
}

#[test]
fn out_of_bounds_is_refused() {
    let a = vec![1i64; 6];
    let mut c = vec![7i64; 5];
    let l = Layout2::new([2, 3], [3, 1], 0);
    // c is one element too short
    let r = op_mutc_refa_refb_func(&mut c, &l, &a, &l, &a, &l, |x: i64, y: i64| x + y);
    assert_eq!(r, Err(LayoutError::OutOfBounds));
    assert_eq!(c, vec![7i64; 5]);
    // a flipped view without offset reaches below 0
    let flipped = Layout2::new([2, 3], [-3, 1], 0);
    let mut c2 = vec![0i64; 6];
    let r2 = op_mutc_refa_refb_func(&mut c2, &l, &a, &flipped, &a, &l, |x: i64, y: i64| x + y);
    assert_eq!(r2, Err(LayoutError::OutOfBounds));
    let mut a3 = vec![0i64; 6];
    let r3 = op_muta_refb_func(&mut a3, &flipped, &a, &l, |x: i64, y: i64| x + y);
    assert_eq!(r3, Err(LayoutError::OutOfBounds));
}

#[test]
fn in_place_flip_add() {
    // a += b where b is a flipped view; 64 x 64 takes the tiled walk
    let n = 64usize;
    let mut a: Vec<i64> = (0..(n * n) as i64).collect();
    let b: Vec<i64> = (0..(n * n) as i64).map(|x| 10 * x).collect();
    let la = Layout2::new([n, n], [n as isize, 1], 0);
    let lb = Layout2::new([n, n], [-(n as isize), 1], (n - 1) * n);
    op_muta_refb_func(&mut a, &la, &b, &lb, |x: i64, y: i64| x + y).unwrap();
    for i in 0..n {
        for j in 0..n {
            assert_eq!(a[i * n + j], (i * n + j) as i64 + 10 * ((n - 1 - i) * n + j) as i64);
        }
    }
}

#[test]
fn col_major_offsets_and_bounds() {
    let l = Layout2::new([2, 3], [3, 1], 1);
    assert_eq!(l.col_major_offsets().unwrap(), vec![1, 4, 2, 5, 3, 6]);
    assert!(l.fits_in(7));
    assert!(!l.fits_in(6));
    let neg = Layout2::new([2, 3], [-3, 1], 0);
    assert_eq!(neg.col_major_offsets(), Err(LayoutError::OutOfBounds));
    let flip = Layout2::new([2, 3], [-3, -1], 5);
    assert_eq!(flip.col_major_offsets().unwrap(), vec![5, 2, 4, 1, 3, 0]);
    let empty = Layout2::new([0, 3], [-3, 1], 0);
    assert_eq!(empty.col_major_offsets().unwrap(), Vec::<usize>::new());
    assert_eq!(l.index_of(1, 2), 6);
    assert!(!l.broadcast_axis());
    assert!(Layout2::new([2, 3], [0, 1], 0).broadcast_axis());
}

#[test]
fn col_major_offsets_match_rstsr_iterator() {
    let (m, n) = (70usize, 130usize);
    let size = m * n;
    let cases: Vec<([isize; 2], usize)> = vec![
        ([n as isize, 1], 0),
        ([1, m as isize], 0),
        ([-(n as isize), 1], (m - 1) * n),
        ([n as isize, -1], n - 1),
        ([-1, -(m as isize)], (m - 1) + (n - 1) * m),
        ([2 * n as isize, 2], 0),
        ([n as isize, 1], 2 * n),
    ];
    for (stride, offset) in cases {
        let mine = layout2([m, n], stride, offset).col_major_offsets().unwrap();
        let theirs: Vec<usize> = IterLayoutColMajor::new(&rlayout2([m, n], stride, offset)).unwrap().collect();
        assert_eq!(mine, theirs, "stride {:?} offset {}", stride, offset);
        assert!(layout2([m, n], stride, offset).fits_in(3 * size as u128));
    }
}
