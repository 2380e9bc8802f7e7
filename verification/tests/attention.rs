use tropical_geometry::TropicalAttention;

fn mp(a: &[Vec<f64>], b: &[Vec<f64>]) -> Vec<Vec<f64>> {
    TropicalAttention::max_plus_matmul(a, b, f64::NEG_INFINITY, |x: f64, y: f64| x + y, f64::max)
}

#[test]
fn test_max_plus_matmul() {
    let a = vec![vec![1.0, 2.0], vec![3.0, 4.0]];
    let b = vec![vec![0.0, 1.0], vec![2.0, 3.0]];
    let c = mp(&a, &b);
    // c[0][0] = max(1+0, 2+2) = max(1, 4) = 4
    assert_eq!(c[0][0], 4.0);
    // c[0][1] = max(1+1, 2+3) = max(2, 5) = 5
    assert_eq!(c[0][1], 5.0);
    // c[1][0] = max(3+0, 4+2) = max(3, 6) = 6
    assert_eq!(c[1][0], 6.0);
}

#[test]
fn max_plus_matmul_readme_example() {
    let a = vec![vec![1.0, 3.0], vec![2.0, 0.0]];
    let b = vec![vec![0.0, 1.0], vec![4.0, 2.0]];
    assert_eq!(mp(&a, &b), vec![vec![7.0, 5.0], vec![4.0, 3.0]]);
}

#[test]
fn max_plus_matmul_shapes() {
    // no rows in b: every row of the result is empty
    let a = vec![vec![1.0], vec![2.0]];
    let c = mp(&a, &[]);
    assert_eq!(c, vec![Vec::<f64>::new(), Vec::new()]);
    // no rows in a
    assert!(mp(&[], &[vec![1.0, 2.0]]).is_empty());
    // a 1×3 by 3×1 product
    let row = vec![vec![0.0, -1.0, 5.0]];
    let col = vec![vec![1.0], vec![10.0], vec![-4.0]];
    assert_eq!(mp(&row, &col), vec![vec![9.0]]);
}

#[test]
fn max_plus_matmul_folds_in_order() {
    // with integer "max" that keeps a trace, the fold order shows
    let a = vec![vec![1i64, 2, 3]];
    let b = vec![vec![10i64], vec![20], vec![30]];
    let trace = TropicalAttention::max_plus_matmul(&a, &b, 0i64, |x: i64, y: i64| x * y, |acc: i64, s: i64| acc * 1000 + s);
    // ((0 * 1000 + 10) * 1000 + 40) * 1000 + 90
    assert_eq!(trace, vec![vec![10_040_090]]);
}

#[test]
fn attention_new_keeps_fields() {
    let ta = TropicalAttention::new(4, 0.5);
    assert_eq!(ta.num_heads, 4);
    assert_eq!(ta.temperature, 0.5);
}

#[test]
fn max_plus_identity_is_a_unit() {
    let ninf = f64::NEG_INFINITY;
    let a = vec![vec![1.0, -2.0, 3.5], vec![0.0, 4.0, -1.0]];
    let e3 = vec![vec![0.0, ninf, ninf], vec![ninf, 0.0, ninf], vec![ninf, ninf, 0.0]];
    let e2 = vec![vec![0.0, ninf], vec![ninf, 0.0]];
    assert_eq!(mp(&a, &e3), a);
    assert_eq!(mp(&e2, &a), a);
}
