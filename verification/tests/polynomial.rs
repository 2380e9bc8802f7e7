use tropical_geometry::polynomial::TropicalMonomial;
use tropical_geometry::TropicalPolynomial;

/// Exact max-plus value of a polynomial with integer coefficients at an
/// integer point: None stands for -∞.
fn exact_value(p: &TropicalPolynomial<i64>, x: &[i64]) -> Option<i64> {
    let mut best: Option<i64> = None;
    for m in &p.monomials {
        let v = m.coefficient
            + m.exponents.iter().zip(x).map(|(&e, &xi)| e as i64 * xi).sum::<i64>();
        best = Some(match best {
            None => v,
            Some(b) => b.max(v),
        });
    }
    best
}

#[test]
fn test_tropical_multiply_poly() {
    let mut p1 = TropicalPolynomial::new(1);
    p1.add_monomial(0.0, vec![1]); // x
    let mut p2 = TropicalPolynomial::new(1);
    p2.add_monomial(1.0, vec![1]); // 1 + x
    let prod = p1.tropical_multiply(&p2, |a: f64, b: f64| a + b);
    // x ⊗ (1+x) = x + (2x) = should have monomials [1+x, 0+2x]
    assert_eq!(prod.num_pieces(), 1);
    assert_eq!(prod.monomials[0].coefficient, 1.0);
    assert_eq!(prod.monomials[0].exponents[0], 2);
}

#[test]
fn monomial_new_and_num_vars() {
    let m = TropicalMonomial::new(3.0, vec![2, 1]);
    assert_eq!(m.coefficient, 3.0);
    assert_eq!(m.exponents, vec![2, 1]);
    assert_eq!(m.num_vars(), 2);
    let empty: TropicalMonomial<f64> = TropicalMonomial::new(0.0, vec![]);
    assert_eq!(empty.num_vars(), 0);
}

#[test]
fn polynomial_new_and_add_monomial() {
    let mut p = TropicalPolynomial::new(2);
    assert_eq!(p.num_pieces(), 0);
    assert_eq!(p.num_vars, 2);
    p.add_monomial(0.0, vec![1, 1]);
    p.add_monomial(-1.5, vec![2, 0]);
    assert_eq!(p.num_pieces(), 2);
    assert_eq!(p.num_vars, 2);
    assert_eq!(p.monomials[1].coefficient, -1.5);
    assert_eq!(p.monomials[1].exponents, vec![2, 0]);
}

#[test]
fn newton_polytope_vertices_are_the_exponents() {
    let mut f = TropicalPolynomial::new(1);
    f.add_monomial(0.0, vec![2]);
    f.add_monomial(3.0, vec![0]);
    f.add_monomial(-1.0, vec![1]);
    assert_eq!(f.newton_polytope_vertices(), vec![vec![2], vec![0], vec![1]]);
    let g: TropicalPolynomial<f64> = TropicalPolynomial::new(3);
    assert!(g.newton_polytope_vertices().is_empty());
}

#[test]
fn tropical_add_concatenates_pieces() {
    let mut f = TropicalPolynomial::new(1);
    f.add_monomial(0.0, vec![1]);
    f.add_monomial(0.0, vec![0]);
    let mut g = TropicalPolynomial::new(2);
    g.add_monomial(-1.0, vec![1, 1]);
    g.add_monomial(2.0, vec![0, 0]);
    let sum = f.tropical_add(&g);
    assert_eq!(sum.num_pieces(), 4);
    // the variables are those of the left operand
    assert_eq!(sum.num_vars, 1);
    let coefficients: Vec<f64> = sum.monomials.iter().map(|m| m.coefficient).collect();
    assert_eq!(coefficients, vec![0.0, 0.0, -1.0, 2.0]);
    assert_eq!(sum.monomials[2].exponents, vec![1, 1]);
    // the operands are left as they were
    assert_eq!(f.num_pieces(), 2);
    assert_eq!(g.num_pieces(), 2);
}

#[test]
fn tropical_multiply_orders_and_pads() {
    // f in one variable, g in two: the product is in two variables
    let mut f = TropicalPolynomial::new(1);
    f.add_monomial(10i64, vec![1]);
    f.add_monomial(20i64, vec![3]);
    let mut g = TropicalPolynomial::new(2);
    g.add_monomial(1i64, vec![0, 1]);
    g.add_monomial(2i64, vec![2, 0]);
    g.add_monomial(3i64, vec![1, 1]);
    // combine receives the left coefficient first
    let prod = f.tropical_multiply(&g, |a: i64, b: i64| a - b);
    assert_eq!(prod.num_vars, 2);
    assert_eq!(prod.num_pieces(), 6);
    let coefficients: Vec<i64> = prod.monomials.iter().map(|m| m.coefficient).collect();
    assert_eq!(coefficients, vec![9, 8, 7, 19, 18, 17]);
    assert_eq!(prod.monomials[0].exponents, vec![1, 1]);
    assert_eq!(prod.monomials[1].exponents, vec![3, 0]);
    assert_eq!(prod.monomials[2].exponents, vec![2, 1]);
    assert_eq!(prod.monomials[3].exponents, vec![3, 1]);
    assert_eq!(prod.monomials[5].exponents, vec![4, 1]);
}

#[test]
fn tropical_multiply_by_empty_is_empty() {
    let mut f = TropicalPolynomial::new(1);
    f.add_monomial(1.0, vec![1]);
    let g: TropicalPolynomial<f64> = TropicalPolynomial::new(3);
    let prod = f.tropical_multiply(&g, |a: f64, b: f64| a + b);
    assert_eq!(prod.num_pieces(), 0);
    assert_eq!(prod.num_vars, 3);
}

#[test]
fn product_evaluates_to_sum_of_values() {
    // f(x) = max(x, 0), g(x) = max(x - 1, 2)
    let mut f = TropicalPolynomial::new(1);
    f.add_monomial(0i64, vec![1]);
    f.add_monomial(0i64, vec![0]);
    let mut g = TropicalPolynomial::new(1);
    g.add_monomial(-1i64, vec![1]);
    g.add_monomial(2i64, vec![0]);
    let prod = f.tropical_multiply(&g, |a: i64, b: i64| a + b);
    assert_eq!(prod.num_pieces(), 4);
    for x in -5..6 {
        let fx = exact_value(&f, &[x]).unwrap();
        let gx = exact_value(&g, &[x]).unwrap();
        assert_eq!(exact_value(&prod, &[x]), Some(fx + gx));
    }
}

#[test]
fn sum_evaluates_to_max_of_values() {
    // f(x, y) = max(x + y, 0), g(x, y) = max(2x, 2y)
    let mut f = TropicalPolynomial::new(2);
    f.add_monomial(0i64, vec![1, 1]);
    f.add_monomial(0i64, vec![0, 0]);
    let mut g = TropicalPolynomial::new(2);
    g.add_monomial(0i64, vec![2, 0]);
    g.add_monomial(0i64, vec![0, 2]);
    let sum = f.tropical_add(&g);
    for x in -3..4 {
        for y in -3..4 {
            let fx = exact_value(&f, &[x, y]).unwrap();
            let gx = exact_value(&g, &[x, y]).unwrap();
            assert_eq!(exact_value(&sum, &[x, y]), Some(fx.max(gx)));
        }
    }
    // the empty polynomial is the tropical zero
    let zero: TropicalPolynomial<i64> = TropicalPolynomial::new(2);
    assert_eq!(exact_value(&zero.tropical_add(&f), &[1, 2]), exact_value(&f, &[1, 2]));
}

#[test]
fn breakpoint_pairs_of_three_pieces() {
    // f(x) = max(2x, 3, x - 1): every two pieces have different slopes
    let mut f = TropicalPolynomial::new(1);
    f.add_monomial(0.0, vec![2]);
    f.add_monomial(3.0, vec![0]);
    f.add_monomial(-1.0, vec![1]);
    assert_eq!(f.breakpoint_pairs(), vec![(0, 1), (0, 2), (1, 2)]);
}

#[test]
fn breakpoint_pairs_skip_parallel_pieces() {
    let mut p = TropicalPolynomial::new(1);
    p.add_monomial(0.0, vec![2]); // 2x
    p.add_monomial(3.0, vec![0]); // 3
    assert_eq!(p.breakpoint_pairs(), vec![(0, 1)]);
    p.add_monomial(5.0, vec![2]); // 5 + 2x, parallel to 2x
    assert_eq!(p.breakpoint_pairs(), vec![(0, 1), (1, 2)]);
}

#[test]
fn breakpoint_pairs_need_one_variable() {
    let mut p = TropicalPolynomial::new(2);
    p.add_monomial(0.0, vec![1, 0]);
    p.add_monomial(1.0, vec![0, 1]);
    assert!(p.breakpoint_pairs().is_empty());
    let q: TropicalPolynomial<f64> = TropicalPolynomial::new(1);
    assert!(q.breakpoint_pairs().is_empty());
}

#[test]
fn polynomial_value_is_convex() {
    // f(x) = max(2x, 3, x - 1)
    let mut f = TropicalPolynomial::new(1);
    f.add_monomial(0i64, vec![2]);
    f.add_monomial(3i64, vec![0]);
    f.add_monomial(-1i64, vec![1]);
    for x in -6..7 {
        for z in -6..7 {
            if (x + z) % 2 == 0 {
                let y = (x + z) / 2;
                let fy = exact_value(&f, &[y]).unwrap();
                let fx = exact_value(&f, &[x]).unwrap();
                let fz = exact_value(&f, &[z]).unwrap();
                assert!(2 * fy <= fx + fz);
            }
        }
    }
    // the value is that of a piece: 2x at 5, the constant 3 at 0
    assert_eq!(exact_value(&f, &[5]), Some(10));
    assert_eq!(exact_value(&f, &[0]), Some(3));
}

#[test]
fn multiply_distributes_over_add() {
    let mut f = TropicalPolynomial::new(1);
    f.add_monomial(1i64, vec![1]);
    f.add_monomial(-2i64, vec![0]);
    let mut g = TropicalPolynomial::new(2);
    g.add_monomial(3i64, vec![0, 1]);
    let mut h = TropicalPolynomial::new(2);
    h.add_monomial(5i64, vec![2, 0]);
    h.add_monomial(0i64, vec![1, 1]);
    let add = |a: i64, b: i64| a + b;
    let left = f.tropical_multiply(&g.tropical_add(&h), add);
    let right = f.tropical_multiply(&g, add).tropical_add(&f.tropical_multiply(&h, add));
    assert_eq!(left.num_vars, right.num_vars);
    let mut l: Vec<(i64, Vec<usize>)> =
        left.monomials.iter().map(|m| (m.coefficient, m.exponents.clone())).collect();
    let mut r: Vec<(i64, Vec<usize>)> =
        right.monomials.iter().map(|m| (m.coefficient, m.exponents.clone())).collect();
    assert_eq!(l.len(), 6);
    l.sort();
    r.sort();
    assert_eq!(l, r);
}

#[test]
fn add_monomial_takes_the_max() {
    let mut p = TropicalPolynomial::new(1);
    p.add_monomial(0i64, vec![1]);
    let before = exact_value(&p, &[4]).unwrap();
    p.add_monomial(7i64, vec![0]);
    assert_eq!(exact_value(&p, &[4]), Some(before.max(7)));
    assert_eq!(exact_value(&p, &[9]), Some(9));
}
