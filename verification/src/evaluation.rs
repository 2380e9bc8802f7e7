//! What a tropical polynomial evaluates to in exact arithmetic, and the laws
//! of tropical addition and multiplication of polynomials.
//!
//! Values live in ℤ ∪ {-∞}, with `None` for -∞, the tropical zero. A
//! coefficient is read as an integer through an interpretation `v`, a point is
//! a sequence of integers.

use vstd::prelude::*;
use crate::polynomial::{
    exponent_at, is_product_piece, is_tropical_product, lemma_product_piece_at, TropicalPolynomial,
};

verus! {

/// Tropical addition on ℤ ∪ {-∞}: the maximum.
pub open spec fn trop_max(a: Option<int>, b: Option<int>) -> Option<int> {
    match (a, b) {
        (None, _) => b,
        (_, None) => a,
        (Some(x), Some(y)) => Some(if x >= y { x } else { y }),
    }
}

/// Tropical multiplication on ℤ ∪ {-∞}: the sum, -∞ absorbing.
pub open spec fn trop_plus(a: Option<int>, b: Option<int>) -> Option<int> {
    match (a, b) {
        (Some(x), Some(y)) => Some(x + y),
        _ => None,
    }
}

/// Σ_{t < k} e[t]·x[t], a missing exponent counting as 0.
pub open spec fn dot_upto(e: Seq<usize>, x: Seq<int>, k: int) -> int
    decreases k,
{
    if k <= 0 {
        0
    } else {
        dot_upto(e, x, k - 1) + exponent_at(e, k - 1) * x[k - 1]
    }
}

/// a₁x₁ + a₂x₂ + ..., over the variables that both the exponents and the
/// point have.
pub open spec fn dot(e: Seq<usize>, x: Seq<int>) -> int {
    dot_upto(e, x, x.len() as int)
}

/// The value of one piece c + a₁x₁ + a₂x₂ + ... at `x`.
pub open spec fn piece_value<C>(piece: (C, Seq<usize>), v: spec_fn(C) -> int, x: Seq<int>) -> int {
    v(piece.0) + dot(piece.1, x)
}

/// The value of a polynomial at `x`: the maximum of its pieces' values,
/// -∞ where it has none.
pub open spec fn poly_value<C>(pieces: Seq<(C, Seq<usize>)>, v: spec_fn(C) -> int, x: Seq<int>) -> Option<int>
    decreases pieces.len(),
{
    if pieces.len() == 0 {
        None
    } else {
        trop_max(poly_value(pieces.drop_last(), v, x), Some(piece_value(pieces.last(), v, x)))
    }
}

/// Every monomial of `p` has at most `p.num_vars` exponents.
pub open spec fn exponents_fit<C>(p: TropicalPolynomial<C>) -> bool {
    forall|k: int| 0 <= k < p@.len() ==> #[trigger] p@[k].1.len() <= p.num_vars
}

/// `combine` adds coefficients, read through `v`.
pub open spec fn adds_under<C, F: Fn(C, C) -> C>(combine: F, v: spec_fn(C) -> int) -> bool {
    forall|a: C, b: C, c: C| #[trigger] combine.ensures((a, b), c) ==> v(c) == v(a) + v(b)
}

/// A polynomial with a monomial has a value everywhere, and it is that of one
/// of its pieces, the active one, which no piece exceeds.
pub proof fn law_value_of_active_piece<C>(pieces: Seq<(C, Seq<usize>)>, v: spec_fn(C) -> int, x: Seq<int>)
    requires
        pieces.len() > 0,
    ensures
        poly_value(pieces, v, x) is Some,
        forall|k: int|
            0 <= k < pieces.len() ==> piece_value(#[trigger] pieces[k], v, x) <= poly_value(
                pieces,
                v,
                x,
            )->0,
        exists|k: int|
            0 <= k < pieces.len() && piece_value(#[trigger] pieces[k], v, x) == poly_value(
                pieces,
                v,
                x,
            )->0,
    decreases pieces.len(),
{
    let last = pieces.len() - 1;
    if pieces.len() == 1 {
        assert(piece_value(pieces[0], v, x) == poly_value(pieces, v, x)->0);
    } else {
        let rest = pieces.drop_last();
        law_value_of_active_piece(rest, v, x);
        let k0 = choose|k: int|
            0 <= k < rest.len() && piece_value(#[trigger] rest[k], v, x) == poly_value(rest, v, x)->0;
        assert(rest[k0] == pieces[k0]);
        assert forall|k: int| 0 <= k < pieces.len() implies piece_value(
            #[trigger] pieces[k],
            v,
            x,
        ) <= poly_value(pieces, v, x)->0 by {
            if k < last {
                assert(rest[k] == pieces[k]);
            }
        }
        if piece_value(pieces[last], v, x) > poly_value(rest, v, x)->0 {
            assert(piece_value(pieces[last], v, x) == poly_value(pieces, v, x)->0);
        } else {
            assert(piece_value(pieces[k0], v, x) == poly_value(pieces, v, x)->0);
        }
    }
}

/// Adding a monomial takes the maximum with it: where `after` is `before`
/// with the piece (c, e) added, as `add_monomial` leaves it,
/// after(x) = max(before(x), c + e·x).
pub proof fn law_add_monomial_evaluates_to_max<C>(
    before: TropicalPolynomial<C>,
    after: TropicalPolynomial<C>,
    coefficient: C,
    exponents: Seq<usize>,
    v: spec_fn(C) -> int,
    x: Seq<int>,
)
    requires
        after@ == before@.push((coefficient, exponents)),
    ensures
        poly_value(after@, v, x) == trop_max(
            poly_value(before@, v, x),
            Some(piece_value((coefficient, exponents), v, x)),
        ),
{
    assert(after@.drop_last() =~= before@);
}

/// Tropical addition of polynomials evaluates to the maximum of the values:
/// (f ⊕ g)(x) = max(f(x), g(x)), where the pieces of `h` are those of `f`
/// followed by those of `g`, as `tropical_add` gives them.
pub proof fn law_sum_evaluates_to_max<C>(
    f: TropicalPolynomial<C>,
    g: TropicalPolynomial<C>,
    h: TropicalPolynomial<C>,
    v: spec_fn(C) -> int,
    x: Seq<int>,
)
    requires
        h@ == f@ + g@,
    ensures
        poly_value(h@, v, x) == trop_max(poly_value(f@, v, x), poly_value(g@, v, x)),
{
    lemma_concat_value(f@, g@, v, x);
}

proof fn lemma_concat_value<C>(
    a: Seq<(C, Seq<usize>)>,
    b: Seq<(C, Seq<usize>)>,
    v: spec_fn(C) -> int,
    x: Seq<int>,
)
    ensures
        poly_value(a + b, v, x) == trop_max(poly_value(a, v, x), poly_value(b, v, x)),
    decreases b.len(),
{
    if b.len() == 0 {
        assert(a + b =~= a);
    } else {
        lemma_concat_value(a, b.drop_last(), v, x);
        assert((a + b).drop_last() =~= a + b.drop_last());
        assert((a + b).last() == b.last());
    }
}

/// Σ_{t<k} (e1[t] + e2[t])·x[t] = Σ_{t<k} e1[t]·x[t] + Σ_{t<k} e2[t]·x[t].
proof fn lemma_dot_upto_additive(e: Seq<usize>, e1: Seq<usize>, e2: Seq<usize>, x: Seq<int>, k: int)
    requires
        forall|t: int| 0 <= t < k ==> exponent_at(e, t) == exponent_at(e1, t) + exponent_at(e2, t),
    ensures
        dot_upto(e, x, k) == dot_upto(e1, x, k) + dot_upto(e2, x, k),
    decreases k,
{
    if k > 0 {
        lemma_dot_upto_additive(e, e1, e2, x, k - 1);
        let a = exponent_at(e1, k - 1);
        let b = exponent_at(e2, k - 1);
        let y = x[k - 1];
        assert((a + b) * y == a * y + b * y) by (nonlinear_arith);
    }
}

/// A product piece, where the factors' exponents fit in `n`, takes the sum of
/// their values.
proof fn lemma_product_piece_value<C, F: Fn(C, C) -> C>(
    p: (C, Seq<usize>),
    a: (C, Seq<usize>),
    b: (C, Seq<usize>),
    combine: F,
    n: nat,
    v: spec_fn(C) -> int,
    x: Seq<int>,
)
    requires
        is_product_piece(p, a, b, combine, n),
        a.1.len() <= n,
        b.1.len() <= n,
        adds_under(combine, v),
    ensures
        piece_value(p, v, x) == piece_value(a, v, x) + piece_value(b, v, x),
{
    assert forall|t: int| 0 <= t < x.len() implies exponent_at(p.1, t) == exponent_at(a.1, t)
        + exponent_at(b.1, t) by {
        if t >= n {
            assert(exponent_at(a.1, t) == 0);
            assert(exponent_at(b.1, t) == 0);
        }
    }
    lemma_dot_upto_additive(p.1, a.1, b.1, x, x.len() as int);
    assert(combine.ensures((a.0, b.0), p.0));
}

/// Tropical multiplication of polynomials evaluates to the sum of the values:
/// (f ⊗ g)(x) = f(x) + g(x), where `h` is the product that `tropical_multiply`
/// builds with a `combine` that adds coefficients, and each monomial has no
/// more exponents than its polynomial has variables.
pub proof fn law_product_evaluates_to_sum<C, F: Fn(C, C) -> C>(
    f: TropicalPolynomial<C>,
    g: TropicalPolynomial<C>,
    h: TropicalPolynomial<C>,
    combine: F,
    v: spec_fn(C) -> int,
    x: Seq<int>,
)
    requires
        is_tropical_product(h, f, g, combine),
        exponents_fit(f),
        exponents_fit(g),
        adds_under(combine, v),
    ensures
        poly_value(h@, v, x) == trop_plus(poly_value(f@, v, x), poly_value(g@, v, x)),
{
    let n1 = f@.len();
    let n2 = g@.len();
    if n1 == 0 || n2 == 0 {
        assert(h@.len() == 0) by (nonlinear_arith)
            requires h@.len() == n1 * n2, n1 == 0 || n2 == 0;
    } else {
        assert(h@.len() > 0) by (nonlinear_arith)
            requires h@.len() == n1 * n2, n1 > 0, n2 > 0;
        law_value_of_active_piece(f@, v, x);
        law_value_of_active_piece(g@, v, x);
        law_value_of_active_piece(h@, v, x);
        let fv = poly_value(f@, v, x)->0;
        let gv = poly_value(g@, v, x)->0;
        let hv = poly_value(h@, v, x)->0;
        // every product piece is at most f(x) + g(x)
        assert forall|k: int| 0 <= k < h@.len() implies piece_value(#[trigger] h@[k], v, x) <= fv
            + gv by {
            let i = k / (n2 as int);
            let j = k % (n2 as int);
            assert(k == i * n2 + j && 0 <= i < n1 && 0 <= j < n2) by (nonlinear_arith)
                requires 0 <= k < n1 * n2, n2 > 0, i == k / (n2 as int), j == k % (n2 as int);
            lemma_product_piece_at(h, f, g, combine, i, j);
            assert(f@[i].1.len() <= f.num_vars);
            assert(g@[j].1.len() <= g.num_vars);
            lemma_product_piece_value(h@[k], f@[i], g@[j], combine, h.num_vars as nat, v, x);
            assert(piece_value(f@[i], v, x) <= fv);
            assert(piece_value(g@[j], v, x) <= gv);
        }
        // the product of the best pieces reaches it
        let i0 = choose|k: int| 0 <= k < n1 && piece_value(#[trigger] f@[k], v, x) == fv;
        let j0 = choose|k: int| 0 <= k < n2 && piece_value(#[trigger] g@[k], v, x) == gv;
        let k0 = i0 * n2 + j0;
        assert(0 <= k0 < h@.len()) by (nonlinear_arith)
            requires 0 <= i0 < n1, 0 <= j0 < n2, k0 == i0 * n2 + j0, h@.len() == n1 * n2;
        lemma_product_piece_at(h, f, g, combine, i0, j0);
        assert(f@[i0].1.len() <= f.num_vars);
        assert(g@[j0].1.len() <= g.num_vars);
        lemma_product_piece_value(h@[k0], f@[i0], g@[j0], combine, h.num_vars as nat, v, x);
        assert(piece_value(h@[k0], v, x) <= hv);
        let kh = choose|k: int| 0 <= k < h@.len() && piece_value(#[trigger] h@[k], v, x) == hv;
        assert(piece_value(h@[kh], v, x) <= fv + gv);
    }
}

/// (a + b)·Σ e[t]·y[t] = a·Σ e[t]·x[t] + b·Σ e[t]·z[t] where (a + b)·y = a·x + b·z.
proof fn lemma_dot_upto_weighted(e: Seq<usize>, x: Seq<int>, y: Seq<int>, z: Seq<int>, a: int, b: int, k: int)
    requires
        0 <= k <= x.len(),
        x.len() == y.len(),
        y.len() == z.len(),
        forall|t: int| 0 <= t < y.len() ==> (a + b) * y[t] == a * x[t] + b * z[t],
    ensures
        (a + b) * dot_upto(e, y, k) == a * dot_upto(e, x, k) + b * dot_upto(e, z, k),
    decreases k,
{
    if k > 0 {
        lemma_dot_upto_weighted(e, x, y, z, a, b, k - 1);
        let c = exponent_at(e, k - 1);
        let (dx, dy, dz) = (dot_upto(e, x, k - 1), dot_upto(e, y, k - 1), dot_upto(e, z, k - 1));
        let (xs, ys, zs) = (x[k - 1], y[k - 1], z[k - 1]);
        assert((a + b) * (dy + c * ys) == (a + b) * dy + c * ((a + b) * ys)) by (nonlinear_arith);
        assert(c * (a * xs + b * zs) == a * (c * xs) + b * (c * zs)) by (nonlinear_arith);
        assert(a * (dx + c * xs) == a * dx + a * (c * xs)) by (nonlinear_arith);
        assert(b * (dz + c * zs) == b * dz + b * (c * zs)) by (nonlinear_arith);
    }
}

/// A tropical polynomial is a convex function: where the point `y` lies
/// between `x` and `z`, at the weights `a` and `b` ((a + b)·y = a·x + b·z),
/// (a + b)·f(y) <= a·f(x) + b·f(z).
pub proof fn law_value_is_convex<C>(
    f: TropicalPolynomial<C>,
    v: spec_fn(C) -> int,
    x: Seq<int>,
    y: Seq<int>,
    z: Seq<int>,
    a: int,
    b: int,
)
    requires
        f@.len() > 0,
        a >= 0,
        b >= 0,
        x.len() == y.len(),
        y.len() == z.len(),
        forall|t: int| 0 <= t < y.len() ==> (a + b) * y[t] == a * x[t] + b * z[t],
    ensures
        (a + b) * poly_value(f@, v, y)->0 <= a * poly_value(f@, v, x)->0 + b * poly_value(
            f@,
            v,
            z,
        )->0,
{
    law_value_of_active_piece(f@, v, x);
    law_value_of_active_piece(f@, v, y);
    law_value_of_active_piece(f@, v, z);
    let k = choose|k: int| 0 <= k < f@.len() && piece_value(#[trigger] f@[k], v, y) == poly_value(f@, v, y)->0;
    let piece = f@[k];
    lemma_dot_upto_weighted(piece.1, x, y, z, a, b, y.len() as int);
    let (px, py, pz) = (piece_value(piece, v, x), piece_value(piece, v, y), piece_value(piece, v, z));
    let (fx, fz) = (poly_value(f@, v, x)->0, poly_value(f@, v, z)->0);
    let c = v(piece.0);
    let (dx, dy, dz) = (dot(piece.1, x), dot(piece.1, y), dot(piece.1, z));
    assert(px <= fx && pz <= fz);
    assert((a + b) * py <= a * fx + b * fz) by (nonlinear_arith)
        requires
            px == c + dx,
            py == c + dy,
            pz == c + dz,
            (a + b) * dy == a * dx + b * dz,
            px <= fx,
            pz <= fz,
            a >= 0,
            b >= 0;
}

} // verus!
