//! Tropical attention: max-plus algebra for attention mechanisms.

use vstd::prelude::*;
use crate::evaluation::{trop_max, trop_plus};

verus! {

/// Tropical attention replaces the softmax with tropical operations.
/// Instead of exp(score_i) / Σ exp(score_j), we use max(score_i - score_j).
#[derive(Debug, Clone)]
pub struct TropicalAttention<C> {
    /// Number of attention heads.
    pub num_heads: usize,
    /// Temperature parameter (scales the tropical max).
    pub temperature: C,
}

/// Column `j` of a matrix given by its rows.
pub open spec fn column<C>(b: Seq<Vec<C>>, j: int) -> Seq<C> {
    b.map_values(|r: Vec<C>| r@[j])
}

/// The number of columns of a matrix given by its rows: the length of its
/// first row, 0 when it has none.
pub open spec fn num_columns<C>(b: Seq<Vec<C>>) -> int {
    if b.len() == 0 {
        0
    } else {
        b[0]@.len() as int
    }
}

/// `acc` is what folding the first `k` terms of a max-plus dot product gives:
/// starting from `bottom`, each step takes `max` of the accumulator and
/// `plus` of `row[t]` and `col[t]`.
pub open spec fn folds_to<C, P: Fn(C, C) -> C, M: Fn(C, C) -> C>(
    row: Seq<C>,
    col: Seq<C>,
    k: int,
    bottom: C,
    plus: P,
    max: M,
    acc: C,
) -> bool
    decreases k,
{
    if k <= 0 {
        acc == bottom
    } else {
        exists|prev: C, s: C|
            #![trigger plus.ensures((row[k - 1], col[k - 1]), s), max.ensures((prev, s), acc)]
            folds_to(row, col, k - 1, bottom, plus, max, prev) && plus.ensures(
                (row[k - 1], col[k - 1]),
                s,
            ) && max.ensures((prev, s), acc)
    }
}

/// `r` is the max-plus product of `a` and `b`: it has a row for each row of
/// `a`, as many columns as `b`, and entry (i, j) folds row `i` of `a` with
/// column `j` of `b`.
pub open spec fn is_max_plus_product<C, P: Fn(C, C) -> C, M: Fn(C, C) -> C>(
    r: Seq<Vec<C>>,
    a: Seq<Vec<C>>,
    b: Seq<Vec<C>>,
    bottom: C,
    plus: P,
    max: M,
) -> bool {
    &&& r.len() == a.len()
    &&& forall|i: int| 0 <= i < a.len() ==> #[trigger] r[i]@.len() == num_columns(b)
    &&& forall|i: int, j: int|
        0 <= i < a.len() && 0 <= j < num_columns(b) ==> folds_to(
            a[i]@,
            column(b, j),
            b.len() as int,
            bottom,
            plus,
            max,
            #[trigger] r[i]@[j],
        )
}

/// The exact max-plus dot product of the first `k` terms: max over t < k of
/// row[t] + col[t], -∞ when k is 0.
pub open spec fn max_plus_dot(row: Seq<Option<int>>, col: Seq<Option<int>>, k: int) -> Option<int>
    decreases k,
{
    if k <= 0 {
        None
    } else {
        trop_max(max_plus_dot(row, col, k - 1), trop_plus(row[k - 1], col[k - 1]))
    }
}

/// One more step of a max-plus fold.
proof fn lemma_fold_step<C, P: Fn(C, C) -> C, M: Fn(C, C) -> C>(
    row: Seq<C>,
    col: Seq<C>,
    k: int,
    bottom: C,
    plus: P,
    max: M,
    prev: C,
    s: C,
    acc: C,
)
    requires
        0 <= k,
        folds_to(row, col, k, bottom, plus, max, prev),
        plus.ensures((row[k], col[k]), s),
        max.ensures((prev, s), acc),
    ensures
        folds_to(row, col, k + 1, bottom, plus, max, acc),
{
    let k1 = k + 1;
    assert(k1 - 1 == k);
    assert(folds_to(row, col, k1 - 1, bottom, plus, max, prev));
    assert(plus.ensures((row[k1 - 1], col[k1 - 1]), s));
}

impl<C> TropicalAttention<C> {
    pub fn new(num_heads: usize, temperature: C) -> (t: Self)
        ensures
            t.num_heads == num_heads,
            t.temperature == temperature,
    {
        TropicalAttention { num_heads, temperature }
    }
}

impl<C: Copy> TropicalAttention<C> {
    /// Max-plus matrix multiplication: (A ⊕⊗ B)[i][j] = max_k(A[i][k] + B[k][j])
    /// This is the tropical analogue of matrix multiplication.
    /// The result has a row for each row of `a` and as many columns as the
    /// first row of `b`; each entry starts at `bottom` (the tropical zero)
    /// and takes, for k in order, `max` of itself and `plus` of A[i][k] and
    /// B[k][j].
    pub fn max_plus_matmul(
        a: &[Vec<C>],
        b: &[Vec<C>],
        bottom: C,
        plus: impl Fn(C, C) -> C,
        max: impl Fn(C, C) -> C,
    ) -> (r: Vec<Vec<C>>)
        requires
            forall|x: C, y: C| plus.requires((x, y)),
            forall|x: C, y: C| max.requires((x, y)),
            a@.len() > 0 && num_columns(b@) > 0 ==> {
                &&& forall|i: int| 0 <= i < a@.len() ==> #[trigger] a@[i]@.len() >= b@.len()
                &&& forall|k: int| 0 <= k < b@.len() ==> #[trigger] b@[k]@.len() >= num_columns(b@)
            },
        ensures
            is_max_plus_product(r@, a@, b@, bottom, plus, max),
    {
        let n = a.len();
        let p = b.len();
        let m: usize = if p == 0 {
            0
        } else {
            b[0].len()
        };
        let mut r: Vec<Vec<C>> = Vec::new();
        let mut i: usize = 0;
        while i < n
            invariant
                n == a@.len(),
                p == b@.len(),
                m == num_columns(b@),
                i <= n,
                forall|x: C, y: C| plus.requires((x, y)),
                forall|x: C, y: C| max.requires((x, y)),
                n > 0 && m > 0 ==> {
                    &&& forall|i: int| 0 <= i < a@.len() ==> #[trigger] a@[i]@.len() >= b@.len()
                    &&& forall|k: int| 0 <= k < b@.len() ==> #[trigger] b@[k]@.len() >= m
                },
                r@.len() == i,
                forall|i2: int| 0 <= i2 < i ==> #[trigger] r@[i2]@.len() == m,
                forall|i2: int, j: int|
                    0 <= i2 < i && 0 <= j < m ==> folds_to(
                        a@[i2]@,
                        column(b@, j),
                        p as int,
                        bottom,
                        plus,
                        max,
                        #[trigger] r@[i2]@[j],
                    ),
            decreases n - i,
        {
            let mut row: Vec<C> = Vec::new();
            let mut j: usize = 0;
            while j < m
                invariant
                    n == a@.len(),
                    p == b@.len(),
                    m == num_columns(b@),
                    i < n,
                    j <= m,
                    forall|x: C, y: C| plus.requires((x, y)),
                    forall|x: C, y: C| max.requires((x, y)),
                    n > 0 && m > 0 ==> {
                        &&& forall|i: int| 0 <= i < a@.len() ==> #[trigger] a@[i]@.len() >= b@.len()
                        &&& forall|k: int| 0 <= k < b@.len() ==> #[trigger] b@[k]@.len() >= m
                    },
                    row@.len() == j,
                    forall|j2: int|
                        0 <= j2 < j ==> folds_to(
                            a@[i as int]@,
                            column(b@, j2),
                            p as int,
                            bottom,
                            plus,
                            max,
                            #[trigger] row@[j2],
                        ),
                decreases m - j,
            {
                let mut acc = bottom;
                let mut k: usize = 0;
                let ghost arow = a@[i as int]@;
                let ghost col = column(b@, j as int);
                while k < p
                    invariant
                        n == a@.len(),
                        p == b@.len(),
                        m == num_columns(b@),
                        i < n,
                        j < m,
                        arow == a@[i as int]@,
                        col == column(b@, j as int),
                        k <= p,
                        forall|x: C, y: C| plus.requires((x, y)),
                        forall|x: C, y: C| max.requires((x, y)),
                        forall|i: int| 0 <= i < a@.len() ==> #[trigger] a@[i]@.len() >= b@.len(),
                        forall|k: int| 0 <= k < b@.len() ==> #[trigger] b@[k]@.len() >= m,
                        folds_to(arow, col, k as int, bottom, plus, max, acc),
                    decreases p - k,
                {
                    assert(a@[i as int]@.len() >= p);
                    assert(b@[k as int]@.len() >= m);
                    let s = plus(a[i][k], b[k][j]);
                    let ghost prev = acc;
                    acc = max(acc, s);
                    assert(col[k as int] == b@[k as int]@[j as int]);
                    proof {
                        lemma_fold_step(arow, col, k as int, bottom, plus, max, prev, s, acc);
                    }
                    k = k + 1;
                }
                row.push(acc);
                j = j + 1;
            }
            r.push(row);
            i = i + 1;
        }
        r
    }
}

/// Max-plus matrix multiplication computes max_k(A[i][k] + B[k][j]) exactly
/// when its operations do: where `v` reads each value as an integer or -∞,
/// `bottom` reads as -∞, `plus` as tropical multiplication and `max` as
/// tropical addition, an entry that folds the row and the column reads as
/// their max-plus dot product.
pub proof fn law_max_plus_entry<C, P: Fn(C, C) -> C, M: Fn(C, C) -> C>(
    row: Seq<C>,
    col: Seq<C>,
    k: int,
    bottom: C,
    plus: P,
    max: M,
    acc: C,
    v: spec_fn(C) -> Option<int>,
)
    requires
        k <= row.len(),
        k <= col.len(),
        folds_to(row, col, k, bottom, plus, max, acc),
        v(bottom) is None,
        forall|x: C, y: C, z: C| #[trigger] plus.ensures((x, y), z) ==> v(z) == trop_plus(v(x), v(y)),
        forall|x: C, y: C, z: C| #[trigger] max.ensures((x, y), z) ==> v(z) == trop_max(v(x), v(y)),
    ensures
        v(acc) == max_plus_dot(row.map_values(v), col.map_values(v), k),
    decreases k,
{
    if k > 0 {
        let (prev, s) = choose|prev: C, s: C|
            folds_to(row, col, k - 1, bottom, plus, max, prev) && plus.ensures(
                (row[k - 1], col[k - 1]),
                s,
            ) && max.ensures((prev, s), acc);
        law_max_plus_entry(row, col, k - 1, bottom, plus, max, prev, v);
        assert(v(s) == trop_plus(v(row[k - 1]), v(col[k - 1])));
        assert(v(acc) == trop_max(v(prev), v(s)));
    }
}

/// `e` is the `n × n` tropical identity matrix under the reading `v`: 0 on
/// the diagonal, -∞ everywhere else.
pub open spec fn is_identity_under<C>(e: Seq<Vec<C>>, n: int, v: spec_fn(C) -> Option<int>) -> bool {
    &&& e.len() == n
    &&& forall|k: int| 0 <= k < n ==> #[trigger] e[k]@.len() == n
    &&& forall|k: int, j: int|
        0 <= k < n && 0 <= j < n ==> v(#[trigger] e[k]@[j]) == (if k == j {
            Some(0int)
        } else {
            None
        })
}

/// The max-plus dot product of `x` with the unit vector at `j` is `x[j]`.
proof fn lemma_dot_unit_right(x: Seq<Option<int>>, u: Seq<Option<int>>, j: int, k: int)
    requires
        0 <= j,
        0 <= k <= x.len(),
        k <= u.len(),
        forall|t: int| 0 <= t < k ==> u[t] == (if t == j { Some(0int) } else { None }),
    ensures
        max_plus_dot(x, u, k) == (if j < k { x[j] } else { None }),
    decreases k,
{
    if k > 0 {
        lemma_dot_unit_right(x, u, j, k - 1);
    }
}

/// The max-plus dot product of the unit vector at `j` with `y` is `y[j]`.
proof fn lemma_dot_unit_left(u: Seq<Option<int>>, y: Seq<Option<int>>, j: int, k: int)
    requires
        0 <= j,
        0 <= k <= y.len(),
        k <= u.len(),
        forall|t: int| 0 <= t < k ==> u[t] == (if t == j { Some(0int) } else { None }),
    ensures
        max_plus_dot(u, y, k) == (if j < k { y[j] } else { None }),
    decreases k,
{
    if k > 0 {
        lemma_dot_unit_left(u, y, j, k - 1);
    }
}

/// The tropical identity matrix is a unit on both sides of max-plus matrix
/// multiplication: where `v` reads `bottom` as -∞, `plus` as tropical
/// multiplication and `max` as tropical addition, and `e_right` and `e_left`
/// are identities of the right sizes, `a ⊗ e_right` (`right`) and
/// `e_left ⊗ a` (`left`) read entry for entry as `a` does.
pub proof fn law_max_plus_identity<C, P: Fn(C, C) -> C, M: Fn(C, C) -> C>(
    a: Seq<Vec<C>>,
    e_right: Seq<Vec<C>>,
    e_left: Seq<Vec<C>>,
    right: Seq<Vec<C>>,
    left: Seq<Vec<C>>,
    bottom: C,
    plus: P,
    max: M,
    v: spec_fn(C) -> Option<int>,
)
    requires
        a.len() > 0,
        forall|i: int| 0 <= i < a.len() ==> #[trigger] a[i]@.len() == a[0]@.len(),
        a[0]@.len() > 0,
        is_identity_under(e_right, a[0]@.len() as int, v),
        is_identity_under(e_left, a.len() as int, v),
        is_max_plus_product(right, a, e_right, bottom, plus, max),
        is_max_plus_product(left, e_left, a, bottom, plus, max),
        v(bottom) is None,
        forall|x: C, y: C, z: C| #[trigger] plus.ensures((x, y), z) ==> v(z) == trop_plus(v(x), v(y)),
        forall|x: C, y: C, z: C| #[trigger] max.ensures((x, y), z) ==> v(z) == trop_max(v(x), v(y)),
    ensures
        right.len() == a.len(),
        left.len() == a.len(),
        forall|i: int| 0 <= i < a.len() ==> #[trigger] right[i]@.len() == a[i]@.len(),
        forall|i: int| 0 <= i < a.len() ==> #[trigger] left[i]@.len() == a[i]@.len(),
        forall|i: int, j: int|
            0 <= i < a.len() && 0 <= j < a[i]@.len() ==> v(#[trigger] right[i]@[j]) == v(a[i]@[j]),
        forall|i: int, j: int|
            0 <= i < a.len() && 0 <= j < a[i]@.len() ==> v(#[trigger] left[i]@[j]) == v(a[i]@[j]),
{
    let n = a.len() as int;
    let p = a[0]@.len() as int;
    assert(num_columns(e_right) == p);
    assert(num_columns(a) == p);
    assert forall|i: int, j: int|
        0 <= i < n && 0 <= j < a[i]@.len() implies v(#[trigger] right[i]@[j]) == v(a[i]@[j]) by {
        let row = a[i]@;
        let col = column(e_right, j);
        assert(folds_to(row, col, p, bottom, plus, max, right[i]@[j]));
        law_max_plus_entry(row, col, p, bottom, plus, max, right[i]@[j], v);
        let (xs, us) = (row.map_values(v), col.map_values(v));
        assert forall|t: int| 0 <= t < p implies us[t] == (if t == j { Some(0int) } else { None }) by {
            assert(col[t] == e_right[t]@[j]);
        }
        lemma_dot_unit_right(xs, us, j, p);
    }
    assert forall|i: int, j: int|
        0 <= i < n && 0 <= j < a[i]@.len() implies v(#[trigger] left[i]@[j]) == v(a[i]@[j]) by {
        let row = e_left[i]@;
        let col = column(a, j);
        assert(folds_to(row, col, n, bottom, plus, max, left[i]@[j]));
        law_max_plus_entry(row, col, n, bottom, plus, max, left[i]@[j], v);
        let (us, ys) = (row.map_values(v), col.map_values(v));
        assert forall|t: int| 0 <= t < n implies us[t] == (if t == i { Some(0int) } else { None }) by {
            assert(v(e_left[i]@[t]) == (if i == t { Some(0int) } else { None }));
        }
        assert(col[i] == a[i]@[j]);
        lemma_dot_unit_left(us, ys, i, n);
    }
}

} // verus!
