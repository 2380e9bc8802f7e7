//! Tropical polynomials: the maximum of affine pieces.

use vstd::prelude::*;

verus! {

/// A monomial in tropical notation: c ⊗ x₁^a₁ ⊗ x₂^a₂ ⊗ ... = c + a₁x₁ + a₂x₂ + ...
#[derive(Debug, Clone)]
pub struct TropicalMonomial<C> {
    /// Coefficient (the "tropical" constant term, added in normal arithmetic).
    pub coefficient: C,
    /// Exponents for each variable.
    pub exponents: Vec<usize>,
}

impl<C> View for TropicalMonomial<C> {
    type V = (C, Seq<usize>);

    open spec fn view(&self) -> (C, Seq<usize>) {
        (self.coefficient, self.exponents@)
    }
}

/// Exponent `t` of an exponent vector, where a missing entry counts as 0.
pub open spec fn exponent_at(e: Seq<usize>, t: int) -> int {
    if 0 <= t < e.len() {
        e[t] as int
    } else {
        0
    }
}

/// Copy of an exponent vector.
fn copy_exponents(e: &Vec<usize>) -> (r: Vec<usize>)
    ensures
        r@ == e@,
{
    let mut r: Vec<usize> = Vec::new();
    let mut t: usize = 0;
    while t < e.len()
        invariant
            t <= e.len(),
            r@ == e@.subrange(0, t as int),
        decreases e.len() - t,
    {
        r.push(e[t]);
        t = t + 1;
    }
    assert(r@ =~= e@);
    r
}

/// The exponent vector of length `n` whose entry `t` is the sum of entry `t`
/// of `e1` and of `e2`, a missing entry counting as 0.
fn padded_sum(e1: &Vec<usize>, e2: &Vec<usize>, n: usize) -> (r: Vec<usize>)
    requires
        forall|t: int| 0 <= t < n ==> exponent_at(e1@, t) + exponent_at(e2@, t) <= usize::MAX,
    ensures
        r@.len() == n,
        forall|t: int| 0 <= t < n ==> r@[t] == exponent_at(e1@, t) + exponent_at(e2@, t),
{
    let mut r: Vec<usize> = Vec::new();
    let mut t: usize = 0;
    while t < n
        invariant
            t <= n,
            r@.len() == t,
            forall|s: int| 0 <= s < n ==> exponent_at(e1@, s) + exponent_at(e2@, s) <= usize::MAX,
            forall|s: int| 0 <= s < t ==> r@[s] == exponent_at(e1@, s) + exponent_at(e2@, s),
        decreases n - t,
    {
        let a: usize = if t < e1.len() { e1[t] } else { 0 };
        let b: usize = if t < e2.len() { e2[t] } else { 0 };
        assert(exponent_at(e1@, t as int) + exponent_at(e2@, t as int) <= usize::MAX);
        r.push(a + b);
        t = t + 1;
    }
    r
}

impl<C> TropicalMonomial<C> {
    pub fn new(coefficient: C, exponents: Vec<usize>) -> (m: Self)
        ensures
            m.coefficient == coefficient,
            m.exponents@ == exponents@,
    {
        TropicalMonomial { coefficient, exponents }
    }

    /// Number of variables.
    pub fn num_vars(&self) -> (n: usize)
        ensures
            n == self.exponents@.len(),
    {
        self.exponents.len()
    }
}

impl<C: Copy> TropicalMonomial<C> {
    /// An independent copy of this monomial.
    fn duplicate(&self) -> (m: Self)
        ensures
            m@ == self@,
    {
        TropicalMonomial { coefficient: self.coefficient, exponents: copy_exponents(&self.exponents) }
    }
}

/// A tropical polynomial: max of affine functions.
/// f(x) = max_i (cᵢ + aᵢ₁x₁ + aᵢ₂x₂ + ...)
///
/// This is a convex piecewise-linear function.
#[derive(Debug, Clone)]
pub struct TropicalPolynomial<C> {
    /// The monomials (affine pieces).
    pub monomials: Vec<TropicalMonomial<C>>,
    /// Number of variables.
    pub num_vars: usize,
}

/// A polynomial is seen as the sequence of its pieces, each a coefficient
/// and an exponent vector.
impl<C> View for TropicalPolynomial<C> {
    type V = Seq<(C, Seq<usize>)>;

    open spec fn view(&self) -> Seq<(C, Seq<usize>)> {
        self.monomials@.map_values(|m: TropicalMonomial<C>| m@)
    }
}

/// Piece `p` of a product is the product of piece `a` of the first factor and
/// piece `b` of the second: its coefficient is what `combine` gives for the two
/// coefficients, and its exponents, `n` of them, are the sums of theirs.
pub open spec fn is_product_piece<C, F: Fn(C, C) -> C>(
    p: (C, Seq<usize>),
    a: (C, Seq<usize>),
    b: (C, Seq<usize>),
    combine: F,
    n: nat,
) -> bool {
    &&& combine.ensures((a.0, b.0), p.0)
    &&& p.1.len() == n
    &&& forall|t: int| 0 <= t < n ==> p.1[t] == exponent_at(a.1, t) + exponent_at(b.1, t)
}

/// `h` is the tropical product of `f` and `g`: it is in `max` of their numbers
/// of variables, and piece `i * |g| + j` of `h` is the product of piece `i` of
/// `f` and piece `j` of `g`.
pub open spec fn is_tropical_product<C, F: Fn(C, C) -> C>(
    h: TropicalPolynomial<C>,
    f: TropicalPolynomial<C>,
    g: TropicalPolynomial<C>,
    combine: F,
) -> bool {
    &&& h.num_vars == (if f.num_vars >= g.num_vars { f.num_vars } else { g.num_vars })
    &&& h@.len() == f@.len() * g@.len()
    &&& forall|i: int, j: int|
        #![trigger f@[i], g@[j]]
        0 <= i < f@.len() && 0 <= j < g@.len() ==> is_product_piece(
            h@[i * g@.len() + j],
            f@[i],
            g@[j],
            combine,
            h.num_vars as nat,
        )
}

/// No exponent sum that the product of `f` and `g` computes, one for each of
/// the `max` of their numbers of variables, exceeds `usize::MAX`.
pub open spec fn product_fits<C>(f: TropicalPolynomial<C>, g: TropicalPolynomial<C>) -> bool {
    let n = if f.num_vars >= g.num_vars { f.num_vars } else { g.num_vars };
    forall|i: int, j: int, t: int|
        #![trigger f@[i], g@[j], exponent_at(f@[i].1, t)]
        0 <= i < f@.len() && 0 <= j < g@.len() && 0 <= t < n ==> exponent_at(f@[i].1, t)
            + exponent_at(g@[j].1, t) <= usize::MAX
}

/// The slope of a piece in one variable: its first exponent.
pub open spec fn slope<C>(piece: (C, Seq<usize>)) -> usize {
    piece.1[0]
}

/// The pairs `(i, j)` with `lo <= j < hi` whose pieces have different slopes,
/// in increasing `j`.
pub open spec fn pairs_in_row<C>(pieces: Seq<(C, Seq<usize>)>, i: int, lo: int, hi: int) -> Seq<
    (usize, usize),
>
    decreases hi - lo,
{
    if hi <= lo {
        Seq::empty()
    } else {
        let rest = pairs_in_row(pieces, i, lo, hi - 1);
        if slope(pieces[i]) != slope(pieces[hi - 1]) {
            rest.push((i as usize, (hi - 1) as usize))
        } else {
            rest
        }
    }
}

/// The pairs `(i, j)` with `i < j < |pieces|` and `i < k` whose pieces have
/// different slopes, in lexicographic order.
pub open spec fn pairs_before<C>(pieces: Seq<(C, Seq<usize>)>, k: int) -> Seq<(usize, usize)>
    decreases k,
{
    if k <= 0 {
        Seq::empty()
    } else {
        pairs_before(pieces, k - 1) + pairs_in_row(pieces, k - 1, k, pieces.len() as int)
    }
}

/// Which pairs `breakpoint_pairs` lists for a polynomial in one variable:
/// `(i, j)` is among them exactly when `i < j` are indices of monomials whose
/// slopes differ; and none is listed twice.
pub proof fn law_breakpoint_pairs_members<C>(p: TropicalPolynomial<C>)
    ensures
        forall|i: usize, j: usize|
            #[trigger] pairs_before(p@, p@.len() as int).contains((i, j)) <==> (i < j < p@.len()
                && slope(p@[i as int]) != slope(p@[j as int])),
        pairs_before(p@, p@.len() as int).no_duplicates(),
{
    assert(p@.len() == p.monomials@.len());
    assert(p.monomials.len() == p.monomials@.len());
    lemma_pairs_before_members(p@, p@.len() as int);
}

/// The pairs before row `k`.
proof fn lemma_pairs_before_members<C>(pieces: Seq<(C, Seq<usize>)>, k: int)
    requires
        0 <= k <= pieces.len(),
        pieces.len() <= usize::MAX,
    ensures
        forall|i: usize, j: usize|
            #[trigger] pairs_before(pieces, k).contains((i, j)) <==> (i < k && i < j < pieces.len()
                && slope(pieces[i as int]) != slope(pieces[j as int])),
        pairs_before(pieces, k).no_duplicates(),
    decreases k,
{
    if k > 0 {
        lemma_pairs_before_members(pieces, k - 1);
        lemma_row_members(pieces, k - 1, k, pieces.len() as int);
        let a = pairs_before(pieces, k - 1);
        let b = pairs_in_row(pieces, k - 1, k, pieces.len() as int);
        assert(pairs_before(pieces, k) == a + b);
        assert forall|i: usize, j: usize| #[trigger] (a + b).contains((i, j)) <==> (i < k && i < j
            < pieces.len() && slope(pieces[i as int]) != slope(pieces[j as int])) by {
            if (a + b).contains((i, j)) {
                let q = choose|q: int| 0 <= q < (a + b).len() && (a + b)[q] == (i, j);
                if q < a.len() {
                    assert(a[q] == (a + b)[q]);
                    assert(a.contains((i, j)));
                } else {
                    assert(b[q - a.len()] == (a + b)[q]);
                    assert(b.contains((i, j)));
                }
            }
            if i < k && i < j < pieces.len() && slope(pieces[i as int]) != slope(pieces[j as int]) {
                if i < k - 1 {
                    assert(a.contains((i, j)));
                    let q = choose|q: int| 0 <= q < a.len() && a[q] == (i, j);
                    assert((a + b)[q] == a[q]);
                } else {
                    assert(b.contains((i, j)));
                    let q = choose|q: int| 0 <= q < b.len() && b[q] == (i, j);
                    assert((a + b)[a.len() + q] == b[q]);
                }
            }
        }
        assert forall|x: int, y: int|
            0 <= x < (a + b).len() && 0 <= y < (a + b).len() && x != y implies (a + b)[x] != (a
                + b)[y] by {
            if x < a.len() && y >= a.len() {
                assert((a + b)[x] == a[x]);
                assert(a.contains(a[x]));
                assert((a + b)[y] == b[y - a.len()]);
            } else if x >= a.len() && y < a.len() {
                assert((a + b)[y] == a[y]);
                assert(a.contains(a[y]));
                assert((a + b)[x] == b[x - a.len()]);
            } else if x < a.len() {
                assert((a + b)[x] == a[x] && (a + b)[y] == a[y]);
            } else {
                assert((a + b)[x] == b[x - a.len()] && (a + b)[y] == b[y - a.len()]);
            }
        }
    }
}

/// The pairs of one row: `(i, j)` with `lo <= j < hi` and slopes that differ,
/// in increasing `j`, all with first entry `i`.
proof fn lemma_row_members<C>(pieces: Seq<(C, Seq<usize>)>, i: int, lo: int, hi: int)
    requires
        0 <= i < pieces.len(),
        0 <= lo,
        hi <= pieces.len() <= usize::MAX,
    ensures
        forall|q: int|
            0 <= q < pairs_in_row(pieces, i, lo, hi).len() ==> (#[trigger] pairs_in_row(
                pieces,
                i,
                lo,
                hi,
            )[q]).0 == i && lo <= pairs_in_row(pieces, i, lo, hi)[q].1 < hi,
        forall|x: int, y: int|
            0 <= x < y < pairs_in_row(pieces, i, lo, hi).len() ==> #[trigger] pairs_in_row(
                pieces,
                i,
                lo,
                hi,
            )[x].1 < #[trigger] pairs_in_row(pieces, i, lo, hi)[y].1,
        forall|i2: usize, j: usize|
            #[trigger] pairs_in_row(pieces, i, lo, hi).contains((i2, j)) <==> (i2 == i && lo <= j
                < hi && slope(pieces[i]) != slope(pieces[j as int])),
    decreases hi - lo,
{
    if hi > lo {
        lemma_row_members(pieces, i, lo, hi - 1);
        let rest = pairs_in_row(pieces, i, lo, hi - 1);
        if slope(pieces[i]) != slope(pieces[hi - 1]) {
            let full = rest.push((i as usize, (hi - 1) as usize));
            assert(pairs_in_row(pieces, i, lo, hi) == full);
            assert forall|i2: usize, j: usize| #[trigger] full.contains((i2, j)) <==> (i2 == i && lo
                <= j < hi && slope(pieces[i]) != slope(pieces[j as int])) by {
                if full.contains((i2, j)) {
                    let q = choose|q: int| 0 <= q < full.len() && full[q] == (i2, j);
                    if q < rest.len() {
                        assert(rest[q] == full[q]);
                        assert(rest.contains((i2, j)));
                    }
                }
                if i2 == i && lo <= j < hi && slope(pieces[i]) != slope(pieces[j as int]) {
                    if j < hi - 1 {
                        assert(rest.contains((i2, j)));
                        let q = choose|q: int| 0 <= q < rest.len() && rest[q] == (i2, j);
                        assert(full[q] == rest[q]);
                    } else {
                        assert(full[rest.len() as int] == (i2, j));
                    }
                }
            }
            assert forall|x: int, y: int| 0 <= x < y < full.len() implies #[trigger] full[x].1
                < #[trigger] full[y].1 by {
                if y < rest.len() {
                    assert(full[x] == rest[x] && full[y] == rest[y]);
                } else {
                    assert(full[x] == rest[x]);
                }
            }
        } else {
            assert forall|i2: usize, j: usize| #[trigger] rest.contains((i2, j)) <==> (i2 == i && lo
                <= j < hi && slope(pieces[i]) != slope(pieces[j as int])) by {
                if i2 == i && j == hi - 1 && rest.contains((i2, j)) {
                    let q = choose|q: int| 0 <= q < rest.len() && rest[q] == (i2, j);
                }
            }
        }
    }
}

impl<C> TropicalPolynomial<C> {
    /// Create an empty polynomial in n variables.
    pub fn new(num_vars: usize) -> (p: Self)
        ensures
            p@ == Seq::<(C, Seq<usize>)>::empty(),
            p.num_vars == num_vars,
    {
        TropicalPolynomial { monomials: Vec::new(), num_vars }
    }

    /// Add a monomial (tropical addition = adding another piece to the max).
    pub fn add_monomial(&mut self, coefficient: C, exponents: Vec<usize>)
        ensures
            final(self)@ == old(self)@.push((coefficient, exponents@)),
            final(self).num_vars == old(self).num_vars,
    {
        let ghost before = self@;
        self.monomials.push(TropicalMonomial::new(coefficient, exponents));
        assert(self@ =~= before.push((coefficient, exponents@)));
    }

    /// Number of monomials (pieces in the piecewise-linear function).
    pub fn num_pieces(&self) -> (n: usize)
        ensures
            n == self@.len(),
    {
        self.monomials.len()
    }

    /// The Newton polytope vertices (the exponent vectors of the monomials).
    /// In tropical geometry, the tropical hypersurface is the dual of this polytope.
    pub fn newton_polytope_vertices(&self) -> (v: Vec<Vec<usize>>)
        ensures
            v@.len() == self@.len(),
            forall|k: int| 0 <= k < self@.len() ==> #[trigger] v@[k]@ == self@[k].1,
    {
        let mut v: Vec<Vec<usize>> = Vec::new();
        let mut k: usize = 0;
        while k < self.monomials.len()
            invariant
                k <= self@.len(),
                v@.len() == k,
                forall|s: int| 0 <= s < k ==> #[trigger] v@[s]@ == self@[s].1,
            decreases self@.len() - k,
        {
            v.push(copy_exponents(&self.monomials[k].exponents));
            k = k + 1;
        }
        v
    }

    /// Find breakpoints in 1D: the pairs of monomials `(i, j)`, `i < j`, whose
    /// slopes differ, in lexicographic order. Monomial `i` and monomial `j`
    /// meet at exactly one point, a breakpoint candidate.
    /// Only works for single-variable polynomials: in any other number of
    /// variables there are none.
    pub fn breakpoint_pairs(&self) -> (pairs: Vec<(usize, usize)>)
        requires
            self.num_vars == 1 && self@.len() >= 2 ==> forall|k: int|
                0 <= k < self@.len() ==> #[trigger] self@[k].1.len() >= 1,
        ensures
            self.num_vars != 1 ==> pairs@.len() == 0,
            self.num_vars == 1 ==> pairs@ == pairs_before(self@, self@.len() as int),
    {
        let mut pairs: Vec<(usize, usize)> = Vec::new();
        if self.num_vars != 1 {
            return pairs;
        }
        let n = self.monomials.len();
        if n < 2 {
            assert(pairs_before(self@, 0) =~= Seq::<(usize, usize)>::empty());
            assert(pairs_in_row(self@, 0, 1, n as int) =~= Seq::<(usize, usize)>::empty());
            assert(pairs@ =~= pairs_before(self@, n as int));
            return pairs;
        }
        let mut i: usize = 0;
        while i < n
            invariant
                n == self@.len(),
                i <= n,
                forall|k: int| 0 <= k < self@.len() ==> #[trigger] self@[k].1.len() >= 1,
                pairs@ == pairs_before(self@, i as int),
            decreases n - i,
        {
            let mut j: usize = i + 1;
            while j < n
                invariant
                    n == self@.len(),
                    i < n,
                    i + 1 <= j <= n,
                    forall|k: int| 0 <= k < self@.len() ==> #[trigger] self@[k].1.len() >= 1,
                    pairs@ == pairs_before(self@, i as int) + pairs_in_row(
                        self@,
                        i as int,
                        i + 1,
                        j as int,
                    ),
                decreases n - j,
            {
                assert(self@[i as int].1.len() >= 1 && self@[j as int].1.len() >= 1);
                assert(self@[i as int] == self.monomials@[i as int]@);
                assert(self@[j as int] == self.monomials@[j as int]@);
                let a1 = self.monomials[i].exponents[0];
                let a2 = self.monomials[j].exponents[0];
                if a1 != a2 {
                    pairs.push((i, j));
                }
                j = j + 1;
            }
            i = i + 1;
        }
        pairs
    }
}

impl<C: Copy> TropicalPolynomial<C> {
    /// Tropical addition (max) of two tropical polynomials: the pieces of
    /// `self` followed by those of `other`, in the variables of `self`.
    pub fn tropical_add(&self, other: &Self) -> (r: Self)
        ensures
            r@ == self@ + other@,
            r.num_vars == self.num_vars,
    {
        let mut r = Self::new(self.num_vars);
        let mut k: usize = 0;
        while k < self.monomials.len()
            invariant
                k <= self@.len(),
                r@ == self@.subrange(0, k as int),
                r.num_vars == self.num_vars,
            decreases self@.len() - k,
        {
            let m = self.monomials[k].duplicate();
            let ghost before = r@;
            r.monomials.push(m);
            assert(r@ =~= before.push(self@[k as int]));
            assert(self@.subrange(0, k + 1) =~= self@.subrange(0, k as int).push(self@[k as int]));
            k = k + 1;
        }
        assert(self@.subrange(0, self@.len() as int) =~= self@);
        let mut k: usize = 0;
        while k < other.monomials.len()
            invariant
                k <= other@.len(),
                r@ == self@ + other@.subrange(0, k as int),
                r.num_vars == self.num_vars,
            decreases other@.len() - k,
        {
            let m = other.monomials[k].duplicate();
            let ghost before = r@;
            r.monomials.push(m);
            assert(r@ =~= before.push(other@[k as int]));
            assert(self@ + other@.subrange(0, k + 1) =~= (self@ + other@.subrange(
                0,
                k as int,
            )).push(other@[k as int]));
            k = k + 1;
        }
        assert(other@.subrange(0, other@.len() as int) =~= other@);
        r
    }
}

impl<C: Copy> TropicalPolynomial<C> {
    /// Tropical multiplication (normal addition) of two tropical polynomials.
    /// (f ⊗ g)(x) = f(x) + g(x) — this produces all pairwise combinations:
    /// for each piece of `self` in turn, its products with each piece of
    /// `other`, whose coefficients `combine` adds.
    pub fn tropical_multiply(&self, other: &Self, combine: impl Fn(C, C) -> C) -> (r: Self)
        requires
            forall|a: C, b: C| combine.requires((a, b)),
            product_fits(*self, *other),
        ensures
            is_tropical_product(r, *self, *other, combine),
    {
        let n: usize = if self.num_vars >= other.num_vars {
            self.num_vars
        } else {
            other.num_vars
        };
        let n1 = self.monomials.len();
        let n2 = other.monomials.len();
        let mut r = Self::new(n);
        let mut i: usize = 0;
        while i < n1
            invariant
                n1 == self@.len(),
                n2 == other@.len(),
                i <= n1,
                r.num_vars == n,
                n == (if self.num_vars >= other.num_vars { self.num_vars } else { other.num_vars }),
                forall|a: C, b: C| combine.requires((a, b)),
                product_fits(*self, *other),
                r@.len() == i * n2,
                forall|i2: int, j2: int|
                    #![trigger self@[i2], other@[j2]]
                    0 <= i2 < i && 0 <= j2 < n2 ==> is_product_piece(
                        r@[i2 * n2 + j2],
                        self@[i2],
                        other@[j2],
                        combine,
                        n as nat,
                    ),
            decreases n1 - i,
        {
            let mut j: usize = 0;
            while j < n2
                invariant
                    n1 == self@.len(),
                    n2 == other@.len(),
                    i < n1,
                    j <= n2,
                    r.num_vars == n,
                    n == (if self.num_vars >= other.num_vars { self.num_vars } else { other.num_vars }),
                    forall|a: C, b: C| combine.requires((a, b)),
                    product_fits(*self, *other),
                    r@.len() == i * n2 + j,
                    forall|i2: int, j2: int|
                        #![trigger self@[i2], other@[j2]]
                        0 <= i2 < i && 0 <= j2 < n2 ==> is_product_piece(
                            r@[i2 * n2 + j2],
                            self@[i2],
                            other@[j2],
                            combine,
                            n as nat,
                        ),
                    forall|j2: int|
                        #![trigger other@[j2]]
                        0 <= j2 < j ==> is_product_piece(
                            r@[i * n2 + j2],
                            self@[i as int],
                            other@[j2],
                            combine,
                            n as nat,
                        ),
                decreases n2 - j,
            {
                let m1 = &self.monomials[i];
                let m2 = &other.monomials[j];
                assert(self@[i as int] == m1@);
                assert(other@[j as int] == m2@);
                assert forall|t: int| 0 <= t < n implies exponent_at(m1.exponents@, t)
                    + exponent_at(m2.exponents@, t) <= usize::MAX by {
                    assert(exponent_at(self@[i as int].1, t) + exponent_at(other@[j as int].1, t)
                        <= usize::MAX);
                }
                let exps = padded_sum(&m1.exponents, &m2.exponents, n);
                let c = combine(m1.coefficient, m2.coefficient);
                let ghost before = r@;
                r.add_monomial(c, exps);
                assert(is_product_piece(r@[i * n2 + j], self@[i as int], other@[j as int], combine, n as nat));
                assert forall|i2: int, j2: int|
                    #![trigger self@[i2], other@[j2]]
                    0 <= i2 < i && 0 <= j2 < n2 implies is_product_piece(
                        r@[i2 * n2 + j2],
                        self@[i2],
                        other@[j2],
                        combine,
                        n as nat,
                    ) by {
                    assert(i2 * n2 + j2 < i * n2) by (nonlinear_arith)
                        requires 0 <= i2 < i, 0 <= j2 < n2;
                    assert(r@[i2 * n2 + j2] == before[i2 * n2 + j2]);
                }
                assert forall|j2: int|
                    #![trigger other@[j2]]
                    0 <= j2 < j + 1 implies is_product_piece(
                        r@[i * n2 + j2],
                        self@[i as int],
                        other@[j2],
                        combine,
                        n as nat,
                    ) by {
                    if j2 < j {
                        assert(r@[i * n2 + j2] == before[i * n2 + j2]);
                    }
                }
                j = j + 1;
            }
            assert(r@.len() == (i + 1) * n2) by (nonlinear_arith)
                requires r@.len() == i * n2 + n2;
            assert forall|i2: int, j2: int|
                #![trigger self@[i2], other@[j2]]
                0 <= i2 < i + 1 && 0 <= j2 < n2 implies is_product_piece(
                    r@[i2 * n2 + j2],
                    self@[i2],
                    other@[j2],
                    combine,
                    n as nat,
                ) by {
            }
            i = i + 1;
        }
        assert(r@.len() == self@.len() * other@.len());
        r
    }
}

/// `combine` gives one result for each pair of arguments.
pub open spec fn is_deterministic<C, F: Fn(C, C) -> C>(combine: F) -> bool {
    forall|a: C, b: C, c1: C, c2: C|
        #![trigger combine.ensures((a, b), c1), combine.ensures((a, b), c2)]
        combine.ensures((a, b), c1) && combine.ensures((a, b), c2) ==> c1 == c2
}

/// Piece `i * |g| + j` of the product `h` of `f` and `g` is the product of
/// piece `i` of `f` and piece `j` of `g`.
pub proof fn lemma_product_piece_at<C, F: Fn(C, C) -> C>(
    h: TropicalPolynomial<C>,
    f: TropicalPolynomial<C>,
    g: TropicalPolynomial<C>,
    combine: F,
    i: int,
    j: int,
)
    requires
        is_tropical_product(h, f, g, combine),
        0 <= i < f@.len(),
        0 <= j < g@.len(),
    ensures
        0 <= i * g@.len() + j < h@.len(),
        is_product_piece(h@[i * g@.len() + j], f@[i], g@[j], combine, h.num_vars as nat),
{
    let (nf, ng) = (f@.len() as int, g@.len() as int);
    assert(0 <= i * ng + j < nf * ng) by (nonlinear_arith)
        requires 0 <= i < nf, 0 <= j < ng;
    let (a, b) = (f@[i], g@[j]);
}

/// With a deterministic `combine`, two products of the same two pieces with
/// the same number of variables are the same piece.
proof fn lemma_product_piece_unique<C, F: Fn(C, C) -> C>(
    x: (C, Seq<usize>),
    y: (C, Seq<usize>),
    a: (C, Seq<usize>),
    b: (C, Seq<usize>),
    combine: F,
    n: nat,
)
    requires
        is_deterministic(combine),
        is_product_piece(x, a, b, combine, n),
        is_product_piece(y, a, b, combine, n),
    ensures
        x == y,
{
    assert(combine.ensures((a.0, b.0), x.0) && combine.ensures((a.0, b.0), y.0));
    assert(x.1 =~= y.1);
}

/// Tropical multiplication distributes over tropical addition:
/// f ⊗ (g ⊕ h) and (f ⊗ g) ⊕ (f ⊗ h) are in the same variables and have the
/// same pieces, each as often, when `combine` is deterministic and `g` and
/// `h` are in the same number of variables. Here `s` is `g ⊕ h` and `r` is
/// `p ⊕ q`, as `tropical_add` builds them, `l` is `f ⊗ s`, `p` is `f ⊗ g` and
/// `q` is `f ⊗ h`, as `tropical_multiply` builds them.
pub proof fn law_multiply_distributes_over_add<C, F: Fn(C, C) -> C>(
    f: TropicalPolynomial<C>,
    g: TropicalPolynomial<C>,
    h: TropicalPolynomial<C>,
    s: TropicalPolynomial<C>,
    l: TropicalPolynomial<C>,
    p: TropicalPolynomial<C>,
    q: TropicalPolynomial<C>,
    r: TropicalPolynomial<C>,
    combine: F,
)
    requires
        is_deterministic(combine),
        g.num_vars == h.num_vars,
        s@ == g@ + h@,
        s.num_vars == g.num_vars,
        is_tropical_product(l, f, s, combine),
        is_tropical_product(p, f, g, combine),
        is_tropical_product(q, f, h, combine),
        r@ == p@ + q@,
        r.num_vars == p.num_vars,
    ensures
        l.num_vars == r.num_vars,
        l@.to_multiset() == r@.to_multiset(),
{
    let (nf, ng, nh) = (f@.len() as int, g@.len() as int, h@.len() as int);
    let w = ng + nh;
    assert(s@.len() == w);
    lemma_distributed_prefix(f, g, h, s, l, p, q, combine, nf);
    assert(l@.len() == nf * w);
    assert(l@.subrange(0, nf * w) =~= l@);
    assert(p@.subrange(0, nf * ng) =~= p@);
    assert(q@.subrange(0, nf * nh) =~= q@);
    vstd::seq_lib::lemma_multiset_commutative(p@, q@);
}

/// The first `k` blocks of `f ⊗ (g ⊕ h)` hold the pieces of the first `k`
/// blocks of `f ⊗ g` and of `f ⊗ h`.
proof fn lemma_distributed_prefix<C, F: Fn(C, C) -> C>(
    f: TropicalPolynomial<C>,
    g: TropicalPolynomial<C>,
    h: TropicalPolynomial<C>,
    s: TropicalPolynomial<C>,
    l: TropicalPolynomial<C>,
    p: TropicalPolynomial<C>,
    q: TropicalPolynomial<C>,
    combine: F,
    k: int,
)
    requires
        is_deterministic(combine),
        g.num_vars == h.num_vars,
        s@ == g@ + h@,
        s.num_vars == g.num_vars,
        is_tropical_product(l, f, s, combine),
        is_tropical_product(p, f, g, combine),
        is_tropical_product(q, f, h, combine),
        0 <= k <= f@.len(),
    ensures
        k * (g@.len() + h@.len()) <= l@.len(),
        k * g@.len() <= p@.len(),
        k * h@.len() <= q@.len(),
        l@.subrange(0, k * (g@.len() + h@.len())).to_multiset() == p@.subrange(
            0,
            k * g@.len(),
        ).to_multiset().add(q@.subrange(0, k * h@.len()).to_multiset()),
    decreases k,
{
    let (nf, ng, nh) = (f@.len() as int, g@.len() as int, h@.len() as int);
    let w = ng + nh;
    assert(k * w <= nf * w && k * ng <= nf * ng && k * nh <= nf * nh) by (nonlinear_arith)
        requires 0 <= k <= nf, ng >= 0, nh >= 0, w == ng + nh;
    if k == 0 {
        broadcast use vstd::multiset::group_multiset_axioms;
        assert(k * w == 0 && k * ng == 0 && k * nh == 0) by (nonlinear_arith)
            requires k == 0;
        assert(l@.subrange(0, 0) =~= Seq::<(C, Seq<usize>)>::empty());
        assert(p@.subrange(0, 0) =~= Seq::<(C, Seq<usize>)>::empty());
        assert(q@.subrange(0, 0) =~= Seq::<(C, Seq<usize>)>::empty());
        vstd::seq_lib::to_multiset_len(Seq::<(C, Seq<usize>)>::empty());
        vstd::multiset::lemma_multiset_empty_len(Seq::<(C, Seq<usize>)>::empty().to_multiset());
        assert(Seq::<(C, Seq<usize>)>::empty().to_multiset() =~= vstd::multiset::Multiset::empty());
        assert(vstd::multiset::Multiset::<(C, Seq<usize>)>::empty().add(vstd::multiset::Multiset::empty()) =~= vstd::multiset::Multiset::empty());
    } else {
        let i = k - 1;
        lemma_distributed_prefix(f, g, h, s, l, p, q, combine, i);
        assert(i * w + w == k * w && i * ng + ng == k * ng && i * nh + nh == k * nh)
            by (nonlinear_arith)
            requires k == i + 1, w == ng + nh;
        let n = l.num_vars as nat;
        assert(p.num_vars == n && q.num_vars == n);
        let lo = l@.subrange(i * w, i * w + ng);
        let hi = l@.subrange(i * w + ng, k * w);
        let pg = p@.subrange(i * ng, k * ng);
        let qh = q@.subrange(i * nh, k * nh);
        assert forall|j: int| 0 <= j < ng implies lo[j] == pg[j] by {
            lemma_product_piece_at(l, f, s, combine, i, j);
            lemma_product_piece_at(p, f, g, combine, i, j);
            assert(s@[j] == g@[j]);
            assert(i * w + j == i * s@.len() + j);
            lemma_product_piece_unique(l@[i * w + j], p@[i * ng + j], f@[i], g@[j], combine, n);
        }
        assert forall|j: int| 0 <= j < nh implies hi[j] == qh[j] by {
            lemma_product_piece_at(l, f, s, combine, i, ng + j);
            lemma_product_piece_at(q, f, h, combine, i, j);
            assert(s@[ng + j] == h@[j]);
            assert(i * w + (ng + j) == i * s@.len() + (ng + j));
            lemma_product_piece_unique(l@[i * w + ng + j], q@[i * nh + j], f@[i], h@[j], combine, n);
        }
        assert(lo =~= pg);
        assert(hi =~= qh);
        let l0 = l@.subrange(0, i * w);
        let p0 = p@.subrange(0, i * ng);
        let q0 = q@.subrange(0, i * nh);
        assert(l@.subrange(0, k * w) =~= l0 + lo + hi);
        assert(p@.subrange(0, k * ng) =~= p0 + pg);
        assert(q@.subrange(0, k * nh) =~= q0 + qh);
        vstd::seq_lib::lemma_multiset_commutative(l0 + lo, hi);
        vstd::seq_lib::lemma_multiset_commutative(l0, lo);
        vstd::seq_lib::lemma_multiset_commutative(p0, pg);
        vstd::seq_lib::lemma_multiset_commutative(q0, qh);
        broadcast use vstd::multiset::group_multiset_axioms;
        assert(l@.subrange(0, k * w).to_multiset() =~= p@.subrange(0, k * ng).to_multiset().add(
            q@.subrange(0, k * nh).to_multiset(),
        ));
    }
}

} // verus!
