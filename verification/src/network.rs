//! ReLU networks as tropical rational functions: their shape.

use vstd::prelude::*;

verus! {

/// A ReLU layer: y = max(0, Wx + b).
/// In tropical terms, max(0, f(x)) = max(f(x), 0) is tropical addition
/// of f(x) with the zero function.
#[derive(Debug, Clone)]
pub struct ReLULayer<C> {
    /// Weight matrix (output_dim × input_dim).
    pub weights: Vec<Vec<C>>,
    /// Bias vector (output_dim).
    pub bias: Vec<C>,
}

/// The rows of a weight matrix, each as a sequence.
pub open spec fn rows<C>(w: Seq<Vec<C>>) -> Seq<Seq<C>> {
    w.map_values(|r: Vec<C>| r@)
}

impl<C> ReLULayer<C> {
    pub fn new(weights: Vec<Vec<C>>, bias: Vec<C>) -> (l: Self)
        ensures
            l.weights@ == weights@,
            l.bias@ == bias@,
    {
        ReLULayer { weights, bias }
    }

    /// Number of neurons (output dimension).
    pub fn output_dim(&self) -> (n: usize)
        ensures
            n == self.weights@.len(),
    {
        self.weights.len()
    }

    /// Input dimension: the length of the first row of weights, 0 when there
    /// is none.
    pub fn input_dim(&self) -> (n: usize)
        ensures
            self.weights@.len() == 0 ==> n == 0,
            self.weights@.len() > 0 ==> n == self.weights@[0]@.len(),
    {
        if self.weights.len() == 0 {
            0
        } else {
            self.weights[0].len()
        }
    }
}

/// A tropical network: a sequence of ReLU layers.
/// Each layer adds tropical max operations, building up a piecewise-linear function.
#[derive(Debug, Clone)]
pub struct TropicalNetwork<C> {
    pub layers: Vec<ReLULayer<C>>,
}

/// The product of the output dimensions of the first `k` layers.
pub open spec fn regions_upto<C>(layers: Seq<ReLULayer<C>>, k: int) -> int
    decreases k,
{
    if k <= 0 {
        1
    } else {
        regions_upto(layers, k - 1) * layers[k - 1].weights@.len()
    }
}

/// No partial product of the output dimensions exceeds `usize::MAX`.
pub open spec fn regions_fit<C>(layers: Seq<ReLULayer<C>>) -> bool {
    forall|k: int| 0 <= k <= layers.len() ==> #[trigger] regions_upto(layers, k) <= usize::MAX
}

/// The output dimension (number of weight rows) of each layer, in order.
pub open spec fn widths<C>(layers: Seq<ReLULayer<C>>) -> Seq<int> {
    layers.map_values(|l: ReLULayer<C>| l.weights@.len() as int)
}

/// The product of a sequence of integers, 1 for the empty one.
pub open spec fn product_of(s: Seq<int>) -> int {
    s.fold_left(1int, |acc: int, w: int| acc * w)
}

/// The region count of the first `k` layers is the product of their widths.
proof fn lemma_regions_is_product_of_widths<C>(layers: Seq<ReLULayer<C>>, k: int)
    requires
        0 <= k <= layers.len(),
    ensures
        regions_upto(layers, k) == product_of(widths(layers).take(k)),
    decreases k,
{
    if k > 0 {
        lemma_regions_is_product_of_widths(layers, k - 1);
        assert(widths(layers).take(k).drop_last() =~= widths(layers).take(k - 1));
        assert(widths(layers).take(k).last() == layers[k - 1].weights@.len());
    }
}

/// The region count of the first `k` layers depends on those layers alone.
proof fn lemma_regions_prefix<C>(s: Seq<ReLULayer<C>>, t: Seq<ReLULayer<C>>, k: int)
    requires
        0 <= k <= s.len(),
        k <= t.len(),
        forall|i: int| 0 <= i < k ==> s[i] == t[i],
    ensures
        regions_upto(s, k) == regions_upto(t, k),
    decreases k,
{
    if k > 0 {
        lemma_regions_prefix(s, t, k - 1);
    }
}

/// The region count over the layers of `a` and then those of `b`, the
/// first `|a| + m` of them, is that of `a` times that of the first `m` of `b`.
proof fn lemma_regions_concat<C>(a: Seq<ReLULayer<C>>, b: Seq<ReLULayer<C>>, m: int)
    requires
        0 <= m <= b.len(),
    ensures
        regions_upto(a + b, a.len() + m) == regions_upto(a, a.len() as int) * regions_upto(b, m),
    decreases m,
{
    if m == 0 {
        lemma_regions_prefix(a + b, a, a.len() as int);
    } else {
        lemma_regions_concat(a, b, m - 1);
        let x = regions_upto(a, a.len() as int);
        let y = regions_upto(b, m - 1);
        let w = b[m - 1].weights@.len() as int;
        assert((a + b)[a.len() + m - 1] == b[m - 1]);
        assert(x * y * w == x * (y * w)) by (nonlinear_arith);
    }
}

/// Counting linear regions multiplies over layers: a network made of the
/// layers of `a` followed by those of `b` has as many regions at most as `a`
/// times `b`; a network with no layer has 1 and one of a single layer has its
/// width; so the count of the first `k + 1` layers is that of the first `k`
/// times the width of layer `k`, whatever the widths of the other layers.
pub proof fn law_regions_multiply_over_layers<C>(
    a: Seq<ReLULayer<C>>,
    b: Seq<ReLULayer<C>>,
    layer: ReLULayer<C>,
    k: int,
)
    ensures
        regions_upto(a + b, (a + b).len() as int) == regions_upto(a, a.len() as int) * regions_upto(
            b,
            b.len() as int,
        ),
        regions_upto(Seq::<ReLULayer<C>>::empty(), 0) == 1,
        regions_upto(seq![layer], 1) == layer.weights@.len(),
        0 <= k < a.len() ==> regions_upto(a.take(k + 1), k + 1) == regions_upto(a.take(k), k)
            * a[k].weights@.len(),
        regions_upto(a, a.len() as int) == product_of(widths(a)),
{
    lemma_regions_concat(a, b, b.len() as int);
    assert(regions_upto(seq![layer], 0) == 1);
    if 0 <= k < a.len() {
        let pre = a.take(k);
        let one = seq![a[k]];
        assert(a.take(k + 1) =~= pre + one);
        lemma_regions_concat(pre, one, 1);
        assert(regions_upto(one, 0) == 1);
        let x = regions_upto(pre, k);
        let w = a[k].weights@.len() as int;
        assert(x * (1 * w) == x * w) by (nonlinear_arith);
    }
    lemma_regions_is_product_of_widths(a, a.len() as int);
    assert(widths(a).take(a.len() as int) =~= widths(a));
}

proof fn lemma_regions_nonnegative<C>(layers: Seq<ReLULayer<C>>, k: int)
    ensures
        regions_upto(layers, k) >= 0,
    decreases k,
{
    if k > 0 {
        lemma_regions_nonnegative(layers, k - 1);
        let a = regions_upto(layers, k - 1);
        let b = layers[k - 1].weights@.len() as int;
        assert(a * b >= 0) by (nonlinear_arith)
            requires a >= 0, b >= 0;
    }
}

impl<C> TropicalNetwork<C> {
    pub fn new(layers: Vec<ReLULayer<C>>) -> (net: Self)
        ensures
            net.layers@ == layers@,
    {
        TropicalNetwork { layers }
    }

    /// Count the total number of linear regions (upper bound).
    /// A ReLU network with layers of width n₁, n₂, ... can have at most
    /// Π nᵢ linear regions.
    pub fn max_linear_regions(&self) -> (r: usize)
        requires
            regions_fit(self.layers@),
        ensures
            r == regions_upto(self.layers@, self.layers@.len() as int),
            r == product_of(widths(self.layers@)),
    {
        proof {
            law_regions_multiply_over_layers(
                self.layers@,
                Seq::empty(),
                vstd::pervasive::arbitrary(),
                0,
            );
        }
        let mut r: usize = 1;
        let mut k: usize = 0;
        while k < self.layers.len()
            invariant
                k <= self.layers@.len(),
                regions_fit(self.layers@),
                r == regions_upto(self.layers@, k as int),
            decreases self.layers@.len() - k,
        {
            assert(regions_upto(self.layers@, k + 1) <= usize::MAX);
            proof {
                lemma_regions_nonnegative(self.layers@, k as int);
            }
            r = r * self.layers[k].output_dim();
            k = k + 1;
        }
        r
    }
}

impl<C: Copy> TropicalNetwork<C> {
    /// Create a simple 2-layer ReLU network for 1D input.
    /// h = ReLU(w1*x + b1)  (hidden layer)
    /// y = ReLU(w2*h + b2)  (output layer)
    /// The hidden layer has one neuron, with the single weight `w1[k]`, for
    /// each `k`, and the biases `b1`; the output layer has the single row of
    /// weights `w2` and the bias `b2`. Both are ReLU layers, so a forward
    /// pass applies the ReLU to the output too: the output w2*h + b2 is read
    /// as linear only where it is not negative.
    pub fn simple_1d(w1: &[C], b1: &[C], w2: &[C], b2: C) -> (net: Self)
        ensures
            net.layers@.len() == 2,
            rows(net.layers@[0].weights@) == w1@.map_values(|w: C| seq![w]),
            net.layers@[0].bias@ == b1@,
            rows(net.layers@[1].weights@) == seq![w2@],
            net.layers@[1].bias@ == seq![b2],
    {
        let mut hidden_weights: Vec<Vec<C>> = Vec::new();
        let mut k: usize = 0;
        while k < w1.len()
            invariant
                k <= w1@.len(),
                rows(hidden_weights@) == w1@.subrange(0, k as int).map_values(|w: C| seq![w]),
            decreases w1@.len() - k,
        {
            let ghost before = hidden_weights@;
            let mut row: Vec<C> = Vec::new();
            row.push(w1[k]);
            hidden_weights.push(row);
            assert(rows(hidden_weights@) =~= rows(before).push(seq![w1@[k as int]]));
            assert(w1@.subrange(0, k + 1).map_values(|w: C| seq![w]) =~= w1@.subrange(
                0,
                k as int,
            ).map_values(|w: C| seq![w]).push(seq![w1@[k as int]]));
            k = k + 1;
        }
        assert(w1@.subrange(0, w1@.len() as int) =~= w1@);
        let hidden_bias = copy_slice(b1);
        let layer1 = ReLULayer::new(hidden_weights, hidden_bias);
        let mut output_weights: Vec<Vec<C>> = Vec::new();
        output_weights.push(copy_slice(w2));
        let mut output_bias: Vec<C> = Vec::new();
        output_bias.push(b2);
        assert(rows(output_weights@) =~= seq![w2@]);
        assert(output_bias@ =~= seq![b2]);
        let layer2 = ReLULayer::new(output_weights, output_bias);
        let mut layers: Vec<ReLULayer<C>> = Vec::new();
        layers.push(layer1);
        layers.push(layer2);
        TropicalNetwork { layers }
    }
}

/// A network that `simple_1d` builds, with one hidden neuron per input
/// weight, has as many linear regions at most as it has hidden neurons, and
/// `max_linear_regions` can count them.
pub proof fn law_simple_1d_regions<C>(net: TropicalNetwork<C>, w1: Seq<C>, w2: Seq<C>)
    requires
        net.layers@.len() == 2,
        rows(net.layers@[0].weights@) == w1.map_values(|w: C| seq![w]),
        rows(net.layers@[1].weights@) == seq![w2],
    ensures
        regions_upto(net.layers@, 2) == w1.len(),
        regions_fit(net.layers@),
{
    let layers = net.layers@;
    assert(layers[0].weights@.len() == w1.len()) by {
        assert(rows(layers[0].weights@).len() == layers[0].weights@.len());
    }
    assert(layers[1].weights@.len() == 1) by {
        assert(rows(layers[1].weights@).len() == layers[1].weights@.len());
    }
    assert(regions_upto(layers, 0) == 1);
    assert(regions_upto(layers, 1) == w1.len());
    let r1 = regions_upto(layers, 1);
    let d1 = layers[1].weights@.len() as int;
    assert(r1 * d1 == r1) by (nonlinear_arith)
        requires d1 == 1;
    assert(regions_upto(layers, 2) == w1.len());
    assert(net.layers.len() == net.layers@.len());
    assert(layers[0].weights.len() == layers[0].weights@.len());
    assert forall|k: int| 0 <= k <= layers.len() implies #[trigger] regions_upto(layers, k)
        <= usize::MAX by {
        if k == 2 {
            assert(regions_upto(layers, k) == w1.len());
        }
    }
}

/// A vector holding the elements of `s`.
fn copy_slice<C: Copy>(s: &[C]) -> (v: Vec<C>)
    ensures
        v@ == s@,
{
    let mut v: Vec<C> = Vec::new();
    let mut k: usize = 0;
    while k < s.len()
        invariant
            k <= s@.len(),
            v@ == s@.subrange(0, k as int),
        decreases s@.len() - k,
    {
        v.push(s[k]);
        k = k + 1;
    }
    assert(v@ =~= s@);
    v
}

} // verus!
