//! A feed-forward neural network with a bias unit in every hidden layer.
use vstd::prelude::*;
use crate::matrix::{Matrix, dot};
use crate::opt::OptParams;
use crate::scalar::{Scalar, sigmoid_spec};
use crate::vector::{
    from_value, mul_seq, prepend, sigmoid_all, sigmoid_derivative_all, sigmoid_derivative_seq, sigmoid_seq, slice_to_vec,
    sub_seq, vec_mul, vec_sub,
};

verus! {

/// Columns of the weight matrix out of layer `i`, whose size is `size`: one
/// per unit, plus one for the bias unit unless layer `i` is the input layer.
pub open spec fn weight_cols(i: int, size: int) -> int {
    if i == 0 {
        size
    } else {
        size + 1
    }
}

/// `ws` holds one weight matrix per pair of adjacent layers of `sizes`, each
/// shaped (size of the next layer) x (size of this layer, with bias column).
pub open spec fn weights_fit<T>(sizes: Seq<usize>, ws: Seq<Matrix<T>>) -> bool {
    &&& (sizes.len() == 0 ==> ws.len() == 0)
    &&& (sizes.len() > 0 ==> ws.len() == sizes.len() - 1)
    &&& forall|i: int| 0 <= i < ws.len() ==> {
        &&& #[trigger] ws[i].wf()
        &&& ws[i].nrows() == sizes[i + 1]
        &&& ws[i].ncols() == weight_cols(i, sizes[i] as int)
    }
}

/// Activations of layer `k` for the input `x`, through the weights `ws`:
/// `x` itself at the input layer, then the logistic function of the
/// pre-activations, with a leading bias unit on every hidden layer.
pub open spec fn activation<T: Scalar>(ws: Seq<Matrix<T>>, x: Seq<T>, k: nat) -> Seq<T>
    decreases k,
{
    if k == 0 {
        x
    } else {
        let z = ws[k - 1].mat_vec(activation(ws, x, (k - 1) as nat));
        if k < ws.len() {
            seq![T::one_spec()] + sigmoid_seq(z)
        } else {
            sigmoid_seq(z)
        }
    }
}

/// Pre-activations of layer `k` for the input `x`: `x` itself at the input
/// layer, else the weights into layer `k` times the activations before it.
pub open spec fn pre_activation<T: Scalar>(ws: Seq<Matrix<T>>, x: Seq<T>, k: nat) -> Seq<T> {
    if k == 0 {
        x
    } else {
        ws[k - 1].mat_vec(activation(ws, x, (k - 1) as nat))
    }
}

/// Row `x` of a batch after the first `k` layers of `ws` as `predict`
/// computes them: each layer takes the logistic function of the dot
/// products of the row with the rows of its weight matrix, with a leading
/// bias entry.
pub open spec fn forward_row<T: Scalar>(ws: Seq<Matrix<T>>, x: Seq<T>, k: nat) -> Seq<T>
    decreases k,
{
    if k == 0 {
        x
    } else {
        let prev = forward_row(ws, x, (k - 1) as nat);
        seq![T::one_spec()] + Seq::new(ws[k - 1].nrows(), |j: int| sigmoid_spec(dot(prev, ws[k - 1].row_seq(j))))
    }
}

/// Prediction minus target at entry `(i, j)`.
pub open spec fn error_at<T: Scalar>(ws: Seq<Matrix<T>>, input: Matrix<T>, target: Matrix<T>, i: int, j: int) -> T {
    forward_row(ws, input.row_seq(i), ws.len())[j + 1].minus_spec(target.at(i, j))
}

/// The squared errors of the rows before `i` and of the first `j` entries
/// of row `i`, added up in row-major order starting from zero.
pub open spec fn squared_error_sum<T: Scalar>(ws: Seq<Matrix<T>>, input: Matrix<T>, target: Matrix<T>, i: nat, j: nat) -> T
    decreases i, j,
{
    if j == 0 {
        if i == 0 {
            T::zero_spec()
        } else {
            squared_error_sum(ws, input, target, (i - 1) as nat, target.ncols())
        }
    } else {
        let d = error_at(ws, input, target, i as int, j - 1);
        squared_error_sum(ws, input, target, i, (j - 1) as nat).plus_spec(d.times_spec(d))
    }
}

/// The contents of a sequence of vectors.
pub open spec fn views<T>(vs: Seq<Vec<T>>) -> Seq<Seq<T>> {
    vs.map_values(|v: Vec<T>| v@)
}

/// Delta `j` of the backward pass through `ws` (`ws.len() + 1` layers), for
/// the prediction `output`, the `target` and the pre-activations `z`. Delta
/// `0` belongs to the output layer, delta `j` to layer `ws.len() - j`:
/// `(output - target) * sigmoid'(z)` at the output layer; at a hidden layer
/// `p`, `transpose(ws[p]) * delta(j - 1)` without its bias entry, times `sigmoid'(z[p])`.
pub open spec fn delta<T: Scalar>(ws: Seq<Matrix<T>>, output: Seq<T>, target: Seq<T>, z: Seq<Seq<T>>, j: nat) -> Seq<T>
    decreases j,
{
    if j == 0 {
        mul_seq(sub_seq(output, target), sigmoid_derivative_seq(z[ws.len() as int]))
    } else {
        let p = ws.len() - j;
        mul_seq(
            ws[p].transp_mat_vec(delta(ws, output, target, z, (j - 1) as nat)).drop_first(),
            sigmoid_derivative_seq(z[p]),
        )
    }
}

/// Entry `(r, c)` of the gradient for weight matrix `i`, added up over the
/// first `e` rows of the examples `xs` and targets `ts`: the outer product of
/// the delta of layer `i + 1` and the activations of layer `i`.
pub open spec fn grad_sum<T: Scalar>(ws: Seq<Matrix<T>>, xs: Matrix<T>, ts: Matrix<T>, e: nat, i: int, r: int, c: int) -> T
    decreases e,
{
    if e == 0 {
        T::zero_spec()
    } else {
        let x = xs.row_seq(e - 1);
        let zs = Seq::new(ws.len() + 1, |k: int| pre_activation(ws, x, k as nat));
        let d = delta(ws, activation(ws, x, ws.len()), ts.row_seq(e - 1), zs, (ws.len() - 1 - i) as nat);
        grad_sum(ws, xs, ts, (e - 1) as nat, i, r, c).plus_spec(d[r].times_spec(activation(ws, x, i as nat)[c]))
    }
}

/// Entry `(r, c)` of the gradient for weight matrix `i`, averaged over the
/// rows of `xs` and `ts`.
pub open spec fn gradient<T: Scalar>(ws: Seq<Matrix<T>>, xs: Matrix<T>, ts: Matrix<T>, i: int, r: int, c: int) -> T {
    grad_sum(ws, xs, ts, xs.nrows(), i, r, c).divide_spec(T::from_count_spec(xs.nrows() as usize))
}

/// `w2` is `ws` after one step of gradient descent on the examples `xs` and
/// targets `ts` with learning rate `alpha`: every weight plus its gradient
/// times `-alpha`.
pub open spec fn descent_step<T: Scalar>(ws: Seq<Matrix<T>>, w2: Seq<Matrix<T>>, xs: Matrix<T>, ts: Matrix<T>, alpha: T) -> bool {
    &&& w2.len() == ws.len()
    &&& forall|i: int| 0 <= i < ws.len() ==> #[trigger] w2[i].same_shape(&ws[i])
    &&& forall|i: int, r: int, c: int|
        0 <= i < ws.len() && 0 <= r < ws[i].nrows() && 0 <= c < ws[i].ncols() ==> #[trigger] w2[i].at(r, c)
            == ws[i].at(r, c).plus_spec(gradient(ws, xs, ts, i, r, c).times_spec(alpha.negate_spec()))
}

/// `h` lists the weights of successive steps of gradient descent, starting
/// from weights with the contents of `ws`.
pub open spec fn descent_path<T: Scalar>(ws: Seq<Matrix<T>>, h: Seq<Seq<Matrix<T>>>, xs: Matrix<T>, ts: Matrix<T>, alpha: T) -> bool {
    &&& h.len() >= 1
    &&& h[0].len() == ws.len()
    &&& forall|i: int| 0 <= i < ws.len() ==> #[trigger] h[0][i]@ == ws[i]@
    &&& forall|s: int| 0 <= s < h.len() - 1 ==> #[trigger] descent_step(h[s], h[s + 1], xs, ts, alpha)
}

/// Computes the mean squared error of a predictor.
pub trait MeanSquareError<T>: Sized {
    /// Whether `mse` is defined for these examples and targets.
    spec fn mse_accepts(&self, input: &Matrix<T>, target: &Matrix<T>) -> bool;

    /// The value of `mse` for these examples and targets.
    spec fn mse_spec(&self, input: &Matrix<T>, target: &Matrix<T>) -> T;

    /// Half the mean, over the examples, of the squared distance between the
    /// prediction for `input` and `target`.
    fn mse(&self, input: &Matrix<T>, target: &Matrix<T>) -> (r: T)
        requires
            self.mse_accepts(input, target),
        ensures
            r == self.mse_spec(input, target),
    ;
}

/// Optimizes a predictor by gradient descent.
pub trait GradientDescent<T>: Sized {
    /// Whether `gd` is defined for these examples, targets and settings.
    spec fn gd_accepts(&self, input: &Matrix<T>, targets: &Matrix<T>, p: OptParams<T>) -> bool;

    /// What holds of the result `r` of `gd` on these examples and targets
    /// with settings `p`.
    spec fn gd_result(&self, input: &Matrix<T>, targets: &Matrix<T>, p: OptParams<T>, r: Self) -> bool;

    /// The predictor after `p.iter` steps of gradient descent with learning
    /// rate `p.alpha`; both must be set.
    fn gd(&self, input: &Matrix<T>, targets: &Matrix<T>, p: OptParams<T>) -> (r: Self)
        requires
            self.gd_accepts(input, targets, p),
        ensures
            self.gd_result(input, targets, p, r),
    ;
}

/// A feed-forward network: the sizes of its layers, input layer first, and
/// the weights between each layer and the next.
#[derive(Clone, Debug)]
pub struct NeuralNetwork<T> {
    layers: Vec<usize>,
    params: Vec<Matrix<T>>,
}

/// Copies a sequence of matrices entry for entry.
fn copy_matrices<T: Copy>(ms: &Vec<Matrix<T>>) -> (r: Vec<Matrix<T>>)
    ensures
        r@.len() == ms@.len(),
        forall|i: int| 0 <= i < ms@.len() ==> #[trigger] r@[i]@ == ms@[i]@,
{
    let mut r: Vec<Matrix<T>> = Vec::new();
    let mut i: usize = 0;
    while i < ms.len()
        invariant
            i <= ms@.len(),
            r@.len() == i,
            forall|k: int| 0 <= k < i ==> #[trigger] r@[k]@ == ms@[k]@,
        decreases ms.len() - i,
    {
        r.push(ms[i].copied());
        i = i + 1;
    }
    r
}

/// Copies a vector of sizes.
fn copy_sizes(v: &Vec<usize>) -> (r: Vec<usize>)
    ensures
        r@ == v@,
{
    let mut r: Vec<usize> = Vec::new();
    let mut i: usize = 0;
    while i < v.len()
        invariant
            i <= v@.len(),
            r@ == v@.subrange(0, i as int),
        decreases v.len() - i,
    {
        r.push(v[i]);
        i = i + 1;
        proof {
            assert(r@ =~= v@.subrange(0, i as int));
        }
    }
    assert(v@.subrange(0, v@.len() as int) =~= v@);
    r
}

impl<T> NeuralNetwork<T> {
    /// The layer sizes, input layer first.
    pub closed spec fn layer_sizes(&self) -> Seq<usize> {
        self.layers@
    }

    /// The weight matrices; matrix `i` connects layer `i` with layer `i + 1`.
    pub closed spec fn weights(&self) -> Seq<Matrix<T>> {
        self.params@
    }

    /// Every layer has units and the weights fit the layers.
    pub open spec fn wf(&self) -> bool {
        &&& forall|i: int| 0 <= i < self.layer_sizes().len() ==> #[trigger] self.layer_sizes()[i] > 0
        &&& weights_fit(self.layer_sizes(), self.weights())
    }

    /// Columns of the weight matrix that the next added layer receives.
    pub open spec fn next_cols(&self) -> int {
        weight_cols(self.layer_sizes().len() - 1, self.layer_sizes().last() as int)
    }

    /// Whether `o` has the same weights as this network, entry for entry.
    pub open spec fn same_weights(&self, o: &NeuralNetwork<T>) -> bool {
        &&& self.weights().len() == o.weights().len()
        &&& forall|i: int| 0 <= i < self.weights().len() ==> #[trigger] self.weights()[i]@ == o.weights()[i]@
    }

    /// A network without layers.
    pub fn new() -> (r: NeuralNetwork<T>)
        ensures
            r.wf(),
            r.layer_sizes() == Seq::<usize>::empty(),
            r.weights() == Seq::<Matrix<T>>::empty(),
    {
        NeuralNetwork { layers: Vec::new(), params: Vec::new() }
    }

    /// The number of input units.
    pub fn input_size(&self) -> (r: usize)
        requires
            self.layer_sizes().len() > 0,
        ensures
            r == self.layer_sizes()[0],
    {
        self.layers[0]
    }

    /// The number of output units.
    pub fn output_size(&self) -> (r: usize)
        requires
            self.layer_sizes().len() > 0,
        ensures
            r == self.layer_sizes().last(),
    {
        self.layers[self.layers.len() - 1]
    }

    /// The layer sizes, input layer first.
    pub fn sizes(&self) -> (r: Vec<usize>)
        ensures
            r@ == self.layer_sizes(),
    {
        copy_sizes(&self.layers)
    }

    /// The number of layers.
    pub fn layers(&self) -> (r: usize)
        ensures
            r == self.layer_sizes().len(),
    {
        self.layers.len()
    }
}

impl<T: Copy> NeuralNetwork<T> {
    /// Copies of the weight matrices.
    pub fn params(&self) -> (r: Vec<Matrix<T>>)
        ensures
            r@.len() == self.weights().len(),
            forall|i: int| 0 <= i < r@.len() ==> #[trigger] r@[i]@ == self.weights()[i]@,
    {
        copy_matrices(&self.params)
    }

    /// A network with the same layers whose weight matrix at depth `layer`
    /// (connecting layer `layer` with layer `layer + 1`) is `params`.
    ///
    /// The matrix must exist and have the shape of `params`.
    pub fn set_params(&self, layer: usize, params: Matrix<T>) -> (r: NeuralNetwork<T>)
        requires
            self.wf(),
            params.wf(),
            layer < self.weights().len(),
            params.same_shape(&self.weights()[layer as int]),
        ensures
            r.wf(),
            r.layer_sizes() == self.layer_sizes(),
            r.weights().len() == self.weights().len(),
            r.weights()[layer as int]@ == params@,
            forall|i: int| 0 <= i < r.weights().len() && i != layer ==> #[trigger] r.weights()[i]@ == self.weights()[i]@,
    {
        let mut m = copy_matrices(&self.params);
        m.set(layer, params);
        let r = NeuralNetwork { layers: copy_sizes(&self.layers), params: m };
        proof {
            assert forall|i: int| 0 <= i < r.params@.len() implies {
                &&& #[trigger] r.params@[i].wf()
                &&& r.params@[i].same_shape(&self.weights()[i])
            } by {
                assert(self.params@[i].wf());
            }
            lemma_shaped_like_fits(self, r.params@);
        }
        r
    }
}

impl<T: Scalar> NeuralNetwork<T> {
    /// A `m` x `k` matrix of freshly drawn weights connecting a layer of `n`
    /// units with a layer of `m` units, where `k` is `n`, or `n + 1` with the
    /// bias unit when the left layer is not the input layer.
    pub fn create_params(&self, m: usize, n: usize, from_input_layer: bool) -> (r: Matrix<T>)
        requires
            (if from_input_layer { n as int } else { n + 1 }) <= usize::MAX,
            m * (if from_input_layer { n as int } else { n + 1 }) <= usize::MAX,
        ensures
            r.wf(),
            r.nrows() == m,
            r.ncols() == if from_input_layer { n as int } else { n + 1 },
    {
        let k: usize = if from_input_layer { n } else { n + 1 };
        let total: usize = m * k;
        let mut data: Vec<T> = Vec::new();
        let mut i: usize = 0;
        while i < total
            invariant
                i <= total,
                data@.len() == i,
            decreases total - i,
        {
            data.push(T::random());
            i = i + 1;
        }
        match Matrix::from_vec(data, m, k) {
            Some(r) => r,
            None => {
                proof {
                    assert(false);
                }
                Matrix::fill(T::zero(), m, k)
            },
        }
    }

    /// This network with a layer of `n` units appended.
    ///
    /// The first layer added is the input layer. Every later one is connected
    /// to the layer before it by a matrix of freshly drawn weights.
    pub fn add_layer(&self, n: usize) -> (r: NeuralNetwork<T>)
        requires
            self.wf(),
            n > 0,
            self.layer_sizes().len() > 0 ==> n * self.next_cols() <= usize::MAX,
        ensures
            r.wf(),
            r.layer_sizes() == self.layer_sizes().push(n),
            self.layer_sizes().len() == 0 ==> r.weights().len() == 0,
            self.layer_sizes().len() > 0 ==> r.weights().len() == self.weights().len() + 1,
            self.layer_sizes().len() > 0 ==> r.weights().last().nrows() == n,
            self.layer_sizes().len() > 0 ==> r.weights().last().ncols() == self.next_cols(),
            forall|i: int| 0 <= i < self.weights().len() ==> #[trigger] r.weights()[i]@ == self.weights()[i]@,
    {
        let mut layers = copy_sizes(&self.layers);
        layers.push(n);
        let mut params = copy_matrices(&self.params);
        if self.layers.len() > 0 {
            let prev = self.layers[self.layers.len() - 1];
            proof {
                let c = self.next_cols();
                assert(c <= n * c) by (nonlinear_arith)
                    requires n > 0, c >= 0;
            }
            let p = self.create_params(n, prev, self.layers() == 1);
            params.push(p);
        }
        let r = NeuralNetwork { layers, params };
        assert forall|i: int| 0 <= i < r.params@.len() implies {
            &&& #[trigger] r.params@[i].wf()
            &&& r.params@[i].nrows() == r.layers@[i + 1]
            &&& r.params@[i].ncols() == weight_cols(i, r.layers@[i] as int)
        } by {
            if i < self.params@.len() {
                assert(self.params@[i].wf());
            }
        }
        proof {
            if self.layers@.len() > 0 {
                assert(r.params@[r.params@.len() - 1].wf());
            }
        }
        assert forall|i: int| 0 <= i < r.layers@.len() implies #[trigger] r.layers@[i] > 0 by {
            if i < self.layers@.len() {
                assert(self.layer_sizes()[i] > 0);
            }
        }
        r
    }
}

impl<T> NeuralNetwork<T> {
    /// A batch of `rows` examples fits in memory at every layer, bias column included.
    pub open spec fn fits_batch(&self, rows: nat) -> bool {
        forall|i: int|
            1 <= i < self.layer_sizes().len() ==> {
                &&& #[trigger] self.layer_sizes()[i] < usize::MAX
                &&& rows * (self.layer_sizes()[i] + 1) <= usize::MAX
            }
    }

    /// `a` and `z` have the shape of a forward pass through this network: one
    /// vector per layer; pre-activations of layer `i` have one entry per unit,
    /// activations one more for the bias unit, except at the output layer.
    pub open spec fn trace_shaped(&self, a: Seq<Vec<T>>, z: Seq<Vec<T>>) -> bool {
        let l = self.layer_sizes();
        &&& a.len() == l.len()
        &&& z.len() == l.len()
        &&& forall|i: int| 1 <= i < l.len() ==> #[trigger] z[i]@.len() == l[i]
        &&& forall|i: int| 1 <= i < l.len() - 1 ==> #[trigger] a[i]@.len() == l[i] + 1
        &&& a[l.len() - 1]@.len() == l[l.len() - 1]
    }

    /// `acc` holds one matrix of the shape of each weight matrix.
    pub open spec fn shaped_like_weights(&self, acc: Seq<Matrix<T>>) -> bool {
        &&& acc.len() == self.weights().len()
        &&& forall|i: int| 0 <= i < acc.len() ==> {
            &&& #[trigger] acc[i].wf()
            &&& acc[i].same_shape(&self.weights()[i])
        }
    }
}

/// Valid matrices shaped like the weights of a valid network fit its layers
/// as well as its own weights do.
proof fn lemma_shaped_like_fits<T>(n: &NeuralNetwork<T>, ms: Seq<Matrix<T>>)
    requires
        n.wf(),
        n.shaped_like_weights(ms),
    ensures
        weights_fit(n.layer_sizes(), ms),
{
    assert forall|i: int| 0 <= i < ms.len() implies {
        &&& #[trigger] ms[i].wf()
        &&& ms[i].nrows() == n.layer_sizes()[i + 1]
        &&& ms[i].ncols() == weight_cols(i, n.layer_sizes()[i] as int)
    } by {
        assert(ms[i].wf());
        assert(n.weights()[i].wf());
    }
}

/// Matrices shaped like the weights of `b`, whose weights are shaped like
/// those of `a`, are shaped like the weights of `a`.
proof fn lemma_shaped_like_same_shapes<T>(a: &NeuralNetwork<T>, b: &NeuralNetwork<T>, ms: Seq<Matrix<T>>)
    requires
        a.shaped_like_weights(b.weights()),
        b.shaped_like_weights(ms),
    ensures
        a.shaped_like_weights(ms),
{
    assert forall|j: int| 0 <= j < ms.len() implies {
        &&& #[trigger] ms[j].wf()
        &&& ms[j].same_shape(&a.weights()[j])
    } by {
        assert(ms[j].wf());
        assert(b.weights()[j].wf());
    }
}

/// The weights of a network as `new` and `add_layer` build it: matrix `i`
/// has one row per unit of layer `i + 1` and one column per unit of layer
/// `i`, plus one for the bias unit unless layer `i` is the input layer.
pub proof fn lemma_weight_shapes<T>(n: NeuralNetwork<T>)
    requires
        n.wf(),
        n.layer_sizes().len() >= 2,
    ensures
        n.weights().len() == n.layer_sizes().len() - 1,
        forall|i: int| 0 <= i < n.weights().len() ==> {
            &&& (#[trigger] n.weights()[i]).nrows() == n.layer_sizes()[i + 1]
            &&& n.weights()[i].ncols() == n.layer_sizes()[i] + (if i == 0 { 0int } else { 1int })
        },
{
    assert forall|i: int| 0 <= i < n.weights().len() implies {
        &&& (#[trigger] n.weights()[i]).nrows() == n.layer_sizes()[i + 1]
        &&& n.weights()[i].ncols() == n.layer_sizes()[i] + (if i == 0 { 0int } else { 1int })
    } by {
        assert(n.weights()[i].wf());
    }
}

impl<T: Scalar> NeuralNetwork<T> {
    /// The network's output for each row of `input`, one row per example.
    ///
    /// Each layer computes `sigmoid(o * transpose(w))` and gets a bias column
    /// of ones in front, which the final result does not keep.
    pub fn predict(&self, input: &Matrix<T>) -> (r: Matrix<T>)
        requires
            self.wf(),
            self.weights().len() > 0,
            input.wf(),
            input.ncols() == self.layer_sizes()[0],
            self.fits_batch(input.nrows()),
        ensures
            r.wf(),
            r.nrows() == input.nrows(),
            r.ncols() == self.layer_sizes().last(),
            forall|i: int, j: int|
                0 <= i < r.nrows() && 0 <= j < r.ncols() ==> #[trigger] r.at(i, j)
                    == forward_row(self.weights(), input.row_seq(i), self.weights().len())[j + 1],
    {
        let mut o = input.copied();
        let mut k: usize = 0;
        while k < self.params.len()
            invariant
                self.wf(),
                self.fits_batch(input.nrows()),
                k <= self.params@.len(),
                o.wf(),
                o.nrows() == input.nrows(),
                k == 0 ==> o.ncols() == self.layers@[0],
                k > 0 ==> o.ncols() == self.layers@[k as int] + 1,
                forall|i: int, j: int|
                    0 <= i < o.nrows() && 0 <= j < o.ncols() ==> #[trigger] o.at(i, j)
                        == forward_row(self.params@, input.row_seq(i), k as nat)[j],
                forall|i: int| 0 <= i < o.nrows() ==> (#[trigger] forward_row(self.params@, input.row_seq(i), k as nat)).len() == o.ncols(),
            decreases self.params.len() - k,
        {
            let w = &self.params[k];
            proof {
                assert(self.params@[k as int].wf());
                let l = self.layers@[k + 1];
                assert(self.layer_sizes()[k + 1] < usize::MAX);
                assert(input.nrows() * l <= input.nrows() * (l + 1)) by (nonlinear_arith);
            }
            let mut x = o.mul_transposed(w);
            let ghost x0 = x;
            x.isigmoid();
            let ones = from_value(T::one(), x.rows());
            let ghost o0 = o;
            o = x.insert_column(0, &ones);
            proof {
                assert forall|i: int| 0 <= i < o0.nrows() implies o0.row_seq(i) == forward_row(self.params@, input.row_seq(i), k as nat) by {
                    assert(o0.row_seq(i) =~= forward_row(self.params@, input.row_seq(i), k as nat));
                }
                assert forall|i: int, j: int|
                    0 <= i < o.nrows() && 0 <= j < o.ncols() implies #[trigger] o.at(i, j)
                        == forward_row(self.params@, input.row_seq(i), (k + 1) as nat)[j] by {
                    if j > 0 {
                        assert(x.at(i, j - 1) == sigmoid_spec(x0.at(i, j - 1)));
                        assert(x0.at(i, j - 1) == dot(o0.row_seq(i), w.row_seq(j - 1)));
                        assert(o0.row_seq(i) == forward_row(self.params@, input.row_seq(i), k as nat));
                    }
                }
            }
            k = k + 1;
        }
        o.rm_column(0)
    }

    /// The forward pass for one example `x`: activations `a` and
    /// pre-activations `z` of every layer, both starting with `x` itself.
    /// Activations of hidden layers start with the bias unit.
    pub fn feedforward(&self, x: &[T]) -> (r: (Vec<Vec<T>>, Vec<Vec<T>>))
        requires
            self.wf(),
            self.layer_sizes().len() >= 2,
            x@.len() == self.layer_sizes()[0],
        ensures
            self.trace_shaped(r.0@, r.1@),
            r.0@[0]@ == x@,
            r.1@[0]@ == x@,
            forall|k: int| 0 <= k < r.0@.len() ==> #[trigger] r.0@[k]@ == activation(self.weights(), x@, k as nat),
            forall|k: int| 0 <= k < r.1@.len() ==> #[trigger] r.1@[k]@ == pre_activation(self.weights(), x@, k as nat),
    {
        let mut av: Vec<Vec<T>> = Vec::new();
        let mut zv: Vec<Vec<T>> = Vec::new();
        av.push(slice_to_vec(x));
        zv.push(slice_to_vec(x));
        let n: usize = self.layers() - 2;
        let mut idx: usize = 0;
        proof {
            assert(self.params@[0].wf());
        }
        while idx < self.params.len()
            invariant
                self.wf(),
                self.layers@.len() >= 2,
                n == self.layers@.len() - 2,
                idx <= self.params@.len(),
                av@.len() == idx + 1,
                zv@.len() == idx + 1,
                av@[0]@ == x@,
                zv@[0]@ == x@,
                forall|i: int| 1 <= i <= idx ==> #[trigger] zv@[i]@.len() == self.layers@[i],
                forall|i: int| 1 <= i <= idx && i < self.layers@.len() - 1 ==> #[trigger] av@[i]@.len() == self.layers@[i] + 1,
                idx < self.params@.len() ==> av@[idx as int]@.len() == self.params@[idx as int].ncols(),
                idx == self.params@.len() ==> av@[idx as int]@.len() == self.layers@[idx as int],
                forall|k: int| 0 <= k <= idx ==> #[trigger] av@[k]@ == activation(self.params@, x@, k as nat),
                forall|k: int| 0 <= k <= idx ==> #[trigger] zv@[k]@ == pre_activation(self.params@, x@, k as nat),
            decreases self.params.len() - idx,
        {
            proof {
                assert(self.params@[idx as int].wf());
            }
            let net = self.params[idx].mul_vec(&av[av.len() - 1]);
            let s = sigmoid_all(&net);
            if idx < n {
                av.push(prepend(T::one(), &s));
            } else {
                av.push(s);
            }
            zv.push(net);
            idx = idx + 1;
            proof {
                if idx < self.params@.len() {
                    assert(self.params@[idx as int].wf());
                }
            }
        }
        (av, zv)
    }

    /// The error of every non-input layer for one example, output layer
    /// first: `(output - target) * sigmoid'(z)` at the output layer, and at
    /// each hidden layer `transpose(w) * delta` without its bias entry, times
    /// `sigmoid'(z)`.
    pub fn backprop(&self, output: &[T], target: &[T], av_zv: &(Vec<Vec<T>>, Vec<Vec<T>>)) -> (r: Vec<Vec<T>>)
        requires
            self.wf(),
            self.layer_sizes().len() >= 2,
            output@.len() == self.layer_sizes().last(),
            target@.len() == self.layer_sizes().last(),
            av_zv.0@.len() == self.layer_sizes().len(),
            av_zv.1@.len() == self.layer_sizes().len(),
            forall|i: int| 1 <= i < self.layer_sizes().len() ==> #[trigger] av_zv.1@[i]@.len() == self.layer_sizes()[i],
        ensures
            r@.len() == self.layer_sizes().len() - 1,
            forall|k: int| 0 <= k < r@.len() ==> #[trigger] r@[k]@.len() == self.layer_sizes()[self.layer_sizes().len() - 1 - k],
            forall|k: int| 0 <= k < r@.len() ==> #[trigger] r@[k]@ == delta(self.weights(), output@, target@, views(av_zv.1@), k as nat),
    {
        let zv = &av_zv.1;
        let lc: usize = self.layers.len();
        let mut deltas: Vec<Vec<T>> = Vec::new();
        let o = slice_to_vec(output);
        let t = slice_to_vec(target);
        let e = vec_sub(&o, &t);
        let d = sigmoid_derivative_all(&zv[lc - 1]);
        deltas.push(vec_mul(&e, &d));
        assert(views(zv@)[lc - 1] == zv@[lc - 1]@);
        let mut p: usize = lc - 1;
        while p > 1
            invariant
                self.wf(),
                lc == self.layers@.len(),
                lc >= 2,
                1 <= p <= lc - 1,
                zv@.len() == lc,
                forall|i: int| 1 <= i < lc ==> #[trigger] zv@[i]@.len() == self.layers@[i],
                deltas@.len() == lc - p,
                forall|k: int| 0 <= k < deltas@.len() ==> #[trigger] deltas@[k]@.len() == self.layers@[lc - 1 - k],
                forall|k: int| 0 <= k < deltas@.len() ==> #[trigger] deltas@[k]@ == delta(self.params@, output@, target@, views(zv@), k as nat),
            decreases p,
        {
            p = p - 1;
            proof {
                assert(self.params@[p as int].wf());
            }
            let mut v = self.params[p].transp_mul_vec(&deltas[deltas.len() - 1]);
            let ghost full = v@;
            v.remove(0);
            assert(v@ =~= full.drop_first());
            let dz = sigmoid_derivative_all(&zv[p]);
            deltas.push(vec_mul(&v, &dz));
        }
        deltas
    }

    /// Adds, for each `i`, the outer product of the delta of layer `i + 1` and
    /// the activations of layer `i` to `acc[i]`; `deltas` is ordered output
    /// layer first, so that delta sits at `deltas.len() - 1 - i`.
    pub fn update(&self, acc: &mut Vec<Matrix<T>>, deltas: &Vec<Vec<T>>, a: &Vec<Vec<T>>)
        requires
            old(acc)@.len() <= deltas@.len(),
            old(acc)@.len() <= a@.len(),
            forall|i: int| 0 <= i < old(acc)@.len() ==> {
                &&& #[trigger] old(acc)@[i].wf()
                &&& deltas@[deltas@.len() - 1 - i]@.len() == old(acc)@[i].nrows()
                &&& a@[i]@.len() == old(acc)@[i].ncols()
            },
        ensures
            final(acc)@.len() == old(acc)@.len(),
            forall|i: int| 0 <= i < final(acc)@.len() ==> {
                &&& #[trigger] final(acc)@[i].wf()
                &&& final(acc)@[i].same_shape(&old(acc)@[i])
            },
            forall|i: int, r: int, c: int|
                0 <= i < final(acc)@.len() && 0 <= r < old(acc)@[i].nrows() && 0 <= c < old(acc)@[i].ncols()
                    ==> #[trigger] final(acc)@[i].at(r, c) == old(acc)@[i].at(r, c).plus_spec(
                    deltas@[deltas@.len() - 1 - i]@[r].times_spec(a@[i]@[c]),
                ),
    {
        let ghost start = acc@;
        assert forall|k: int| 0 <= k < start.len() implies {
            &&& #[trigger] start[k].wf()
            &&& deltas@[deltas@.len() - 1 - k]@.len() == start[k].nrows()
            &&& a@[k]@.len() == start[k].ncols()
        } by {
            assert(old(acc)@[k].wf());
        }
        let mut dp: usize = deltas.len();
        let mut i: usize = 0;
        while i < acc.len()
            invariant
                acc@.len() == start.len(),
                start == old(acc)@,
                start.len() <= deltas@.len(),
                start.len() <= a@.len(),
                i <= acc@.len(),
                dp == deltas@.len() - i,
                forall|k: int| 0 <= k < start.len() ==> {
                    &&& #[trigger] start[k].wf()
                    &&& deltas@[deltas@.len() - 1 - k]@.len() == start[k].nrows()
                    &&& a@[k]@.len() == start[k].ncols()
                },
                forall|k: int| i <= k < acc@.len() ==> #[trigger] acc@[k] == start[k],
                forall|k: int| 0 <= k < i ==> {
                    &&& #[trigger] acc@[k].wf()
                    &&& acc@[k].same_shape(&start[k])
                },
                forall|k: int, r: int, c: int|
                    0 <= k < i && 0 <= r < start[k].nrows() && 0 <= c < start[k].ncols()
                        ==> #[trigger] acc@[k].at(r, c) == start[k].at(r, c).plus_spec(
                        deltas@[deltas@.len() - 1 - k]@[r].times_spec(a@[k]@[c]),
                    ),
            decreases start.len() - i,
        {
            dp = dp - 1;
            proof {
                assert(start[i as int].wf());
                assert(acc@[i as int] == start[i as int]);
            }
            let m = crate::vector::col_mul_row(&deltas[dp], &a[i]);
            acc[i].iadd(&m);
            i = i + 1;
        }
    }

    /// The gradient of the squared error for each weight matrix, averaged
    /// over the rows of `examples` with their rows of `targets`.
    pub fn derivatives(&self, examples: &Matrix<T>, targets: &Matrix<T>) -> (r: Vec<Matrix<T>>)
        requires
            self.wf(),
            self.layer_sizes().len() >= 2,
            examples.wf(),
            targets.wf(),
            examples.nrows() == targets.nrows(),
            examples.ncols() == self.layer_sizes()[0],
            targets.ncols() == self.layer_sizes().last(),
        ensures
            self.shaped_like_weights(r@),
            forall|i: int, rr: int, c: int|
                0 <= i < r@.len() && 0 <= rr < r@[i].nrows() && 0 <= c < r@[i].ncols() ==> #[trigger] r@[i].at(rr, c)
                    == gradient(self.weights(), *examples, *targets, i, rr, c),
    {
        let ghost ws = self.params@;
        let mut acc: Vec<Matrix<T>> = Vec::new();
        let mut i: usize = 0;
        while i < self.params.len()
            invariant
                self.wf(),
                ws == self.params@,
                i <= self.params@.len(),
                acc@.len() == i,
                forall|k: int| 0 <= k < i ==> {
                    &&& #[trigger] acc@[k].wf()
                    &&& acc@[k].same_shape(&self.params@[k])
                },
                forall|k: int, rr: int, c: int|
                    0 <= k < i && 0 <= rr < acc@[k].nrows() && 0 <= c < acc@[k].ncols() ==> #[trigger] acc@[k].at(rr, c)
                        == grad_sum(ws, *examples, *targets, 0, k, rr, c),
            decreases self.params.len() - i,
        {
            proof {
                assert(self.params@[i as int].wf());
            }
            acc.push(Matrix::fill(T::zero(), self.params[i].rows(), self.params[i].cols()));
            i = i + 1;
        }
        let mut e: usize = 0;
        while e < examples.rows()
            invariant
                self.wf(),
                ws == self.params@,
                self.layers@.len() >= 2,
                examples.wf(),
                targets.wf(),
                examples.nrows() == targets.nrows(),
                examples.ncols() == self.layers@[0],
                targets.ncols() == self.layer_sizes().last(),
                e <= examples.nrows(),
                self.shaped_like_weights(acc@),
                forall|k: int, rr: int, c: int|
                    0 <= k < acc@.len() && 0 <= rr < acc@[k].nrows() && 0 <= c < acc@[k].ncols() ==> #[trigger] acc@[k].at(rr, c)
                        == grad_sum(ws, *examples, *targets, e as nat, k, rr, c),
            decreases examples.nrows() - e,
        {
            let x = examples.row(e);
            let t = targets.row(e);
            let trace = self.feedforward(x.as_slice());
            let last = slice_to_vec(trace.0[trace.0.len() - 1].as_slice());
            let deltas = self.backprop(last.as_slice(), t.as_slice(), &trace);
            let ghost xs = examples.row_seq(e as int);
            let ghost zs = Seq::new(ws.len() + 1, |k: int| pre_activation(ws, xs, k as nat));
            proof {
                let l = self.layers@;
                assert(x@ =~= xs);
                assert(t@ =~= targets.row_seq(e as int));
                assert(views(trace.1@) =~= zs);
                assert(last@ == activation(ws, xs, ws.len()));
                assert forall|k: int| 0 <= k < acc@.len() implies {
                    &&& #[trigger] acc@[k].wf()
                    &&& deltas@[deltas@.len() - 1 - k]@.len() == acc@[k].nrows()
                    &&& trace.0@[k]@.len() == acc@[k].ncols()
                } by {
                    assert(self.params@[k].wf());
                    assert(acc@[k].wf());
                    assert(deltas@[deltas@.len() - 1 - k]@.len() == l[l.len() - 1 - (deltas@.len() - 1 - k)]);
                    if k > 0 {
                        assert(trace.0@[k]@.len() == l[k] + 1);
                    }
                }
            }
            let ghost before = acc@;
            self.update(&mut acc, &deltas, &trace.0);
            proof {
                assert forall|k: int| 0 <= k < acc@.len() implies {
                    &&& #[trigger] acc@[k].wf()
                    &&& acc@[k].same_shape(&self.weights()[k])
                } by {
                    assert(before[k].wf());
                    assert(acc@[k].wf());
                }
                assert forall|k: int, rr: int, c: int|
                    0 <= k < acc@.len() && 0 <= rr < acc@[k].nrows() && 0 <= c < acc@[k].ncols() implies #[trigger] acc@[k].at(rr, c)
                        == grad_sum(ws, *examples, *targets, (e + 1) as nat, k, rr, c) by {
                    assert(before[k].wf());
                    assert(0 <= k < acc@.len());
                    assert(acc@[k].wf());
                    assert(acc@[k].same_shape(&before[k]));
                    assert(before[k].at(rr, c) == grad_sum(ws, *examples, *targets, e as nat, k, rr, c));
                    assert(trace.0@[k]@ == activation(ws, xs, k as nat));
                    assert(deltas@[deltas@.len() - 1 - k]@ == delta(ws, last@, t@, views(trace.1@), (deltas@.len() - 1 - k) as nat));
                }
            }
            e = e + 1;
        }
        let count = T::from_count(examples.rows());
        let ghost summed = acc@;
        let mut i: usize = 0;
        while i < acc.len()
            invariant
                self.shaped_like_weights(acc@),
                self.shaped_like_weights(summed),
                acc@.len() == summed.len(),
                count == T::from_count_spec(examples.nrows() as usize),
                i <= acc@.len(),
                forall|k: int| i <= k < acc@.len() ==> #[trigger] acc@[k] == summed[k],
                forall|k: int, rr: int, c: int|
                    0 <= k < i && 0 <= rr < summed[k].nrows() && 0 <= c < summed[k].ncols() ==> #[trigger] acc@[k].at(rr, c)
                        == summed[k].at(rr, c).divide_spec(count),
            decreases acc@.len() - i,
        {
            proof {
                assert(acc@[i as int].wf());
            }
            let ghost before = acc@;
            acc[i].idiv_scalar(count);
            proof {
                assert forall|k: int| 0 <= k < acc@.len() implies {
                    &&& #[trigger] acc@[k].wf()
                    &&& acc@[k].same_shape(&self.weights()[k])
                } by {
                    assert(before[k].wf());
                }
            }
            i = i + 1;
        }
        proof {
            assert forall|k: int, rr: int, c: int|
                0 <= k < acc@.len() && 0 <= rr < acc@[k].nrows() && 0 <= c < acc@[k].ncols() implies #[trigger] acc@[k].at(rr, c)
                    == gradient(self.weights(), *examples, *targets, k, rr, c) by {
                assert(summed[k].wf());
                assert(acc@[k].wf());
                assert(summed[k].at(rr, c) == grad_sum(ws, *examples, *targets, examples.nrows(), k, rr, c));
            }
        }
        acc
    }

    /// Adds `deltas[i]` to weight matrix `i`, for every `i`.
    pub fn update_params(&mut self, deltas: &[Matrix<T>])
        requires
            old(self).wf(),
            old(self).shaped_like_weights(deltas@),
        ensures
            final(self).wf(),
            final(self).layer_sizes() == old(self).layer_sizes(),
            old(self).shaped_like_weights(final(self).weights()),
            forall|i: int, r: int, c: int|
                0 <= i < old(self).weights().len() && 0 <= r < old(self).weights()[i].nrows() && 0 <= c < old(
                    self,
                ).weights()[i].ncols() ==> #[trigger] final(self).weights()[i].at(r, c) == old(self).weights()[i].at(
                    r,
                    c,
                ).plus_spec(deltas@[i].at(r, c)),
    {
        let ghost start = self.params@;
        let mut i: usize = 0;
        while i < self.params.len()
            invariant
                self.layers@ == old(self).layers@,
                start == old(self).params@,
                old(self).wf(),
                old(self).shaped_like_weights(deltas@),
                old(self).shaped_like_weights(self.params@),
                i <= self.params@.len(),
                forall|k: int| i <= k < self.params@.len() ==> #[trigger] self.params@[k] == start[k],
                forall|k: int, r: int, c: int|
                    0 <= k < i && 0 <= r < start[k].nrows() && 0 <= c < start[k].ncols()
                        ==> #[trigger] self.params@[k].at(r, c) == start[k].at(r, c).plus_spec(deltas@[k].at(r, c)),
            decreases self.params@.len() - i,
        {
            proof {
                assert(self.params@[i as int].wf());
                assert(deltas@[i as int].wf());
                assert(start[i as int].wf());
            }
            let ghost before = self.params@;
            self.params[i].iadd(&deltas[i]);
            proof {
                assert forall|k: int| 0 <= k < self.params@.len() implies {
                    &&& #[trigger] self.params@[k].wf()
                    &&& self.params@[k].same_shape(&old(self).weights()[k])
                } by {
                    assert(before[k].wf());
                }
            }
            i = i + 1;
        }
        proof {
            lemma_shaped_like_fits(old(self), self.params@);
        }
    }
}

impl<T: Scalar> MeanSquareError<T> for NeuralNetwork<T> {
    open spec fn mse_accepts(&self, input: &Matrix<T>, target: &Matrix<T>) -> bool {
        &&& self.wf()
        &&& self.weights().len() > 0
        &&& input.wf()
        &&& input.ncols() == self.layer_sizes()[0]
        &&& self.fits_batch(input.nrows())
        &&& target.wf()
        &&& target.nrows() == input.nrows()
        &&& target.ncols() == self.layer_sizes().last()
    }

    /// The squared errors added up, divided by twice the number of examples.
    open spec fn mse_spec(&self, input: &Matrix<T>, target: &Matrix<T>) -> T {
        let two = T::one_spec().plus_spec(T::one_spec());
        squared_error_sum(self.weights(), *input, *target, input.nrows(), 0).divide_spec(
            two.times_spec(T::from_count_spec(input.nrows() as usize)),
        )
    }

    fn mse(&self, input: &Matrix<T>, targets: &Matrix<T>) -> (r: T) {
        let ghost ws = self.params@;
        let p = self.predict(input);
        let mut o = p.copied();
        let ghost o0 = o;
        o.isub(targets);
        assert forall|r: int, c: int|
            0 <= r < o.nrows() && 0 <= c < o.ncols() implies #[trigger] o.at(r, c) == error_at(ws, *input, *targets, r, c) by {
            assert(o.at(r, c) == o0.at(r, c).minus_spec(targets.at(r, c)));
            assert(o0.at(r, c) == p.at(r, c));
            assert(p.at(r, c) == forward_row(ws, input.row_seq(r), ws.len())[c + 1]);
        }
        let mut sum = T::zero();
        let mut i: usize = 0;
        while i < o.rows()
            invariant
                o.wf(),
                o.same_shape(targets),
                p.same_shape(targets),
                o.nrows() == input.nrows(),
                i <= o.nrows(),
                forall|r: int, c: int|
                    0 <= r < o.nrows() && 0 <= c < o.ncols() ==> #[trigger] o.at(r, c) == error_at(ws, *input, *targets, r, c),
                sum == squared_error_sum(ws, *input, *targets, i as nat, 0),
            decreases o.nrows() - i,
        {
            let mut j: usize = 0;
            while j < o.cols()
                invariant
                    o.wf(),
                    o.same_shape(targets),
                    i < o.nrows(),
                    j <= o.ncols(),
                    forall|r: int, c: int|
                        0 <= r < o.nrows() && 0 <= c < o.ncols() ==> #[trigger] o.at(r, c) == error_at(ws, *input, *targets, r, c),
                    sum == squared_error_sum(ws, *input, *targets, i as nat, j as nat),
                decreases o.ncols() - j,
            {
                let d = o.get(i, j);
                sum = sum.plus(d.times(d));
                j = j + 1;
            }
            assert(squared_error_sum(ws, *input, *targets, (i + 1) as nat, 0) == squared_error_sum(
                ws,
                *input,
                *targets,
                i as nat,
                targets.ncols(),
            ));
            i = i + 1;
        }
        let two = T::one().plus(T::one());
        sum.divide(two.times(T::from_count(input.rows())))
    }
}

impl<T: Scalar> GradientDescent<T> for NeuralNetwork<T> {
    open spec fn gd_accepts(&self, input: &Matrix<T>, targets: &Matrix<T>, p: OptParams<T>) -> bool {
        &&& self.wf()
        &&& p.alpha is Some
        &&& p.iter is Some
        &&& p.iter->0 > 0 ==> {
            &&& self.layer_sizes().len() >= 2
            &&& input.wf()
            &&& targets.wf()
            &&& input.nrows() == targets.nrows()
            &&& input.ncols() == self.layer_sizes()[0]
            &&& targets.ncols() == self.layer_sizes().last()
        }
    }

    /// The result has the same layers; its weights are the last of `p.iter`
    /// steps of gradient descent from this network's weights (so after no
    /// step they are this network's, entry for entry).
    open spec fn gd_result(&self, input: &Matrix<T>, targets: &Matrix<T>, p: OptParams<T>, r: NeuralNetwork<T>) -> bool {
        &&& r.wf()
        &&& r.layer_sizes() == self.layer_sizes()
        &&& self.shaped_like_weights(r.weights())
        &&& (p.iter == Some(0usize) ==> r.same_weights(self))
        &&& exists|h: Seq<Seq<Matrix<T>>>|
            {
                &&& #[trigger] descent_path(self.weights(), h, *input, *targets, p.alpha->0)
                &&& h.len() == p.iter->0 + 1
                &&& h.last() == r.weights()
            }
    }

    fn gd(&self, input: &Matrix<T>, targets: &Matrix<T>, p: OptParams<T>) -> (r: NeuralNetwork<T>) {
        let a = p.alpha.unwrap();
        let steps = p.iter.unwrap();
        let mut n = NeuralNetwork { layers: copy_sizes(&self.layers), params: copy_matrices(&self.params) };
        proof {
            assert forall|i: int| 0 <= i < n.params@.len() implies {
                &&& #[trigger] n.params@[i].wf()
                &&& n.params@[i].same_shape(&self.weights()[i])
            } by {
                assert(self.params@[i].wf());
                assert(n.params@[i]@ == self.params@[i]@);
            }
            lemma_shaped_like_fits(self, n.params@);
        }
        let ghost hist: Seq<Seq<Matrix<T>>> = seq![n.params@];
        let mut k: usize = 0;
        while k < steps
            invariant
                self.gd_accepts(input, targets, p),
                a == p.alpha->0,
                n.wf(),
                n.layers@ == self.layers@,
                self.shaped_like_weights(n.params@),
                k <= steps,
                steps == p.iter->0,
                k == 0 ==> n.same_weights(self),
                hist.len() == k + 1,
                hist.last() == n.params@,
                descent_path(self.weights(), hist, *input, *targets, a),
            decreases steps - k,
        {
            let d = n.derivatives(input, targets);
            proof {
                lemma_shaped_like_same_shapes(self, &n, d@);
            }
            let neg = a.negate();
            let mut v: Vec<Matrix<T>> = Vec::new();
            let mut i: usize = 0;
            while i < d.len()
                invariant
                    self.shaped_like_weights(d@),
                    i <= d@.len(),
                    v@.len() == i,
                    forall|j: int| 0 <= j < i ==> {
                        &&& #[trigger] v@[j].wf()
                        &&& v@[j].same_shape(&self.weights()[j])
                    },
                    forall|j: int, r: int, c: int|
                        0 <= j < i && 0 <= r < d@[j].nrows() && 0 <= c < d@[j].ncols() ==> #[trigger] v@[j].at(r, c)
                            == d@[j].at(r, c).times_spec(neg),
                decreases d.len() - i,
            {
                proof {
                    assert(d@[i as int].wf());
                }
                v.push(d[i].mul_scalar(neg));
                i = i + 1;
            }
            proof {
                assert forall|j: int| 0 <= j < v@.len() implies {
                    &&& #[trigger] v@[j].wf()
                    &&& v@[j].same_shape(&n.weights()[j])
                } by {
                    assert(v@[j].wf());
                    assert(n.params@[j].wf());
                }
            }
            let ghost before = n;
            n.update_params(v.as_slice());
            proof {
                assert forall|j: int| 0 <= j < n.params@.len() implies {
                    &&& #[trigger] n.params@[j].wf()
                    &&& n.params@[j].same_shape(&self.weights()[j])
                } by {
                    assert(n.params@[j].wf());
                    assert(before.params@[j].wf());
                }
                let w0 = before.params@;
                let w1 = n.params@;
                assert forall|j: int| 0 <= j < w0.len() implies #[trigger] w1[j].same_shape(&w0[j]) by {
                    assert(w1[j].wf());
                    assert(w0[j].wf());
                }
                assert forall|j: int, r: int, c: int|
                    0 <= j < w0.len() && 0 <= r < w0[j].nrows() && 0 <= c < w0[j].ncols() implies #[trigger] w1[j].at(r, c)
                        == w0[j].at(r, c).plus_spec(gradient(w0, *input, *targets, j, r, c).times_spec(a.negate_spec())) by {
                    assert(w0[j].wf());
                    assert(d@[j].wf());
                    assert(d@[j].same_shape(&w0[j]));
                    assert(d@[j].at(r, c) == gradient(w0, *input, *targets, j, r, c));
                    assert(v@[j].at(r, c) == d@[j].at(r, c).times_spec(neg));
                }
                assert(descent_step(w0, w1, *input, *targets, a));
                let h2 = hist.push(w1);
                assert forall|s: int| 0 <= s < h2.len() - 1 implies #[trigger] descent_step(h2[s], h2[s + 1], *input, *targets, a) by {
                    if s < hist.len() - 1 {
                        assert(h2[s] == hist[s] && h2[s + 1] == hist[s + 1]);
                    }
                }
                hist = h2;
            }
            k = k + 1;
        }
        proof {
            assert(descent_path(self.weights(), hist, *input, *targets, p.alpha->0));
        }
        n
    }
}

/// `ws1` and `ws2` hold matrices of the same contents, in the same order.
pub open spec fn same_contents<T>(ws1: Seq<Matrix<T>>, ws2: Seq<Matrix<T>>) -> bool {
    &&& ws1.len() == ws2.len()
    &&& forall|i: int| 0 <= i < ws1.len() ==> #[trigger] ws1[i]@ == ws2[i]@
}

/// A step of gradient descent fixes only the contents of the weights it ends at.
proof fn lemma_step_to_same_contents<T: Scalar>(
    ws: Seq<Matrix<T>>,
    w1: Seq<Matrix<T>>,
    w2: Seq<Matrix<T>>,
    xs: Matrix<T>,
    ts: Matrix<T>,
    alpha: T,
)
    requires
        descent_step(ws, w1, xs, ts, alpha),
        same_contents(w1, w2),
    ensures
        descent_step(ws, w2, xs, ts, alpha),
{
    assert forall|i: int| 0 <= i < ws.len() implies #[trigger] w2[i].same_shape(&ws[i]) by {
        assert(w1[i].same_shape(&ws[i]));
        assert(w1[i]@ == w2[i]@);
    }
    assert forall|i: int, r: int, c: int|
        0 <= i < ws.len() && 0 <= r < ws[i].nrows() && 0 <= c < ws[i].ncols() implies #[trigger] w2[i].at(r, c)
            == ws[i].at(r, c).plus_spec(gradient(ws, xs, ts, i, r, c).times_spec(alpha.negate_spec())) by {
        assert(w1[i]@ == w2[i]@);
        assert(w1[i].at(r, c) == ws[i].at(r, c).plus_spec(gradient(ws, xs, ts, i, r, c).times_spec(alpha.negate_spec())));
    }
}

/// Descent that goes on from the end of another is one descent: `j` steps
/// from `ws` followed by `k` steps from where they ended are `j + k` steps
/// from `ws`.
pub proof fn lemma_descent_paths_join<T: Scalar>(
    ws: Seq<Matrix<T>>,
    h1: Seq<Seq<Matrix<T>>>,
    h2: Seq<Seq<Matrix<T>>>,
    xs: Matrix<T>,
    ts: Matrix<T>,
    alpha: T,
)
    requires
        descent_path(ws, h1, xs, ts, alpha),
        descent_path(h1.last(), h2, xs, ts, alpha),
    ensures
        descent_path(ws, h1.drop_last() + h2, xs, ts, alpha),
        (h1.drop_last() + h2).len() == h1.len() + h2.len() - 1,
        (h1.drop_last() + h2).last() == h2.last(),
{
    let h = h1.drop_last() + h2;
    let j = h1.len() - 1;
    assert(same_contents(h1.last(), h2[0]));
    assert forall|i: int| 0 <= i < ws.len() implies #[trigger] h[0][i]@ == ws[i]@ by {
        if j == 0 {
            assert(h[0] == h2[0]);
            assert(h2[0][i]@ == h1[0][i]@);
        } else {
            assert(h[0] == h1[0]);
        }
    }
    assert forall|s: int| 0 <= s < h.len() - 1 implies #[trigger] descent_step(h[s], h[s + 1], xs, ts, alpha) by {
        if s < j - 1 {
            assert(h[s] == h1[s] && h[s + 1] == h1[s + 1]);
        } else if s == j - 1 {
            assert(h[s] == h1[s] && h[s + 1] == h2[0]);
            assert(descent_step(h1[s], h1[s + 1], xs, ts, alpha));
            assert(same_contents(h1[s + 1], h2[0]));
            lemma_step_to_same_contents(h1[s], h1[s + 1], h2[0], xs, ts, alpha);
        } else {
            let t = s - j;
            assert(h[s] == h2[t] && h[s + 1] == h2[t + 1]);
            assert(descent_step(h2[t], h2[t + 1], xs, ts, alpha));
        }
    }
}

/// Gradient descent with `j` steps and then `k` more from its result ends
/// where `j + k` steps end.
pub proof fn lemma_gd_steps_add<T: Scalar>(
    n: NeuralNetwork<T>,
    r1: NeuralNetwork<T>,
    r2: NeuralNetwork<T>,
    input: Matrix<T>,
    targets: Matrix<T>,
    alpha: T,
    j: usize,
    k: usize,
)
    requires
        j + k <= usize::MAX,
        n.gd_result(&input, &targets, (OptParams { alpha: Some(alpha), iter: Some(j) }), r1),
        r1.gd_result(&input, &targets, (OptParams { alpha: Some(alpha), iter: Some(k) }), r2),
    ensures
        n.gd_result(&input, &targets, (OptParams { alpha: Some(alpha), iter: Some((j + k) as usize) }), r2),
{
    let h1 = choose|h: Seq<Seq<Matrix<T>>>|
        {
            &&& #[trigger] descent_path(n.weights(), h, input, targets, alpha)
            &&& h.len() == j + 1
            &&& h.last() == r1.weights()
        };
    let h2 = choose|h: Seq<Seq<Matrix<T>>>|
        {
            &&& #[trigger] descent_path(r1.weights(), h, input, targets, alpha)
            &&& h.len() == k + 1
            &&& h.last() == r2.weights()
        };
    lemma_descent_paths_join(n.weights(), h1, h2, input, targets, alpha);
    let h = h1.drop_last() + h2;
    assert(descent_path(n.weights(), h, input, targets, alpha) && h.len() == (j + k) as usize + 1 && h.last() == r2.weights());
    assert forall|i: int| 0 <= i < n.weights().len() implies {
        &&& #[trigger] r2.weights()[i].wf()
        &&& r2.weights()[i].same_shape(&n.weights()[i])
    } by {
        assert(r2.weights()[i].wf());
        assert(r1.weights()[i].wf());
        assert(r2.weights()[i].same_shape(&r1.weights()[i]));
    }
    if j + k == 0 {
        assert forall|i: int| 0 <= i < r2.weights().len() implies #[trigger] r2.weights()[i]@ == n.weights()[i]@ by {
            assert(r2.weights()[i]@ == r1.weights()[i]@);
        }
    }
}

} // verus!
