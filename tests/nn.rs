use neuralnet::matrix::Matrix;
use neuralnet::nn::{GradientDescent, MeanSquareError, NeuralNetwork};
use neuralnet::opt::empty_opts;
use neuralnet::scalar::{sigmoid, sigmoid_derivative, Scalar};
use neuralnet::vector::{col_mul_row, prepend, sigmoid_all, sigmoid_derivative_all};

#[derive(Clone, Copy, Debug, PartialEq)]
struct F(f64);

impl Scalar for F {
    fn zero_spec() -> F {
        F(0.0)
    }
    fn one_spec() -> F {
        F(1.0)
    }
    fn from_count_spec(n: usize) -> F {
        F(n as f64)
    }
    fn plus_spec(self, o: F) -> F {
        F(self.0 + o.0)
    }
    fn minus_spec(self, o: F) -> F {
        F(self.0 - o.0)
    }
    fn times_spec(self, o: F) -> F {
        F(self.0 * o.0)
    }
    fn divide_spec(self, o: F) -> F {
        F(self.0 / o.0)
    }
    fn negate_spec(self) -> F {
        F(-self.0)
    }
    fn exp_spec(self) -> F {
        F(self.0.exp())
    }
    fn zero() -> F {
        Self::zero_spec()
    }
    fn one() -> F {
        Self::one_spec()
    }
    fn from_count(n: usize) -> F {
        Self::from_count_spec(n)
    }
    fn plus(self, o: F) -> F {
        self.plus_spec(o)
    }
    fn minus(self, o: F) -> F {
        self.minus_spec(o)
    }
    fn times(self, o: F) -> F {
        self.times_spec(o)
    }
    fn divide(self, o: F) -> F {
        self.divide_spec(o)
    }
    fn negate(self) -> F {
        self.negate_spec()
    }
    fn exp(self) -> F {
        self.exp_spec()
    }
    /// Uniform in `[0, 1)`.
    fn random() -> F {
        F(rand::random::<f64>())
    }
}

fn mat(rows: usize, cols: usize, v: &[f64]) -> Matrix<F> {
    Matrix::from_vec(v.iter().map(|&x| F(x)).collect(), rows, cols).unwrap()
}

fn fv(v: &[f64]) -> Vec<F> {
    v.iter().map(|&x| F(x)).collect()
}

fn similar_vec(a: &[F], b: &[f64], tol: f64) -> bool {
    a.len() == b.len() && a.iter().zip(b.iter()).all(|(x, y)| (x.0 - y).abs() <= tol)
}

fn similar(a: &Matrix<F>, b: &Matrix<F>, tol: f64) -> bool {
    a.rows() == b.rows()
        && a.cols() == b.cols()
        && a.values().iter().zip(b.values().iter()).all(|(x, y)| (x.0 - y.0).abs() <= tol)
}

fn three_layer() -> NeuralNetwork<F> {
    NeuralNetwork::new()
        .add_layer(3)
        .add_layer(2)
        .add_layer(3)
        .set_params(0, mat(2, 3, &[0.1, 0.2, 0.4, 0.2, 0.1, 2.0]))
        .set_params(1, mat(3, 3, &[0.8, 1.2, 0.6, 0.4, 0.5, 0.8, 1.4, 1.5, 2.0]))
}

#[test]
fn test_nn_create_params() {
    let a: Matrix<F> = NeuralNetwork::new().create_params(5, 3, true);
    assert_eq!(a.rows(), 5);
    assert_eq!(a.cols(), 3);
    let b: Matrix<F> = NeuralNetwork::new().create_params(5, 3, false);
    assert_eq!(b.rows(), 5);
    assert_eq!(b.cols(), 4);
}

#[test]
fn test_nn() {
    let n: NeuralNetwork<F> = NeuralNetwork::new();
    assert_eq!(n.layers(), 0);
    assert_eq!(n.params().len(), 0);

    let b: NeuralNetwork<F> = NeuralNetwork::new().add_layer(3);
    assert_eq!(b.sizes(), [3].to_vec());
    assert_eq!(b.params().len(), 0);

    let a: NeuralNetwork<F> = NeuralNetwork::new().add_layer(4).add_layer(3);
    assert_eq!(a.sizes(), [4, 3].to_vec());
    assert_eq!(a.params().len(), 1);
    assert_eq!(a.params()[0].rows(), 3);
    assert_eq!(a.params()[0].cols(), 4);

    let c: NeuralNetwork<F> = NeuralNetwork::new().add_layer(4).add_layer(6).add_layer(11);
    assert_eq!(c.sizes(), [4, 6, 11].to_vec());
    assert_eq!(c.params().len(), 2);
    assert!(c.params()[0].rows() == 6 && c.params()[0].cols() == 4);
    assert!(c.params()[1].rows() == 11 && c.params()[1].cols() == 7);
}

#[test]
fn test_sigmoid() {
    assert!(similar_vec(&sigmoid_all(&fv(&[1.0, 2.0])), &[0.73106, 0.88080], 0.0001));
}

#[test]
fn test_sigmoid_derivative() {
    let a = fv(&[1.0, 2.0]);
    assert!(similar_vec(&sigmoid_derivative_all(&a), &[0.19661, 0.10499], 0.00001));
}

#[test]
fn test_set_params() {
    let m = mat(2, 3, &[0.1, 0.2, 0.4, 0.5, 2.0, 0.2]);
    let n = NeuralNetwork::new().add_layer(3).add_layer(2).set_params(0, m.clone());
    assert_eq!(n.layers(), 2);
    assert_eq!(n.input_size(), 3);
    assert_eq!(n.output_size(), 2);
    assert!(n.params()[0].eq(&m));
}

#[test]
fn test_predict_two_layer() {
    let m = mat(1, 3, &[0.1, 0.2, 0.4]);
    let x = [0.4, 0.5, 0.8];
    let n = NeuralNetwork::new().add_layer(3).add_layer(1).set_params(0, m);
    assert_eq!(n.layers(), 2);
    assert_eq!(n.input_size(), 3);
    assert_eq!(n.output_size(), 1);
    let p = n.predict(&mat(1, 3, &x));
    assert!(similar(&p, &mat(1, 1, &[0.61301]), 0.00001));
}

#[test]
fn test_predict_three_layer() {
    let params1 = mat(2, 3, &[0.1, 0.2, 0.4, 0.2, 0.1, 2.0]);
    let params2 = mat(1, 3, &[0.8, 1.2, 0.6]);
    let x = [0.4, 0.5, 0.8];
    let n = NeuralNetwork::new()
        .add_layer(3)
        .add_layer(2)
        .add_layer(1)
        .set_params(0, params1)
        .set_params(1, params2);
    assert_eq!(n.layers(), 3);
    assert_eq!(n.input_size(), 3);
    assert_eq!(n.output_size(), 1);
    let p = n.predict(&mat(1, 3, &x));
    assert!(similar(&p, &mat(1, 1, &[0.88547]), 0.00001));
}

#[test]
fn test_feedforward() {
    let n = three_layer();
    let (a, z) = n.feedforward(&fv(&[0.5, 1.2, 1.5]));
    assert_eq!(a.len(), 3);
    assert_eq!(z.len(), 3);
    assert_eq!(z[0], fv(&[0.5, 1.2, 1.5]));
    assert_eq!(a[0], fv(&[0.5, 1.2, 1.5]));
    assert!(similar_vec(&z[1], &[0.89, 3.22], 0.001));
    assert!(similar_vec(&a[1], &[1.0, 0.70889, 0.96158], 0.00001));
    assert!(similar_vec(&z[2], &[2.2276, 1.5237, 4.3865], 0.0001));
    assert!(similar_vec(&a[2], &[0.90270, 0.82108, 0.98771], 0.00001));

    let d = n.backprop(&a[2].clone(), &fv(&[2.7, 3.1, 1.5]), &(a, z));
    assert!(similar_vec(&d[0], &[-0.1578584, -0.3347843, -0.0062193], 0.0000002));
    assert!(similar_vec(&d[1], &[-0.075561, -0.013853], 0.000002));
}

#[test]
fn test_update() {
    let m1 = mat(2, 3, &[0.0; 6]);
    let m2 = mat(4, 3, &[0.0; 12]);
    let a1 = fv(&[0.4, 0.2, 0.3]);
    let a2 = fv(&[0.7, 0.8, 0.2]);
    let d3 = fv(&[0.6, 0.2, 0.5, 0.3]);
    let d2 = fv(&[0.4, 0.1]);
    let mut m = vec![m1, m2];
    let d = vec![d3, d2];
    let a = vec![a1, a2];
    let n: NeuralNetwork<F> = NeuralNetwork::new();
    n.update(&mut m, &d, &a);
    assert!(similar(&m[0], &mat(2, 3, &[0.16, 0.08, 0.12, 0.04, 0.02, 0.03]), 0.01));
    assert!(similar(
        &m[1],
        &mat(4, 3, &[0.42, 0.48, 0.12, 0.14, 0.16, 0.04, 0.35, 0.40, 0.10, 0.21, 0.24, 0.06]),
        0.01
    ));
}

#[test]
fn test_mse() {
    let n = three_layer();
    let x = mat(3, 3, &[0.5, 1.2, 1.5, 1.0, 2.0, 1.0, 3.0, 1.4, 4.2]);
    let t = mat(3, 3, &[0.4, 1.0, 0.8, 1.2, 0.4, 0.2, 0.6, 0.3, 1.1]);
    let e = n.mse(&x, &t);
    assert!((e.0 - 0.26807).abs() <= 0.0001);
}

#[test]
fn test_update_params() {
    let mut n = three_layer();
    let d1 = mat(2, 3, &[0.5, 0.3, 0.2, 0.5, 0.9, 1.4]);
    let d2 = mat(3, 3, &[0.1, 1.0, 1.2, 0.1, 0.4, 1.1, 1.0, 2.0, 3.0]);
    n.update_params(&[d1, d2]);
    assert!(similar(&n.params()[0], &mat(2, 3, &[0.6, 0.5, 0.6, 0.7, 1.0, 3.4]), 0.001));
    assert!(similar(
        &n.params()[1],
        &mat(3, 3, &[0.9, 2.2, 1.8, 0.5, 0.9, 1.9, 2.4, 3.5, 5.0]),
        0.001
    ));
}

#[test]
fn test_params() {
    let params1 = mat(2, 3, &[0.1, 0.2, 0.4, 0.2, 0.1, 2.0]);
    let params2 = mat(3, 3, &[0.8, 1.2, 0.6, 0.4, 0.5, 0.8, 1.4, 1.5, 2.0]);
    let n = NeuralNetwork::new()
        .add_layer(3)
        .add_layer(2)
        .add_layer(3)
        .set_params(0, params1.clone())
        .set_params(1, params2.clone());
    let p = n.params();
    assert!(p[0].eq(&params1));
    assert!(p[1].eq(&params2));
}

#[test]
fn test_nn_predict() {
    let n = three_layer();
    let x = mat(3, 3, &[0.5, 1.2, 1.5, 0.3, 1.1, 1.0, 0.7, 0.9, 1.8]);
    let t = mat(
        3,
        3,
        &[0.90270, 0.82108, 0.98771, 0.89349, 0.80946, 0.98494, 0.90529, 0.82427, 0.98840],
    );
    assert!(similar(&n.predict(&x), &t, 0.00001));
}

#[test]
fn weight_shapes_follow_layer_sizes() {
    let n: NeuralNetwork<F> = NeuralNetwork::new().add_layer(2).add_layer(5).add_layer(3).add_layer(4);
    let p = n.params();
    assert_eq!(p.len(), 3);
    assert_eq!((p[0].rows(), p[0].cols()), (5, 2));
    assert_eq!((p[1].rows(), p[1].cols()), (3, 6));
    assert_eq!((p[2].rows(), p[2].cols()), (4, 4));
}

#[test]
fn add_layer_keeps_earlier_weights() {
    let a: NeuralNetwork<F> = NeuralNetwork::new().add_layer(2).add_layer(3);
    let b = a.add_layer(1);
    assert!(b.params()[0].eq(&a.params()[0]));
    assert_eq!(a.layers(), 2);
    assert_eq!(b.layers(), 3);
}

#[test]
fn predict_has_one_row_per_example_and_one_column_per_output() {
    let n: NeuralNetwork<F> = NeuralNetwork::new().add_layer(3).add_layer(4).add_layer(2);
    let x = mat(5, 3, &[0.1; 15]);
    let p = n.predict(&x);
    assert_eq!((p.rows(), p.cols()), (5, 2));
}

#[test]
fn mse_of_own_predictions_is_zero() {
    let n = three_layer();
    let x = mat(3, 3, &[0.5, 1.2, 1.5, 1.0, 2.0, 1.0, 3.0, 1.4, 4.2]);
    let t = n.predict(&x);
    assert!(n.mse(&x, &t).0.abs() <= 1e-12);
}

#[test]
fn gd_without_steps_keeps_the_weights() {
    let n = three_layer();
    let x = mat(2, 3, &[0.5, 1.2, 1.5, 1.0, 2.0, 1.0]);
    let t = mat(2, 3, &[0.4, 1.0, 0.8, 1.2, 0.4, 0.2]);
    let r = n.gd(&x, &t, empty_opts().alpha(F(0.5)).iter(0));
    assert_eq!(r.layers(), 3);
    assert!(r.params()[0].eq(&n.params()[0]));
    assert!(r.params()[1].eq(&n.params()[1]));
}

#[test]
fn gd_steps_lower_the_error() {
    let n = three_layer();
    let x = mat(2, 3, &[0.5, 1.2, 1.5, 1.0, 2.0, 1.0]);
    let t = mat(2, 3, &[0.4, 0.1, 0.8, 0.2, 0.4, 0.2]);
    let r = n.gd(&x, &t, empty_opts().alpha(F(0.5)).iter(20));
    assert!(r.mse(&x, &t).0 < n.mse(&x, &t).0);
    assert!(!r.params()[1].eq(&n.params()[1]));
}

#[test]
fn one_gd_step_subtracts_alpha_times_gradient() {
    let n = three_layer();
    let x = mat(1, 3, &[0.5, 1.2, 1.5]);
    let t = mat(1, 3, &[2.7, 3.1, 1.5]);
    let d = n.derivatives(&x, &t);
    let r = n.gd(&x, &t, empty_opts().alpha(F(2.0)).iter(1));
    for i in 0..2 {
        let before = n.params()[i].clone();
        let after = r.params()[i].clone();
        for k in 0..before.values().len() {
            let want = before.values()[k].0 - 2.0 * d[i].values()[k].0;
            assert!((after.values()[k].0 - want).abs() <= 1e-12);
        }
    }
}

#[test]
fn derivatives_of_one_example_are_outer_products_of_deltas() {
    let n = three_layer();
    let x = mat(1, 3, &[0.5, 1.2, 1.5]);
    let t = mat(1, 3, &[2.7, 3.1, 1.5]);
    let d = n.derivatives(&x, &t);
    assert_eq!(d.len(), 2);
    assert_eq!((d[0].rows(), d[0].cols()), (2, 3));
    assert_eq!((d[1].rows(), d[1].cols()), (3, 3));
    // output layer delta times hidden activations [1.0, 0.70889, 0.96158]
    assert!((d[1].get(0, 0).0 - -0.1578584).abs() <= 1e-6);
    assert!((d[1].get(1, 1).0 - -0.3347843 * 0.70889).abs() <= 1e-5);
    // hidden layer delta times the input
    assert!((d[0].get(0, 2).0 - -0.075561 * 1.5).abs() <= 1e-5);
    assert!((d[0].get(1, 0).0 - -0.013853 * 0.5).abs() <= 1e-5);
}

#[test]
fn derivatives_of_a_batch_average_those_of_its_examples() {
    let n = three_layer();
    let rows = [[0.5, 1.2, 1.5], [1.0, 2.0, 1.0], [3.0, 1.4, 4.2]];
    let targets = [[0.4, 1.0, 0.8], [1.2, 0.4, 0.2], [0.6, 0.3, 1.1]];
    let x = mat(3, 3, &rows.concat());
    let t = mat(3, 3, &targets.concat());
    let batch = n.derivatives(&x, &t);
    let single: Vec<Vec<Matrix<F>>> = (0..3)
        .map(|e| n.derivatives(&mat(1, 3, &rows[e]), &mat(1, 3, &targets[e])))
        .collect();
    for i in 0..2 {
        for k in 0..batch[i].values().len() {
            let avg = single.iter().map(|d| d[i].values()[k].0).sum::<f64>() / 3.0;
            assert!((batch[i].values()[k].0 - avg).abs() <= 1e-12);
        }
    }
}

#[test]
fn from_vec_needs_rows_times_cols_entries() {
    assert!(Matrix::from_vec(fv(&[1.0, 2.0, 3.0]), 2, 2).is_none());
    assert!(Matrix::from_vec(fv(&[1.0, 2.0, 3.0, 4.0]), 2, 2).is_some());
    assert!(Matrix::<F>::from_vec(vec![], 0, 7).is_some());
}

#[test]
fn insert_and_remove_a_column() {
    let m = mat(2, 2, &[1.0, 2.0, 3.0, 4.0]);
    let w = m.insert_column(0, &fv(&[9.0, 8.0]));
    assert_eq!(w.values(), &fv(&[9.0, 1.0, 2.0, 8.0, 3.0, 4.0])[..]);
    let v = m.insert_column(1, &fv(&[9.0, 8.0]));
    assert_eq!(v.values(), &fv(&[1.0, 9.0, 2.0, 3.0, 8.0, 4.0])[..]);
    assert!(w.rm_column(0).eq(&m));
    assert_eq!(m.rm_column(1).values(), &fv(&[1.0, 3.0])[..]);
}

#[test]
fn matrix_products() {
    let m = mat(2, 3, &[1.0, 2.0, 3.0, 4.0, 5.0, 6.0]);
    assert_eq!(m.mul_vec(&fv(&[1.0, 0.0, 2.0])), fv(&[7.0, 16.0]));
    assert_eq!(m.transp_mul_vec(&fv(&[1.0, 2.0])), fv(&[9.0, 12.0, 15.0]));
    let p = m.mul_transposed(&m);
    assert_eq!(p.values(), &fv(&[14.0, 32.0, 32.0, 77.0])[..]);
    let o = col_mul_row(&fv(&[1.0, 2.0]), &fv(&[3.0, 4.0, 5.0]));
    assert_eq!(o.values(), &fv(&[3.0, 4.0, 5.0, 6.0, 8.0, 10.0])[..]);
    assert_eq!(m.mul_scalar(F(-2.0)).get(1, 2), F(-12.0));
}

#[test]
fn prepend_puts_the_value_first() {
    assert_eq!(prepend(F(1.0), &fv(&[2.0, 3.0])), fv(&[1.0, 2.0, 3.0]));
    assert_eq!(prepend(F(1.0), &fv(&[])), fv(&[1.0]));
}

#[test]
fn sigmoid_at_zero_is_one_half() {
    assert_eq!(sigmoid(F(0.0)), F(0.5));
    assert_eq!(sigmoid_derivative(F(0.0)), F(0.25));
}

#[test]
fn options_record_what_is_set() {
    let p = empty_opts::<F>();
    assert!(p.alpha.is_none() && p.iter.is_none());
    let q = p.alpha(F(0.1)).iter(7);
    assert_eq!(q.alpha, Some(F(0.1)));
    assert_eq!(q.iter, Some(7));
}

#[test]
fn gd_without_steps_asks_nothing_of_the_data() {
    let n: NeuralNetwork<F> = NeuralNetwork::new().add_layer(3);
    let x = mat(1, 2, &[0.5, 1.2]);
    let t = mat(2, 1, &[0.4, 1.0]);
    let r = n.gd(&x, &t, empty_opts().alpha(F(0.5)).iter(0));
    assert_eq!(r.sizes(), vec![3]);
    assert_eq!(r.params().len(), 0);
}

#[test]
fn mse_divides_by_twice_the_example_count() {
    let n = NeuralNetwork::new().add_layer(1).add_layer(1).set_params(0, mat(1, 1, &[0.0]));
    // the prediction is sigmoid(0) = 0.5 for every example
    let x = mat(2, 1, &[1.0, 2.0]);
    let t = mat(2, 1, &[1.5, -0.5]);
    assert_eq!(n.mse(&x, &t), F((1.0 + 1.0) / 4.0));
}
