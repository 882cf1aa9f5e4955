//! Settings of an optimizer.
use vstd::prelude::*;

verus! {

/// Settings of gradient descent: the learning rate and the number of steps.
#[derive(Clone, Copy, Debug)]
pub struct OptParams<T> {
    pub alpha: Option<T>,
    pub iter: Option<usize>,
}

/// Settings with nothing set.
pub fn empty_opts<T>() -> (r: OptParams<T>)
    ensures
        r.alpha is None,
        r.iter is None,
{
    OptParams { alpha: None, iter: None }
}

impl<T> OptParams<T> {
    /// These settings with learning rate `a`.
    pub fn alpha(self, a: T) -> (r: OptParams<T>)
        ensures
            r.alpha == Some(a),
            r.iter == self.iter,
    {
        OptParams { alpha: Some(a), iter: self.iter }
    }

    /// These settings with `n` steps.
    pub fn iter(self, n: usize) -> (r: OptParams<T>)
        ensures
            r.alpha == self.alpha,
            r.iter == Some(n),
    {
        OptParams { alpha: self.alpha, iter: Some(n) }
    }
}

} // verus!
