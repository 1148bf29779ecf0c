//! The position-wise feed-forward layer.

use crate::dropout::{
    dropout, dropout_backward, dropout_backward_gives, dropout_gives, rate_refused, rate_zero_gives,
    InvalidRate,
};
use crate::linear::{
    fresh_linear, linear_backward_gives, linear_gives, linear_grads_cleared, linear_step_gives,
    Linear,
};
use crate::optim::AdamStep;
use crate::scalar::{at_most_gives, larger_gives, zero_gives, Real};
use crate::tensor::{Tensor2, Tensor3};
use rand::rngs::SmallRng;
use vstd::prelude::*;

verus! {

/// What going back through the layer needs.
pub struct FeedForwardCache<T> {
    pub input: Tensor3<T>,
    pub hidden_pre: Tensor3<T>,
    pub hidden: Tensor3<T>,
    pub dropout_mask: Option<Tensor3<T>>,
}

/// Two linear layers with a rectifier between them; the hidden rows are four times as wide as
/// the input rows.
pub struct FeedForward<T> {
    pub fc1: Linear<T>,
    pub fc2: Linear<T>,
}

impl<T> FeedForward<T> {
    /// The layer takes rows of `n_embd` numbers.
    pub open spec fn has_width(self, n_embd: int) -> bool {
        self.fc1.has_shape(n_embd, 4 * n_embd) && self.fc2.has_shape(4 * n_embd, n_embd)
    }
}

impl<T> FeedForwardCache<T> {
    /// The cache belongs to an input of this shape.
    pub open spec fn has_shape(self, batch: int, time: int, n_embd: int) -> bool {
        &&& self.input.has_shape(batch, time, n_embd)
        &&& self.hidden_pre.has_shape(batch, time, 4 * n_embd)
        &&& self.hidden.has_shape(batch, time, 4 * n_embd)
        &&& self.dropout_mask matches Some(mask) ==> mask.has_shape(batch, time, n_embd)
    }
}

/// `layer` is a new layer whose weights were drawn from the generator `before`, the first linear
/// layer first; the generator `after` is left.
pub open spec fn fresh_feed_forward<T: Real>(
    layer: FeedForward<T>,
    n_embd: int,
    before: SmallRng,
    after: SmallRng,
) -> bool {
    &&& layer.has_width(n_embd)
    &&& exists|mid: SmallRng| #[trigger]
        fresh_linear(layer.fc1, n_embd, 4 * n_embd, true, before, mid) && fresh_linear(
            layer.fc2,
            4 * n_embd,
            n_embd,
            true,
            mid,
            after,
        )
}

/// `r` is the larger of `x` and zero.
pub open spec fn relu_gives<T: Real>(x: T, r: T) -> bool {
    exists|zero: T| zero_gives(zero) && #[trigger] larger_gives(x, zero, r)
}

/// `r` is the gradient in front of the rectifier: zero where the number in front of it is at
/// most zero, else `g`.
pub open spec fn gate_gives<T: Real>(pre: T, g: T, r: T) -> bool {
    ||| exists|zero: T|
        zero_gives(zero) && #[trigger] at_most_gives(pre, zero, true) && zero_gives(r)
    ||| exists|zero: T| zero_gives(zero) && #[trigger] at_most_gives(pre, zero, false) && r == g
}

/// `hidden` is `pre` with every entry rectified.
pub open spec fn relu_tensor_gives<T: Real>(pre: Tensor3<T>, hidden: Tensor3<T>) -> bool {
    hidden.wf() && hidden.same_shape(pre) && forall|i: int|
        0 <= i < pre.flat.data@.len() ==> relu_gives(
            pre.flat.data@[i],
            #[trigger] hidden.flat.data@[i],
        )
}

/// `gated` is the gradient in front of the rectifier.
pub open spec fn gate_tensor_gives<T: Real>(
    pre: Tensor3<T>,
    grad: Tensor3<T>,
    gated: Tensor3<T>,
) -> bool {
    gated.wf() && gated.same_shape(grad) && forall|i: int|
        0 <= i < grad.flat.data@.len() ==> gate_gives(
            pre.flat.data@[i],
            grad.flat.data@[i],
            #[trigger] gated.flat.data@[i],
        )
}

/// `output` and `cache` are what the layer makes of `input`; the generator `before` is left as
/// `after`.
pub open spec fn feed_forward_gives<T: Real>(
    layer: FeedForward<T>,
    input: Tensor3<T>,
    training: bool,
    dropout_v: T,
    output: Tensor3<T>,
    cache: FeedForwardCache<T>,
    before: SmallRng,
    after: SmallRng,
) -> bool {
    &&& cache.has_shape(input.outer as int, input.inner as int, input.flat.cols as int)
    &&& cache.input.same(input)
    &&& linear_gives(layer.fc1, input, cache.hidden_pre)
    &&& relu_tensor_gives(cache.hidden_pre, cache.hidden)
    &&& exists|projected: Tensor3<T>| #[trigger]
        linear_gives(layer.fc2, cache.hidden, projected) && dropout_gives(
            projected,
            dropout_v,
            training,
            output,
            cache.dropout_mask,
            before,
            after,
        )
}

/// The steps of [`feed_forward_backward_gives`], with the gradients of the projection, of the
/// hidden rows and of what stands in front of the rectifier.
pub open spec fn feed_forward_backward_steps_give<T: Real>(
    before: FeedForward<T>,
    cache: FeedForwardCache<T>,
    grad_output: Tensor3<T>,
    after: FeedForward<T>,
    grad_input: Tensor3<T>,
    projected: Tensor3<T>,
    hidden: Tensor3<T>,
    gated: Tensor3<T>,
) -> bool {
    &&& dropout_backward_gives(cache.dropout_mask, grad_output, projected)
    &&& linear_backward_gives(before.fc2, cache.hidden, projected, after.fc2, hidden)
    &&& gate_tensor_gives(cache.hidden_pre, hidden, gated)
    &&& linear_backward_gives(before.fc1, cache.input, gated, after.fc1, grad_input)
}

/// Going back through the layer: the gradients of its two linear layers grow by what
/// `grad_output` adds to them, and `grad_input` is the gradient of the input.
pub open spec fn feed_forward_backward_gives<T: Real>(
    before: FeedForward<T>,
    cache: FeedForwardCache<T>,
    grad_output: Tensor3<T>,
    after: FeedForward<T>,
    grad_input: Tensor3<T>,
) -> bool {
    exists|projected: Tensor3<T>, hidden: Tensor3<T>, gated: Tensor3<T>|
        feed_forward_backward_steps_give(
            before,
            cache,
            grad_output,
            after,
            grad_input,
            projected,
            hidden,
            gated,
        )
}

/// `after` is `before` with gradients of zeros.
pub open spec fn feed_forward_grads_cleared<T: Real>(
    before: FeedForward<T>,
    after: FeedForward<T>,
) -> bool {
    linear_grads_cleared(before.fc1, after.fc1) && linear_grads_cleared(before.fc2, after.fc2)
}

/// `after` is `before` after an optimizer step.
pub open spec fn feed_forward_step_gives<T: Real>(
    step: AdamStep<T>,
    before: FeedForward<T>,
    after: FeedForward<T>,
) -> bool {
    linear_step_gives(step, before.fc1, after.fc1) && linear_step_gives(
        step,
        before.fc2,
        after.fc2,
    )
}

/// `pre` with every entry rectified.
fn relu<T: Real>(pre: &Tensor3<T>) -> (hidden: Tensor3<T>)
    requires
        pre.wf(),
    ensures
        relu_tensor_gives(*pre, hidden),
{
    let mut data: Vec<T> = Vec::new();
    let mut i: usize = 0;
    while i < pre.flat.data.len()
        invariant
            i <= pre.flat.data@.len(),
            data@.len() == i,
            forall|k: int| 0 <= k < i ==> relu_gives(pre.flat.data@[k], #[trigger] data@[k]),
        decreases pre.flat.data@.len() - i,
    {
        let item = pre.flat.data[i].larger(T::zero());
        data.push(item);
        i = i + 1;
    }
    let flat = Tensor2 { rows: pre.flat.rows, cols: pre.flat.cols, data };
    Tensor3 { outer: pre.outer, inner: pre.inner, flat }
}

/// The gradient in front of the rectifier.
fn gate<T: Real>(pre: &Tensor3<T>, grad: &Tensor3<T>) -> (gated: Tensor3<T>)
    requires
        pre.wf(),
        grad.wf(),
        pre.same_shape(*grad),
    ensures
        gate_tensor_gives(*pre, *grad, gated),
{
    let mut data: Vec<T> = Vec::new();
    let mut i: usize = 0;
    while i < grad.flat.data.len()
        invariant
            i <= grad.flat.data@.len(),
            pre.flat.data@.len() == grad.flat.data@.len(),
            data@.len() == i,
            forall|k: int|
                0 <= k < i ==> gate_gives(
                    pre.flat.data@[k],
                    grad.flat.data@[k],
                    #[trigger] data@[k],
                ),
        decreases grad.flat.data@.len() - i,
    {
        if pre.flat.data[i].at_most(T::zero()) {
            data.push(T::zero());
        } else {
            data.push(grad.flat.data[i]);
        }
        i = i + 1;
    }
    let flat = Tensor2 { rows: grad.flat.rows, cols: grad.flat.cols, data };
    Tensor3 { outer: grad.outer, inner: grad.inner, flat }
}

impl<T: Real> FeedForward<T> {
    /// A new layer.
    pub fn new(n_embd: usize, rng: &mut SmallRng) -> (layer: FeedForward<T>)
        requires
            4 * n_embd <= usize::MAX,
            n_embd * (4 * n_embd) <= usize::MAX,
        ensures
            fresh_feed_forward(layer, n_embd as int, *old(rng), *final(rng)),
    {
        assert((4 * n_embd) * n_embd == n_embd * (4 * n_embd)) by (nonlinear_arith);
        let fc1 = Linear::new(n_embd, 4 * n_embd, true, rng);
        let fc2 = Linear::new(4 * n_embd, n_embd, true, rng);
        FeedForward { fc1, fc2 }
    }

    /// Applies the layer to every row of `input`.
    pub fn forward(
        &self,
        input: &Tensor3<T>,
        training: bool,
        dropout_v: T,
        rng: &mut SmallRng,
    ) -> (result: Result<(Tensor3<T>, FeedForwardCache<T>), InvalidRate>)
        requires
            input.wf(),
            self.has_width(input.flat.cols as int),
        ensures
            match result {
                Ok((output, cache)) => {
                    &&& feed_forward_gives(
                        *self,
                        *input,
                        training,
                        dropout_v,
                        output,
                        cache,
                        *old(rng),
                        *final(rng),
                    )
                    &&& output.wf()
                    &&& output.same_shape(*input)
                },
                Err(_) => training && rate_zero_gives(dropout_v, false) && rate_refused(dropout_v),
            },
            !training ==> *final(rng) == *old(rng),
    {
        let hidden_pre = self.fc1.forward(input);
        let hidden = relu(&hidden_pre);
        let projected = self.fc2.forward(&hidden);
        let (output, dropout_mask) = match dropout(&projected, dropout_v, training, rng) {
            Ok(pair) => pair,
            Err(e) => {
                return Err(e);
            },
        };
        let cache = FeedForwardCache { input: input.duplicate(), hidden_pre, hidden, dropout_mask };
        Ok((output, cache))
    }

    /// Adds the gradients of the two linear layers to those kept so far, and returns the gradient
    /// of the input.
    pub fn backward(&mut self, cache: &FeedForwardCache<T>, grad_output: &Tensor3<T>) -> (grad_input:
        Tensor3<T>)
        requires
            grad_output.wf(),
            old(self).has_width(grad_output.flat.cols as int),
            cache.has_shape(
                grad_output.outer as int,
                grad_output.inner as int,
                grad_output.flat.cols as int,
            ),
        ensures
            feed_forward_backward_gives(
                *old(self),
                *cache,
                *grad_output,
                *final(self),
                grad_input,
            ),
            final(self).has_width(grad_output.flat.cols as int),
            grad_input.wf(),
            grad_input.same_shape(*grad_output),
    {
        let projected = dropout_backward(&cache.dropout_mask, grad_output);
        let hidden = self.fc2.backward(&cache.hidden, &projected);
        let gated = gate(&cache.hidden_pre, &hidden);
        let grad_input = self.fc1.backward(&cache.input, &gated);
        assert(feed_forward_backward_steps_give(
            *old(self),
            *cache,
            *grad_output,
            *self,
            grad_input,
            projected,
            hidden,
            gated,
        ));
        grad_input
    }

    /// Sets the gradients to zeros.
    pub fn zero_grad(&mut self)
        requires
            old(self).fc1.wf(),
            old(self).fc2.wf(),
        ensures
            feed_forward_grads_cleared(*old(self), *final(self)),
    {
        self.fc1.zero_grad();
        self.fc2.zero_grad();
    }

    /// Applies an optimizer step.
    pub fn step(&mut self, step: AdamStep<T>)
        requires
            old(self).fc1.wf(),
            old(self).fc2.wf(),
        ensures
            feed_forward_step_gives(step, *old(self), *final(self)),
    {
        self.fc1.step(step);
        self.fc2.step(step);
    }
}

} // verus!
