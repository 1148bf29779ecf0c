//! Trainable parameters and the AdamW optimizer.

use crate::scalar::{
    decimal_gives, minus_gives, one_gives, over_gives, plus_gives, sqrt_gives, times_gives,
    uniform_gives, zero_gives, Real,
};
use crate::tensor::{filled_vec, Tensor2};
use rand::rngs::SmallRng;
use vstd::prelude::*;

verus! {

/// The optimizer: the rates, and the powers of the two decay rates after the steps so far.
pub struct AdamW<T> {
    pub beta1: T,
    pub beta2: T,
    pub beta1_pow: T,
    pub beta2_pow: T,
    pub lr: T,
    pub eps: T,
    pub weight_decay: T,
}

/// What one step of the optimizer applies to every parameter.
#[derive(Clone, Copy)]
pub struct AdamStep<T> {
    pub beta1: T,
    pub beta2: T,
    pub beta1_correction: T,
    pub beta2_correction: T,
    pub lr: T,
    pub eps: T,
    pub weight_decay: T,
}

/// `r` is one less `x`.
pub open spec fn complement_gives<T: Real>(x: T, r: T) -> bool {
    exists|one: T| one_gives(one) && #[trigger] minus_gives(one, x, r)
}

/// `plain` is `step` with a weight decay of zero.
pub open spec fn undecayed<T: Real>(step: AdamStep<T>, plain: AdamStep<T>) -> bool {
    zero_gives(plain.weight_decay) && plain == (AdamStep {
        weight_decay: plain.weight_decay,
        ..step
    })
}

impl<T: Real> AdamStep<T> {
    /// The same step with a weight decay of zero.
    pub fn without_weight_decay(self) -> (plain: AdamStep<T>)
        ensures
            undecayed(self, plain),
    {
        AdamStep { weight_decay: T::zero(), ..self }
    }
}

/// The optimizer has taken no step yet.
pub open spec fn fresh_optimizer<T: Real>(optimizer: AdamW<T>) -> bool {
    &&& decimal_gives(9, 1, optimizer.beta1)
    &&& decimal_gives(999, 3, optimizer.beta2)
    &&& one_gives(optimizer.beta1_pow)
    &&& one_gives(optimizer.beta2_pow)
    &&& decimal_gives(1, 8, optimizer.eps)
}

impl<T: Real> AdamW<T> {
    /// An optimizer before its first step.
    pub fn new(lr: T, weight_decay: T) -> (optimizer: AdamW<T>)
        ensures
            fresh_optimizer(optimizer),
            optimizer.lr == lr,
            optimizer.weight_decay == weight_decay,
    {
        AdamW {
            beta1: T::decimal(9, 1),
            beta2: T::decimal(999, 3),
            beta1_pow: T::one(),
            beta2_pow: T::one(),
            lr,
            eps: T::decimal(1, 8),
            weight_decay,
        }
    }

    /// Moves on by one step: the powers grow by one factor, and the step corrects by what they
    /// lack to one.
    pub fn next_step(&mut self) -> (step: AdamStep<T>)
        ensures
            next_step_gives(*old(self), *final(self), step),
    {
        self.beta1_pow = self.beta1_pow.times(self.beta1);
        self.beta2_pow = self.beta2_pow.times(self.beta2);
        AdamStep {
            beta1: self.beta1,
            beta2: self.beta2,
            beta1_correction: T::one().minus(self.beta1_pow),
            beta2_correction: T::one().minus(self.beta2_pow),
            lr: self.lr,
            eps: self.eps,
            weight_decay: self.weight_decay,
        }
    }
}

/// `after` is the optimizer one step after `before`, and `step` is that step.
pub open spec fn next_step_gives<T: Real>(
    before: AdamW<T>,
    after: AdamW<T>,
    step: AdamStep<T>,
) -> bool {
    &&& times_gives(before.beta1_pow, before.beta1, after.beta1_pow)
    &&& times_gives(before.beta2_pow, before.beta2, after.beta2_pow)
    &&& after == (AdamW { beta1_pow: after.beta1_pow, beta2_pow: after.beta2_pow, ..before })
    &&& complement_gives(after.beta1_pow, step.beta1_correction)
    &&& complement_gives(after.beta2_pow, step.beta2_correction)
    &&& step.beta1 == before.beta1
    &&& step.beta2 == before.beta2
    &&& step.lr == before.lr
    &&& step.eps == before.eps
    &&& step.weight_decay == before.weight_decay
}

/// `r` is the moving average `beta * m + (1 - beta) * g`.
pub open spec fn first_moment_gives<T: Real>(beta: T, m: T, g: T, r: T) -> bool {
    exists|kept: T, rest: T, added: T| #[trigger]
        times_gives(beta, m, kept) && #[trigger] complement_gives(beta, rest)
            && #[trigger] times_gives(rest, g, added) && plus_gives(kept, added, r)
}

/// `r` is the moving average `beta * v + (1 - beta) * g * g`.
pub open spec fn second_moment_gives<T: Real>(beta: T, v: T, g: T, r: T) -> bool {
    exists|kept: T, rest: T, scaled: T, added: T| #[trigger]
        times_gives(beta, v, kept) && #[trigger] complement_gives(beta, rest)
            && #[trigger] times_gives(rest, g, scaled) && #[trigger] times_gives(scaled, g, added)
            && plus_gives(kept, added, r)
}

/// `r` is `lr * (m / c1) / (sqrt(v / c2) + eps)`.
pub open spec fn update_gives<T: Real>(step: AdamStep<T>, m: T, v: T, r: T) -> bool {
    exists|m_hat: T, v_hat: T, above: T, root: T, below: T| #[trigger]
        over_gives(m, step.beta1_correction, m_hat) && #[trigger] over_gives(
            v,
            step.beta2_correction,
            v_hat,
        ) && #[trigger] times_gives(step.lr, m_hat, above) && #[trigger] sqrt_gives(v_hat, root)
            && #[trigger] plus_gives(root, step.eps, below) && over_gives(above, below, r)
}

/// `r` is `1 - lr * weight_decay`.
pub open spec fn decay_factor_gives<T: Real>(step: AdamStep<T>, r: T) -> bool {
    exists|rate: T| #[trigger]
        times_gives(step.lr, step.weight_decay, rate) && complement_gives(rate, r)
}

/// `r` is the matrix entry `value` after the step: decayed, then less the update.
pub open spec fn matrix_entry_gives<T: Real>(
    step: AdamStep<T>,
    value: T,
    m: T,
    v: T,
    r: T,
) -> bool {
    exists|factor: T, kept: T, update: T| #[trigger]
        decay_factor_gives(step, factor) && #[trigger] times_gives(value, factor, kept)
            && #[trigger] update_gives(step, m, v, update) && minus_gives(kept, update, r)
}

/// `r` is the vector entry `value` after the step: less the update, with no decay.
pub open spec fn vector_entry_gives<T: Real>(
    step: AdamStep<T>,
    value: T,
    m: T,
    v: T,
    r: T,
) -> bool {
    exists|update: T| #[trigger]
        update_gives(step, m, v, update) && minus_gives(value, update, r)
}

/// Every item is zero.
pub open spec fn all_zero<T: Real>(items: Seq<T>) -> bool {
    forall|i: int| 0 <= i < items.len() ==> zero_gives(#[trigger] items[i])
}

/// Every item is one.
pub open spec fn all_one<T: Real>(items: Seq<T>) -> bool {
    forall|i: int| 0 <= i < items.len() ==> one_gives(#[trigger] items[i])
}

fn first_moment<T: Real>(beta: T, m: T, g: T) -> (r: T)
    ensures
        first_moment_gives(beta, m, g, r),
{
    let kept = beta.times(m);
    let rest = T::one().minus(beta);
    assert(complement_gives(beta, rest));
    kept.plus(rest.times(g))
}

fn second_moment<T: Real>(beta: T, v: T, g: T) -> (r: T)
    ensures
        second_moment_gives(beta, v, g, r),
{
    let kept = beta.times(v);
    let rest = T::one().minus(beta);
    assert(complement_gives(beta, rest));
    kept.plus(rest.times(g).times(g))
}

fn update_of<T: Real>(step: AdamStep<T>, m: T, v: T) -> (r: T)
    ensures
        update_gives(step, m, v, r),
{
    let m_hat = m.over(step.beta1_correction);
    let v_hat = v.over(step.beta2_correction);
    step.lr.times(m_hat).over(v_hat.sqrt().plus(step.eps))
}

/// `r` is the draw `u` spread over the numbers from `-scale` to `scale`: `(u * 2 - 1) * scale`.
pub open spec fn spread_gives<T: Real>(u: T, scale: T, r: T) -> bool {
    exists|two: T, doubled: T, one: T, centred: T|
        decimal_gives(2, 0, two) && #[trigger] times_gives(u, two, doubled) && one_gives(one)
            && #[trigger] minus_gives(doubled, one, centred) && times_gives(centred, scale, r)
}

/// `items` are numbers drawn one after the other from the generator `before`, each spread by
/// `scale`, and `after` is the generator that is left.
pub open spec fn spread_draws_give<T: Real>(
    before: SmallRng,
    scale: T,
    items: Seq<T>,
    after: SmallRng,
) -> bool
    decreases items.len(),
{
    if items.len() == 0 {
        after == before
    } else {
        exists|mid: SmallRng, u: T|
            spread_draws_give(before, scale, items.drop_last(), mid) && #[trigger] uniform_gives(
                mid,
                u,
                after,
            ) && spread_gives(u, scale, items.last())
    }
}

/// The draw `u` spread over the numbers from `-scale` to `scale`.
pub fn spread<T: Real>(u: T, scale: T) -> (r: T)
    ensures
        spread_gives(u, scale, r),
{
    u.times(T::decimal(2, 0)).minus(T::one()).times(scale)
}

/// A trainable matrix: its value, its gradient, and the two moments of the optimizer.
pub struct Param2D<T> {
    pub value: Tensor2<T>,
    pub grad: Tensor2<T>,
    pub m: Tensor2<T>,
    pub v: Tensor2<T>,
}

impl<T> Param2D<T> {
    /// All four parts have this shape.
    pub open spec fn has_shape(self, rows: int, cols: int) -> bool {
        &&& self.value.has_shape(rows, cols)
        &&& self.grad.has_shape(rows, cols)
        &&& self.m.has_shape(rows, cols)
        &&& self.v.has_shape(rows, cols)
    }

    /// All four parts have the shape of the value.
    pub open spec fn wf(self) -> bool {
        self.has_shape(self.value.rows as int, self.value.cols as int)
    }

    /// Nothing but the gradient differs between the two.
    pub open spec fn same_but_grad(self, other: Param2D<T>) -> bool {
        self.value == other.value && self.m == other.m && self.v == other.v
    }
}

/// `after` is `before` with a gradient of zeros.
pub open spec fn matrix_grad_cleared<T: Real>(before: Param2D<T>, after: Param2D<T>) -> bool {
    &&& after.same_but_grad(before)
    &&& after.grad.has_shape(before.grad.rows as int, before.grad.cols as int)
    &&& all_zero(after.grad.data@)
}

/// `after` is `before` after an optimizer step.
pub open spec fn matrix_step_gives<T: Real>(
    step: AdamStep<T>,
    before: Param2D<T>,
    after: Param2D<T>,
) -> bool {
    &&& after.grad == before.grad
    &&& after.has_shape(before.value.rows as int, before.value.cols as int)
    &&& forall|i: int|
        0 <= i < before.value.data@.len() ==> first_moment_gives(
            step.beta1,
            before.m.data@[i],
            before.grad.data@[i],
            #[trigger] after.m.data@[i],
        )
    &&& forall|i: int|
        0 <= i < before.value.data@.len() ==> second_moment_gives(
            step.beta2,
            before.v.data@[i],
            before.grad.data@[i],
            #[trigger] after.v.data@[i],
        )
    &&& forall|i: int|
        0 <= i < before.value.data@.len() ==> matrix_entry_gives(
            step,
            before.value.data@[i],
            after.m.data@[i],
            after.v.data@[i],
            #[trigger] after.value.data@[i],
        )
}

/// `after` is `before` after an optimizer step without weight decay.
pub open spec fn undecayed_matrix_step_gives<T: Real>(
    step: AdamStep<T>,
    before: Param2D<T>,
    after: Param2D<T>,
) -> bool {
    exists|plain: AdamStep<T>| #[trigger]
        undecayed(step, plain) && matrix_step_gives(plain, before, after)
}

impl<T: Real> Param2D<T> {
    /// A matrix of numbers drawn from `-scale` to `scale`, row after row.
    pub fn rand(rows: usize, cols: usize, scale: T, rng: &mut SmallRng) -> (param: Param2D<T>)
        requires
            rows * cols <= usize::MAX,
        ensures
            fresh_matrix(param, rows as int, cols as int),
            spread_draws_give(*old(rng), scale, param.value.data@, *final(rng)),
    {
        let count: usize = rows * cols;
        let mut data: Vec<T> = Vec::new();
        let mut i: usize = 0;
        while i < count
            invariant
                i <= count,
                data@.len() == i,
                spread_draws_give(*old(rng), scale, data@, *rng),
            decreases count - i,
        {
            let (u, next) = T::uniform(rng);
            let ghost before = data@;
            let ghost mid = *rng;
            let item = spread(u, scale);
            data.push(item);
            *rng = next;
            proof {
                assert(data@.drop_last() =~= before);
                assert(uniform_gives(mid, u, next));
            }
            i = i + 1;
        }
        Param2D::from_value(Tensor2 { rows, cols, data })
    }

    /// A matrix with no gradient and no moments yet.
    pub fn from_value(value: Tensor2<T>) -> (param: Param2D<T>)
        requires
            value.wf(),
        ensures
            param.value == value,
            fresh_matrix(param, value.rows as int, value.cols as int),
    {
        let (rows, cols) = (value.rows, value.cols);
        assert(value.data@.len() == value.data.len());
        Param2D {
            value,
            grad: Tensor2::filled(rows, cols, T::zero()),
            m: Tensor2::filled(rows, cols, T::zero()),
            v: Tensor2::filled(rows, cols, T::zero()),
        }
    }

    /// Sets the gradient to zeros.
    pub fn zero_grad(&mut self)
        requires
            old(self).wf(),
        ensures
            matrix_grad_cleared(*old(self), *final(self)),
            final(self).has_shape(old(self).value.rows as int, old(self).value.cols as int),
    {
        assert(self.grad.data@.len() == self.grad.data.len());
        self.grad = Tensor2::filled(self.grad.rows, self.grad.cols, T::zero());
    }

    /// Applies an optimizer step.
    pub fn step(&mut self, step: AdamStep<T>)
        requires
            old(self).wf(),
        ensures
            matrix_step_gives(step, *old(self), *final(self)),
    {
        let rate = step.lr.times(step.weight_decay);
        let factor = T::one().minus(rate);
        assert(complement_gives(rate, factor));
        assert(decay_factor_gives(step, factor));
        let count: usize = self.value.data.len();
        let mut i: usize = 0;
        while i < count
            invariant
                i <= count,
                decay_factor_gives(step, factor),
                count == old(self).value.data@.len(),
                old(self).wf(),
                self.grad == old(self).grad,
                self.has_shape(old(self).value.rows as int, old(self).value.cols as int),
                forall|k: int|
                    0 <= k < i ==> first_moment_gives(
                        step.beta1,
                        old(self).m.data@[k],
                        old(self).grad.data@[k],
                        #[trigger] self.m.data@[k],
                    ),
                forall|k: int|
                    0 <= k < i ==> second_moment_gives(
                        step.beta2,
                        old(self).v.data@[k],
                        old(self).grad.data@[k],
                        #[trigger] self.v.data@[k],
                    ),
                forall|k: int|
                    0 <= k < i ==> matrix_entry_gives(
                        step,
                        old(self).value.data@[k],
                        self.m.data@[k],
                        self.v.data@[k],
                        #[trigger] self.value.data@[k],
                    ),
                forall|k: int|
                    i <= k < count ==> #[trigger] self.m.data@[k] == old(self).m.data@[k],
                forall|k: int|
                    i <= k < count ==> #[trigger] self.v.data@[k] == old(self).v.data@[k],
                forall|k: int|
                    i <= k < count ==> #[trigger] self.value.data@[k] == old(self).value.data@[k],
            decreases count - i,
        {
            let m = first_moment(step.beta1, self.m.data[i], self.grad.data[i]);
            let v = second_moment(step.beta2, self.v.data[i], self.grad.data[i]);
            let update = update_of(step, m, v);
            let kept = self.value.data[i].times(factor);
            let value = kept.minus(update);
            assert(matrix_entry_gives(step, old(self).value.data@[i as int], m, v, value));
            self.m.data[i] = m;
            self.v.data[i] = v;
            self.value.data[i] = value;
            i = i + 1;
        }
    }

    /// Applies an optimizer step without weight decay.
    pub fn step_without_weight_decay(&mut self, step: AdamStep<T>)
        requires
            old(self).wf(),
        ensures
            undecayed_matrix_step_gives(step, *old(self), *final(self)),
            final(self).has_shape(old(self).value.rows as int, old(self).value.cols as int),
    {
        self.step(step.without_weight_decay());
    }
}

/// The matrix has this shape, no gradient and no moments.
pub open spec fn fresh_matrix<T: Real>(param: Param2D<T>, rows: int, cols: int) -> bool {
    &&& param.has_shape(rows, cols)
    &&& all_zero(param.grad.data@)
    &&& all_zero(param.m.data@)
    &&& all_zero(param.v.data@)
}

/// A trainable vector: its value, its gradient, and the two moments of the optimizer.
pub struct Param1D<T> {
    pub value: Vec<T>,
    pub grad: Vec<T>,
    pub m: Vec<T>,
    pub v: Vec<T>,
}

impl<T> Param1D<T> {
    /// All four parts have this length.
    pub open spec fn has_len(self, len: int) -> bool {
        &&& self.value@.len() == len
        &&& self.grad@.len() == len
        &&& self.m@.len() == len
        &&& self.v@.len() == len
    }

    /// All four parts have the length of the value.
    pub open spec fn wf(self) -> bool {
        self.has_len(self.value@.len() as int)
    }

    /// Nothing but the gradient differs between the two.
    pub open spec fn same_but_grad(self, other: Param1D<T>) -> bool {
        self.value == other.value && self.m == other.m && self.v == other.v
    }
}

/// The vector has this length, no gradient and no moments.
pub open spec fn fresh_vector<T: Real>(param: Param1D<T>, len: int) -> bool {
    &&& param.has_len(len)
    &&& all_zero(param.grad@)
    &&& all_zero(param.m@)
    &&& all_zero(param.v@)
}

/// `after` is `before` with a gradient of zeros.
pub open spec fn vector_grad_cleared<T: Real>(before: Param1D<T>, after: Param1D<T>) -> bool {
    &&& after.same_but_grad(before)
    &&& after.grad@.len() == before.grad@.len()
    &&& all_zero(after.grad@)
}

/// `after` is `before` after an optimizer step; a vector is never decayed.
pub open spec fn vector_step_gives<T: Real>(
    step: AdamStep<T>,
    before: Param1D<T>,
    after: Param1D<T>,
) -> bool {
    &&& after.grad == before.grad
    &&& after.has_len(before.value@.len() as int)
    &&& forall|i: int|
        0 <= i < before.value@.len() ==> first_moment_gives(
            step.beta1,
            before.m@[i],
            before.grad@[i],
            #[trigger] after.m@[i],
        )
    &&& forall|i: int|
        0 <= i < before.value@.len() ==> second_moment_gives(
            step.beta2,
            before.v@[i],
            before.grad@[i],
            #[trigger] after.v@[i],
        )
    &&& forall|i: int|
        0 <= i < before.value@.len() ==> vector_entry_gives(
            step,
            before.value@[i],
            after.m@[i],
            after.v@[i],
            #[trigger] after.value@[i],
        )
}

impl<T: Real> Param1D<T> {
    /// A vector of zeros.
    pub fn zeros(len: usize) -> (param: Param1D<T>)
        ensures
            fresh_vector(param, len as int),
            all_zero(param.value@),
    {
        Param1D::from_value(filled_vec(len, T::zero()))
    }

    /// A vector of ones.
    pub fn ones(len: usize) -> (param: Param1D<T>)
        ensures
            fresh_vector(param, len as int),
            all_one(param.value@),
    {
        Param1D::from_value(filled_vec(len, T::one()))
    }

    /// A vector with no gradient and no moments yet.
    pub fn from_value(value: Vec<T>) -> (param: Param1D<T>)
        ensures
            param.value == value,
            fresh_vector(param, value@.len() as int),
    {
        let len: usize = value.len();
        Param1D {
            value,
            grad: filled_vec(len, T::zero()),
            m: filled_vec(len, T::zero()),
            v: filled_vec(len, T::zero()),
        }
    }

    /// Sets the gradient to zeros.
    pub fn zero_grad(&mut self)
        requires
            old(self).wf(),
        ensures
            vector_grad_cleared(*old(self), *final(self)),
            final(self).has_len(old(self).value@.len() as int),
    {
        self.grad = filled_vec(self.grad.len(), T::zero());
    }

    /// Applies an optimizer step.
    pub fn step(&mut self, step: AdamStep<T>)
        requires
            old(self).wf(),
        ensures
            vector_step_gives(step, *old(self), *final(self)),
    {
        let count: usize = self.value.len();
        let mut i: usize = 0;
        while i < count
            invariant
                i <= count,
                count == old(self).value@.len(),
                old(self).wf(),
                self.grad == old(self).grad,
                self.has_len(old(self).value@.len() as int),
                forall|k: int|
                    0 <= k < i ==> first_moment_gives(
                        step.beta1,
                        old(self).m@[k],
                        old(self).grad@[k],
                        #[trigger] self.m@[k],
                    ),
                forall|k: int|
                    0 <= k < i ==> second_moment_gives(
                        step.beta2,
                        old(self).v@[k],
                        old(self).grad@[k],
                        #[trigger] self.v@[k],
                    ),
                forall|k: int|
                    0 <= k < i ==> vector_entry_gives(
                        step,
                        old(self).value@[k],
                        self.m@[k],
                        self.v@[k],
                        #[trigger] self.value@[k],
                    ),
                forall|k: int| i <= k < count ==> #[trigger] self.m@[k] == old(self).m@[k],
                forall|k: int| i <= k < count ==> #[trigger] self.v@[k] == old(self).v@[k],
                forall|k: int|
                    i <= k < count ==> #[trigger] self.value@[k] == old(self).value@[k],
            decreases count - i,
        {
            let m = first_moment(step.beta1, self.m[i], self.grad[i]);
            let v = second_moment(step.beta2, self.v[i], self.grad[i]);
            let update = update_of(step, m, v);
            let value = self.value[i].minus(update);
            assert(vector_entry_gives(step, old(self).value@[i as int], m, v, value));
            self.m[i] = m;
            self.v[i] = v;
            self.value[i] = value;
            i = i + 1;
        }
    }
}

/// The two steps differ in nothing but the weight decay.
pub open spec fn same_but_decay<T>(a: AdamStep<T>, b: AdamStep<T>) -> bool {
    b == (AdamStep { weight_decay: b.weight_decay, ..a })
}

/// The weight decay of a step does not matter to its update.
proof fn lemma_update_ignores_decay<T: Real>(
    step: AdamStep<T>,
    other: AdamStep<T>,
    m: T,
    v: T,
    r: T,
)
    requires
        same_but_decay(step, other),
        update_gives(step, m, v, r),
    ensures
        update_gives(other, m, v, r),
{
    let (m_hat, v_hat, above, root, below) = choose|
        m_hat: T,
        v_hat: T,
        above: T,
        root: T,
        below: T,
    | #[trigger]
        over_gives(m, step.beta1_correction, m_hat) && #[trigger] over_gives(
            v,
            step.beta2_correction,
            v_hat,
        ) && #[trigger] times_gives(step.lr, m_hat, above) && #[trigger] sqrt_gives(v_hat, root)
            && #[trigger] plus_gives(root, step.eps, below) && over_gives(above, below, r);
    assert(over_gives(m, other.beta1_correction, m_hat));
    assert(over_gives(v, other.beta2_correction, v_hat));
    assert(times_gives(other.lr, m_hat, above));
    assert(plus_gives(root, other.eps, below));
}

/// The weight decay of a step does not matter to a vector.
pub proof fn lemma_vector_step_ignores_decay<T: Real>(
    step: AdamStep<T>,
    other: AdamStep<T>,
    before: Param1D<T>,
    after: Param1D<T>,
)
    requires
        same_but_decay(step, other),
        vector_step_gives(step, before, after),
    ensures
        vector_step_gives(other, before, after),
{
    assert forall|i: int| 0 <= i < before.value@.len() implies vector_entry_gives(
        other,
        before.value@[i],
        after.m@[i],
        after.v@[i],
        #[trigger] after.value@[i],
    ) by {
        assert(vector_entry_gives(
            step,
            before.value@[i],
            after.m@[i],
            after.v@[i],
            after.value@[i],
        ));
        let update = choose|update: T| #[trigger]
            update_gives(step, after.m@[i], after.v@[i], update) && minus_gives(
                before.value@[i],
                update,
                after.value@[i],
            );
        lemma_update_ignores_decay(step, other, after.m@[i], after.v@[i], update);
    }
}

/// The weight decay of a step does not matter to a matrix that is stepped without it.
pub proof fn lemma_undecayed_step_ignores_decay<T: Real>(
    step: AdamStep<T>,
    other: AdamStep<T>,
    before: Param2D<T>,
    after: Param2D<T>,
)
    requires
        same_but_decay(step, other),
        undecayed_matrix_step_gives(step, before, after),
    ensures
        undecayed_matrix_step_gives(other, before, after),
{
    let plain = choose|plain: AdamStep<T>| #[trigger]
        undecayed(step, plain) && matrix_step_gives(plain, before, after);
    assert(undecayed(other, plain));
}

/// `r` is `base` to the power of `n`, multiplied up from one.
pub open spec fn power_gives<T: Real>(base: T, n: nat, r: T) -> bool
    decreases n,
{
    if n == 0 {
        one_gives(r)
    } else {
        exists|prev: T|
            power_gives(base, (n - 1) as nat, prev) && #[trigger] times_gives(prev, base, r)
    }
}

/// `after` is the optimizer `n` steps after `before`.
pub open spec fn steps_give<T: Real>(before: AdamW<T>, n: nat, after: AdamW<T>) -> bool
    decreases n,
{
    if n == 0 {
        after == before
    } else {
        exists|mid: AdamW<T>, step: AdamStep<T>|
            steps_give(before, (n - 1) as nat, mid) && #[trigger] next_step_gives(mid, after, step)
    }
}

/// After `n` steps an optimizer that started with powers of one holds the `n`-th powers of its two
/// factors; its other numbers are as they were.
pub proof fn lemma_powers_after_steps<T: Real>(before: AdamW<T>, n: nat, after: AdamW<T>)
    requires
        one_gives(before.beta1_pow),
        one_gives(before.beta2_pow),
        steps_give(before, n, after),
    ensures
        power_gives(before.beta1, n, after.beta1_pow),
        power_gives(before.beta2, n, after.beta2_pow),
        after == (AdamW { beta1_pow: after.beta1_pow, beta2_pow: after.beta2_pow, ..before }),
    decreases n,
{
    if n > 0 {
        let (mid, step) = choose|mid: AdamW<T>, step: AdamStep<T>|
            steps_give(before, (n - 1) as nat, mid) && #[trigger] next_step_gives(mid, after, step);
        lemma_powers_after_steps(before, (n - 1) as nat, mid);
        assert(times_gives(mid.beta1_pow, before.beta1, after.beta1_pow));
        assert(times_gives(mid.beta2_pow, before.beta2, after.beta2_pow));
    }
}

} // verus!
