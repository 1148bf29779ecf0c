//! The linear layer.

use crate::elementwise::{plus_items, plus_matrix};
use crate::optim::{
    all_zero, fresh_matrix, fresh_vector, matrix_grad_cleared, matrix_step_gives, spread_draws_give,
    vector_grad_cleared, vector_step_gives, AdamStep, Param1D, Param2D,
};
use crate::reduce::{
    column_sum, dot_gives, matmul, matmul_transposed, matmul_transposed_gives, sum_gives,
    transposed_matmul,
};
use crate::scalar::{decimal_gives, plus_gives, Real};
use crate::tensor::{tabulate, Tensor2, Tensor3};
use rand::rngs::SmallRng;
use vstd::prelude::*;

verus! {

/// A linear layer: every row of the input is multiplied by the weight matrix, and the bias, if
/// there is one, is added.
pub struct Linear<T> {
    pub weight: Param2D<T>,
    pub bias: Option<Param1D<T>>,
}

impl<T> Linear<T> {
    /// The layer takes rows of `inputs` numbers to rows of `outputs` numbers.
    pub open spec fn has_shape(self, inputs: int, outputs: int) -> bool {
        self.weight.has_shape(inputs, outputs) && (self.bias matches Some(bias) ==> bias.has_len(
            outputs,
        ))
    }

    /// The parts of the layer fit together.
    pub open spec fn wf(self) -> bool {
        self.has_shape(self.weight.value.rows as int, self.weight.value.cols as int)
    }

    /// Entry `c` of the bias.
    pub open spec fn bias_at(self, c: int) -> Option<T> {
        match self.bias {
            Some(bias) => Some(bias.value@[c]),
            None => None,
        }
    }
}

/// `layer` is a new layer of this shape whose weights were drawn from the generator `before`,
/// which left the generator `after`; its bias is zero.
pub open spec fn fresh_linear<T: Real>(
    layer: Linear<T>,
    inputs: int,
    outputs: int,
    bias: bool,
    before: SmallRng,
    after: SmallRng,
) -> bool {
    &&& layer.has_shape(inputs, outputs)
    &&& fresh_matrix(layer.weight, inputs, outputs)
    &&& exists|scale: T| #[trigger]
        decimal_gives(2, 2, scale) && spread_draws_give(
            before,
            scale,
            layer.weight.value.data@,
            after,
        )
    &&& layer.bias is Some == bias
    &&& layer.bias matches Some(b) ==> fresh_vector(b, outputs) && all_zero(b.value@)
}

/// `r` is the inner product of `x` and `w`, plus the bias if there is one.
pub open spec fn affine_gives<T: Real>(x: Seq<T>, w: Seq<T>, bias: Option<T>, r: T) -> bool {
    match bias {
        Some(b) => exists|product: T| #[trigger]
            dot_gives(x, w, product) && plus_gives(product, b, r),
        None => dot_gives(x, w, r),
    }
}

/// `output` is what the layer makes of `input`.
pub open spec fn linear_gives<T: Real>(
    layer: Linear<T>,
    input: Tensor3<T>,
    output: Tensor3<T>,
) -> bool {
    &&& output.has_shape(
        input.outer as int,
        input.inner as int,
        layer.weight.value.cols as int,
    )
    &&& forall|r: int, c: int|
        0 <= r < input.flat.rows && 0 <= c < layer.weight.value.cols ==> affine_gives(
            input.flat.row(r),
            layer.weight.value.col(c),
            layer.bias_at(c),
            #[trigger] output.flat.at(r, c),
        )
}

/// `r` is `before` plus the inner product of `x` and `g`.
pub open spec fn plus_dot_gives<T: Real>(before: T, x: Seq<T>, g: Seq<T>, r: T) -> bool {
    exists|product: T| #[trigger] dot_gives(x, g, product) && plus_gives(before, product, r)
}

/// `r` is `before` plus the sum of `g`.
pub open spec fn plus_sum_gives<T: Real>(before: T, g: Seq<T>, r: T) -> bool {
    exists|total: T| #[trigger] sum_gives(g, total) && plus_gives(before, total, r)
}

/// Going back through the layer: the gradients of `after` are those of `before` plus what
/// `grad_output` adds to them, nothing else of the layer changes, and `grad_input` is the
/// gradient of the input.
pub open spec fn linear_backward_gives<T: Real>(
    before: Linear<T>,
    input: Tensor3<T>,
    grad_output: Tensor3<T>,
    after: Linear<T>,
    grad_input: Tensor3<T>,
) -> bool {
    let inputs = before.weight.value.rows as int;
    let outputs = before.weight.value.cols as int;
    &&& after.has_shape(inputs, outputs)
    &&& after.weight.same_but_grad(before.weight)
    &&& forall|i: int, j: int|
        0 <= i < inputs && 0 <= j < outputs ==> plus_dot_gives(
            before.weight.grad.at(i, j),
            input.flat.col(i),
            grad_output.flat.col(j),
            #[trigger] after.weight.grad.at(i, j),
        )
    &&& after.bias is Some == before.bias is Some
    &&& before.bias matches Some(b) ==> {
        &&& after.bias->0.same_but_grad(b)
        &&& forall|j: int|
            0 <= j < outputs ==> plus_sum_gives(
                b.grad@[j],
                grad_output.flat.col(j),
                #[trigger] after.bias->0.grad@[j],
            )
    }
    &&& grad_input.has_shape(input.outer as int, input.inner as int, inputs)
    &&& matmul_transposed_gives(grad_output.flat, before.weight.value, grad_input.flat)
}

/// `after` is `before` with gradients of zeros.
pub open spec fn linear_grads_cleared<T: Real>(before: Linear<T>, after: Linear<T>) -> bool {
    &&& matrix_grad_cleared(before.weight, after.weight)
    &&& after.bias is Some == before.bias is Some
    &&& before.bias matches Some(b) ==> vector_grad_cleared(b, after.bias->0)
}

/// `after` is `before` after an optimizer step; the step's weight decay reaches the weight
/// matrix and not the bias.
pub open spec fn linear_step_gives<T: Real>(
    step: AdamStep<T>,
    before: Linear<T>,
    after: Linear<T>,
) -> bool {
    &&& matrix_step_gives(step, before.weight, after.weight)
    &&& after.bias is Some == before.bias is Some
    &&& before.bias matches Some(b) ==> vector_step_gives(step, b, after.bias->0)
}

impl<T: Real> Linear<T> {
    /// A new layer.
    pub fn new(
        in_features: usize,
        out_features: usize,
        bias: bool,
        rng: &mut SmallRng,
    ) -> (layer: Linear<T>)
        requires
            in_features * out_features <= usize::MAX,
        ensures
            fresh_linear(
                layer,
                in_features as int,
                out_features as int,
                bias,
                *old(rng),
                *final(rng),
            ),
    {
        let weight = Param2D::rand(in_features, out_features, T::decimal(2, 2), rng);
        let bias = if bias {
            Some(Param1D::zeros(out_features))
        } else {
            None
        };
        Linear { weight, bias }
    }

    /// Applies the layer to every row of `input`.
    pub fn forward(&self, input: &Tensor3<T>) -> (output: Tensor3<T>)
        requires
            self.wf(),
            input.wf(),
            input.flat.cols == self.weight.value.rows,
        ensures
            linear_gives(*self, *input, output),
    {
        let product = matmul(&input.flat, &self.weight.value);
        let flat = match &self.bias {
            Some(bias) => add_to_rows(&product, &bias.value),
            None => product,
        };
        let output = Tensor3 { outer: input.outer, inner: input.inner, flat };
        proof {
            assert forall|r: int, c: int|
                0 <= r < input.flat.rows && 0 <= c < self.weight.value.cols implies affine_gives(
                input.flat.row(r),
                self.weight.value.col(c),
                self.bias_at(c),
                #[trigger] output.flat.at(r, c),
            ) by {
                assert(dot_gives(input.flat.row(r), self.weight.value.col(c), product.at(r, c)));
            }
        }
        output
    }

    /// Adds the gradients of the weights and of the bias to those kept so far, and returns the
    /// gradient of the input.
    pub fn backward(&mut self, input: &Tensor3<T>, grad_output: &Tensor3<T>) -> (grad_input:
        Tensor3<T>)
        requires
            old(self).wf(),
            input.has_shape(
                grad_output.outer as int,
                grad_output.inner as int,
                old(self).weight.value.rows as int,
            ),
            grad_output.wf(),
            grad_output.flat.cols == old(self).weight.value.cols,
        ensures
            linear_backward_gives(
                *old(self),
                *input,
                *grad_output,
                *final(self),
                grad_input,
            ),
    {
        let change = transposed_matmul(&input.flat, &grad_output.flat);
        let grad = plus_matrix(&self.weight.grad, &change);
        proof {
            assert forall|i: int, j: int|
                0 <= i < self.weight.value.rows && 0 <= j
                    < self.weight.value.cols implies plus_dot_gives(
                self.weight.grad.at(i, j),
                input.flat.col(i),
                grad_output.flat.col(j),
                #[trigger] grad.at(i, j),
            ) by {
                assert(dot_gives(input.flat.col(i), grad_output.flat.col(j), change.at(i, j)));
            }
        }
        self.weight.grad = grad;
        if let Some(bias) = &mut self.bias {
            let sums = column_sums(&grad_output.flat);
            let bias_grad = plus_items(&bias.grad, &sums);
            proof {
                assert forall|j: int| 0 <= j < bias_grad@.len() implies plus_sum_gives(
                    bias.grad@[j],
                    grad_output.flat.col(j),
                    #[trigger] bias_grad@[j],
                ) by {
                    assert(sum_gives(grad_output.flat.col(j), sums@[j]));
                }
            }
            bias.grad = bias_grad;
        }
        let flat = matmul_transposed(&grad_output.flat, &self.weight.value);
        Tensor3 { outer: input.outer, inner: input.inner, flat }
    }

    /// Sets the gradients to zeros.
    pub fn zero_grad(&mut self)
        requires
            old(self).wf(),
        ensures
            linear_grads_cleared(*old(self), *final(self)),
            final(self).has_shape(
                old(self).weight.value.rows as int,
                old(self).weight.value.cols as int,
            ),
    {
        self.weight.zero_grad();
        if let Some(bias) = &mut self.bias {
            bias.zero_grad();
        }
    }

    /// Applies an optimizer step.
    pub fn step(&mut self, step: AdamStep<T>)
        requires
            old(self).wf(),
        ensures
            linear_step_gives(step, *old(self), *final(self)),
            final(self).has_shape(
                old(self).weight.value.rows as int,
                old(self).weight.value.cols as int,
            ),
    {
        self.weight.step(step);
        if let Some(bias) = &mut self.bias {
            bias.step(step);
        }
    }
}

/// `matrix` with `items` added to each of its rows.
fn add_to_rows<T: Real>(matrix: &Tensor2<T>, items: &Vec<T>) -> (r: Tensor2<T>)
    requires
        matrix.wf(),
        items@.len() == matrix.cols,
    ensures
        r.has_shape(matrix.rows as int, matrix.cols as int),
        forall|i: int, j: int|
            0 <= i < matrix.rows && 0 <= j < matrix.cols ==> plus_gives(
                matrix.at(i, j),
                items@[j],
                #[trigger] r.at(i, j),
            ),
{
    let rows = tabulate(matrix.rows, |i: usize| -> (row: Vec<T>)
        requires
            i < matrix.rows,
            matrix.wf(),
            items@.len() == matrix.cols,
        ensures
            row@.len() == matrix.cols,
            forall|j: int|
                0 <= j < matrix.cols
                    ==> plus_gives(matrix.at(i as int, j), items@[j], #[trigger] row@[j]),
        {
            tabulate(matrix.cols, |j: usize| -> (r: T)
                requires
                    i < matrix.rows,
                    j < matrix.cols,
                    matrix.wf(),
                    items@.len() == matrix.cols,
                ensures
                    plus_gives(matrix.at(i as int, j as int), items@[j as int], r),
                { matrix.get(i, j).plus(items[j]) })
        });
    Tensor2::from_rows(rows, matrix.cols)
}

/// The sums of the columns.
pub fn column_sums<T: Real>(matrix: &Tensor2<T>) -> (sums: Vec<T>)
    requires
        matrix.wf(),
    ensures
        sums@.len() == matrix.cols,
        forall|j: int| 0 <= j < matrix.cols ==> sum_gives(matrix.col(j), #[trigger] sums@[j]),
{
    tabulate(matrix.cols, |j: usize| -> (r: T)
        requires
            j < matrix.cols,
            matrix.wf(),
        ensures
            sum_gives(matrix.col(j as int), r),
        { column_sum(matrix, j) })
}

} // verus!
