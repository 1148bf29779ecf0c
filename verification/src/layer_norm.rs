//! Layer normalization.

use crate::elementwise::{items_times_give, plus_items, times_items};
use crate::optim::{
    all_one, all_zero, fresh_vector, vector_grad_cleared, vector_step_gives, AdamStep, Param1D,
};
use crate::reduce::{mean_gives, mean_of, sum, sum_gives};
use crate::scalar::{
    count_gives, decimal_gives, minus_gives, one_gives, over_gives, plus_gives, sqrt_gives,
    times_gives, Real,
};
use crate::tensor::{Tensor2, Tensor3};
use vstd::prelude::*;

verus! {

/// Brings every row to mean zero and variance one, then scales it by `gamma` and shifts it by
/// `beta`.
pub struct LayerNorm<T> {
    pub gamma: Param1D<T>,
    pub beta: Param1D<T>,
    pub eps: T,
}

/// What going back through the layer needs: the normalized rows, and for each row the factor
/// that its deviations were multiplied by.
pub struct LayerNormCache<T> {
    pub x_hat: Tensor3<T>,
    pub inv_std: Tensor2<T>,
}

impl<T> LayerNorm<T> {
    /// The layer takes rows of this many numbers.
    pub open spec fn has_width(self, channels: int) -> bool {
        self.gamma.has_len(channels) && self.beta.has_len(channels)
    }
}

impl<T> LayerNormCache<T> {
    /// The cache belongs to an input of this shape.
    pub open spec fn has_shape(self, outer: int, inner: int, width: int) -> bool {
        self.x_hat.has_shape(outer, inner, width) && self.inv_std.has_shape(outer, inner)
    }
}

/// A new layer: it scales by one and shifts by zero.
pub open spec fn fresh_layer_norm<T: Real>(layer: LayerNorm<T>, channels: int) -> bool {
    &&& layer.has_width(channels)
    &&& fresh_vector(layer.gamma, channels)
    &&& all_one(layer.gamma.value@)
    &&& fresh_vector(layer.beta, channels)
    &&& all_zero(layer.beta.value@)
    &&& decimal_gives(1, 5, layer.eps)
}

/// `r` is the square of `x` less `mean`.
pub open spec fn squared_deviation_gives<T: Real>(x: T, mean: T, r: T) -> bool {
    exists|centred: T| #[trigger] minus_gives(x, mean, centred) && times_gives(centred, centred, r)
}

/// `squares` are the squared deviations of `items` from `mean`.
pub open spec fn squares_give<T: Real>(items: Seq<T>, mean: T, squares: Seq<T>) -> bool {
    squares.len() == items.len() && forall|i: int|
        0 <= i < items.len() ==> squared_deviation_gives(items[i], mean, #[trigger] squares[i])
}

/// `r` is the mean of the squared deviations of `items` from `mean`.
pub open spec fn variance_gives<T: Real>(items: Seq<T>, mean: T, r: T) -> bool {
    exists|squares: Seq<T>| #[trigger] squares_give(items, mean, squares) && mean_gives(squares, r)
}

/// `r` is one over the square root of `var + eps`.
pub open spec fn inv_root_gives<T: Real>(var: T, eps: T, r: T) -> bool {
    exists|shifted: T, root: T, one: T| #[trigger]
        plus_gives(var, eps, shifted) && #[trigger] sqrt_gives(shifted, root) && one_gives(one)
            && #[trigger] over_gives(one, root, r)
}

/// `r` is `(x - mean) * inv_std`.
pub open spec fn standardized_gives<T: Real>(x: T, mean: T, inv_std: T, r: T) -> bool {
    exists|centred: T| #[trigger] minus_gives(x, mean, centred) && times_gives(centred, inv_std, r)
}

/// `inv_std` is the factor of the row `items`, and `x_hat` is the row less its mean times that
/// factor.
pub open spec fn normalized_row_gives<T: Real>(
    items: Seq<T>,
    eps: T,
    x_hat: Seq<T>,
    inv_std: T,
) -> bool {
    exists|mean: T, var: T| #[trigger]
        mean_gives(items, mean) && #[trigger] variance_gives(items, mean, var) && inv_root_gives(
            var,
            eps,
            inv_std,
        ) && x_hat.len() == items.len() && forall|i: int|
            0 <= i < items.len() ==> standardized_gives(
                items[i],
                mean,
                inv_std,
                #[trigger] x_hat[i],
            )
}

/// `r` is `gamma * x_hat + beta`.
pub open spec fn rescaled_gives<T: Real>(gamma: T, x_hat: T, beta: T, r: T) -> bool {
    exists|scaled: T| #[trigger] times_gives(gamma, x_hat, scaled) && plus_gives(scaled, beta, r)
}

/// `output` and `cache` are what the layer makes of `input`.
pub open spec fn layer_norm_gives<T: Real>(
    layer: LayerNorm<T>,
    input: Tensor3<T>,
    output: Tensor3<T>,
    cache: LayerNormCache<T>,
) -> bool {
    &&& output.wf()
    &&& output.same_shape(input)
    &&& cache.has_shape(input.outer as int, input.inner as int, input.flat.cols as int)
    &&& forall|r: int|
        0 <= r < input.flat.rows ==> #[trigger] normalized_row_gives(
            input.flat.row(r),
            layer.eps,
            cache.x_hat.flat.row(r),
            cache.inv_std.data@[r],
        )
    &&& forall|r: int, c: int|
        0 <= r < input.flat.rows && 0 <= c < input.flat.cols ==> rescaled_gives(
            layer.gamma.value@[c],
            cache.x_hat.flat.at(r, c),
            layer.beta.value@[c],
            #[trigger] output.flat.at(r, c),
        )
}

/// `r` is `before` plus the products of the items of `a` and `b`, added one after the other.
pub open spec fn plus_products_give<T: Real>(before: T, a: Seq<T>, b: Seq<T>, r: T) -> bool
    decreases a.len(),
{
    if a.len() == 0 {
        r == before
    } else {
        exists|acc: T, product: T|
            plus_products_give(before, a.drop_last(), b.drop_last(), acc) && #[trigger] times_gives(
                a.last(),
                b.last(),
                product,
            ) && #[trigger] plus_gives(acc, product, r)
    }
}

/// `r` is `before` plus `items`, added one after the other.
pub open spec fn plus_each_gives<T: Real>(before: T, items: Seq<T>, r: T) -> bool
    decreases items.len(),
{
    if items.len() == 0 {
        r == before
    } else {
        exists|acc: T|
            plus_each_gives(before, items.drop_last(), acc) && #[trigger] plus_gives(
                acc,
                items.last(),
                r,
            )
    }
}

/// `r` is `(g * n - s1 - x_hat * s2) * factor`.
pub open spec fn norm_grad_entry_gives<T: Real>(
    g: T,
    n: T,
    s1: T,
    x_hat: T,
    s2: T,
    factor: T,
    r: T,
) -> bool {
    exists|a: T, b: T, c: T, d: T| #[trigger]
        times_gives(g, n, a) && #[trigger] minus_gives(a, s1, b) && #[trigger] times_gives(
            x_hat,
            s2,
            c,
        ) && #[trigger] minus_gives(b, c, d) && times_gives(d, factor, r)
}

/// The sums that the gradient of a row needs: `g_hat` is the gradient of the normalized row,
/// `s1` its sum, and `s2` the sum of its products with the normalized row.
pub open spec fn norm_row_sums_give<T: Real>(
    g: Seq<T>,
    gamma: Seq<T>,
    x_hat: Seq<T>,
    g_hat: Seq<T>,
    s1: T,
    s2: T,
) -> bool {
    exists|products: Seq<T>|
        items_times_give(g, gamma, g_hat) && sum_gives(g_hat, s1) && #[trigger] items_times_give(
            g_hat,
            x_hat,
            products,
        ) && sum_gives(products, s2)
}

/// `out` is the gradient of an input row, where `g` is the gradient of the output row.
pub open spec fn norm_row_backward_gives<T: Real>(
    g: Seq<T>,
    gamma: Seq<T>,
    x_hat: Seq<T>,
    inv_std: T,
    out: Seq<T>,
) -> bool {
    exists|g_hat: Seq<T>, s1: T, s2: T, n: T, factor: T| #[trigger]
        norm_row_sums_give(g, gamma, x_hat, g_hat, s1, s2) && count_gives(g.len() as usize, n)
            && #[trigger] over_gives(inv_std, n, factor) && out.len() == g.len() && forall|i: int|
            0 <= i < g.len() ==> norm_grad_entry_gives(
                g_hat[i],
                n,
                s1,
                x_hat[i],
                s2,
                factor,
                #[trigger] out[i],
            )
}

/// Going back through the layer: the gradients of `after` are those of `before` plus what the
/// rows of `grad_output` add to them, nothing else of the layer changes, and `grad_input` is the
/// gradient of the input.
pub open spec fn layer_norm_backward_gives<T: Real>(
    before: LayerNorm<T>,
    cache: LayerNormCache<T>,
    grad_output: Tensor3<T>,
    after: LayerNorm<T>,
    grad_input: Tensor3<T>,
) -> bool {
    let channels = before.gamma.value@.len() as int;
    &&& after.has_width(channels)
    &&& after.eps == before.eps
    &&& after.gamma.same_but_grad(before.gamma)
    &&& after.beta.same_but_grad(before.beta)
    &&& forall|c: int|
        0 <= c < channels ==> plus_products_give(
            before.gamma.grad@[c],
            grad_output.flat.col(c),
            cache.x_hat.flat.col(c),
            #[trigger] after.gamma.grad@[c],
        )
    &&& forall|c: int|
        0 <= c < channels ==> plus_each_gives(
            before.beta.grad@[c],
            grad_output.flat.col(c),
            #[trigger] after.beta.grad@[c],
        )
    &&& grad_input.wf()
    &&& grad_input.same_shape(grad_output)
    &&& forall|r: int|
        0 <= r < grad_output.flat.rows ==> #[trigger] norm_row_backward_gives(
            grad_output.flat.row(r),
            before.gamma.value@,
            cache.x_hat.flat.row(r),
            cache.inv_std.data@[r],
            grad_input.flat.row(r),
        )
}

/// `after` is `before` with gradients of zeros.
pub open spec fn layer_norm_grads_cleared<T: Real>(before: LayerNorm<T>, after: LayerNorm<T>) -> bool {
    &&& vector_grad_cleared(before.gamma, after.gamma)
    &&& vector_grad_cleared(before.beta, after.beta)
    &&& after.eps == before.eps
}

/// `after` is `before` after an optimizer step.
pub open spec fn layer_norm_step_gives<T: Real>(
    step: AdamStep<T>,
    before: LayerNorm<T>,
    after: LayerNorm<T>,
) -> bool {
    &&& vector_step_gives(step, before.gamma, after.gamma)
    &&& vector_step_gives(step, before.beta, after.beta)
    &&& after.eps == before.eps
}

/// The normalized row and its factor.
fn normalized_row<T: Real>(items: &Vec<T>, eps: T) -> (normalized: (Vec<T>, T))
    ensures
        normalized_row_gives(items@, eps, normalized.0@, normalized.1),
{
    let mean = mean_of(items);
    let mut squares: Vec<T> = Vec::new();
    let mut i: usize = 0;
    while i < items.len()
        invariant
            i <= items@.len(),
            squares@.len() == i,
            forall|k: int|
                0 <= k < i ==> squared_deviation_gives(items@[k], mean, #[trigger] squares@[k]),
        decreases items@.len() - i,
    {
        let centred = items[i].minus(mean);
        let square = centred.times(centred);
        squares.push(square);
        i = i + 1;
    }
    let var = mean_of(&squares);
    assert(squares_give(items@, mean, squares@));
    let inv_std = T::one().over(var.plus(eps).sqrt());
    let mut x_hat: Vec<T> = Vec::new();
    i = 0;
    while i < items.len()
        invariant
            i <= items@.len(),
            x_hat@.len() == i,
            forall|k: int|
                0 <= k < i ==> standardized_gives(items@[k], mean, inv_std, #[trigger] x_hat@[k]),
        decreases items@.len() - i,
    {
        let item = items[i].minus(mean).times(inv_std);
        x_hat.push(item);
        i = i + 1;
    }
    assert(variance_gives(items@, mean, var));
    (x_hat, inv_std)
}

/// The gradient of an input row.
fn norm_row_backward<T: Real>(g: &Vec<T>, gamma: &Vec<T>, x_hat: &Vec<T>, inv_std: T) -> (out: Vec<
    T,
>)
    requires
        gamma@.len() == g@.len(),
        x_hat@.len() == g@.len(),
    ensures
        norm_row_backward_gives(g@, gamma@, x_hat@, inv_std, out@),
{
    let g_hat = times_items(g, gamma);
    let s1 = sum(&g_hat);
    let products = times_items(&g_hat, x_hat);
    let s2 = sum(&products);
    assert(norm_row_sums_give(g@, gamma@, x_hat@, g_hat@, s1, s2));
    let n = T::from_count(g.len());
    let factor = inv_std.over(n);
    let mut out: Vec<T> = Vec::new();
    let mut i: usize = 0;
    while i < g.len()
        invariant
            i <= g@.len(),
            g_hat@.len() == g@.len(),
            x_hat@.len() == g@.len(),
            out@.len() == i,
            forall|k: int|
                0 <= k < i ==> norm_grad_entry_gives(
                    g_hat@[k],
                    n,
                    s1,
                    x_hat@[k],
                    s2,
                    factor,
                    #[trigger] out@[k],
                ),
        decreases g@.len() - i,
    {
        let item = g_hat[i].times(n).minus(s1).minus(x_hat[i].times(s2)).times(factor);
        out.push(item);
        i = i + 1;
    }
    out
}

/// One more product.
proof fn lemma_plus_products_push<T: Real>(
    before: T,
    a: Seq<T>,
    b: Seq<T>,
    acc: T,
    x: T,
    y: T,
    product: T,
    r: T,
)
    requires
        a.len() == b.len(),
        plus_products_give(before, a, b, acc),
        times_gives(x, y, product),
        plus_gives(acc, product, r),
    ensures
        plus_products_give(before, a.push(x), b.push(y), r),
{
    assert(a.push(x).drop_last() =~= a);
    assert(b.push(y).drop_last() =~= b);
    assert(a.push(x).last() == x);
    assert(b.push(y).last() == y);
}

/// One more item.
proof fn lemma_plus_each_push<T: Real>(before: T, items: Seq<T>, acc: T, x: T, r: T)
    requires
        plus_each_gives(before, items, acc),
        plus_gives(acc, x, r),
    ensures
        plus_each_gives(before, items.push(x), r),
{
    assert(items.push(x).drop_last() =~= items);
    assert(items.push(x).last() == x);
}

impl<T: Real> LayerNorm<T> {
    /// A new layer.
    pub fn new(channels: usize) -> (layer: LayerNorm<T>)
        ensures
            fresh_layer_norm(layer, channels as int),
    {
        LayerNorm {
            gamma: Param1D::ones(channels),
            beta: Param1D::zeros(channels),
            eps: T::decimal(1, 5),
        }
    }

    /// Normalizes every row of `input`.
    pub fn forward(&self, input: &Tensor3<T>) -> (result: (Tensor3<T>, LayerNormCache<T>))
        requires
            input.wf(),
            self.has_width(input.flat.cols as int),
        ensures
            layer_norm_gives(*self, *input, result.0, result.1),
    {
        let count: usize = input.flat.rows;
        let channels: usize = input.flat.cols;
        let mut out_rows: Vec<Vec<T>> = Vec::new();
        let mut hat_rows: Vec<Vec<T>> = Vec::new();
        let mut factors: Vec<T> = Vec::new();
        let mut r: usize = 0;
        while r < count
            invariant
                r <= count,
                input.wf(),
                count == input.flat.rows,
                channels == input.flat.cols,
                self.has_width(channels as int),
                out_rows@.len() == r,
                hat_rows@.len() == r,
                factors@.len() == r,
                forall|k: int| 0 <= k < r ==> (#[trigger] hat_rows@[k])@.len() == channels,
                forall|k: int|
                    0 <= k < r ==> normalized_row_gives(
                        input.flat.row(k),
                        self.eps,
                        (#[trigger] hat_rows@[k])@,
                        factors@[k],
                    ),
                forall|k: int| 0 <= k < r ==> (#[trigger] out_rows@[k])@.len() == channels,
                forall|k: int, c: int|
                    0 <= k < r && 0 <= c < channels ==> rescaled_gives(
                        self.gamma.value@[c],
                        hat_rows@[k]@[c],
                        self.beta.value@[c],
                        #[trigger] out_rows@[k]@[c],
                    ),
            decreases count - r,
        {
            let row = input.flat.row_vec(r);
            let (x_hat, inv_std) = normalized_row(&row, self.eps);
            let mut out: Vec<T> = Vec::new();
            let mut c: usize = 0;
            while c < channels
                invariant
                    c <= channels,
                    x_hat@.len() == channels,
                    self.has_width(channels as int),
                    out@.len() == c,
                    forall|k: int|
                        0 <= k < c ==> rescaled_gives(
                            self.gamma.value@[k],
                            x_hat@[k],
                            self.beta.value@[k],
                            #[trigger] out@[k],
                        ),
                decreases channels - c,
            {
                let item = self.gamma.value[c].times(x_hat[c]).plus(self.beta.value[c]);
                out.push(item);
                c = c + 1;
            }
            out_rows.push(out);
            hat_rows.push(x_hat);
            factors.push(inv_std);
            r = r + 1;
        }
        let ghost hats = hat_rows@;
        let output = Tensor3 {
            outer: input.outer,
            inner: input.inner,
            flat: Tensor2::from_rows(out_rows, channels),
        };
        let x_hat = Tensor3 {
            outer: input.outer,
            inner: input.inner,
            flat: Tensor2::from_rows(hat_rows, channels),
        };
        let inv_std = Tensor2 { rows: input.outer, cols: input.inner, data: factors };
        let cache = LayerNormCache { x_hat, inv_std };
        proof {
            assert forall|k: int, c: int|
                0 <= k < count && 0 <= c < channels implies rescaled_gives(
                self.gamma.value@[c],
                cache.x_hat.flat.at(k, c),
                self.beta.value@[c],
                #[trigger] output.flat.at(k, c),
            ) by {
                assert(cache.x_hat.flat.at(k, c) == hats[k]@[c]);
            }
            assert forall|k: int| 0 <= k < count implies #[trigger] normalized_row_gives(
                input.flat.row(k),
                self.eps,
                cache.x_hat.flat.row(k),
                cache.inv_std.data@[k],
            ) by {
                assert(cache.x_hat.flat.row(k) == hats[k]@);
            }
        }
        (output, cache)
    }

    /// Adds the gradients of the scale and of the shift to those kept so far, and returns the
    /// gradient of the input.
    pub fn backward(&mut self, cache: &LayerNormCache<T>, grad_output: &Tensor3<T>) -> (grad_input:
        Tensor3<T>)
        requires
            grad_output.wf(),
            old(self).has_width(grad_output.flat.cols as int),
            cache.has_shape(
                grad_output.outer as int,
                grad_output.inner as int,
                grad_output.flat.cols as int,
            ),
        ensures
            layer_norm_backward_gives(
                *old(self),
                *cache,
                *grad_output,
                *final(self),
                grad_input,
            ),
    {
        let count: usize = grad_output.flat.rows;
        let channels: usize = grad_output.flat.cols;
        let mut rows: Vec<Vec<T>> = Vec::new();
        let mut r: usize = 0;
        proof {
            assert forall|c: int| 0 <= c < channels implies plus_products_give(
                self.gamma.grad@[c],
                grad_output.flat.col(c).take(0),
                cache.x_hat.flat.col(c).take(0),
                #[trigger] self.gamma.grad@[c],
            ) by {
                assert(grad_output.flat.col(c).take(0).len() == 0);
            }
            assert forall|c: int| 0 <= c < channels implies plus_each_gives(
                self.beta.grad@[c],
                grad_output.flat.col(c).take(0),
                #[trigger] self.beta.grad@[c],
            ) by {
                assert(grad_output.flat.col(c).take(0).len() == 0);
            }
        }
        while r < count
            invariant
                r <= count,
                grad_output.wf(),
                count == grad_output.flat.rows,
                channels == grad_output.flat.cols,
                cache.has_shape(
                    grad_output.outer as int,
                    grad_output.inner as int,
                    grad_output.flat.cols as int,
                ),
                old(self).has_width(channels as int),
                self.has_width(channels as int),
                self.eps == old(self).eps,
                self.gamma.same_but_grad(old(self).gamma),
                self.beta.same_but_grad(old(self).beta),
                rows@.len() == r,
                forall|c: int|
                    0 <= c < channels ==> plus_products_give(
                        old(self).gamma.grad@[c],
                        grad_output.flat.col(c).take(r as int),
                        cache.x_hat.flat.col(c).take(r as int),
                        #[trigger] self.gamma.grad@[c],
                    ),
                forall|c: int|
                    0 <= c < channels ==> plus_each_gives(
                        old(self).beta.grad@[c],
                        grad_output.flat.col(c).take(r as int),
                        #[trigger] self.beta.grad@[c],
                    ),
                forall|k: int| 0 <= k < r ==> (#[trigger] rows@[k])@.len() == channels,
                forall|k: int|
                    0 <= k < r ==> norm_row_backward_gives(
                        grad_output.flat.row(k),
                        old(self).gamma.value@,
                        cache.x_hat.flat.row(k),
                        cache.inv_std.data@[k],
                        (#[trigger] rows@[k])@,
                    ),
            decreases count - r,
        {
            let g = grad_output.flat.row_vec(r);
            let x_hat = cache.x_hat.flat.row_vec(r);
            let inv_std = cache.inv_std.data[r];
            let products = times_items(&g, &x_hat);
            let gamma_grad = plus_items(&self.gamma.grad, &products);
            let beta_grad = plus_items(&self.beta.grad, &g);
            proof {
                let (gs, hs) = (grad_output.flat, cache.x_hat.flat);
                assert forall|c: int| 0 <= c < channels implies plus_products_give(
                    old(self).gamma.grad@[c],
                    gs.col(c).take(r + 1),
                    hs.col(c).take(r + 1),
                    #[trigger] gamma_grad@[c],
                ) by {
                    lemma_plus_products_push(
                        old(self).gamma.grad@[c],
                        gs.col(c).take(r as int),
                        hs.col(c).take(r as int),
                        self.gamma.grad@[c],
                        g@[c],
                        x_hat@[c],
                        products@[c],
                        gamma_grad@[c],
                    );
                    assert(gs.col(c).take(r + 1) =~= gs.col(c).take(r as int).push(g@[c]));
                    assert(hs.col(c).take(r + 1) =~= hs.col(c).take(r as int).push(x_hat@[c]));
                }
                assert forall|c: int| 0 <= c < channels implies plus_each_gives(
                    old(self).beta.grad@[c],
                    gs.col(c).take(r + 1),
                    #[trigger] beta_grad@[c],
                ) by {
                    lemma_plus_each_push(
                        old(self).beta.grad@[c],
                        gs.col(c).take(r as int),
                        self.beta.grad@[c],
                        g@[c],
                        beta_grad@[c],
                    );
                    assert(gs.col(c).take(r + 1) =~= gs.col(c).take(r as int).push(g@[c]));
                }
            }
            self.gamma.grad = gamma_grad;
            self.beta.grad = beta_grad;
            let row = norm_row_backward(&g, &self.gamma.value, &x_hat, inv_std);
            rows.push(row);
            r = r + 1;
        }
        let ghost parts = rows@;
        let grad_input = Tensor3 {
            outer: grad_output.outer,
            inner: grad_output.inner,
            flat: Tensor2::from_rows(rows, channels),
        };
        proof {
            assert forall|c: int| 0 <= c < channels implies plus_products_give(
                old(self).gamma.grad@[c],
                grad_output.flat.col(c),
                cache.x_hat.flat.col(c),
                #[trigger] self.gamma.grad@[c],
            ) by {
                assert(grad_output.flat.col(c).take(count as int) =~= grad_output.flat.col(c));
                assert(cache.x_hat.flat.col(c).take(count as int) =~= cache.x_hat.flat.col(c));
            }
            assert forall|c: int| 0 <= c < channels implies plus_each_gives(
                old(self).beta.grad@[c],
                grad_output.flat.col(c),
                #[trigger] self.beta.grad@[c],
            ) by {
                assert(grad_output.flat.col(c).take(count as int) =~= grad_output.flat.col(c));
            }
            assert forall|k: int| 0 <= k < count implies #[trigger] norm_row_backward_gives(
                grad_output.flat.row(k),
                old(self).gamma.value@,
                cache.x_hat.flat.row(k),
                cache.inv_std.data@[k],
                grad_input.flat.row(k),
            ) by {
                assert(grad_input.flat.row(k) == parts[k]@);
            }
        }
        grad_input
    }

    /// Sets the gradients to zeros.
    pub fn zero_grad(&mut self)
        requires
            old(self).has_width(old(self).gamma.value@.len() as int),
        ensures
            layer_norm_grads_cleared(*old(self), *final(self)),
            final(self).has_width(old(self).gamma.value@.len() as int),
    {
        self.gamma.zero_grad();
        self.beta.zero_grad();
    }

    /// Applies an optimizer step.
    pub fn step(&mut self, step: AdamStep<T>)
        requires
            old(self).has_width(old(self).gamma.value@.len() as int),
        ensures
            layer_norm_step_gives(step, *old(self), *final(self)),
            final(self).has_width(old(self).gamma.value@.len() as int),
    {
        self.gamma.step(step);
        self.beta.step(step);
    }
}

} // verus!
