//! Going back through a layer and forth along a direction: the inner product of the gradient of
//! what came out with how it changes is that of the gradient of what went in with how that
//! changes, plus what was added to the gradients of the parameters times how those change.

use crate::dropout::dropout_backward_gives;
use crate::elementwise::plus_tensor_gives;
use crate::exact::{all_finite, is_exact, lemma_dot_exact, lemma_times_nought, Reading};
use crate::feed_forward::{gate_gives, gate_tensor_gives};
use crate::finite::norm_values_finite;
use crate::gradient::{
    bias_gain, lemma_bias_gain, lemma_dot_is_series, lemma_series_same, lemma_series_times,
    lemma_total_is_series, lemma_weight_gain, series, weight_gain,
};
use crate::layer_norm::{
    layer_norm_backward_gives, layer_norm_gives, norm_row_backward_gives, normalized_row_gives,
    LayerNorm, LayerNormCache,
};
use crate::linear::{linear_backward_gives, Linear};
use crate::norm_tangent::{
    lemma_norm_gradient, lemma_norm_parameter_gradient, lemma_row_root, normalized_tangent,
};
use crate::pairing::{
    cells, column_pair, lemma_pair_columns, lemma_pair_plus, lemma_pair_rows, lemma_pair_same,
    lemma_plus_pair, lemma_product_slope, lemma_series_nought, pair, product_tangent, row_pair,
    stack_pair, table_sum, Table,
};
use crate::reduce::dot_gives;
use crate::scalar::{plus_gives, times_gives, Real};
use crate::scaling::{
    lemma_dropout_scales, lemma_gate_scales, lemma_linear_scales, lemma_norm_scales,
    lemma_parts_finite, lemma_plus_tensor_scales, lemma_stack_like_itself, linear_finite,
    linear_grads_finite, mask_finite, norm_cache_finite, norm_grads_finite, stack_finite,
    vector_gain,
};
use crate::tangent::{lemma_distribute, lemma_regroup, relu_tangent};
use crate::tensor::{lemma_index_in_range, Tensor3};
use vstd::prelude::*;

verus! {

/// How the parameters of a linear layer change.
pub ghost struct LinearDirection {
    pub weight: Table,
    pub bias: spec_fn(int) -> real,
}

/// How the parameters of a normalization change.
pub ghost struct NormDirection {
    pub gamma: spec_fn(int) -> real,
    pub beta: spec_fn(int) -> real,
}

/// How the output of a linear layer changes where its input changes by `d`.
pub open spec fn linear_tangent<T>(
    read: Reading<T>,
    layer: Linear<T>,
    input: Tensor3<T>,
    dir: LinearDirection,
    d: Table,
) -> Table {
    table_sum(
        product_tangent(
            layer.weight.value.rows as nat,
            cells(read, input.flat),
            cells(read, layer.weight.value),
            d,
            dir.weight,
        ),
        |r: int, c: int|
            if layer.bias is Some {
                (dir.bias)(c)
            } else {
                0 as real
            },
    )
}

/// What going back added to the gradients of the weights.
pub open spec fn weight_gains<T>(read: Reading<T>, before: Linear<T>, after: Linear<T>) -> Table {
    |i: int, c: int| weight_gain(read, before, after, i, c)
}

/// What going back added to the gradients of a linear layer, times how its parameters change.
pub open spec fn linear_slope<T>(
    read: Reading<T>,
    before: Linear<T>,
    after: Linear<T>,
    dir: LinearDirection,
) -> real {
    pair(
        before.weight.value.rows as nat,
        before.weight.value.cols as nat,
        weight_gains(read, before, after),
        dir.weight,
    ) + (if before.bias is Some {
        series(
            before.weight.value.cols as nat,
            |c: int| bias_gain(read, before, after, c) * (dir.bias)(c),
        )
    } else {
        0 as real
    })
}

/// The gradients of a linear layer are slopes.
pub proof fn lemma_linear_slope<T: Real>(
    read: Reading<T>,
    layer: Linear<T>,
    input: Tensor3<T>,
    g: Tensor3<T>,
    after: Linear<T>,
    grad_input: Tensor3<T>,
    dir: LinearDirection,
    d: Table,
)
    requires
        is_exact(read),
        layer.wf(),
        linear_finite(read, layer),
        stack_finite(read, input),
        stack_finite(read, g),
        input.flat.cols == layer.weight.value.rows,
        input.outer == g.outer,
        input.inner == g.inner,
        g.flat.cols == layer.weight.value.cols,
        linear_backward_gives(layer, input, g, after, grad_input),
    ensures
        stack_pair(read, g, linear_tangent(read, layer, input, dir, d)) == stack_pair(
            read,
            grad_input,
            d,
        ) + linear_slope(read, layer, after, dir),
        stack_finite(read, grad_input),
        grad_input.same_shape(input),
        linear_grads_finite(read, after),
{
    let v = read.value;
    let w = layer.weight.value;
    let (n, k, m) = (input.flat.rows as nat, w.rows as nat, w.cols as nat);
    lemma_stack_like_itself(read, g);
    lemma_linear_scales(
        read,
        1 as real,
        layer,
        layer,
        input,
        g,
        g,
        after,
        after,
        grad_input,
        grad_input,
    );
    lemma_parts_finite(read, input);
    lemma_parts_finite(read, g);
    let (x, wt, gt) = (cells(read, input.flat), cells(read, w), cells(read, g.flat));
    let (gx, gw) = (cells(read, grad_input.flat), weight_gains(read, layer, after));
    assert forall|r: int, i: int| 0 <= r < n && 0 <= i < k implies #[trigger] gx(r, i) == series(
        m,
        |c: int| gt(r, c) * wt(i, c),
    ) by {
        let (g_row, line) = (g.flat.row(r), w.row(i));
        assert(dot_gives(g_row, line, grad_input.flat.at(r, i)));
        assert forall|c: int| 0 <= c < line.len() implies (read.finite)(#[trigger] line[c]) by {
            lemma_index_in_range(i, k as int, c, m as int);
            assert(line[c] == w.at(i, c));
        }
        lemma_dot_exact(read, g_row, line, grad_input.flat.at(r, i));
        lemma_dot_is_series(read, g_row, line);
        lemma_series_same(m, |c: int| v(g_row[c]) * v(line[c]), |c: int| gt(r, c) * wt(i, c));
    }
    assert forall|i: int, c: int| 0 <= i < k && 0 <= c < m implies #[trigger] gw(i, c) == series(
        n,
        |r: int| x(r, i) * gt(r, c),
    ) by {
        let (x_col, g_col) = (input.flat.col(i), g.flat.col(c));
        lemma_weight_gain(read, layer, input, g, after, grad_input, i, c);
        lemma_dot_is_series(read, x_col, g_col);
        lemma_series_same(n, |r: int| v(x_col[r]) * v(g_col[r]), |r: int| x(r, i) * gt(r, c));
    }
    lemma_product_slope(n, k, m, x, wt, d, dir.weight, gt, gx, gw);
    let shift = |r: int, c: int|
        if layer.bias is Some {
            (dir.bias)(c)
        } else {
            0 as real
        };
    lemma_pair_plus(n, m, gt, product_tangent(k, x, wt, d, dir.weight), shift);
    lemma_pair_columns(n, m, gt, shift);
    let columns = |c: int| column_pair(n, gt, shift, c);
    match layer.bias {
        Some(_) => {
            let gains = |c: int| bias_gain(read, layer, after, c) * (dir.bias)(c);
            assert forall|c: int| 0 <= c < m implies #[trigger] columns(c) == gains(c) by {
                lemma_bias_gain(read, layer, input, g, after, grad_input, c);
                let g_col = g.flat.col(c);
                lemma_total_is_series(read, g_col);
                let (f, h) = (|r: int| v(g_col[r]), |r: int| gt(r, c) * shift(r, c));
                assert forall|r: int| 0 <= r < n implies #[trigger] h(r) == (dir.bias)(c) * f(
                    r,
                ) by {
                    lemma_distribute(gt(r, c), shift(r, c), 0 as real);
                }
                lemma_series_times(n, (dir.bias)(c), f, h);
                lemma_distribute(bias_gain(read, layer, after, c), (dir.bias)(c), 0 as real);
            }
            lemma_series_same(m, columns, gains);
        },
        None => {
            assert forall|c: int| 0 <= c < m implies #[trigger] columns(c) == 0 as real by {
                let h = |r: int| gt(r, c) * shift(r, c);
                assert forall|r: int| 0 <= r < n implies #[trigger] h(r) == 0 as real by {
                    lemma_times_nought(gt(r, c));
                }
                lemma_series_nought(n, h);
            }
            lemma_series_nought(m, columns);
        },
    }
}

/// How a stack changes that is multiplied by a mask, or left as it is.
pub open spec fn masked<T>(read: Reading<T>, mask: Option<Tensor3<T>>, d: Table) -> Table {
    |r: int, c: int|
        match mask {
            Some(mask) => (read.value)(mask.flat.at(r, c)) * d(r, c),
            None => d(r, c),
        }
}

/// The gradient that dropout hands back is a slope.
pub proof fn lemma_dropout_slope<T: Real>(
    read: Reading<T>,
    mask: Option<Tensor3<T>>,
    g: Tensor3<T>,
    grad: Tensor3<T>,
    d: Table,
)
    requires
        is_exact(read),
        mask_finite(read, mask, g),
        stack_finite(read, g),
        dropout_backward_gives(mask, g, grad),
    ensures
        stack_pair(read, g, masked(read, mask, d)) == stack_pair(read, grad, d),
        stack_finite(read, grad),
        grad.same_shape(g),
{
    let (n, m) = (g.flat.rows as nat, g.flat.cols as nat);
    let (a, b, e) = (cells(read, g.flat), cells(read, grad.flat), masked(read, mask, d));
    lemma_stack_like_itself(read, g);
    lemma_dropout_scales(read, 1 as real, mask, g, g, grad, grad);
    assert forall|r: int, c: int| 0 <= r < n && 0 <= c < m implies a(r, c) * e(r, c) == (
    #[trigger] b(r, c)) * d(r, c) by {
        lemma_index_in_range(r, n as int, c, m as int);
        let i: int = r * m + c;
        assert((read.finite)(g.flat.data@[i]));
        match mask {
            Some(mask) => {
                assert((read.finite)(mask.flat.data@[i]));
                assert(times_gives(g.flat.data@[i], mask.flat.data@[i], grad.flat.data@[i]));
                lemma_regroup(a(r, c), (read.value)(mask.flat.at(r, c)), d(r, c));
            },
            None => {},
        }
    }
    lemma_pair_same(n, m, b, d, a, e);
}

/// How a stack changes that the negative numbers are taken out of.
pub open spec fn gated<T>(read: Reading<T>, pre: Tensor3<T>, d: Table) -> Table {
    |r: int, c: int| relu_tangent((read.value)(pre.flat.at(r, c)), d(r, c))
}

/// The gradient that the rectifier of a feed-forward network hands back is a slope.
pub proof fn lemma_gate_slope<T: Real>(
    read: Reading<T>,
    pre: Tensor3<T>,
    g: Tensor3<T>,
    grad: Tensor3<T>,
    d: Table,
)
    requires
        is_exact(read),
        stack_finite(read, pre),
        stack_finite(read, g),
        pre.same_shape(g),
        gate_tensor_gives(pre, g, grad),
    ensures
        stack_pair(read, g, gated(read, pre, d)) == stack_pair(read, grad, d),
        stack_finite(read, grad),
        grad.same_shape(g),
{
    let (n, m) = (g.flat.rows as nat, g.flat.cols as nat);
    let (a, b, e) = (cells(read, g.flat), cells(read, grad.flat), gated(read, pre, d));
    lemma_stack_like_itself(read, g);
    lemma_gate_scales(read, 1 as real, pre, g, g, grad, grad);
    assert forall|r: int, c: int| 0 <= r < n && 0 <= c < m implies a(r, c) * e(r, c) == (
    #[trigger] b(r, c)) * d(r, c) by {
        lemma_index_in_range(r, n as int, c, m as int);
        let i: int = r * m + c;
        assert((read.finite)(g.flat.data@[i]));
        assert((read.finite)(pre.flat.data@[i]));
        assert(gate_gives(pre.flat.data@[i], g.flat.data@[i], grad.flat.data@[i]));
        lemma_times_nought(a(r, c));
        lemma_times_nought(d(r, c));
        lemma_distribute(b(r, c), d(r, c), 0 as real);
    }
    lemma_pair_same(n, m, b, d, a, e);
}

/// How the output of a normalization changes where its input changes by `d`.
pub open spec fn layer_norm_tangent<T>(
    read: Reading<T>,
    layer: LayerNorm<T>,
    input: Tensor3<T>,
    cache: LayerNormCache<T>,
    dir: NormDirection,
    d: Table,
) -> Table {
    table_sum(
        |r: int, c: int|
            (read.value)(layer.gamma.value@[c]) * normalized_tangent(
                input.flat.row(r).len(),
                |k: int| (read.value)(input.flat.row(r)[k]),
                |k: int| d(r, k),
                1 as real / (read.value)(cache.inv_std.data@[r]),
                c,
            ),
        |r: int, c: int|
            (dir.gamma)(c) * (read.value)(cache.x_hat.flat.at(r, c)) + (dir.beta)(c),
    )
}

/// What going back added to the gradients of a normalization, times how its parameters change.
pub open spec fn norm_slope<T>(
    read: Reading<T>,
    before: LayerNorm<T>,
    after: LayerNorm<T>,
    dir: NormDirection,
) -> real {
    series(
        before.gamma.value@.len(),
        |c: int|
            (dir.gamma)(c) * vector_gain(read, before.gamma, after.gamma, c) + (dir.beta)(c)
                * vector_gain(read, before.beta, after.beta, c),
    )
}

/// The gradients of a normalization are slopes.
pub proof fn lemma_norm_slope<T: Real>(
    read: Reading<T>,
    layer: LayerNorm<T>,
    input: Tensor3<T>,
    output: Tensor3<T>,
    cache: LayerNormCache<T>,
    g: Tensor3<T>,
    after: LayerNorm<T>,
    grad_input: Tensor3<T>,
    dir: NormDirection,
    d: Table,
)
    requires
        is_exact(read),
        layer.has_width(g.flat.cols as int),
        g.flat.cols > 0,
        norm_values_finite(read, layer),
        norm_grads_finite(read, layer),
        stack_finite(read, input),
        stack_finite(read, g),
        input.same_shape(g),
        norm_cache_finite(read, cache),
        layer_norm_gives(layer, input, output, cache),
        layer_norm_backward_gives(layer, cache, g, after, grad_input),
    ensures
        stack_pair(read, g, layer_norm_tangent(read, layer, input, cache, dir, d)) == stack_pair(
            read,
            grad_input,
            d,
        ) + norm_slope(read, layer, after, dir),
        stack_finite(read, grad_input),
        grad_input.same_shape(g),
        norm_grads_finite(read, after),
{
    let v = read.value;
    let (n, m) = (g.flat.rows as nat, g.flat.cols as nat);
    lemma_stack_like_itself(read, g);
    lemma_norm_scales(
        read,
        1 as real,
        layer,
        layer,
        cache,
        g,
        g,
        after,
        after,
        grad_input,
        grad_input,
    );
    lemma_parts_finite(read, input);
    lemma_parts_finite(read, g);
    let gt = cells(read, g.flat);
    let through = |r: int, c: int|
        v(layer.gamma.value@[c]) * normalized_tangent(
            input.flat.row(r).len(),
            |k: int| v(input.flat.row(r)[k]),
            |k: int| d(r, k),
            1 as real / v(cache.inv_std.data@[r]),
            c,
        );
    let own = |r: int, c: int| (dir.gamma)(c) * v(cache.x_hat.flat.at(r, c)) + (dir.beta)(c);
    assert(layer_norm_tangent(read, layer, input, cache, dir, d) == table_sum(through, own));
    lemma_pair_plus(n, m, gt, through, own);
    // The input, row by row.
    let gx = cells(read, grad_input.flat);
    assert forall|r: int| 0 <= r < n implies #[trigger] row_pair(m, gt, through, r) == row_pair(
        m,
        gx,
        d,
        r,
    ) by {
        let (items, x_hat, inv) = (
            input.flat.row(r),
            cache.x_hat.flat.row(r),
            cache.inv_std.data@[r],
        );
        let (g_row, out) = (g.flat.row(r), grad_input.flat.row(r));
        let gamma = layer.gamma.value@;
        let e = |k: int| d(r, k);
        assert(normalized_row_gives(items, layer.eps, x_hat, inv));
        assert(norm_row_backward_gives(g_row, gamma, x_hat, inv, out));
        assert(all_finite(read, items));
        assert(all_finite(read, g_row));
        lemma_row_root(read, items, layer.eps, x_hat, inv);
        let root = 1 as real / v(inv);
        lemma_norm_gradient(read, items, layer.eps, x_hat, inv, gamma, g_row, out, root, e);
        lemma_series_same(
            m,
            |c: int|
                v(g_row[c]) * (v(gamma[c]) * normalized_tangent(
                    items.len(),
                    |k: int| v(items[k]),
                    e,
                    root,
                    c,
                )),
            |c: int| gt(r, c) * through(r, c),
        );
        lemma_series_same(m, |c: int| v(out[c]) * e(c), |c: int| gx(r, c) * d(r, c));
    }
    lemma_pair_rows(n, m, m, gt, through, gx, d);
    // The parameters, column by column.
    lemma_pair_columns(n, m, gt, own);
    let (columns, gains) = (
        |c: int| column_pair(n, gt, own, c),
        |c: int|
            (dir.gamma)(c) * vector_gain(read, layer.gamma, after.gamma, c) + (dir.beta)(c)
                * vector_gain(read, layer.beta, after.beta, c),
    );
    assert forall|c: int| 0 <= c < m implies #[trigger] columns(c) == gains(c) by {
        let (a, b) = ((dir.gamma)(c), (dir.beta)(c));
        lemma_norm_parameter_gradient(read, layer, cache, g, after, grad_input, c, a, b);
        lemma_series_same(
            n,
            |r: int| v(g.flat.at(r, c)) * (a * v(cache.x_hat.flat.at(r, c)) + b),
            |r: int| gt(r, c) * own(r, c),
        );
    }
    lemma_series_same(m, columns, gains);
}

/// Two gradients that are added up.
pub proof fn lemma_plus_slope<T: Real>(
    read: Reading<T>,
    x: Tensor3<T>,
    y: Tensor3<T>,
    sum: Tensor3<T>,
    d: Table,
)
    requires
        is_exact(read),
        stack_finite(read, x),
        stack_finite(read, y),
        x.same_shape(y),
        plus_tensor_gives(x, y, sum),
    ensures
        stack_pair(read, sum, d) == stack_pair(read, x, d) + stack_pair(read, y, d),
        stack_finite(read, sum),
        sum.same_shape(x),
{
    let (n, m) = (x.flat.rows as nat, x.flat.cols as nat);
    let (a, b, s) = (cells(read, x.flat), cells(read, y.flat), cells(read, sum.flat));
    lemma_stack_like_itself(read, x);
    lemma_stack_like_itself(read, y);
    lemma_plus_tensor_scales(read, 1 as real, x, x, y, y, sum, sum);
    let t = table_sum(a, b);
    assert forall|r: int, c: int| 0 <= r < n && 0 <= c < m implies (#[trigger] s(r, c)) * d(r, c)
        == t(r, c) * d(r, c) by {
        lemma_index_in_range(r, n as int, c, m as int);
        let i: int = r * m + c;
        assert((read.finite)(x.flat.data@[i]) && (read.finite)(y.flat.data@[i]));
        assert(plus_gives(x.flat.data@[i], y.flat.data@[i], sum.flat.data@[i]));
    }
    assert forall|r: int, c: int| 0 <= r < n && 0 <= c < m implies (#[trigger] t(r, c)) * d(r, c)
        == s(r, c) * d(r, c) by {
        assert(s(r, c) * d(r, c) == t(r, c) * d(r, c));
    }
    lemma_pair_same(n, m, s, d, t, d);
    lemma_plus_pair(n, m, a, b, d);
}

} // verus!
