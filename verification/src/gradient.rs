//! What the gradients of a linear layer are, where the number type computes exactly.

use crate::exact::{
    all_finite, dot_of, is_exact, lemma_dot_exact, lemma_sum_exact, lemma_times_nought, total_of,
    Reading,
};
use crate::linear::{
    affine_gives, linear_backward_gives, linear_gives, plus_dot_gives, plus_sum_gives, Linear,
};
use crate::reduce::{dot_gives, sum_gives};
use crate::scalar::{plus_gives, Real};
use crate::tensor::{lemma_index_in_range, Tensor3};
use vstd::prelude::*;

verus! {

/// The sum of `f(0)` to `f(n - 1)`.
pub open spec fn series(n: nat, f: spec_fn(int) -> real) -> real
    decreases n,
{
    if n == 0 {
        0 as real
    } else {
        series((n - 1) as nat, f) + f(n - 1)
    }
}

/// Sums of the same numbers.
pub proof fn lemma_series_same(n: nat, f: spec_fn(int) -> real, g: spec_fn(int) -> real)
    requires
        forall|i: int| 0 <= i < n ==> #[trigger] f(i) == g(i),
    ensures
        series(n, f) == series(n, g),
    decreases n,
{
    if n > 0 {
        lemma_series_same((n - 1) as nat, f, g);
        assert(f(n - 1) == g(n - 1));
    }
}

/// A sum of sums.
pub proof fn lemma_series_plus(
    n: nat,
    f: spec_fn(int) -> real,
    g: spec_fn(int) -> real,
    h: spec_fn(int) -> real,
)
    requires
        forall|i: int| 0 <= i < n ==> #[trigger] h(i) == f(i) + g(i),
    ensures
        series(n, h) == series(n, f) + series(n, g),
    decreases n,
{
    if n > 0 {
        lemma_series_plus((n - 1) as nat, f, g, h);
        assert(h(n - 1) == f(n - 1) + g(n - 1));
    }
}

/// A sum of multiples.
pub proof fn lemma_series_times(n: nat, k: real, f: spec_fn(int) -> real, h: spec_fn(int) -> real)
    requires
        forall|i: int| 0 <= i < n ==> #[trigger] h(i) == k * f(i),
    ensures
        series(n, h) == k * series(n, f),
    decreases n,
{
    if n == 0 {
        lemma_times_nought(k);
    } else {
        lemma_series_times((n - 1) as nat, k, f, h);
        assert(h(n - 1) == k * f(n - 1));
        let (x, y) = (series((n - 1) as nat, f), f(n - 1));
        assert(k * (x + y) == k * x + k * y) by (nonlinear_arith);
    }
}

/// A double sum does not depend on the order of the two sums.
pub proof fn lemma_series_swap(n: nat, m: nat, h: spec_fn(int, int) -> real)
    ensures
        series(n, |i: int| series(m, |j: int| h(i, j))) == series(
            m,
            |j: int| series(n, |i: int| h(i, j)),
        ),
    decreases n,
{
    let columns = |j: int| series(n, |i: int| h(i, j));
    if n == 0 {
        lemma_series_times(m, 0 as real, columns, columns);
        let total = series(m, columns);
        assert((0 as real) * total == 0 as real) by (nonlinear_arith);
    } else {
        let less = (n - 1) as nat;
        lemma_series_swap(less, m, h);
        let shorter = |j: int| series(less, |i: int| h(i, j));
        let last = |j: int| h(n - 1, j);
        assert forall|j: int| 0 <= j < m implies #[trigger] columns(j) == shorter(j) + last(j) by {
            let f = |i: int| h(i, j);
            assert(series(n, f) == series(less, f) + f(n - 1));
        }
        lemma_series_plus(m, shorter, last, columns);
        let rows = |i: int| series(m, |j: int| h(i, j));
        assert(rows(n - 1) == series(m, last)) by {
            lemma_series_same(m, |j: int| h(n - 1, j), last);
        }
        assert(series(n, rows) == series(less, rows) + rows(n - 1));
    }
}

/// An inner product as a sum over positions.
pub proof fn lemma_dot_is_series<T>(read: Reading<T>, a: Seq<T>, b: Seq<T>)
    requires
        a.len() == b.len(),
    ensures
        dot_of(read, a, b) == series(a.len(), |i: int| (read.value)(a[i]) * (read.value)(b[i])),
    decreases a.len(),
{
    if a.len() > 0 {
        let less = (a.len() - 1) as nat;
        let (x, y) = (a.drop_last(), b.drop_last());
        lemma_dot_is_series(read, x, y);
        lemma_series_same(
            less,
            |i: int| (read.value)(x[i]) * (read.value)(y[i]),
            |i: int| (read.value)(a[i]) * (read.value)(b[i]),
        );
    }
}

/// What the row `r` of the gradient `g` and the output `y` of a layer have as inner product: a
/// sum over the outputs and the inputs of the layer, and a sum over its bias.
proof fn lemma_through_row<T: Real>(
    read: Reading<T>,
    layer: Linear<T>,
    input: Tensor3<T>,
    output: Tensor3<T>,
    g: Tensor3<T>,
    r: int,
)
    requires
        is_exact(read),
        layer.has_shape(layer.weight.value.rows as int, layer.weight.value.cols as int),
        input.has_shape(input.outer as int, input.inner as int, layer.weight.value.rows as int),
        g.has_shape(input.outer as int, input.inner as int, layer.weight.value.cols as int),
        linear_gives(layer, input, output),
        0 <= r < input.flat.rows,
        layer_is_finite(read, layer),
        all_finite(read, input.flat.row(r)),
        all_finite(read, g.flat.row(r)),
    ensures
        dot_of(read, g.flat.row(r), output.flat.row(r)) == series(
            layer.weight.value.cols as nat,
            |c: int|
                series(
                    layer.weight.value.rows as nat,
                    |i: int| term(read, layer, input, g, r, c, i),
                ),
        ) + series(layer.weight.value.cols as nat, |c: int| bias_term(read, layer, g, r, c)),
{
    let w = layer.weight.value;
    let (n_in, n_out) = (w.rows as nat, w.cols as nat);
    let (x_row, y_row, g_row) = (input.flat.row(r), output.flat.row(r), g.flat.row(r));
    let v = read.value;
    let bias = |c: int| bias_term(read, layer, g, r, c);
    let product = |c: int| series(n_in, |i: int| term(read, layer, input, g, r, c, i));
    let through = |c: int| v(g_row[c]) * v(y_row[c]);
    assert forall|c: int| 0 <= c < n_out implies #[trigger] through(c) == product(c) + bias(c) by {
        let col = w.col(c);
        assert(affine_gives(x_row, col, layer.bias_at(c), output.flat.at(r, c)));
        assert forall|i: int| 0 <= i < col.len() implies (read.finite)(#[trigger] col[i]) by {
            lemma_index_in_range(i, n_in as int, c, n_out as int);
            assert(col[i] == w.at(i, c));
        }
        let (k, terms) = (v(g_row[c]), |i: int| v(x_row[i]) * v(col[i]));
        lemma_dot_is_series(read, x_row, col);
        lemma_series_times(n_in, k, terms, |i: int| term(read, layer, input, g, r, c, i));
        let dot = dot_of(read, x_row, col);
        match layer.bias {
            Some(b) => {
                let p = choose|p: T| #[trigger]
                    dot_gives(x_row, col, p) && plus_gives(p, b.value@[c], output.flat.at(r, c));
                lemma_dot_exact(read, x_row, col, p);
                assert((read.finite)(b.value@[c]));
                let y = v(b.value@[c]);
                assert(k * (dot + y) == k * dot + k * y) by (nonlinear_arith);
            },
            None => {
                lemma_dot_exact(read, x_row, col, output.flat.at(r, c));
            },
        }
    }
    lemma_dot_is_series(read, g_row, y_row);
    lemma_series_same(n_out, |c: int| v(g_row[c]) * v(y_row[c]), through);
    lemma_series_plus(n_out, product, bias, through);
}

/// All weights of the layer, and its bias, stand for real numbers.
pub open spec fn layer_is_finite<T>(read: Reading<T>, layer: Linear<T>) -> bool {
    &&& all_finite(read, layer.weight.value.data@)
    &&& layer.bias matches Some(bias) ==> all_finite(read, bias.value@)
}

/// The product of a gradient, an input and a weight.
spec fn term<T>(
    read: Reading<T>,
    layer: Linear<T>,
    input: Tensor3<T>,
    g: Tensor3<T>,
    r: int,
    c: int,
    i: int,
) -> real {
    (read.value)(g.flat.row(r)[c]) * ((read.value)(input.flat.row(r)[i]) * (read.value)(
        layer.weight.value.at(i, c),
    ))
}

/// The product of a gradient and an entry of the bias, if there is one.
spec fn bias_term<T>(read: Reading<T>, layer: Linear<T>, g: Tensor3<T>, r: int, c: int) -> real {
    match layer.bias {
        Some(bias) => (read.value)(g.flat.row(r)[c]) * (read.value)(bias.value@[c]),
        None => 0 as real,
    }
}

/// What a linear layer hands back for its input is the slope along the input: whatever rows
/// `probe` go through the layer, the inner product of a row that comes out with the gradient of
/// the output is that of the row of `probe` with what was handed back, plus what the bias adds.
pub proof fn lemma_linear_input_gradient<T: Real>(
    read: Reading<T>,
    layer: Linear<T>,
    input: Tensor3<T>,
    probe: Tensor3<T>,
    output: Tensor3<T>,
    grad_output: Tensor3<T>,
    after: Linear<T>,
    grad_input: Tensor3<T>,
    r: int,
)
    requires
        is_exact(read),
        layer.has_shape(layer.weight.value.rows as int, layer.weight.value.cols as int),
        input.has_shape(input.outer as int, input.inner as int, layer.weight.value.rows as int),
        probe.has_shape(input.outer as int, input.inner as int, layer.weight.value.rows as int),
        grad_output.has_shape(
            input.outer as int,
            input.inner as int,
            layer.weight.value.cols as int,
        ),
        linear_gives(layer, probe, output),
        linear_backward_gives(layer, input, grad_output, after, grad_input),
        0 <= r < input.flat.rows,
        layer_is_finite(read, layer),
        all_finite(read, probe.flat.row(r)),
        all_finite(read, grad_output.flat.row(r)),
    ensures
        dot_of(read, grad_output.flat.row(r), output.flat.row(r)) == dot_of(
            read,
            probe.flat.row(r),
            grad_input.flat.row(r),
        ) + (match layer.bias {
            Some(bias) => dot_of(read, grad_output.flat.row(r), bias.value@),
            None => 0 as real,
        }),
{
    let w = layer.weight.value;
    let (n_in, n_out) = (w.rows as nat, w.cols as nat);
    let (x_row, g_row, d_row) = (probe.flat.row(r), grad_output.flat.row(r), grad_input.flat.row(r));
    let v = read.value;
    let h = |c: int, i: int| term(read, layer, probe, grad_output, r, c, i);
    let bias = |c: int| bias_term(read, layer, grad_output, r, c);
    lemma_through_row(read, layer, probe, output, grad_output, r);
    let product = |c: int|
        series(n_in, |i: int| term(read, layer, probe, grad_output, r, c, i));
    lemma_series_bias_absent(read, layer, grad_output, r);
    // Back through the layer, row by row.
    let back = |i: int| series(n_out, |c: int| h(c, i));
    let returned = |i: int| v(x_row[i]) * v(d_row[i]);
    assert forall|i: int| 0 <= i < n_in implies #[trigger] returned(i) == back(i) by {
        let line = w.row(i);
        assert(dot_gives(g_row, line, grad_input.flat.at(r, i)));
        assert forall|c: int| 0 <= c < line.len() implies (read.finite)(#[trigger] line[c]) by {
            lemma_index_in_range(i, n_in as int, c, n_out as int);
            assert(line[c] == w.at(i, c));
        }
        lemma_dot_exact(read, g_row, line, grad_input.flat.at(r, i));
        lemma_dot_is_series(read, g_row, line);
        let (k, terms) = (v(x_row[i]), |c: int| v(g_row[c]) * v(line[c]));
        assert forall|c: int| 0 <= c < n_out implies #[trigger] h(c, i) == k * terms(c) by {
            let (a, b) = (v(g_row[c]), v(w.at(i, c)));
            assert(line[c] == w.at(i, c));
            assert(a * (k * b) == k * (a * b)) by (nonlinear_arith);
        }
        lemma_series_times(n_out, k, terms, |c: int| h(c, i));
    }
    lemma_dot_is_series(read, x_row, d_row);
    lemma_series_same(n_in, |i: int| v(x_row[i]) * v(d_row[i]), returned);
    lemma_series_same(n_in, returned, back);
    lemma_series_swap(n_out, n_in, h);
    assert forall|c: int| 0 <= c < n_out implies #[trigger] product(c) == series(
        n_in,
        |i: int| h(c, i),
    ) by {
        lemma_series_same(
            n_in,
            |i: int| term(read, layer, probe, grad_output, r, c, i),
            |i: int| h(c, i),
        );
    }
    lemma_series_same(n_out, product, |c: int| series(n_in, |i: int| h(c, i)));
    lemma_series_same(n_in, back, |i: int| series(n_out, |c: int| h(c, i)));
    if let Some(b) = layer.bias {
        lemma_dot_is_series(read, g_row, b.value@);
        lemma_series_same(n_out, |c: int| v(g_row[c]) * v(b.value@[c]), bias);
    }
}

/// A layer without bias has nothing to add for it.
proof fn lemma_series_bias_absent<T>(read: Reading<T>, layer: Linear<T>, g: Tensor3<T>, r: int)
    ensures
        layer.bias is None ==> series(
            layer.weight.value.cols as nat,
            |c: int| bias_term(read, layer, g, r, c),
        ) == 0 as real,
{
    if layer.bias is None {
        let n_out = layer.weight.value.cols as nat;
        let bias = |c: int| bias_term(read, layer, g, r, c);
        lemma_series_times(n_out, 0 as real, bias, bias);
        let total = series(n_out, bias);
        assert((0 as real) * total == 0 as real) by (nonlinear_arith);
    }
}

/// A sum as a sum over positions.
pub proof fn lemma_total_is_series<T>(read: Reading<T>, items: Seq<T>)
    ensures
        total_of(read, items) == series(items.len(), |i: int| (read.value)(items[i])),
    decreases items.len(),
{
    if items.len() > 0 {
        let less = (items.len() - 1) as nat;
        let front = items.drop_last();
        lemma_total_is_series(read, front);
        lemma_series_same(less, |i: int| (read.value)(front[i]), |i: int| (read.value)(items[i]));
    }
}

/// A sum over three ranges does not depend on their order.
pub proof fn lemma_series_rotate(n: nat, m: nat, k: nat, h: spec_fn(int, int, int) -> real)
    ensures
        series(n, |r: int| series(m, |c: int| series(k, |i: int| h(r, c, i)))) == series(
            k,
            |i: int| series(m, |c: int| series(n, |r: int| h(r, c, i))),
        ),
{
    let inner = |r: int, i: int| series(m, |c: int| h(r, c, i));
    let start = |r: int| series(m, |c: int| series(k, |i: int| h(r, c, i)));
    let turned = |r: int| series(k, |i: int| inner(r, i));
    assert forall|r: int| 0 <= r < n implies #[trigger] start(r) == turned(r) by {
        let page = |c: int, i: int| h(r, c, i);
        lemma_series_swap(m, k, page);
        let (a, b) = (
            |c: int| series(k, |i: int| h(r, c, i)),
            |c: int| series(k, |i: int| page(c, i)),
        );
        assert forall|c: int| 0 <= c < m implies #[trigger] a(c) == b(c) by {
            lemma_series_same(k, |i: int| h(r, c, i), |i: int| page(c, i));
        }
        lemma_series_same(m, a, b);
        let (d, e) = (|i: int| series(m, |c: int| page(c, i)), |i: int| inner(r, i));
        assert forall|i: int| 0 <= i < k implies #[trigger] d(i) == e(i) by {
            lemma_series_same(m, |c: int| page(c, i), |c: int| h(r, c, i));
        }
        lemma_series_same(k, d, e);
    }
    lemma_series_same(n, start, turned);
    lemma_series_swap(n, k, inner);
    let (middle, end) = (
        |i: int| series(n, |r: int| inner(r, i)),
        |i: int| series(m, |c: int| series(n, |r: int| h(r, c, i))),
    );
    assert forall|i: int| 0 <= i < k implies #[trigger] middle(i) == end(i) by {
        let page = |r: int, c: int| h(r, c, i);
        lemma_series_swap(n, m, page);
        let (a, b) = (
            |r: int| inner(r, i),
            |r: int| series(m, |c: int| page(r, c)),
        );
        assert forall|r: int| 0 <= r < n implies #[trigger] a(r) == b(r) by {
            lemma_series_same(m, |c: int| h(r, c, i), |c: int| page(r, c));
        }
        lemma_series_same(n, a, b);
        let (d, e) = (
            |c: int| series(n, |r: int| page(r, c)),
            |c: int| series(n, |r: int| h(r, c, i)),
        );
        assert forall|c: int| 0 <= c < m implies #[trigger] d(c) == e(c) by {
            lemma_series_same(n, |r: int| page(r, c), |r: int| h(r, c, i));
        }
        lemma_series_same(m, d, e);
    }
    lemma_series_same(k, middle, end);
}

/// What going back through a layer added to the gradient of the weight `(i, c)`.
pub open spec fn weight_gain<T>(
    read: Reading<T>,
    before: Linear<T>,
    after: Linear<T>,
    i: int,
    c: int,
) -> real {
    (read.value)(after.weight.grad.at(i, c)) - (read.value)(before.weight.grad.at(i, c))
}

/// What going back through a layer added to the gradient of entry `c` of the bias.
pub open spec fn bias_gain<T>(read: Reading<T>, before: Linear<T>, after: Linear<T>, c: int) -> real {
    (read.value)(after.bias->0.grad@[c]) - (read.value)(before.bias->0.grad@[c])
}

/// What going back adds to the gradient of a weight: the inner product of a column of the input
/// and a column of the gradient of the output.
pub proof fn lemma_weight_gain<T: Real>(
    read: Reading<T>,
    layer: Linear<T>,
    input: Tensor3<T>,
    g: Tensor3<T>,
    after: Linear<T>,
    grad_input: Tensor3<T>,
    i: int,
    c: int,
)
    requires
        is_exact(read),
        layer.has_shape(layer.weight.value.rows as int, layer.weight.value.cols as int),
        input.has_shape(input.outer as int, input.inner as int, layer.weight.value.rows as int),
        g.has_shape(input.outer as int, input.inner as int, layer.weight.value.cols as int),
        linear_backward_gives(layer, input, g, after, grad_input),
        all_finite(read, input.flat.data@),
        all_finite(read, g.flat.data@),
        all_finite(read, layer.weight.grad.data@),
        0 <= i < layer.weight.value.rows,
        0 <= c < layer.weight.value.cols,
    ensures
        weight_gain(read, layer, after, i, c) == dot_of(
            read,
            input.flat.col(i),
            g.flat.col(c),
        ),
{
    let (x_col, g_col) = (input.flat.col(i), g.flat.col(c));
    let n = input.flat.rows as int;
    assert forall|r: int| 0 <= r < x_col.len() implies (read.finite)(#[trigger] x_col[r]) by {
        lemma_index_in_range(r, n, i, input.flat.cols as int);
        assert(x_col[r] == input.flat.at(r, i));
    }
    assert forall|r: int| 0 <= r < g_col.len() implies (read.finite)(#[trigger] g_col[r]) by {
        lemma_index_in_range(r, n, c, g.flat.cols as int);
        assert(g_col[r] == g.flat.at(r, c));
    }
    let (x, y) = (layer.weight.grad.at(i, c), after.weight.grad.at(i, c));
    lemma_index_in_range(
        i,
        layer.weight.value.rows as int,
        c,
        layer.weight.value.cols as int,
    );
    assert((read.finite)(x));
    assert(plus_dot_gives(x, x_col, g_col, y));
    let product = choose|product: T| #[trigger]
        dot_gives(x_col, g_col, product) && plus_gives(x, product, y);
    lemma_dot_exact(read, x_col, g_col, product);
}

/// What going back adds to the gradient of an entry of the bias: the sum of a column of the
/// gradient of the output.
pub proof fn lemma_bias_gain<T: Real>(
    read: Reading<T>,
    layer: Linear<T>,
    input: Tensor3<T>,
    g: Tensor3<T>,
    after: Linear<T>,
    grad_input: Tensor3<T>,
    c: int,
)
    requires
        is_exact(read),
        layer.has_shape(layer.weight.value.rows as int, layer.weight.value.cols as int),
        layer.bias is Some,
        all_finite(read, layer.bias->0.grad@),
        g.has_shape(input.outer as int, input.inner as int, layer.weight.value.cols as int),
        linear_backward_gives(layer, input, g, after, grad_input),
        all_finite(read, g.flat.data@),
        0 <= c < layer.weight.value.cols,
    ensures
        bias_gain(read, layer, after, c) == total_of(read, g.flat.col(c)),
{
    let g_col = g.flat.col(c);
    assert forall|r: int| 0 <= r < g_col.len() implies (read.finite)(#[trigger] g_col[r]) by {
        lemma_index_in_range(r, g.flat.rows as int, c, g.flat.cols as int);
        assert(g_col[r] == g.flat.at(r, c));
    }
    let (x, y) = (layer.bias->0.grad@[c], after.bias->0.grad@[c]);
    assert((read.finite)(x));
    assert(plus_sum_gives(x, g_col, y));
    let total = choose|total: T| #[trigger] sum_gives(g_col, total) && plus_gives(x, total, y);
    lemma_sum_exact(read, g_col, total);
}

/// What a linear layer adds to the gradients of its parameters is the slope along them: whatever
/// weights and bias the layer `probe` has, the inner products of the rows that it makes of the
/// input with the gradients of the output sum to its weights, each times what was added to the
/// gradient of that weight, plus its bias times what was added to the gradient of the bias.
pub proof fn lemma_linear_parameter_gradient<T: Real>(
    read: Reading<T>,
    layer: Linear<T>,
    probe: Linear<T>,
    input: Tensor3<T>,
    output: Tensor3<T>,
    grad_output: Tensor3<T>,
    after: Linear<T>,
    grad_input: Tensor3<T>,
)
    requires
        is_exact(read),
        layer.has_shape(layer.weight.value.rows as int, layer.weight.value.cols as int),
        probe.has_shape(layer.weight.value.rows as int, layer.weight.value.cols as int),
        probe.bias is Some == layer.bias is Some,
        input.has_shape(input.outer as int, input.inner as int, layer.weight.value.rows as int),
        grad_output.has_shape(
            input.outer as int,
            input.inner as int,
            layer.weight.value.cols as int,
        ),
        linear_gives(probe, input, output),
        linear_backward_gives(layer, input, grad_output, after, grad_input),
        layer_is_finite(read, probe),
        all_finite(read, input.flat.data@),
        all_finite(read, grad_output.flat.data@),
        all_finite(read, layer.weight.grad.data@),
        layer.bias matches Some(bias) ==> all_finite(read, bias.grad@),
    ensures
        series(
            input.flat.rows as nat,
            |r: int| dot_of(read, grad_output.flat.row(r), output.flat.row(r)),
        ) == series(
            layer.weight.value.rows as nat,
            |i: int|
                series(
                    layer.weight.value.cols as nat,
                    |c: int|
                        (read.value)(probe.weight.value.at(i, c)) * weight_gain(
                            read,
                            layer,
                            after,
                            i,
                            c,
                        ),
                ),
        ) + (match probe.bias {
            Some(bias) => series(
                layer.weight.value.cols as nat,
                |c: int| (read.value)(bias.value@[c]) * bias_gain(read, layer, after, c),
            ),
            None => 0 as real,
        }),
{
    let g = grad_output;
    let w = probe.weight.value;
    let v = read.value;
    let (n, n_in, n_out) = (input.flat.rows as nat, w.rows as nat, w.cols as nat);
    assert forall|r: int, i: int| 0 <= r < n && 0 <= i < n_in implies (read.finite)(
        #[trigger] input.flat.at(r, i),
    ) by {
        lemma_index_in_range(r, n as int, i, n_in as int);
    }
    assert forall|r: int, c: int| 0 <= r < n && 0 <= c < n_out implies (read.finite)(
        #[trigger] g.flat.at(r, c),
    ) by {
        lemma_index_in_range(r, n as int, c, n_out as int);
    }
    // Row by row.
    let h = |r: int, c: int, i: int| term(read, probe, input, g, r, c, i);
    let products = |r: int| series(n_out, |c: int| series(n_in, |i: int| h(r, c, i)));
    let b = |r: int, c: int| bias_term(read, probe, g, r, c);
    let shifts = |r: int| series(n_out, |c: int| b(r, c));
    let rows = |r: int| dot_of(read, g.flat.row(r), output.flat.row(r));
    assert forall|r: int| 0 <= r < n implies #[trigger] rows(r) == products(r) + shifts(r) by {
        assert forall|i: int| 0 <= i < n_in implies (read.finite)(
            #[trigger] input.flat.row(r)[i],
        ) by {
            assert(input.flat.row(r)[i] == input.flat.at(r, i));
        }
        assert forall|c: int| 0 <= c < n_out implies (read.finite)(#[trigger] g.flat.row(r)[c]) by {
            assert(g.flat.row(r)[c] == g.flat.at(r, c));
        }
        lemma_through_row(read, probe, input, output, g, r);
        let (x, y) = (
            |c: int| series(n_in, |i: int| term(read, probe, input, g, r, c, i)),
            |c: int| series(n_in, |i: int| h(r, c, i)),
        );
        assert forall|c: int| 0 <= c < n_out implies #[trigger] x(c) == y(c) by {
            lemma_series_same(
                n_in,
                |i: int| term(read, probe, input, g, r, c, i),
                |i: int| h(r, c, i),
            );
        }
        lemma_series_same(n_out, x, y);
        lemma_series_same(n_out, |c: int| bias_term(read, probe, g, r, c), |c: int| b(r, c));
    }
    lemma_series_plus(n, products, shifts, rows);
    lemma_series_rotate(n, n_out, n_in, h);
    // Weight by weight.
    let (sums, wanted) = (
        |i: int| series(n_out, |c: int| series(n, |r: int| h(r, c, i))),
        |i: int| series(n_out, |c: int| v(w.at(i, c)) * weight_gain(read, layer, after, i, c)),
    );
    assert forall|i: int| 0 <= i < n_in implies #[trigger] sums(i) == wanted(i) by {
        let (p, q) = (
            |c: int| series(n, |r: int| h(r, c, i)),
            |c: int| v(w.at(i, c)) * weight_gain(read, layer, after, i, c),
        );
        assert forall|c: int| 0 <= c < n_out implies #[trigger] p(c) == q(c) by {
            lemma_weight_gain(read, layer, input, g, after, grad_input, i, c);
            let (x_col, g_col) = (input.flat.col(i), g.flat.col(c));
            let (k, f) = (v(w.at(i, c)), |r: int| v(x_col[r]) * v(g_col[r]));
            lemma_dot_is_series(read, x_col, g_col);
            let page = |r: int| h(r, c, i);
            assert forall|r: int| 0 <= r < n implies #[trigger] page(r) == k * f(r) by {
                assert(x_col[r] == input.flat.at(r, i));
                assert(g_col[r] == g.flat.at(r, c));
                let (x, y) = (v(input.flat.at(r, i)), v(g.flat.at(r, c)));
                assert(y * (x * k) == k * (x * y)) by (nonlinear_arith);
            }
            lemma_series_times(n, k, f, page);
            lemma_series_same(n, page, |r: int| h(r, c, i));
        }
        lemma_series_same(n_out, p, q);
    }
    lemma_series_same(n_in, sums, wanted);
    // The bias.
    lemma_series_swap(n, n_out, b);
    let columns = |c: int| series(n, |r: int| b(r, c));
    match probe.bias {
        Some(bias) => {
            let q = |c: int| v(bias.value@[c]) * bias_gain(read, layer, after, c);
            assert forall|c: int| 0 <= c < n_out implies #[trigger] columns(c) == q(c) by {
                lemma_bias_gain(read, layer, input, g, after, grad_input, c);
                let g_col = g.flat.col(c);
                let (k, f) = (v(bias.value@[c]), |r: int| v(g_col[r]));
                lemma_total_is_series(read, g_col);
                let page = |r: int| b(r, c);
                assert forall|r: int| 0 <= r < n implies #[trigger] page(r) == k * f(r) by {
                    assert(g_col[r] == g.flat.at(r, c));
                    let y = v(g.flat.at(r, c));
                    assert(y * k == k * y) by (nonlinear_arith);
                }
                lemma_series_times(n, k, f, page);
                lemma_series_same(n, page, |r: int| b(r, c));
            }
            lemma_series_same(n_out, columns, q);
        },
        None => {
            assert forall|r: int| 0 <= r < n implies #[trigger] shifts(r) == (0 as real) * shifts(
                r,
            ) by {
                lemma_series_bias_absent(read, probe, g, r);
                lemma_series_same(
                    n_out,
                    |c: int| bias_term(read, probe, g, r, c),
                    |c: int| b(r, c),
                );
            }
            lemma_series_times(n, 0 as real, shifts, shifts);
            let total = series(n, shifts);
            assert((0 as real) * total == 0 as real) by (nonlinear_arith);
        },
    }
}

} // verus!
