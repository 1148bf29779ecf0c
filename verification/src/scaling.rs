//! Going back is linear: where the number type computes exactly, gradients that are `k` times as
//! large make every layer hand back, and add to its gradients, `k` times as much.

use crate::dropout::dropout_backward_gives;
use crate::elementwise::{items_times_give, plus_tensor_gives};
use crate::exact::{
    all_finite, dot_of, is_exact, lemma_dot_exact, lemma_sum_exact, lemma_times_nought,
    lemma_total_of_multiples, total_of, Reading,
};
use crate::feed_forward::{gate_gives, gate_tensor_gives};
use crate::gradient::{bias_gain, layer_is_finite, lemma_bias_gain, lemma_weight_gain, weight_gain};
use crate::laws::{linear_same_but_grads, norm_same_but_grads};
use crate::layer_norm::{
    layer_norm_backward_gives, norm_grad_entry_gives, norm_row_backward_gives, norm_row_sums_give,
    plus_each_gives, plus_products_give, LayerNorm, LayerNormCache,
};
use crate::linear::{linear_backward_gives, plus_dot_gives, plus_sum_gives, Linear};
use crate::optim::Param1D;
use crate::reduce::{dot_gives, sum_gives};
use crate::scalar::{count_gives, minus_gives, over_gives, plus_gives, times_gives, Real};
use crate::tensor::{lemma_index_in_range, lemma_split_index, Tensor3};
use vstd::prelude::*;

verus! {

/// The items of `b` are `k` times those of `a`.
pub open spec fn scaled<T>(read: Reading<T>, a: Seq<T>, b: Seq<T>, k: real) -> bool {
    &&& a.len() == b.len()
    &&& all_finite(read, a)
    &&& all_finite(read, b)
    &&& forall|i: int|
        #![trigger a[i]]
        #![trigger b[i]]
        0 <= i < a.len() ==> (read.value)(b[i]) == k * (read.value)(a[i])
}

/// The number `b` is `k` times `a`.
pub open spec fn one_scaled<T>(read: Reading<T>, a: T, b: T, k: real) -> bool {
    (read.finite)(a) && (read.finite)(b) && (read.value)(b) == k * (read.value)(a)
}

/// The entries of `y` are `k` times those of `x`.
pub open spec fn stack_scaled<T>(read: Reading<T>, x: Tensor3<T>, y: Tensor3<T>, k: real) -> bool {
    &&& x.wf()
    &&& y.wf()
    &&& x.same_shape(y)
    &&& scaled(read, x.flat.data@, y.flat.data@, k)
}

/// All entries stand for real numbers.
pub open spec fn stack_finite<T>(read: Reading<T>, x: Tensor3<T>) -> bool {
    x.wf() && all_finite(read, x.flat.data@)
}

/// An optional mask holds numbers that stand for real numbers.
pub open spec fn mask_finite<T>(read: Reading<T>, mask: Option<Tensor3<T>>, like: Tensor3<T>) -> bool {
    mask matches Some(m) ==> stack_finite(read, m) && m.same_shape(like)
}

/// Products with numbers that are `k` times as large.
pub proof fn lemma_product_scaled(k: real, x: real, a: real)
    ensures
        x * (k * a) == k * (x * a),
        (k * a) * x == k * (a * x),
{
    assert(x * (k * a) == k * (x * a)) by (nonlinear_arith);
    assert((k * a) * x == k * (a * x)) by (nonlinear_arith);
}

/// Sums of numbers that are `k` times as large.
pub proof fn lemma_plus_scaled(k: real, a: real, b: real)
    ensures
        k * a + k * b == k * (a + b),
        k * a - k * b == k * (a - b),
{
    assert(k * a + k * b == k * (a + b)) by (nonlinear_arith);
    assert(k * a - k * b == k * (a - b)) by (nonlinear_arith);
}

/// Sums of items that are `k` times as large.
proof fn lemma_total_scaled<T>(read: Reading<T>, a: Seq<T>, b: Seq<T>, k: real)
    requires
        scaled(read, a, b, k),
    ensures
        total_of(read, b) == k * total_of(read, a),
{
    assert forall|i: int| 0 <= i < a.len() implies (read.value)(#[trigger] b[i]) == k * (
    read.value)(a[i]) by {}
    lemma_total_of_multiples(read, a, b, k);
}

/// Inner products of real numbers.
pub proof fn lemma_dot_of_scaled<T>(read: Reading<T>, x: Seq<T>, a: Seq<T>, b: Seq<T>, k: real)
    requires
        scaled(read, a, b, k),
        x.len() == a.len(),
    ensures
        dot_of(read, x, b) == k * dot_of(read, x, a),
        dot_of(read, b, x) == k * dot_of(read, a, x),
    decreases a.len(),
{
    if a.len() == 0 {
        lemma_times_nought(k);
    } else {
        let (e, f, g) = (x.drop_last(), a.drop_last(), b.drop_last());
        assert(scaled(read, f, g, k));
        lemma_dot_of_scaled(read, e, f, g, k);
        let n = a.len() - 1;
        assert((read.value)(b[n]) == k * (read.value)(a[n]));
        let (u, v) = ((read.value)(x[n]), (read.value)(a[n]));
        lemma_product_scaled(k, u, v);
        lemma_plus_scaled(k, dot_of(read, e, f), u * v);
        lemma_plus_scaled(k, dot_of(read, f, e), v * u);
    }
}

/// Inner products with items that are `k` times as large.
pub proof fn lemma_dot_scales<T: Real>(
    read: Reading<T>,
    x: Seq<T>,
    a: Seq<T>,
    b: Seq<T>,
    k: real,
    r: T,
    s: T,
)
    requires
        is_exact(read),
        all_finite(read, x),
        scaled(read, a, b, k),
        x.len() == a.len(),
        dot_gives(x, a, r) && dot_gives(x, b, s) || dot_gives(a, x, r) && dot_gives(b, x, s),
    ensures
        one_scaled(read, r, s, k),
{
    lemma_dot_of_scaled(read, x, a, b, k);
    if dot_gives(x, a, r) && dot_gives(x, b, s) {
        lemma_dot_exact(read, x, a, r);
        lemma_dot_exact(read, x, b, s);
    } else {
        lemma_dot_exact(read, a, x, r);
        lemma_dot_exact(read, b, x, s);
    }
}

/// Rows, columns and cells of stacks that are `k` times as large.
pub proof fn lemma_parts_scaled<T>(read: Reading<T>, x: Tensor3<T>, y: Tensor3<T>, k: real)
    requires
        stack_scaled(read, x, y, k),
    ensures
        forall|r: int|
            #![trigger x.flat.row(r)]
            #![trigger y.flat.row(r)]
            0 <= r < x.flat.rows ==> scaled(read, x.flat.row(r), y.flat.row(r), k),
        forall|c: int|
            #![trigger x.flat.col(c)]
            #![trigger y.flat.col(c)]
            0 <= c < x.flat.cols ==> scaled(read, x.flat.col(c), y.flat.col(c), k),
        forall|i: int, j: int|
            #![trigger x.row(i, j)]
            #![trigger y.row(i, j)]
            0 <= i < x.outer && 0 <= j < x.inner ==> scaled(read, x.row(i, j), y.row(i, j), k),
        forall|i: int, c: int|
            #![trigger x.col(i, c)]
            #![trigger y.col(i, c)]
            0 <= i < x.outer && 0 <= c < x.flat.cols ==> scaled(read, x.col(i, c), y.col(i, c), k),
        forall|i: int, j: int, c: int|
            #![trigger x.cell(i, j, c)]
            #![trigger y.cell(i, j, c)]
            0 <= i < x.outer && 0 <= j < x.inner && 0 <= c < x.flat.cols ==> one_scaled(
                read,
                x.cell(i, j, c),
                y.cell(i, j, c),
                k,
            ),
{
    let (rows, cols) = (x.flat.rows as int, x.flat.cols as int);
    assert forall|r: int, c: int|
        #![trigger x.flat.at(r, c)]
        #![trigger y.flat.at(r, c)]
        0 <= r < rows && 0 <= c < cols implies one_scaled(
        read,
        x.flat.at(r, c),
        y.flat.at(r, c),
        k,
    ) by {
        lemma_index_in_range(r, rows, c, cols);
        let i = r * cols + c;
        assert((read.finite)(x.flat.data@[i]));
        assert((read.finite)(y.flat.data@[i]));
    }
    assert forall|r: int|
        #![trigger x.flat.row(r)]
        #![trigger y.flat.row(r)]
        0 <= r < rows implies scaled(read, x.flat.row(r), y.flat.row(r), k) by {
        let (p, q) = (x.flat.row(r), y.flat.row(r));
        assert forall|c: int|
            #![trigger p[c]]
            #![trigger q[c]]
            0 <= c < p.len() implies one_scaled(read, p[c], q[c], k) by {
            assert(p[c] == x.flat.at(r, c) && q[c] == y.flat.at(r, c));
        }
    }
    assert forall|c: int|
        #![trigger x.flat.col(c)]
        #![trigger y.flat.col(c)]
        0 <= c < cols implies scaled(read, x.flat.col(c), y.flat.col(c), k) by {
        let (p, q) = (x.flat.col(c), y.flat.col(c));
        assert forall|r: int|
            #![trigger p[r]]
            #![trigger q[r]]
            0 <= r < p.len() implies one_scaled(read, p[r], q[r], k) by {
            assert(p[r] == x.flat.at(r, c) && q[r] == y.flat.at(r, c));
        }
    }
    assert forall|i: int, j: int|
        #![trigger x.row(i, j)]
        #![trigger y.row(i, j)]
        0 <= i < x.outer && 0 <= j < x.inner implies scaled(
        read,
        x.row(i, j),
        y.row(i, j),
        k,
    ) by {
        lemma_index_in_range(i, x.outer as int, j, x.inner as int);
        let r = i * x.inner + j;
        assert(scaled(read, x.flat.row(r), y.flat.row(r), k));
    }
    assert forall|i: int, j: int, c: int|
        #![trigger x.cell(i, j, c)]
        #![trigger y.cell(i, j, c)]
        0 <= i < x.outer && 0 <= j < x.inner && 0 <= c < cols implies one_scaled(
        read,
        x.cell(i, j, c),
        y.cell(i, j, c),
        k,
    ) by {
        lemma_index_in_range(i, x.outer as int, j, x.inner as int);
        let r = i * x.inner + j;
        assert(one_scaled(read, x.flat.at(r, c), y.flat.at(r, c), k));
    }
    assert forall|i: int, c: int|
        #![trigger x.col(i, c)]
        #![trigger y.col(i, c)]
        0 <= i < x.outer && 0 <= c < cols implies scaled(read, x.col(i, c), y.col(i, c), k) by {
        let (p, q) = (x.col(i, c), y.col(i, c));
        assert forall|j: int|
            #![trigger p[j]]
            #![trigger q[j]]
            0 <= j < p.len() implies one_scaled(read, p[j], q[j], k) by {
            assert(p[j] == x.cell(i, j, c) && q[j] == y.cell(i, j, c));
        }
    }
}

/// Every number is one times itself.
pub proof fn lemma_stack_like_itself<T>(read: Reading<T>, x: Tensor3<T>)
    requires
        stack_finite(read, x),
    ensures
        stack_scaled(read, x, x, 1 as real),
{
    assert forall|i: int| #![trigger x.flat.data@[i]] 0 <= i < x.flat.data@.len() implies (
    read.value)(x.flat.data@[i]) == (1 as real) * (read.value)(x.flat.data@[i]) by {
        let v = (read.value)(x.flat.data@[i]);
        assert((1 as real) * v == v) by (nonlinear_arith);
    }
}

/// Rows, columns and cells of a stack of real numbers.
pub proof fn lemma_parts_finite<T>(read: Reading<T>, x: Tensor3<T>)
    requires
        stack_finite(read, x),
    ensures
        forall|r: int| 0 <= r < x.flat.rows ==> all_finite(read, #[trigger] x.flat.row(r)),
        forall|c: int| 0 <= c < x.flat.cols ==> all_finite(read, #[trigger] x.flat.col(c)),
        forall|i: int, j: int|
            0 <= i < x.outer && 0 <= j < x.inner ==> all_finite(read, #[trigger] x.row(i, j)),
        forall|i: int, c: int|
            0 <= i < x.outer && 0 <= c < x.flat.cols ==> all_finite(read, #[trigger] x.col(i, c)),
        forall|i: int, j: int, c: int|
            0 <= i < x.outer && 0 <= j < x.inner && 0 <= c < x.flat.cols ==> (read.finite)(
                #[trigger] x.cell(i, j, c),
            ),
{
    lemma_stack_like_itself(read, x);
    lemma_parts_scaled(read, x, x, 1 as real);
}

/// Stacks are `k` times as large where their entries are.
proof fn lemma_stack_from_entries<T>(read: Reading<T>, x: Tensor3<T>, y: Tensor3<T>, k: real)
    requires
        x.wf(),
        y.wf(),
        x.same_shape(y),
        forall|r: int, c: int|
            #![trigger x.flat.at(r, c)]
            0 <= r < x.flat.rows && 0 <= c < x.flat.cols ==> one_scaled(
                read,
                x.flat.at(r, c),
                y.flat.at(r, c),
                k,
            ),
    ensures
        stack_scaled(read, x, y, k),
{
    let (rows, cols) = (x.flat.rows as int, x.flat.cols as int);
    assert forall|i: int|
        #![trigger x.flat.data@[i]]
        #![trigger y.flat.data@[i]]
        0 <= i < x.flat.data@.len() implies one_scaled(
        read,
        x.flat.data@[i],
        y.flat.data@[i],
        k,
    ) by {
        assert(cols > 0) by (nonlinear_arith)
            requires
                0 < rows * cols,
                rows >= 0,
                cols >= 0,
        ;
        lemma_split_index(i, rows, cols);
        assert(one_scaled(
            read,
            x.flat.at(i / cols, i % cols),
            y.flat.at(i / cols, i % cols),
            k,
        ));
    }
}

/// Stacks are `k` times as large where their cells are.
pub proof fn lemma_stack_from_cells<T>(read: Reading<T>, x: Tensor3<T>, y: Tensor3<T>, k: real)
    requires
        x.wf(),
        y.wf(),
        x.same_shape(y),
        forall|i: int, j: int, c: int|
            #![trigger x.cell(i, j, c)]
            0 <= i < x.outer && 0 <= j < x.inner && 0 <= c < x.flat.cols ==> one_scaled(
                read,
                x.cell(i, j, c),
                y.cell(i, j, c),
                k,
            ),
    ensures
        stack_scaled(read, x, y, k),
{
    let (outer, inner) = (x.outer as int, x.inner as int);
    assert forall|r: int, c: int|
        #![trigger x.flat.at(r, c)]
        0 <= r < x.flat.rows && 0 <= c < x.flat.cols implies one_scaled(
        read,
        x.flat.at(r, c),
        y.flat.at(r, c),
        k,
    ) by {
        assert(inner > 0) by (nonlinear_arith)
            requires
                0 < outer * inner,
                outer >= 0,
                inner >= 0,
        ;
        lemma_split_index(r, outer, inner);
        assert(one_scaled(
            read,
            x.cell(r / inner, r % inner, c),
            y.cell(r / inner, r % inner, c),
            k,
        ));
    }
    lemma_stack_from_entries(read, x, y, k);
}

/// What was added to the gradients of the second layer is `k` times what was added to those of the
/// first.
pub open spec fn linear_gains_scaled<T>(
    read: Reading<T>,
    b1: Linear<T>,
    a1: Linear<T>,
    b2: Linear<T>,
    a2: Linear<T>,
    k: real,
) -> bool {
    &&& forall|i: int, c: int|
        0 <= i < b1.weight.value.rows && 0 <= c < b1.weight.value.cols ==> #[trigger] weight_gain(
            read,
            b2,
            a2,
            i,
            c,
        ) == k * weight_gain(read, b1, a1, i, c)
    &&& b1.bias is Some ==> forall|c: int|
        0 <= c < b1.weight.value.cols ==> #[trigger] bias_gain(read, b2, a2, c) == k * bias_gain(
            read,
            b1,
            a1,
            c,
        )
}

/// The gradients of the layer stand for real numbers.
pub open spec fn linear_grads_finite<T>(read: Reading<T>, layer: Linear<T>) -> bool {
    &&& all_finite(read, layer.weight.grad.data@)
    &&& layer.bias matches Some(bias) ==> all_finite(read, bias.grad@)
}

/// The parameters and the gradients of the layer stand for real numbers.
pub open spec fn linear_finite<T>(read: Reading<T>, layer: Linear<T>) -> bool {
    layer_is_finite(read, layer) && linear_grads_finite(read, layer)
}

/// A linear layer.
pub proof fn lemma_linear_scales<T: Real>(
    read: Reading<T>,
    k: real,
    b1: Linear<T>,
    b2: Linear<T>,
    input: Tensor3<T>,
    g1: Tensor3<T>,
    g2: Tensor3<T>,
    a1: Linear<T>,
    a2: Linear<T>,
    r1: Tensor3<T>,
    r2: Tensor3<T>,
)
    requires
        is_exact(read),
        b1.wf(),
        b2.wf(),
        linear_same_but_grads(b2, b1),
        linear_finite(read, b1),
        linear_grads_finite(read, b2),
        stack_finite(read, input),
        input.flat.cols == b1.weight.value.rows,
        input.outer == g1.outer,
        input.inner == g1.inner,
        g1.flat.cols == b1.weight.value.cols,
        stack_scaled(read, g1, g2, k),
        linear_backward_gives(b1, input, g1, a1, r1),
        linear_backward_gives(b2, input, g2, a2, r2),
    ensures
        stack_scaled(read, r1, r2, k),
        linear_gains_scaled(read, b1, a1, b2, a2, k),
        linear_grads_finite(read, a1),
        linear_grads_finite(read, a2),
{
    lemma_parts_scaled(read, g1, g2, k);
    lemma_parts_finite(read, input);
    let w = b1.weight.value;
    let (n_in, n_out) = (w.rows as int, w.cols as int);
    assert forall|r: int, i: int|
        #![trigger r1.flat.at(r, i)]
        0 <= r < r1.flat.rows && 0 <= i < r1.flat.cols implies one_scaled(
        read,
        r1.flat.at(r, i),
        r2.flat.at(r, i),
        k,
    ) by {
        let line = w.row(i);
        assert forall|c: int| 0 <= c < line.len() implies (read.finite)(#[trigger] line[c]) by {
            lemma_index_in_range(i, n_in, c, n_out);
            assert(line[c] == w.at(i, c));
        }
        assert(dot_gives(g1.flat.row(r), line, r1.flat.at(r, i)));
        assert(dot_gives(g2.flat.row(r), line, r2.flat.at(r, i)));
        lemma_dot_scales(
            read,
            line,
            g1.flat.row(r),
            g2.flat.row(r),
            k,
            r1.flat.at(r, i),
            r2.flat.at(r, i),
        );
    }
    lemma_stack_from_entries(read, r1, r2, k);
    assert forall|i: int, c: int| 0 <= i < n_in && 0 <= c < n_out implies #[trigger] weight_gain(
        read,
        b2,
        a2,
        i,
        c,
    ) == k * weight_gain(read, b1, a1, i, c) by {
        lemma_weight_gain(read, b1, input, g1, a1, r1, i, c);
        lemma_weight_gain(read, b2, input, g2, a2, r2, i, c);
        lemma_dot_of_scaled(read, input.flat.col(i), g1.flat.col(c), g2.flat.col(c), k);
    }
    if b1.bias is Some {
        assert forall|c: int| 0 <= c < n_out implies #[trigger] bias_gain(read, b2, a2, c) == k
            * bias_gain(read, b1, a1, c) by {
            lemma_bias_gain(read, b1, input, g1, a1, r1, c);
            lemma_bias_gain(read, b2, input, g2, a2, r2, c);
            lemma_total_scaled(read, g1.flat.col(c), g2.flat.col(c), k);
        }
    }
    lemma_linear_grads_stay_finite(read, b1, input, g1, a1, r1);
    lemma_linear_grads_stay_finite(read, b2, input, g2, a2, r2);
}

proof fn lemma_linear_grads_stay_finite<T: Real>(
    read: Reading<T>,
    before: Linear<T>,
    input: Tensor3<T>,
    g: Tensor3<T>,
    after: Linear<T>,
    r: Tensor3<T>,
)
    requires
        is_exact(read),
        before.wf(),
        linear_grads_finite(read, before),
        stack_finite(read, input),
        stack_finite(read, g),
        input.flat.cols == before.weight.value.rows,
        input.outer == g.outer,
        input.inner == g.inner,
        g.flat.cols == before.weight.value.cols,
        linear_backward_gives(before, input, g, after, r),
    ensures
        linear_grads_finite(read, after),
{
    lemma_parts_finite(read, input);
    lemma_parts_finite(read, g);
    let (rows, cols) = (before.weight.value.rows as int, before.weight.value.cols as int);
    assert forall|i: int| 0 <= i < after.weight.grad.data@.len() implies (read.finite)(
        #[trigger] after.weight.grad.data@[i],
    ) by {
        assert(cols > 0) by (nonlinear_arith)
            requires
                0 < rows * cols,
                rows >= 0,
                cols >= 0,
        ;
        lemma_split_index(i, rows, cols);
        let (p, c) = (i / cols, i % cols);
        let (x, y) = (before.weight.grad.at(p, c), after.weight.grad.at(p, c));
        assert(plus_dot_gives(x, input.flat.col(p), g.flat.col(c), y));
        let product = choose|product: T| #[trigger]
            dot_gives(input.flat.col(p), g.flat.col(c), product) && plus_gives(x, product, y);
        lemma_dot_exact(read, input.flat.col(p), g.flat.col(c), product);
        assert((read.finite)(before.weight.grad.data@[i]));
    }
    if let Some(bias) = before.bias {
        let later = after.bias->0;
        assert forall|c: int| 0 <= c < later.grad@.len() implies (read.finite)(
            #[trigger] later.grad@[c],
        ) by {
            assert(plus_sum_gives(bias.grad@[c], g.flat.col(c), later.grad@[c]));
            let total = choose|total: T| #[trigger]
                sum_gives(g.flat.col(c), total) && plus_gives(bias.grad@[c], total, later.grad@[c]);
            lemma_sum_exact(read, g.flat.col(c), total);
            assert((read.finite)(bias.grad@[c]));
        }
    }
}

/// Products added up one after the other.
pub proof fn lemma_plus_products_exact<T: Real>(read: Reading<T>, before: T, a: Seq<T>, b: Seq<T>, r: T)
    requires
        is_exact(read),
        (read.finite)(before),
        a.len() == b.len(),
        all_finite(read, a),
        all_finite(read, b),
        plus_products_give(before, a, b, r),
    ensures
        (read.finite)(r),
        (read.value)(r) == (read.value)(before) + dot_of(read, a, b),
    decreases a.len(),
{
    if a.len() > 0 {
        let (acc, product) = choose|acc: T, product: T|
            plus_products_give(before, a.drop_last(), b.drop_last(), acc) && #[trigger] times_gives(
                a.last(),
                b.last(),
                product,
            ) && #[trigger] plus_gives(acc, product, r);
        lemma_plus_products_exact(read, before, a.drop_last(), b.drop_last(), acc);
    }
}

/// Items added up one after the other.
pub proof fn lemma_plus_each_exact<T: Real>(read: Reading<T>, before: T, items: Seq<T>, r: T)
    requires
        is_exact(read),
        (read.finite)(before),
        all_finite(read, items),
        plus_each_gives(before, items, r),
    ensures
        (read.finite)(r),
        (read.value)(r) == (read.value)(before) + total_of(read, items),
    decreases items.len(),
{
    if items.len() > 0 {
        let acc = choose|acc: T|
            plus_each_gives(before, items.drop_last(), acc) && #[trigger] plus_gives(
                acc,
                items.last(),
                r,
            );
        lemma_plus_each_exact(read, before, items.drop_last(), acc);
    }
}

/// What was added to entry `c` of the gradient of a vector.
pub open spec fn vector_gain<T>(
    read: Reading<T>,
    before: Param1D<T>,
    after: Param1D<T>,
    c: int,
) -> real {
    (read.value)(after.grad@[c]) - (read.value)(before.grad@[c])
}

/// What was added to the gradients of the second normalization is `k` times what was added to
/// those of the first.
pub open spec fn norm_gains_scaled<T>(
    read: Reading<T>,
    b1: LayerNorm<T>,
    a1: LayerNorm<T>,
    b2: LayerNorm<T>,
    a2: LayerNorm<T>,
    k: real,
) -> bool {
    &&& forall|c: int|
        0 <= c < b1.gamma.value@.len() ==> #[trigger] vector_gain(read, b2.gamma, a2.gamma, c) == k
            * vector_gain(read, b1.gamma, a1.gamma, c)
    &&& forall|c: int|
        0 <= c < b1.gamma.value@.len() ==> #[trigger] vector_gain(read, b2.beta, a2.beta, c) == k
            * vector_gain(read, b1.beta, a1.beta, c)
}

/// The gradients of the normalization stand for real numbers.
pub open spec fn norm_grads_finite<T>(read: Reading<T>, layer: LayerNorm<T>) -> bool {
    all_finite(read, layer.gamma.grad@) && all_finite(read, layer.beta.grad@)
}

/// The scale and the gradients of the normalization stand for real numbers.
pub open spec fn norm_finite<T>(read: Reading<T>, layer: LayerNorm<T>) -> bool {
    all_finite(read, layer.gamma.value@) && norm_grads_finite(read, layer)
}

/// What the normalization kept stands for real numbers.
pub open spec fn norm_cache_finite<T>(read: Reading<T>, cache: LayerNormCache<T>) -> bool {
    stack_finite(read, cache.x_hat) && all_finite(read, cache.inv_std.data@)
}

/// Products, item by item, of a row with rows that are `k` times as large.
proof fn lemma_items_times_scale<T: Real>(
    read: Reading<T>,
    a1: Seq<T>,
    a2: Seq<T>,
    x: Seq<T>,
    k: real,
    r1: Seq<T>,
    r2: Seq<T>,
)
    requires
        is_exact(read),
        scaled(read, a1, a2, k),
        all_finite(read, x),
        items_times_give(a1, x, r1),
        items_times_give(a2, x, r2),
    ensures
        scaled(read, r1, r2, k),
{
    assert forall|i: int|
        #![trigger r1[i]]
        #![trigger r2[i]]
        0 <= i < r1.len() implies one_scaled(read, r1[i], r2[i], k) by {
        assert(times_gives(a1[i], x[i], r1[i]));
        assert(times_gives(a2[i], x[i], r2[i]));
        assert((read.finite)(a1[i]) && (read.finite)(a2[i]) && (read.finite)(x[i]));
        lemma_product_scaled(k, (read.value)(x[i]), (read.value)(a1[i]));
    }
}

pub proof fn lemma_norm_row_scales<T: Real>(
    read: Reading<T>,
    k: real,
    g1: Seq<T>,
    g2: Seq<T>,
    gamma: Seq<T>,
    x_hat: Seq<T>,
    inv_std: T,
    o1: Seq<T>,
    o2: Seq<T>,
)
    requires
        is_exact(read),
        scaled(read, g1, g2, k),
        all_finite(read, gamma),
        all_finite(read, x_hat),
        (read.finite)(inv_std),
        0 < g1.len() <= usize::MAX,
        norm_row_backward_gives(g1, gamma, x_hat, inv_std, o1),
        norm_row_backward_gives(g2, gamma, x_hat, inv_std, o2),
    ensures
        scaled(read, o1, o2, k),
{
    let (h1, s1, t1, n1, f1) = choose|h1: Seq<T>, s1: T, t1: T, n1: T, f1: T| #[trigger]
        norm_row_sums_give(g1, gamma, x_hat, h1, s1, t1) && count_gives(g1.len() as usize, n1)
            && #[trigger] over_gives(inv_std, n1, f1) && o1.len() == g1.len() && forall|i: int|
            0 <= i < g1.len() ==> norm_grad_entry_gives(
                h1[i],
                n1,
                s1,
                x_hat[i],
                t1,
                f1,
                #[trigger] o1[i],
            );
    let (h2, s2, t2, n2, f2) = choose|h2: Seq<T>, s2: T, t2: T, n2: T, f2: T| #[trigger]
        norm_row_sums_give(g2, gamma, x_hat, h2, s2, t2) && count_gives(g2.len() as usize, n2)
            && #[trigger] over_gives(inv_std, n2, f2) && o2.len() == g2.len() && forall|i: int|
            0 <= i < g2.len() ==> norm_grad_entry_gives(
                h2[i],
                n2,
                s2,
                x_hat[i],
                t2,
                f2,
                #[trigger] o2[i],
            );
    let p1 = choose|p1: Seq<T>|
        items_times_give(g1, gamma, h1) && sum_gives(h1, s1) && #[trigger] items_times_give(
            h1,
            x_hat,
            p1,
        ) && sum_gives(p1, t1);
    let p2 = choose|p2: Seq<T>|
        items_times_give(g2, gamma, h2) && sum_gives(h2, s2) && #[trigger] items_times_give(
            h2,
            x_hat,
            p2,
        ) && sum_gives(p2, t2);
    lemma_items_times_scale(read, g1, g2, gamma, k, h1, h2);
    lemma_items_times_scale(read, h1, h2, x_hat, k, p1, p2);
    lemma_sum_exact(read, h1, s1);
    lemma_sum_exact(read, h2, s2);
    lemma_total_scaled(read, h1, h2, k);
    lemma_sum_exact(read, p1, t1);
    lemma_sum_exact(read, p2, t2);
    lemma_total_scaled(read, p1, p2, k);
    let v = read.value;
    assert(v(n1) == v(n2) && v(n1) > 0 as real);
    assert(v(f1) == v(f2));
    assert forall|i: int|
        #![trigger o1[i]]
        #![trigger o2[i]]
        0 <= i < o1.len() implies one_scaled(read, o1[i], o2[i], k) by {
        assert(norm_grad_entry_gives(h1[i], n1, s1, x_hat[i], t1, f1, o1[i]));
        assert(norm_grad_entry_gives(h2[i], n2, s2, x_hat[i], t2, f2, o2[i]));
        assert((read.finite)(h1[i]) && (read.finite)(h2[i]) && (read.finite)(x_hat[i]));
        lemma_norm_entry_value(read, h1[i], n1, s1, x_hat[i], t1, f1, o1[i]);
        lemma_norm_entry_value(read, h2[i], n2, s2, x_hat[i], t2, f2, o2[i]);
        let (g, n, s, x, t, f) = (v(h1[i]), v(n1), v(s1), v(x_hat[i]), v(t1), v(f1));
        lemma_product_scaled(k, n, g);
        lemma_product_scaled(k, x, t);
        lemma_plus_scaled(k, g * n, s);
        lemma_plus_scaled(k, g * n - s, x * t);
        lemma_product_scaled(k, f, g * n - s - x * t);
    }
}

/// What an entry of the gradient of a normalized row reads as.
pub proof fn lemma_norm_entry_value<T: Real>(
    read: Reading<T>,
    g: T,
    n: T,
    s1: T,
    x_hat: T,
    s2: T,
    factor: T,
    r: T,
)
    requires
        is_exact(read),
        (read.finite)(g),
        (read.finite)(n),
        (read.finite)(s1),
        (read.finite)(x_hat),
        (read.finite)(s2),
        (read.finite)(factor),
        norm_grad_entry_gives(g, n, s1, x_hat, s2, factor, r),
    ensures
        (read.finite)(r),
        (read.value)(r) == ((read.value)(g) * (read.value)(n) - (read.value)(s1) - (read.value)(
            x_hat,
        ) * (read.value)(s2)) * (read.value)(factor),
{
    let (a, b, c, d) = choose|a: T, b: T, c: T, d: T| #[trigger]
        times_gives(g, n, a) && #[trigger] minus_gives(a, s1, b) && #[trigger] times_gives(
            x_hat,
            s2,
            c,
        ) && #[trigger] minus_gives(b, c, d) && times_gives(d, factor, r);
    assert((read.finite)(a) && (read.finite)(b) && (read.finite)(c) && (read.finite)(d));
}

/// A normalization.
pub proof fn lemma_norm_scales<T: Real>(
    read: Reading<T>,
    k: real,
    b1: LayerNorm<T>,
    b2: LayerNorm<T>,
    cache: LayerNormCache<T>,
    g1: Tensor3<T>,
    g2: Tensor3<T>,
    a1: LayerNorm<T>,
    a2: LayerNorm<T>,
    r1: Tensor3<T>,
    r2: Tensor3<T>,
)
    requires
        is_exact(read),
        b1.has_width(g1.flat.cols as int),
        b2.has_width(g1.flat.cols as int),
        g1.flat.cols > 0,
        norm_same_but_grads(b2, b1),
        norm_finite(read, b1),
        norm_grads_finite(read, b2),
        norm_cache_finite(read, cache),
        cache.has_shape(g1.outer as int, g1.inner as int, g1.flat.cols as int),
        stack_scaled(read, g1, g2, k),
        layer_norm_backward_gives(b1, cache, g1, a1, r1),
        layer_norm_backward_gives(b2, cache, g2, a2, r2),
    ensures
        stack_scaled(read, r1, r2, k),
        norm_gains_scaled(read, b1, a1, b2, a2, k),
        norm_grads_finite(read, a1),
        norm_grads_finite(read, a2),
{
    lemma_parts_scaled(read, g1, g2, k);
    lemma_parts_finite(read, cache.x_hat);
    assert forall|r: int, c: int|
        #![trigger r1.flat.at(r, c)]
        0 <= r < r1.flat.rows && 0 <= c < r1.flat.cols implies one_scaled(
        read,
        r1.flat.at(r, c),
        r2.flat.at(r, c),
        k,
    ) by {
        let (o1, o2) = (r1.flat.row(r), r2.flat.row(r));
        let (x_hat, inv_std) = (cache.x_hat.flat.row(r), cache.inv_std.data@[r]);
        assert(norm_row_backward_gives(g1.flat.row(r), b1.gamma.value@, x_hat, inv_std, o1));
        assert(norm_row_backward_gives(g2.flat.row(r), b2.gamma.value@, x_hat, inv_std, o2));
        assert(cache.inv_std.data@.len() == g1.flat.rows);
        assert((read.finite)(inv_std));
        lemma_norm_row_scales(
            read,
            k,
            g1.flat.row(r),
            g2.flat.row(r),
            b1.gamma.value@,
            x_hat,
            inv_std,
            o1,
            o2,
        );
        assert(o1[c] == r1.flat.at(r, c) && o2[c] == r2.flat.at(r, c));
    }
    lemma_stack_from_entries(read, r1, r2, k);
    let n = b1.gamma.value@.len() as int;
    assert forall|c: int| 0 <= c < n implies #[trigger] vector_gain(read, b2.gamma, a2.gamma, c)
        == k * vector_gain(read, b1.gamma, a1.gamma, c) && vector_gain(read, b2.beta, a2.beta, c)
        == k * vector_gain(read, b1.beta, a1.beta, c) && (read.finite)(a1.gamma.grad@[c]) && (
    read.finite)(a2.gamma.grad@[c]) && (read.finite)(a1.beta.grad@[c]) && (read.finite)(
        a2.beta.grad@[c],
    ) by {
        let (p, q, x) = (g1.flat.col(c), g2.flat.col(c), cache.x_hat.flat.col(c));
        assert((read.finite)(b1.gamma.grad@[c]) && (read.finite)(b2.gamma.grad@[c]));
        assert((read.finite)(b1.beta.grad@[c]) && (read.finite)(b2.beta.grad@[c]));
        assert(plus_products_give(b1.gamma.grad@[c], p, x, a1.gamma.grad@[c]));
        assert(plus_products_give(b2.gamma.grad@[c], q, x, a2.gamma.grad@[c]));
        assert(plus_each_gives(b1.beta.grad@[c], p, a1.beta.grad@[c]));
        assert(plus_each_gives(b2.beta.grad@[c], q, a2.beta.grad@[c]));
        lemma_plus_products_exact(read, b1.gamma.grad@[c], p, x, a1.gamma.grad@[c]);
        lemma_plus_products_exact(read, b2.gamma.grad@[c], q, x, a2.gamma.grad@[c]);
        lemma_plus_each_exact(read, b1.beta.grad@[c], p, a1.beta.grad@[c]);
        lemma_plus_each_exact(read, b2.beta.grad@[c], q, a2.beta.grad@[c]);
        lemma_dot_of_scaled(read, x, p, q, k);
        lemma_total_scaled(read, p, q, k);
    }
    assert forall|c: int| 0 <= c < n implies #[trigger] vector_gain(read, b2.beta, a2.beta, c) == k
        * vector_gain(read, b1.beta, a1.beta, c) by {
        assert(vector_gain(read, b2.gamma, a2.gamma, c) == k * vector_gain(
            read,
            b1.gamma,
            a1.gamma,
            c,
        ));
    }
    assert forall|c: int| 0 <= c < n implies (read.finite)(#[trigger] a1.gamma.grad@[c]) && (
    read.finite)(a2.gamma.grad@[c]) && (read.finite)(a1.beta.grad@[c]) && (read.finite)(
        a2.beta.grad@[c],
    ) by {
        assert(vector_gain(read, b2.gamma, a2.gamma, c) == k * vector_gain(
            read,
            b1.gamma,
            a1.gamma,
            c,
        ));
    }
    assert(all_finite(read, a1.gamma.grad@));
    assert forall|c: int| 0 <= c < n implies (read.finite)(#[trigger] a2.gamma.grad@[c]) by {
        assert((read.finite)(a1.gamma.grad@[c]));
    }
    assert forall|c: int| 0 <= c < n implies (read.finite)(#[trigger] a1.beta.grad@[c]) by {
        assert((read.finite)(a1.gamma.grad@[c]));
    }
    assert forall|c: int| 0 <= c < n implies (read.finite)(#[trigger] a2.beta.grad@[c]) by {
        assert((read.finite)(a1.gamma.grad@[c]));
    }
}

/// A dropout.
pub proof fn lemma_dropout_scales<T: Real>(
    read: Reading<T>,
    k: real,
    mask: Option<Tensor3<T>>,
    g1: Tensor3<T>,
    g2: Tensor3<T>,
    r1: Tensor3<T>,
    r2: Tensor3<T>,
)
    requires
        is_exact(read),
        mask_finite(read, mask, g1),
        stack_scaled(read, g1, g2, k),
        dropout_backward_gives(mask, g1, r1),
        dropout_backward_gives(mask, g2, r2),
    ensures
        stack_scaled(read, r1, r2, k),
{
    if let Some(m) = mask {
        lemma_items_times_scale(
            read,
            g1.flat.data@,
            g2.flat.data@,
            m.flat.data@,
            k,
            r1.flat.data@,
            r2.flat.data@,
        );
    }
}

/// A sum of two stacks.
pub proof fn lemma_plus_tensor_scales<T: Real>(
    read: Reading<T>,
    k: real,
    x1: Tensor3<T>,
    x2: Tensor3<T>,
    y1: Tensor3<T>,
    y2: Tensor3<T>,
    r1: Tensor3<T>,
    r2: Tensor3<T>,
)
    requires
        is_exact(read),
        stack_scaled(read, x1, x2, k),
        stack_scaled(read, y1, y2, k),
        plus_tensor_gives(x1, y1, r1),
        plus_tensor_gives(x2, y2, r2),
    ensures
        stack_scaled(read, r1, r2, k),
{
    let (a, b) = (r1.flat.data@, r2.flat.data@);
    assert forall|i: int|
        #![trigger a[i]]
        #![trigger b[i]]
        0 <= i < a.len() implies one_scaled(read, a[i], b[i], k) by {
        let (p, q) = (x1.flat.data@[i], y1.flat.data@[i]);
        assert(plus_gives(p, q, a[i]));
        assert(plus_gives(x2.flat.data@[i], y2.flat.data@[i], b[i]));
        assert((read.finite)(p) && (read.finite)(q));
        assert((read.finite)(x2.flat.data@[i]) && (read.finite)(y2.flat.data@[i]));
        lemma_plus_scaled(k, (read.value)(p), (read.value)(q));
    }
}

/// A rectifier.
pub proof fn lemma_gate_scales<T: Real>(
    read: Reading<T>,
    k: real,
    pre: Tensor3<T>,
    g1: Tensor3<T>,
    g2: Tensor3<T>,
    r1: Tensor3<T>,
    r2: Tensor3<T>,
)
    requires
        is_exact(read),
        stack_finite(read, pre),
        pre.same_shape(g1),
        stack_scaled(read, g1, g2, k),
        gate_tensor_gives(pre, g1, r1),
        gate_tensor_gives(pre, g2, r2),
    ensures
        stack_scaled(read, r1, r2, k),
{
    let (a, b) = (r1.flat.data@, r2.flat.data@);
    assert forall|i: int|
        #![trigger a[i]]
        #![trigger b[i]]
        0 <= i < a.len() implies one_scaled(read, a[i], b[i], k) by {
        let (x, p, q) = (pre.flat.data@[i], g1.flat.data@[i], g2.flat.data@[i]);
        assert(gate_gives(x, p, a[i]));
        assert(gate_gives(x, q, b[i]));
        assert((read.finite)(x) && (read.finite)(p) && (read.finite)(q));
        lemma_times_nought(k);
    }
}

} // verus!
