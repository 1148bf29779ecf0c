//! The gradients of single steps that are not linear, where the number type computes exactly: the
//! rectifier of the feed-forward network, the softmax of the scores, the loss and the embeddings.
//!
//! The tangent of an output along a direction says how fast the output changes as the input moves
//! along it; it follows from the input by the rules for sums, products, quotients, roots,
//! exponentials and logarithms. Each law says that the inner product of the output's gradient with
//! the tangent of the output is that of the gradient which the step hands back with the
//! direction. The modules [`crate::slope`], [`crate::slope_attention`], [`crate::slope_block`] and
//! [`crate::slope_model`] put the steps together.

use crate::attention::{score_grad_gives, score_grads_give};
use crate::exact::{all_finite, is_exact, lemma_dot_exact, lemma_times_nought, Reading};
use crate::feed_forward::{gate_gives, gate_tensor_gives};
use crate::gradient::{
    lemma_dot_is_series, lemma_series_plus, lemma_series_same, lemma_series_times, series,
};
use crate::grid::{token_items, TokenArray};
use crate::linearity::{lemma_scatter_exact, scatter_sum, table_gain};
use crate::loss::{cross_entropy_gives, loss_grad_gives, loss_grad_row_gives, mean_loss_gives};
use crate::model::{scatter_gives, scattered};
use crate::optim::Param2D;
use crate::reduce::dot_gives;
use crate::scalar::{count_gives, minus_gives, one_gives, over_gives, times_gives, Real};
use crate::tensor::{lemma_index_in_range, Tensor2, Tensor3};
use vstd::prelude::*;

verus! {

/// The tangent of a quotient.
pub open spec fn quotient_tangent(a: real, da: real, b: real, db: real) -> real {
    (da * b - a * db) / (b * b)
}

/// The tangent of the rectifier: it passes what moves above zero.
pub open spec fn relu_tangent(x: real, d: real) -> real {
    if x > 0 as real {
        d
    } else {
        0 as real
    }
}

/// The gradient in front of the rectifier is the slope along what goes in.
pub proof fn lemma_relu_gradient<T: Real>(
    read: Reading<T>,
    pre: Tensor3<T>,
    g: Tensor3<T>,
    gated: Tensor3<T>,
    d: spec_fn(int) -> real,
)
    requires
        is_exact(read),
        pre.wf(),
        g.wf(),
        pre.same_shape(g),
        all_finite(read, pre.flat.data@),
        all_finite(read, g.flat.data@),
        gate_tensor_gives(pre, g, gated),
    ensures
        series(
            g.flat.data@.len(),
            |i: int|
                (read.value)(g.flat.data@[i]) * relu_tangent(
                    (read.value)(pre.flat.data@[i]),
                    d(i),
                ),
        ) == series(g.flat.data@.len(), |i: int| (read.value)(gated.flat.data@[i]) * d(i)),
{
    let v = read.value;
    let (f, h) = (
        |i: int| v(g.flat.data@[i]) * relu_tangent(v(pre.flat.data@[i]), d(i)),
        |i: int| v(gated.flat.data@[i]) * d(i),
    );
    assert forall|i: int| 0 <= i < g.flat.data@.len() implies #[trigger] f(i) == h(i) by {
        let (x, p, r) = (pre.flat.data@[i], g.flat.data@[i], gated.flat.data@[i]);
        assert(gate_gives(x, p, r));
        assert((read.finite)(x) && (read.finite)(p));
        lemma_times_nought(v(p));
        let y = d(i);
        assert((0 as real) * y == 0 as real) by (nonlinear_arith);
    }
    lemma_series_same(g.flat.data@.len(), f, h);
}

/// The tangent of probability `j` of a softmax: the probability times how much faster its number
/// moves than the mean of all, weighted by the probabilities.
pub open spec fn softmax_tangent<T>(
    read: Reading<T>,
    p: Seq<T>,
    d: spec_fn(int) -> real,
    j: int,
) -> real {
    (read.value)(p[j]) * (d(j) - series(p.len(), |k: int| (read.value)(p[k]) * d(k)))
}

/// Products of sums.
pub proof fn lemma_distribute(a: real, b: real, c: real)
    ensures
        a * (b - c) == a * b - a * c,
        (b - c) * a == b * a - c * a,
        a * (b + c) == a * b + a * c,
        (b + c) * a == b * a + c * a,
        a * b == b * a,
{
    assert(a * (b - c) == a * b - a * c) by (nonlinear_arith);
    assert((b - c) * a == b * a - c * a) by (nonlinear_arith);
    assert(a * (b + c) == a * b + a * c) by (nonlinear_arith);
    assert((b + c) * a == b * a + c * a) by (nonlinear_arith);
    assert(a * b == b * a) by (nonlinear_arith);
}

/// Products of three numbers.
pub proof fn lemma_regroup(a: real, b: real, c: real)
    ensures
        a * (b * c) == (a * b) * c,
        a * (b * c) == b * (a * c),
{
    assert(a * (b * c) == (a * b) * c) by (nonlinear_arith);
    assert(a * (b * c) == b * (a * c)) by (nonlinear_arith);
}

/// A share of a quotient with a common factor.
proof fn lemma_quotient_rule(e: real, u: real, total: real, w: real)
    requires
        total > 0 as real,
    ensures
        quotient_tangent(e, e * u, total, w) == (e / total) * (u - w / total),
{
    let p = e / total;
    let q = w / total;
    assert(p * total == e && q * total == w) by (nonlinear_arith)
        requires
            p == e / total,
            q == w / total,
            total > 0 as real,
    ;
    let t2 = total * total;
    assert(t2 > 0 as real) by (nonlinear_arith)
        requires
            t2 == total * total,
            total > 0 as real,
    ;
    // (e u) total - e w == (p (u - q)) total^2
    lemma_regroup(p, total, u);
    lemma_regroup(e * u, total, 1 as real);
    assert((e * u) * total == (p * u) * t2) by (nonlinear_arith)
        requires
            p * total == e,
            t2 == total * total,
    ;
    assert(e * w == (p * q) * t2) by (nonlinear_arith)
        requires
            p * total == e,
            q * total == w,
            t2 == total * total,
    ;
    lemma_distribute(p, u, q);
    lemma_distribute(t2, p * u, p * q);
    let s = p * (u - q);
    assert((e * u) * total - e * w == s * t2);
    assert((s * t2) / t2 == s) by (nonlinear_arith)
        requires
            t2 > 0 as real,
    ;
}

/// The tangent of a softmax follows from the rules: probability `j` is the quotient of a shifted
/// exponential and the sum of them all, whatever the number that they are shifted by does.
pub proof fn lemma_softmax_tangent_by_rules<T>(
    read: Reading<T>,
    powers: Seq<T>,
    p: Seq<T>,
    total: real,
    d: spec_fn(int) -> real,
    shift: real,
    j: int,
)
    requires
        p.len() == powers.len(),
        total > 0 as real,
        total == series(powers.len(), |k: int| (read.value)(powers[k])),
        forall|k: int|
            0 <= k < p.len() ==> (read.value)(#[trigger] p[k]) == (read.value)(powers[k]) / total,
        0 <= j < p.len(),
    ensures
        quotient_tangent(
            (read.value)(powers[j]),
            (read.value)(powers[j]) * (d(j) - shift),
            total,
            series(powers.len(), |k: int| (read.value)(powers[k]) * (d(k) - shift)),
        ) == softmax_tangent(read, p, d, j),
{
    let v = read.value;
    let n = powers.len();
    let w = series(n, |k: int| v(powers[k]) * (d(k) - shift));
    let (a, b, c) = (
        |k: int| v(powers[k]) * d(k),
        |k: int| v(powers[k]) * (d(k) - shift),
        |k: int| shift * v(powers[k]),
    );
    let e = |k: int| v(powers[k]);
    lemma_series_times(n, shift, e, c);
    assert forall|k: int| 0 <= k < n implies #[trigger] a(k) == b(k) + c(k) by {
        lemma_distribute(v(powers[k]), d(k), shift);
        lemma_distribute(shift, v(powers[k]), 0 as real);
    }
    lemma_series_plus(n, b, c, a);
    lemma_series_same(n, b, |k: int| v(powers[k]) * (d(k) - shift));
    let mean = series(n, |k: int| v(p[k]) * d(k));
    let m = |k: int| v(p[k]) * d(k);
    assert forall|k: int| 0 <= k < n implies #[trigger] a(k) == total * m(k) by {
        let (x, y, z) = (v(powers[k]), d(k), v(p[k]));
        assert(v(p[k]) == x / total);
        assert(total * z == x) by (nonlinear_arith)
            requires
                z == x / total,
                total > 0 as real,
        ;
        lemma_regroup(total, z, y);
    }
    lemma_series_times(n, total, m, a);
    lemma_series_same(n, m, |k: int| v(p[k]) * d(k));
    // w == total * mean - shift * total
    assert(w == total * mean - shift * total);
    lemma_quotient_rule(v(powers[j]), d(j) - shift, total, w);
    lemma_distribute(total, mean, shift);
    assert(w == total * (mean - shift));
    let x = mean - shift;
    assert((total * x) / total == x) by (nonlinear_arith)
        requires
            total > 0 as real,
    ;
    assert(v(p[j]) == v(powers[j]) / total);
}

/// The gradient of the scores of a query is the slope through the scale and the softmax: whatever
/// the direction `d` in which the inner products of the query with the keys move, where the keys
/// behind the query have none.
pub proof fn lemma_score_gradient<T: Real>(
    read: Reading<T>,
    p: Seq<T>,
    g: Seq<T>,
    i: int,
    scale: T,
    out: Seq<T>,
    d: spec_fn(int) -> real,
)
    requires
        is_exact(read),
        all_finite(read, p),
        all_finite(read, g),
        p.len() == g.len(),
        (read.finite)(scale),
        score_grads_give(p, g, i, scale, out),
    ensures
        series(
            p.len(),
            |j: int|
                (read.value)(g[j]) * softmax_tangent(
                    read,
                    p,
                    |k: int|
                        if k <= i {
                            (read.value)(scale) * d(k)
                        } else {
                            0 as real
                        },
                    j,
                ),
        ) == series(p.len(), |j: int| (read.value)(out[j]) * d(j)),
{
    let v = read.value;
    let n = p.len();
    let s = v(scale);
    let e = |k: int|
        if k <= i {
            s * d(k)
        } else {
            0 as real
        };
    let weighted = choose|weighted: T| #[trigger]
        dot_gives(g, p, weighted) && out.len() == p.len() && forall|j: int|
            0 <= j < p.len() ==> score_grad_gives(
                p[j],
                g[j],
                weighted,
                i,
                j,
                scale,
                #[trigger] out[j],
            );
    lemma_dot_exact(read, g, p, weighted);
    lemma_dot_is_series(read, g, p);
    let w = v(weighted);
    let mean = series(n, |k: int| v(p[k]) * e(k));
    let gp = |j: int| v(g[j]) * v(p[j]);
    lemma_series_same(n, |j: int| v(g[j]) * v(p[j]), gp);
    assert(w == series(n, gp));
    // Left: sum of g p e, less the mean times the sum of g p.
    let left = |j: int| v(g[j]) * softmax_tangent(read, p, e, j);
    let gpe = |j: int| gp(j) * e(j);
    let part = |j: int| mean * gp(j);
    assert forall|j: int| 0 <= j < n implies #[trigger] gpe(j) == left(j) + part(j) by {
        let (a, b, c) = (v(g[j]), v(p[j]), e(j));
        lemma_regroup(a, b, c - mean);
        lemma_distribute(a * b, c, mean);
    }
    lemma_series_plus(n, left, part, gpe);
    lemma_series_times(n, mean, gp, part);
    // Right: sum of g p e, less the sum of g p times the mean.
    let right = |j: int| v(out[j]) * d(j);
    let pe = |k: int| v(p[k]) * e(k);
    let rest = |j: int| w * pe(j);
    assert forall|j: int| 0 <= j < n implies #[trigger] gpe(j) == right(j) + rest(j) by {
        assert(score_grad_gives(p[j], g[j], weighted, i, j, scale, out[j]));
        assert((read.finite)(p[j]) && (read.finite)(g[j]));
        let (a, b, c) = (v(g[j]), v(p[j]), d(j));
        if j <= i {
            let (x, y) = choose|x: T, y: T| #[trigger]
                minus_gives(g[j], weighted, x) && #[trigger] times_gives(p[j], x, y)
                    && times_gives(y, scale, out[j]);
            assert(v(out[j]) == (b * (a - w)) * s);
            // ((b (a - w)) s) c == (a b) (s c) - w (b (s c))
            let z = s * c;
            lemma_regroup(b * (a - w), s, c);
            lemma_distribute(b, a, w);
            lemma_distribute(z, b * a, b * w);
            lemma_distribute(a, b, 0 as real);
            lemma_distribute(b, w, 0 as real);
            lemma_regroup(w, b, z);
        } else {
            assert(v(out[j]) == 0 as real);
            assert((0 as real) * c == 0 as real) by (nonlinear_arith);
            lemma_times_nought(a * b);
            lemma_times_nought(b);
            lemma_times_nought(w);
        }
    }
    lemma_series_plus(n, right, rest, gpe);
    lemma_series_times(n, w, pe, rest);
    lemma_series_same(n, pe, |k: int| v(p[k]) * e(k));
    lemma_distribute(mean, w, 0 as real);
    lemma_series_same(n, left, |j: int| v(g[j]) * softmax_tangent(read, p, e, j));
    lemma_series_same(n, right, |j: int| v(out[j]) * d(j));
}

/// A sum with one term that is not zero.
proof fn lemma_series_single(n: nat, t: int, x: real)
    ensures
        series(
            n,
            |c: int|
                if c == t {
                    x
                } else {
                    0 as real
                },
        ) == (if 0 <= t < n {
            x
        } else {
            0 as real
        }),
    decreases n,
{
    if n > 0 {
        lemma_series_single((n - 1) as nat, t, x);
    }
}

/// A quotient as a multiple.
pub proof fn lemma_over(x: real, n: real)
    requires
        n != 0 as real,
    ensures
        x / n == (1 as real / n) * x,
{
    assert(x / n == (1 as real / n) * x) by (nonlinear_arith)
        requires
            n != 0 as real,
    ;
}

/// The inner product of a row of the gradient of the loss with a direction.
proof fn lemma_loss_row_dot<T: Real>(
    read: Reading<T>,
    p: Seq<T>,
    target: usize,
    normalizer: T,
    grad: Seq<T>,
    d: spec_fn(int) -> real,
)
    requires
        is_exact(read),
        all_finite(read, p),
        (read.finite)(normalizer),
        (read.value)(normalizer) != 0 as real,
        loss_grad_row_gives(p, target, normalizer, grad),
        target < p.len(),
    ensures
        series(p.len(), |c: int| (read.value)(grad[c]) * d(c)) == (1 as real / (read.value)(
            normalizer,
        )) * (series(p.len(), |c: int| (read.value)(p[c]) * d(c)) - d(target as int)),
{
    let v = read.value;
    let (n, m) = (p.len(), v(normalizer));
    let share = 1 as real / m;
    let t = target as int;
    let (f, pd) = (|c: int| v(grad[c]) * d(c), |c: int| v(p[c]) * d(c));
    let h = |c: int| share * pd(c);
    let single = |c: int|
        if c == t {
            share * d(t)
        } else {
            0 as real
        };
    assert forall|c: int| 0 <= c < n implies #[trigger] h(c) == f(c) + single(c) by {
        assert(loss_grad_gives(p[c], c == target, normalizer, grad[c]));
        assert((read.finite)(p[c]));
        let (x, y) = (v(p[c]), d(c));
        lemma_over(x, m);
        lemma_regroup(share, x, y);
        if c == t {
            let (a, one, b) = choose|a: T, one: T, b: T| #[trigger]
                over_gives(p[c], normalizer, a) && one_gives(one) && #[trigger] over_gives(
                    one,
                    normalizer,
                    b,
                ) && minus_gives(a, b, grad[c]);
            assert(v(grad[c]) == share * x - share);
            lemma_distribute(y, share * x, share);
        }
    }
    lemma_series_plus(n, f, single, h);
    lemma_series_times(n, share, pd, h);
    lemma_series_single(n, t, share * d(t));
    lemma_series_same(
        n,
        single,
        |c: int|
            if c == t {
                share * d(t)
            } else {
                0 as real
            },
    );
    lemma_series_same(n, f, |c: int| v(grad[c]) * d(c));
    lemma_series_same(n, pd, |c: int| v(p[c]) * d(c));
    lemma_distribute(share, series(n, pd), d(t));
}

/// The tangent of the loss of row `r`: minus the tangent of the target's probability over that
/// probability.
pub open spec fn row_loss_tangent<T>(
    read: Reading<T>,
    probs: Tensor3<T>,
    targets: TokenArray,
    d: spec_fn(int, int) -> real,
    r: int,
) -> real {
    let target = token_items(targets)[r] as int;
    -(softmax_tangent(read, probs.flat.row(r), |c: int| d(r, c), target) / (read.value)(
        probs.flat.at(r, target),
    ))
}

/// The gradient of the loss is its slope along the logits, where the probability of every target
/// lies above the bound that the loss clips at.
pub proof fn lemma_loss_gradient<T: Real>(
    read: Reading<T>,
    logits: Tensor3<T>,
    targets: TokenArray,
    probs: Tensor3<T>,
    loss: T,
    grad: Tensor3<T>,
    d: spec_fn(int, int) -> real,
)
    requires
        is_exact(read),
        logits.wf(),
        cross_entropy_gives(logits, targets, probs, loss, grad),
        logits.flat.rows > 0,
        all_finite(read, probs.flat.data@),
        forall|r: int|
            0 <= r < logits.flat.rows ==> (#[trigger] token_items(targets)[r]) < logits.flat.cols
                && (read.value)(probs.flat.at(r, token_items(targets)[r] as int)) > 1 as real
                / 1_000_000_000_000 as real,
    ensures
        series(
            logits.flat.rows as nat,
            |r: int| row_loss_tangent(read, probs, targets, d, r),
        ) / logits.flat.rows as real == series(
            logits.flat.rows as nat,
            |r: int|
                series(
                    logits.flat.cols as nat,
                    |c: int| (read.value)(grad.flat.at(r, c)) * d(r, c),
                ),
        ),
{
    let v = read.value;
    let (rows, cols) = (logits.flat.rows as nat, logits.flat.cols as nat);
    let normalizer = choose|normalizer: T| #[trigger]
        count_gives(logits.flat.rows, normalizer) && mean_loss_gives(
            probs,
            targets,
            normalizer,
            loss,
        ) && forall|k: int|
            0 <= k < logits.flat.rows ==> loss_grad_row_gives(
                probs.flat.row(k),
                token_items(targets)[k],
                normalizer,
                #[trigger] grad.flat.row(k),
            );
    let n = rows as real;
    assert(v(normalizer) == n && n > 0 as real);
    let share = 1 as real / n;
    let tangent = |r: int| row_loss_tangent(read, probs, targets, d, r);
    let inner = |r: int| series(cols, |c: int| v(grad.flat.at(r, c)) * d(r, c));
    assert forall|r: int| 0 <= r < rows implies #[trigger] inner(r) == share * tangent(r) by {
        let target = token_items(targets)[r] as int;
        assert(token_items(targets)[r] < logits.flat.cols);
        let (p, g) = (probs.flat.row(r), grad.flat.row(r));
        assert(loss_grad_row_gives(p, token_items(targets)[r], normalizer, g));
        assert forall|c: int| 0 <= c < p.len() implies (read.finite)(#[trigger] p[c]) by {
            lemma_index_in_range(r, rows as int, c, cols as int);
            assert(p[c] == probs.flat.data@[r * cols + c]);
        }
        let e = |c: int| d(r, c);
        lemma_loss_row_dot(read, p, token_items(targets)[r], normalizer, g, e);
        lemma_series_same(
            cols,
            |c: int| v(g[c]) * e(c),
            |c: int| v(grad.flat.at(r, c)) * d(r, c),
        );
        let mean = series(cols, |c: int| v(p[c]) * e(c));
        let (x, y) = (v(p[target]), d(r, target) - mean);
        assert(p[target] == probs.flat.at(r, target));
        assert(1 as real / 1_000_000_000_000 as real > 0 as real);
        assert((x * y) / x == y) by (nonlinear_arith)
            requires
                x > 0 as real,
        ;
        lemma_series_same(cols, |k: int| v(p[k]) * e(k), |c: int| v(p[c]) * e(c));
        assert(tangent(r) == -y);
    }
    lemma_series_times(rows, share, tangent, inner);
    lemma_over(series(rows, tangent), n);
    lemma_series_same(rows, tangent, |r: int| row_loss_tangent(read, probs, targets, d, r));
    lemma_series_same(
        rows,
        inner,
        |r: int| series(cols, |c: int| v(grad.flat.at(r, c)) * d(r, c)),
    );
}

/// Rows that are added to the rows of a table which their keys name, against a direction of the
/// table: column `c`.
proof fn lemma_scatter_column<T>(
    read: Reading<T>,
    keys: Seq<usize>,
    grads: Tensor2<T>,
    n: nat,
    rows: nat,
    c: int,
    d: spec_fn(int) -> real,
)
    requires
        forall|r: int| 0 <= r < n ==> (#[trigger] keys[r]) < rows,
    ensures
        series(n, |r: int| (read.value)(grads.at(r, c)) * d(keys[r] as int)) == series(
            rows,
            |v: int| scatter_sum(read, keys, grads, n as int, v, c) * d(v),
        ),
    decreases n,
{
    let rv = read.value;
    let now = |v: int| scatter_sum(read, keys, grads, n as int, v, c) * d(v);
    if n == 0 {
        assert forall|v: int| 0 <= v < rows implies #[trigger] now(v) == (0 as real) * now(v) by {
            let y = d(v);
            assert((0 as real) * y == 0 as real) by (nonlinear_arith);
            lemma_times_nought(0 as real);
        }
        lemma_series_times(rows, 0 as real, now, now);
        let total = series(rows, now);
        assert((0 as real) * total == 0 as real) by (nonlinear_arith);
    } else {
        let less = (n - 1) as nat;
        lemma_scatter_column(read, keys, grads, less, rows, c, d);
        let key = keys[less as int] as int;
        assert(keys[less as int] < rows);
        let x = rv(grads.at(less as int, c));
        let before = |v: int| scatter_sum(read, keys, grads, less as int, v, c) * d(v);
        let single = |v: int|
            if v == key {
                x * d(key)
            } else {
                0 as real
            };
        assert forall|v: int| 0 <= v < rows implies #[trigger] now(v) == before(v) + single(v) by {
            lemma_distribute(
                d(v),
                scatter_sum(read, keys, grads, less as int, v, c),
                x,
            );
        }
        lemma_series_plus(rows, before, single, now);
        lemma_series_single(rows, key, x * d(key));
        lemma_series_same(
            rows,
            single,
            |v: int|
                if v == key {
                    x * d(key)
                } else {
                    0 as real
                },
        );
        lemma_series_same(
            rows,
            before,
            |v: int| scatter_sum(read, keys, grads, less as int, v, c) * d(v),
        );
        let f = |r: int| rv(grads.at(r, c)) * d(keys[r] as int);
        assert(series(n, f) == series(less, f) + f(less as int));
        lemma_series_same(less, f, |r: int| rv(grads.at(r, c)) * d(keys[r] as int));
    }
    lemma_series_same(
        rows,
        now,
        |v: int| scatter_sum(read, keys, grads, n as int, v, c) * d(v),
    );
}

/// What is added to the gradient of a table of embeddings is the slope along the table: for a
/// direction `d` of the table, the rows that were looked up move as the rows that their keys name.
pub proof fn lemma_embedding_gradient<T: Real>(
    read: Reading<T>,
    keys: Seq<usize>,
    before: Param2D<T>,
    g: Tensor2<T>,
    after: Param2D<T>,
    d: spec_fn(int, int) -> real,
)
    requires
        is_exact(read),
        before.wf(),
        g.wf(),
        g.cols == before.value.cols,
        forall|r: int| 0 <= r < g.rows ==> (#[trigger] keys[r]) < before.value.rows,
        all_finite(read, before.grad.data@),
        all_finite(read, g.data@),
        scattered(before.grad, keys, g, after.grad),
    ensures
        series(
            g.cols as nat,
            |c: int|
                series(g.rows as nat, |r: int| (read.value)(g.at(r, c)) * d(keys[r] as int, c)),
        ) == series(
            g.cols as nat,
            |c: int|
                series(
                    before.value.rows as nat,
                    |v: int| table_gain(read, before, after, v, c) * d(v, c),
                ),
        ),
{
    let rv = read.value;
    let (n, cols, rows) = (g.rows as nat, g.cols as nat, before.value.rows as nat);
    let (f, h) = (
        |c: int| series(n, |r: int| rv(g.at(r, c)) * d(keys[r] as int, c)),
        |c: int| series(rows, |v: int| table_gain(read, before, after, v, c) * d(v, c)),
    );
    assert forall|c: int| 0 <= c < cols implies #[trigger] f(c) == h(c) by {
        let e = |v: int| d(v, c);
        lemma_scatter_column(read, keys, g, n, rows, c, e);
        lemma_series_same(
            n,
            |r: int| rv(g.at(r, c)) * e(keys[r] as int),
            |r: int| rv(g.at(r, c)) * d(keys[r] as int, c),
        );
        let (p, q) = (
            |v: int| scatter_sum(read, keys, g, n as int, v, c) * e(v),
            |v: int| table_gain(read, before, after, v, c) * d(v, c),
        );
        assert forall|v: int| 0 <= v < rows implies #[trigger] p(v) == q(v) by {
            assert forall|r: int| 0 <= r < g.rows implies (read.finite)(#[trigger] g.at(r, c)) by {
                lemma_index_in_range(r, g.rows as int, c, cols as int);
            }
            lemma_index_in_range(v, rows as int, c, cols as int);
            assert((read.finite)(before.grad.data@[v * cols + c]));
            assert(scatter_gives(
                keys,
                g,
                n as int,
                v,
                c,
                before.grad.at(v, c),
                after.grad.at(v, c),
            ));
            lemma_scatter_exact(
                read,
                keys,
                g,
                n as int,
                v,
                c,
                before.grad.at(v, c),
                after.grad.at(v, c),
            );
        }
        lemma_series_same(rows, p, q);
    }
    lemma_series_same(cols, f, h);
}

} // verus!
