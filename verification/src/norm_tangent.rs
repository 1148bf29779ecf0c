//! The gradient of the normalization, where the number type computes exactly.

use crate::elementwise::items_times_give;
use crate::exact::{all_finite, is_exact, lemma_sum_exact, lemma_times_nought, Reading};
use crate::gradient::{
    lemma_dot_is_series, lemma_series_plus, lemma_series_same, lemma_series_times,
    lemma_total_is_series, series,
};
use crate::layer_norm::{
    inv_root_gives, layer_norm_backward_gives, norm_grad_entry_gives, norm_row_backward_gives,
    norm_row_sums_give, normalized_row_gives, plus_each_gives, plus_products_give,
    squared_deviation_gives, squares_give, standardized_gives, variance_gives, LayerNorm,
    LayerNormCache,
};
use crate::reduce::{mean_gives, sum_gives};
use crate::scalar::{
    count_gives, minus_gives, one_gives, over_gives, plus_gives, sqrt_gives, times_gives, Real,
};
use crate::scaling::{
    lemma_norm_entry_value, lemma_parts_finite, lemma_plus_each_exact, lemma_plus_products_exact,
    norm_grads_finite, stack_finite, vector_gain,
};
use crate::tangent::{lemma_distribute, lemma_over, lemma_regroup, quotient_tangent};
use crate::tensor::Tensor3;
use vstd::prelude::*;

verus! {

/// The mean of `n` numbers.
pub open spec fn mean_over(n: nat, f: spec_fn(int) -> real) -> real {
    series(n, f) / n as real
}

/// How far number `k` lies from the mean.
pub open spec fn deviation(n: nat, x: spec_fn(int) -> real, k: int) -> real {
    x(k) - mean_over(n, x)
}

/// The mean of the squared deviations.
pub open spec fn variance_over(n: nat, x: spec_fn(int) -> real) -> real {
    mean_over(n, |k: int| deviation(n, x, k) * deviation(n, x, k))
}

/// The tangent of the variance, by the rule for products: the deviations move as the deviations
/// of the direction.
pub open spec fn variance_tangent(
    n: nat,
    x: spec_fn(int) -> real,
    d: spec_fn(int) -> real,
) -> real {
    mean_over(
        n,
        |k: int|
            deviation(n, d, k) * deviation(n, x, k) + deviation(n, x, k) * deviation(n, d, k),
    )
}

/// The tangent of normalized number `i`: a deviation times one over the root, by the rules for
/// products, quotients and roots.
pub open spec fn normalized_tangent(
    n: nat,
    x: spec_fn(int) -> real,
    d: spec_fn(int) -> real,
    root: real,
    i: int,
) -> real {
    deviation(n, d, i) * (1 as real / root) + deviation(n, x, i) * quotient_tangent(
        1 as real,
        0 as real,
        root,
        variance_tangent(n, x, d) / (2 as real * root),
    )
}

/// Deviations sum to zero.
proof fn lemma_deviations_cancel(n: nat, x: spec_fn(int) -> real)
    requires
        n > 0,
    ensures
        series(n, |k: int| deviation(n, x, k)) == 0 as real,
{
    let m = mean_over(n, x);
    let c = |k: int| deviation(n, x, k);
    let flat = |k: int| m;
    lemma_series_plus(n, c, flat, x);
    lemma_flat_series(n, m);
    lemma_series_same(n, flat, |k: int| m);
    let (total, w) = (series(n, x), n as real);
    assert(w * (total / w) == total) by (nonlinear_arith)
        requires
            w > 0 as real,
    ;
}

/// The sum of one number, `n` times.
proof fn lemma_flat_series(n: nat, m: real)
    ensures
        series(n, |k: int| m) == n as real * m,
    decreases n,
{
    if n == 0 {
        assert((0 as real) * m == 0 as real) by (nonlinear_arith);
    } else {
        lemma_flat_series((n - 1) as nat, m);
        let w = (n - 1) as real;
        assert(n as real == w + 1 as real);
        lemma_distribute(m, w, 1 as real);
        assert((1 as real) * m == m) by (nonlinear_arith);
    }
}

/// The tangent of the variance is twice the mean of the deviations times the direction.
proof fn lemma_variance_tangent(n: nat, x: spec_fn(int) -> real, d: spec_fn(int) -> real)
    requires
        n > 0,
    ensures
        variance_tangent(n, x, d) == (2 as real * series(
            n,
            |k: int| deviation(n, x, k) * d(k),
        )) / n as real,
{
    let dm = mean_over(n, d);
    let c = |k: int| deviation(n, x, k);
    let cd = |k: int| deviation(n, x, k) * d(k);
    let twice = |k: int| 2 as real * cd(k);
    let move_by = |k: int|
        deviation(n, d, k) * deviation(n, x, k) + deviation(n, x, k) * deviation(n, d, k);
    let rest = |k: int| (2 as real * dm) * c(k);
    assert forall|k: int| 0 <= k < n implies #[trigger] twice(k) == move_by(k) + rest(k) by {
        let (a, b) = (c(k), d(k));
        lemma_distribute(a, b, dm);
        lemma_distribute(a, b - dm, 0 as real);
        lemma_regroup(2 as real, dm, a);
        lemma_distribute(dm, a, 0 as real);
    }
    lemma_series_plus(n, move_by, rest, twice);
    lemma_series_times(n, 2 as real, cd, twice);
    lemma_series_times(n, 2 as real * dm, c, rest);
    lemma_deviations_cancel(n, x);
    lemma_series_same(n, c, |k: int| deviation(n, x, k));
    lemma_times_nought(2 as real * dm);
    lemma_series_same(
        n,
        move_by,
        |k: int|
            deviation(n, d, k) * deviation(n, x, k) + deviation(n, x, k) * deviation(n, d, k),
    );
    lemma_series_same(n, cd, |k: int| deviation(n, x, k) * d(k));
}

/// The tangent of one over the root.
proof fn lemma_inverse_root_tangent(q: real, n: real, root: real)
    requires
        n > 0 as real,
        root > 0 as real,
    ensures
        quotient_tangent(
            1 as real,
            0 as real,
            root,
            ((2 as real * q) / n) / (2 as real * root),
        ) == -((1 as real / root) * ((1 as real / root) * ((1 as real / n) * ((1 as real / root)
            * q)))),
{
    let inv = 1 as real / root;
    let moved = ((2 as real * q) / n) / (2 as real * root);
    let share = (1 as real / n) * q;
    lemma_over(2 as real * q, n);
    lemma_regroup(1 as real / n, 2 as real, q);
    assert((2 as real * q) / n == 2 as real * share);
    assert((2 as real * share) / (2 as real * root) == share / root) by (nonlinear_arith)
        requires
            root > 0 as real,
    ;
    lemma_over(share, root);
    assert(moved == inv * share);
    lemma_regroup(inv, 1 as real / n, q);
    assert(moved == (1 as real / n) * (inv * q));
    let square = root * root;
    assert((0 as real) * root == 0 as real) by (nonlinear_arith);
    assert((1 as real) * moved == moved) by (nonlinear_arith);
    assert(square > 0 as real) by (nonlinear_arith)
        requires
            square == root * root,
            root > 0 as real,
    ;
    assert((0 as real - moved) / square == -(inv * (inv * moved))) by (nonlinear_arith)
        requires
            square == root * root,
            root > 0 as real,
            inv == 1 as real / root,
    ;
}

/// Sums of three multiples.
proof fn lemma_series_three(
    n: nat,
    a: real,
    f: spec_fn(int) -> real,
    b: real,
    g: spec_fn(int) -> real,
    c: real,
    h: spec_fn(int) -> real,
    all: spec_fn(int) -> real,
)
    requires
        forall|i: int|
            0 <= i < n ==> #[trigger] all(i) == a * f(i) - b * g(i) - c * h(i),
    ensures
        series(n, all) == a * series(n, f) - b * series(n, g) - c * series(n, h),
    decreases n,
{
    if n == 0 {
        lemma_times_nought(a);
        lemma_times_nought(b);
        lemma_times_nought(c);
    } else {
        let less = (n - 1) as nat;
        lemma_series_three(less, a, f, b, g, c, h, all);
        assert(all(n - 1) == a * f(n - 1) - b * g(n - 1) - c * h(n - 1));
        lemma_distribute(a, series(less, f), f(n - 1));
        lemma_distribute(b, series(less, g), g(n - 1));
        lemma_distribute(c, series(less, h), h(n - 1));
    }
}

/// What a normalized row and its factor read as.
pub proof fn lemma_normalized_values<T: Real>(
    read: Reading<T>,
    items: Seq<T>,
    eps: T,
    x_hat: Seq<T>,
    inv_std: T,
    root: real,
)
    requires
        is_exact(read),
        0 < items.len() <= usize::MAX,
        all_finite(read, items),
        (read.finite)(eps),
        (read.value)(eps) > 0 as real,
        normalized_row_gives(items, eps, x_hat, inv_std),
        root > 0 as real,
        root * root == variance_over(items.len(), |k: int| (read.value)(items[k])) + (read.value)(
            eps,
        ),
    ensures
        (read.finite)(inv_std),
        (read.value)(inv_std) == 1 as real / root,
        x_hat.len() == items.len(),
        all_finite(read, x_hat),
        forall|i: int|
            0 <= i < items.len() ==> (read.value)(#[trigger] x_hat[i]) == deviation(
                items.len(),
                |k: int| (read.value)(items[k]),
                i,
            ) * (1 as real / root),
{
    let v = read.value;
    let n = items.len();
    let x = |k: int| v(items[k]);
    let (mean, var) = choose|mean: T, var: T| #[trigger]
        mean_gives(items, mean) && #[trigger] variance_gives(items, mean, var) && inv_root_gives(
            var,
            eps,
            inv_std,
        ) && x_hat.len() == items.len() && forall|i: int|
            0 <= i < items.len() ==> standardized_gives(
                items[i],
                mean,
                inv_std,
                #[trigger] x_hat[i],
            );
    lemma_mean_value(read, items, mean);
    lemma_series_same(n, |k: int| v(items[k]), x);
    assert(v(mean) == mean_over(n, x));
    lemma_variance_value(read, items, mean, var);
    assert(v(var) == variance_over(n, x));
    let (shifted, rt, one) = choose|shifted: T, rt: T, one: T| #[trigger]
        plus_gives(var, eps, shifted) && #[trigger] sqrt_gives(shifted, rt) && one_gives(one)
            && #[trigger] over_gives(one, rt, inv_std);
    assert(root * root > 0 as real) by (nonlinear_arith)
        requires
            root > 0 as real,
    ;
    let y = v(rt);
    assert(y == root) by (nonlinear_arith)
        requires
            y >= 0 as real,
            root > 0 as real,
            y * y == root * root,
    ;
    assert forall|i: int| 0 <= i < n implies (read.finite)(#[trigger] x_hat[i]) && v(x_hat[i])
        == deviation(n, x, i) * (1 as real / root) by {
        assert(standardized_gives(items[i], mean, inv_std, x_hat[i]));
        assert((read.finite)(items[i]));
        let centred = choose|centred: T| #[trigger]
            minus_gives(items[i], mean, centred) && times_gives(centred, inv_std, x_hat[i]);
        assert(v(centred) == deviation(n, x, i));
    }
}

/// What the variance of a row reads as.
proof fn lemma_variance_value<T: Real>(read: Reading<T>, items: Seq<T>, mean: T, var: T)
    requires
        is_exact(read),
        0 < items.len() <= usize::MAX,
        all_finite(read, items),
        mean_gives(items, mean),
        variance_gives(items, mean, var),
    ensures
        (read.finite)(var),
        (read.value)(var) == variance_over(items.len(), |k: int| (read.value)(items[k])),
        (read.value)(var) >= 0 as real,
{
    let v = read.value;
    let n = items.len();
    let x = |k: int| v(items[k]);
    lemma_mean_value(read, items, mean);
    lemma_series_same(n, |k: int| v(items[k]), x);
    assert(v(mean) == mean_over(n, x));
    let squares = choose|squares: Seq<T>| #[trigger]
        squares_give(items, mean, squares) && mean_gives(squares, var);
    let sq = |k: int| deviation(n, x, k) * deviation(n, x, k);
    assert forall|k: int| 0 <= k < n implies (read.finite)(#[trigger] squares[k]) && v(squares[k])
        == sq(k) by {
        assert(squared_deviation_gives(items[k], mean, squares[k]));
        assert((read.finite)(items[k]));
        let centred = choose|centred: T| #[trigger]
            minus_gives(items[k], mean, centred) && times_gives(centred, centred, squares[k]);
        assert(v(centred) == deviation(n, x, k));
    }
    lemma_mean_value(read, squares, var);
    assert forall|k: int| 0 <= k < n implies #[trigger] sq(k) == v(squares[k]) by {
        assert((read.finite)(squares[k]));
    }
    lemma_series_same(n, sq, |k: int| v(squares[k]));
    lemma_series_same(n, sq, |k: int| deviation(n, x, k) * deviation(n, x, k));
    assert(v(var) == variance_over(n, x));
    assert forall|k: int| 0 <= k < n implies #[trigger] sq(k) >= 0 as real by {
        let y = deviation(n, x, k);
        assert(y * y >= 0 as real) by (nonlinear_arith);
    }
    lemma_series_not_negative(n, sq);
    let total = series(n, sq);
    assert(total / n as real >= 0 as real) by (nonlinear_arith)
        requires
            total >= 0 as real,
            n > 0,
    ;
}

/// A sum of numbers none of which is negative.
proof fn lemma_series_not_negative(n: nat, f: spec_fn(int) -> real)
    requires
        forall|i: int| 0 <= i < n ==> #[trigger] f(i) >= 0 as real,
    ensures
        series(n, f) >= 0 as real,
    decreases n,
{
    if n > 0 {
        lemma_series_not_negative((n - 1) as nat, f);
        assert(f(n - 1) >= 0 as real);
    }
}

/// The factor of a normalized row is the inverse of the root of its variance, moved away from
/// zero.
pub proof fn lemma_row_root<T: Real>(
    read: Reading<T>,
    items: Seq<T>,
    eps: T,
    x_hat: Seq<T>,
    inv_std: T,
)
    requires
        is_exact(read),
        0 < items.len() <= usize::MAX,
        all_finite(read, items),
        (read.finite)(eps),
        (read.value)(eps) > 0 as real,
        normalized_row_gives(items, eps, x_hat, inv_std),
    ensures
        (read.finite)(inv_std),
        1 as real / (read.value)(inv_std) > 0 as real,
        (1 as real / (read.value)(inv_std)) * (1 as real / (read.value)(inv_std)) == variance_over(
            items.len(),
            |k: int| (read.value)(items[k]),
        ) + (read.value)(eps),
{
    let v = read.value;
    let (mean, var) = choose|mean: T, var: T| #[trigger]
        mean_gives(items, mean) && #[trigger] variance_gives(items, mean, var) && inv_root_gives(
            var,
            eps,
            inv_std,
        );
    lemma_variance_value(read, items, mean, var);
    let (shifted, rt, one) = choose|shifted: T, rt: T, one: T| #[trigger]
        plus_gives(var, eps, shifted) && #[trigger] sqrt_gives(shifted, rt) && one_gives(one)
            && #[trigger] over_gives(one, rt, inv_std);
    let (y, inv) = (v(rt), v(inv_std));
    assert(y != 0 as real) by (nonlinear_arith)
        requires
            y * y > 0 as real,
    ;
    assert(1 as real / inv == y) by (nonlinear_arith)
        requires
            y > 0 as real,
            inv == 1 as real / y,
    ;
}

/// What a mean reads as.
proof fn lemma_mean_value<T: Real>(read: Reading<T>, items: Seq<T>, mean: T)
    requires
        is_exact(read),
        0 < items.len() <= usize::MAX,
        all_finite(read, items),
        mean_gives(items, mean),
    ensures
        (read.finite)(mean),
        (read.value)(mean) == mean_over(items.len(), |k: int| (read.value)(items[k])),
{
    let (total, count) = choose|total: T, count: T| #[trigger]
        sum_gives(items, total) && count_gives(items.len() as usize, count)
            && #[trigger] over_gives(total, count, mean);
    lemma_sum_exact(read, items, total);
    lemma_total_is_series(read, items);
}

/// What the parts of the gradient of a row read as.
proof fn lemma_row_sums_values<T: Real>(
    read: Reading<T>,
    g: Seq<T>,
    gamma: Seq<T>,
    x_hat: Seq<T>,
    g_hat: Seq<T>,
    s1: T,
    s2: T,
)
    requires
        is_exact(read),
        all_finite(read, g),
        all_finite(read, gamma),
        all_finite(read, x_hat),
        norm_row_sums_give(g, gamma, x_hat, g_hat, s1, s2),
    ensures
        g_hat.len() == g.len(),
        all_finite(read, g_hat),
        forall|i: int|
            0 <= i < g.len() ==> (read.value)(#[trigger] g_hat[i]) == (read.value)(g[i]) * (
            read.value)(gamma[i]),
        (read.finite)(s1),
        (read.value)(s1) == series(g.len(), |i: int| (read.value)(g_hat[i])),
        (read.finite)(s2),
        (read.value)(s2) == series(
            g.len(),
            |i: int| (read.value)(g_hat[i]) * (read.value)(x_hat[i]),
        ),
{
    let v = read.value;
    let products = choose|products: Seq<T>|
        items_times_give(g, gamma, g_hat) && sum_gives(g_hat, s1) && #[trigger] items_times_give(
            g_hat,
            x_hat,
            products,
        ) && sum_gives(products, s2);
    assert forall|i: int| 0 <= i < g.len() implies (read.finite)(#[trigger] g_hat[i]) && v(g_hat[i])
        == v(g[i]) * v(gamma[i]) by {
        assert(times_gives(g[i], gamma[i], g_hat[i]));
        assert((read.finite)(g[i]) && (read.finite)(gamma[i]));
    }
    let hx = |i: int| v(g_hat[i]) * v(x_hat[i]);
    assert forall|i: int| 0 <= i < g.len() implies (read.finite)(#[trigger] products[i]) && v(
        products[i],
    ) == hx(i) by {
        assert(times_gives(g_hat[i], x_hat[i], products[i]));
        assert((read.finite)(g_hat[i]) && (read.finite)(x_hat[i]));
    }
    lemma_sum_exact(read, g_hat, s1);
    lemma_total_is_series(read, g_hat);
    lemma_sum_exact(read, products, s2);
    lemma_total_is_series(read, products);
    assert forall|i: int| 0 <= i < g.len() implies #[trigger] hx(i) == v(products[i]) by {
        assert((read.finite)(products[i]));
    }
    lemma_series_same(g.len(), hx, |i: int| v(products[i]));
    lemma_series_same(g.len(), hx, |i: int| v(g_hat[i]) * v(x_hat[i]));
}

/// What the normalization hands back for a row is the slope along the row, whatever the direction
/// `d`; `root` is the square root of the variance plus `eps`.
pub proof fn lemma_norm_gradient<T: Real>(
    read: Reading<T>,
    items: Seq<T>,
    eps: T,
    x_hat: Seq<T>,
    inv_std: T,
    gamma: Seq<T>,
    g: Seq<T>,
    out: Seq<T>,
    root: real,
    d: spec_fn(int) -> real,
)
    requires
        is_exact(read),
        0 < items.len() <= usize::MAX,
        g.len() == items.len(),
        gamma.len() == items.len(),
        all_finite(read, items),
        all_finite(read, gamma),
        all_finite(read, g),
        (read.finite)(eps),
        (read.value)(eps) > 0 as real,
        normalized_row_gives(items, eps, x_hat, inv_std),
        norm_row_backward_gives(g, gamma, x_hat, inv_std, out),
        root > 0 as real,
        root * root == variance_over(items.len(), |k: int| (read.value)(items[k])) + (read.value)(
            eps,
        ),
    ensures
        series(
            items.len(),
            |i: int|
                (read.value)(g[i]) * ((read.value)(gamma[i]) * normalized_tangent(
                    items.len(),
                    |k: int| (read.value)(items[k]),
                    d,
                    root,
                    i,
                )),
        ) == series(items.len(), |i: int| (read.value)(out[i]) * d(i)),
{
    let v = read.value;
    let n = items.len();
    let w = n as real;
    let x = |k: int| v(items[k]);
    let inv = 1 as real / root;
    let f = inv / w;
    lemma_normalized_values(read, items, eps, x_hat, inv_std, root);
    let (g_hat, s1, s2, count, factor) = choose|
        g_hat: Seq<T>,
        s1: T,
        s2: T,
        count: T,
        factor: T,
    | #[trigger]
        norm_row_sums_give(g, gamma, x_hat, g_hat, s1, s2) && count_gives(g.len() as usize, count)
            && #[trigger] over_gives(inv_std, count, factor) && out.len() == g.len() && forall|
            i: int,
        |
            0 <= i < g.len() ==> norm_grad_entry_gives(
                g_hat[i],
                count,
                s1,
                x_hat[i],
                s2,
                factor,
                #[trigger] out[i],
            );
    lemma_row_sums_values(read, g, gamma, x_hat, g_hat, s1, s2);
    assert(v(count) == w && v(factor) == f);
    let (h, hx) = (|i: int| v(g_hat[i]), |i: int| v(g_hat[i]) * v(x_hat[i]));
    let (hd, xd) = (|i: int| v(g_hat[i]) * d(i), |i: int| v(x_hat[i]) * d(i));
    let dm = mean_over(n, d);
    let p = series(n, xd);
    // The tangent of each normalized number.
    let q = series(n, |k: int| deviation(n, x, k) * d(k));
    let cd = |k: int| deviation(n, x, k) * d(k);
    assert forall|k: int| 0 <= k < n implies #[trigger] xd(k) == inv * cd(k) by {
        assert(v(x_hat[k]) == deviation(n, x, k) * inv);
        lemma_distribute(inv, deviation(n, x, k), 0 as real);
        lemma_regroup(inv, deviation(n, x, k), d(k));
    }
    lemma_series_times(n, inv, cd, xd);
    lemma_series_same(n, cd, |k: int| deviation(n, x, k) * d(k));
    assert(p == inv * q);
    lemma_variance_tangent(n, x, d);
    lemma_inverse_root_tangent(q, w, root);
    let dinv = quotient_tangent(
        1 as real,
        0 as real,
        root,
        variance_tangent(n, x, d) / (2 as real * root),
    );
    assert(dinv == -(inv * (inv * ((1 as real / w) * p))));
    lemma_over(inv, w);
    assert(f == (1 as real / w) * inv);
    lemma_regroup(inv, 1 as real / w, p);
    lemma_regroup(1 as real / w, inv, p);
    let fp = f * p;
    assert(inv * ((1 as real / w) * p) == fp);
    assert(dinv == -(inv * fp));
    let tangent = |i: int| normalized_tangent(n, x, d, root, i);
    let left = |i: int| v(g[i]) * (v(gamma[i]) * tangent(i));
    assert forall|i: int| 0 <= i < n implies #[trigger] left(i) == inv * hd(i) - (inv * dm) * h(i)
        - fp * hx(i) by {
        let (c, xh, e) = (deviation(n, x, i), v(x_hat[i]), d(i));
        assert(xh == c * inv);
        // c * dinv == -(xh * fp)
        lemma_regroup(c, inv, fp);
        assert(c * (-(inv * fp)) == -(c * (inv * fp))) by (nonlinear_arith);
        assert(tangent(i) == (e - dm) * inv - xh * fp);
        lemma_regroup(v(g[i]), v(gamma[i]), tangent(i));
        let a = v(g_hat[i]);
        assert(left(i) == a * tangent(i));
        lemma_distribute(a, (e - dm) * inv, xh * fp);
        lemma_distribute(inv, e, dm);
        lemma_distribute(a, e * inv, dm * inv);
        lemma_regroup(a, e, inv);
        lemma_distribute(inv, a * e, 0 as real);
        lemma_regroup(a, dm, inv);
        lemma_distribute(dm, inv, 0 as real);
        lemma_distribute(inv * dm, a, 0 as real);
        lemma_regroup(a, xh, fp);
        lemma_distribute(fp, a * xh, 0 as real);
    }
    lemma_series_three(n, inv, hd, inv * dm, h, fp, hx, left);
    let right = |i: int| v(out[i]) * d(i);
    let (t1, t2) = (v(s1), v(s2));
    assert forall|i: int| 0 <= i < n implies #[trigger] right(i) == inv * hd(i) - (f * t1) * d(i)
        - (f * t2) * xd(i) by {
        assert(norm_grad_entry_gives(g_hat[i], count, s1, x_hat[i], s2, factor, out[i]));
        assert((read.finite)(g_hat[i]) && (read.finite)(x_hat[i]));
        lemma_norm_entry_value(read, g_hat[i], count, s1, x_hat[i], s2, factor, out[i]);
        let (a, xh, e) = (v(g_hat[i]), v(x_hat[i]), d(i));
        let inner = a * w - t1 - xh * t2;
        assert(v(out[i]) == inner * f);
        lemma_distribute(f, a * w - t1, xh * t2);
        lemma_distribute(f, a * w, t1);
        assert(inner * f == (a * w) * f - t1 * f - (xh * t2) * f);
        assert(w * f == inv) by (nonlinear_arith)
            requires
                f == inv / w,
                w > 0 as real,
        ;
        lemma_regroup(a, w, f);
        assert((a * w) * f == a * inv);
        lemma_distribute(e, a * inv - t1 * f, (xh * t2) * f);
        lemma_distribute(e, a * inv, t1 * f);
        // a inv e == inv (a e)
        lemma_distribute(inv, a, 0 as real);
        lemma_regroup(inv, a, e);
        // t1 f e == (f t1) e
        lemma_distribute(f, t1, 0 as real);
        // xh t2 f e == (f t2) (xh e)
        lemma_regroup(xh, t2, f);
        lemma_distribute(t2, f, 0 as real);
        lemma_regroup(xh, f * t2, e);
        lemma_distribute(xh, f * t2, 0 as real);
        lemma_regroup(f * t2, xh, e);
    }
    lemma_series_three(n, inv, hd, f * t1, d, f * t2, xd, right);
    // The two sides meet.
    lemma_series_same(n, h, |i: int| v(g_hat[i]));
    lemma_series_same(n, hx, |i: int| v(g_hat[i]) * v(x_hat[i]));
    let total = series(n, d);
    assert(inv * dm == f * total) by {
        lemma_over(total, w);
        lemma_over(inv, w);
        lemma_regroup(inv, 1 as real / w, total);
        lemma_regroup(1 as real / w, inv, total);
    }
    lemma_regroup(f, total, t1);
    lemma_distribute(total, t1, 0 as real);
    lemma_regroup(f, t1, total);
    lemma_regroup(f, p, t2);
    lemma_distribute(p, t2, 0 as real);
    lemma_regroup(f, t2, p);
    lemma_series_same(
        n,
        left,
        |i: int|
            v(g[i]) * (v(gamma[i]) * normalized_tangent(
                items.len(),
                |k: int| v(items[k]),
                d,
                root,
                i,
            )),
    );
    lemma_series_same(n, right, |i: int| v(out[i]) * d(i));
}

/// What the normalization adds to the gradients of its scale and its shift is the slope along
/// them: where column `c` of the scale moves by `a` and that of the shift by `b`, the outputs of
/// that column move by the normalized numbers times `a`, plus `b`.
pub proof fn lemma_norm_parameter_gradient<T: Real>(
    read: Reading<T>,
    before: LayerNorm<T>,
    cache: LayerNormCache<T>,
    g: Tensor3<T>,
    after: LayerNorm<T>,
    grad_input: Tensor3<T>,
    c: int,
    a: real,
    b: real,
)
    requires
        is_exact(read),
        before.has_width(g.flat.cols as int),
        cache.has_shape(g.outer as int, g.inner as int, g.flat.cols as int),
        norm_grads_finite(read, before),
        stack_finite(read, cache.x_hat),
        stack_finite(read, g),
        layer_norm_backward_gives(before, cache, g, after, grad_input),
        0 <= c < g.flat.cols,
    ensures
        series(
            g.flat.rows as nat,
            |r: int|
                (read.value)(g.flat.at(r, c)) * (a * (read.value)(cache.x_hat.flat.at(r, c)) + b),
        ) == a * vector_gain(read, before.gamma, after.gamma, c) + b * vector_gain(
            read,
            before.beta,
            after.beta,
            c,
        ),
{
    let v = read.value;
    let n = g.flat.rows as nat;
    let (p, x) = (g.flat.col(c), cache.x_hat.flat.col(c));
    lemma_parts_finite(read, g);
    lemma_parts_finite(read, cache.x_hat);
    assert((read.finite)(before.gamma.grad@[c]) && (read.finite)(before.beta.grad@[c]));
    assert(plus_products_give(before.gamma.grad@[c], p, x, after.gamma.grad@[c]));
    assert(plus_each_gives(before.beta.grad@[c], p, after.beta.grad@[c]));
    lemma_plus_products_exact(read, before.gamma.grad@[c], p, x, after.gamma.grad@[c]);
    lemma_plus_each_exact(read, before.beta.grad@[c], p, after.beta.grad@[c]);
    lemma_dot_is_series(read, p, x);
    lemma_total_is_series(read, p);
    let (px, ps) = (|r: int| v(p[r]) * v(x[r]), |r: int| v(p[r]));
    let (apx, bps) = (|r: int| a * px(r), |r: int| b * ps(r));
    let all = |r: int| v(g.flat.at(r, c)) * (a * v(cache.x_hat.flat.at(r, c)) + b);
    assert forall|r: int| 0 <= r < n implies #[trigger] all(r) == apx(r) + bps(r) by {
        let (y, z) = (v(g.flat.at(r, c)), v(cache.x_hat.flat.at(r, c)));
        assert(p[r] == g.flat.at(r, c) && x[r] == cache.x_hat.flat.at(r, c));
        lemma_distribute(y, a * z, b);
        lemma_regroup(y, a, z);
        lemma_distribute(y, b, 0 as real);
    }
    lemma_series_plus(n, apx, bps, all);
    lemma_series_times(n, a, px, apx);
    lemma_series_times(n, b, ps, bps);
    lemma_series_same(n, px, |i: int| v(p[i]) * v(x[i]));
    lemma_series_same(n, ps, |i: int| v(p[i]));
    lemma_series_same(
        n,
        all,
        |r: int| v(g.flat.at(r, c)) * (a * v(cache.x_hat.flat.at(r, c)) + b),
    );
}

} // verus!
