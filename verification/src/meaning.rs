//! What the layers make of numbers, as functions over the reals.

use crate::attention::{AttentionCache, MultiHeadSelfAttention};
use crate::block::{Block, BlockCache};
use crate::exact::{all_finite, is_exact, lemma_dot_exact, lemma_softmax_parts, Reading};
use crate::feed_forward::FeedForward;
use crate::finite::{inverse_root, norm_values_finite};
use crate::gradient::{
    layer_is_finite, lemma_dot_is_series, lemma_series_same, lemma_total_is_series, series,
};
use crate::layer_norm::{
    layer_norm_gives, normalized_row_gives, rescaled_gives, LayerNorm, LayerNormCache,
};
use crate::linear::{affine_gives, linear_gives, Linear};
use crate::norm_tangent::{
    deviation, lemma_normalized_values, lemma_row_root, mean_over, variance_over,
};
use crate::pairing::{cells, lemma_series_append, lemma_series_nought, table_sum, Table};
use crate::reduce::{dot_gives, mean_of, softmax_gives, softmax_slice};
use crate::sampling::lemma_mean_is_total;
use crate::scalar::{plus_gives, times_gives, Real};
use crate::scaling::{lemma_parts_finite, stack_finite};
use crate::slope::masked;
use crate::tangent::{lemma_distribute, lemma_over};
use crate::tensor::{lemma_index_in_range, Tensor3};
use vstd::prelude::*;

verus! {

/// What a linear layer makes of `x`: sums of entries times weights, and the bias.
pub open spec fn linear_of<T>(read: Reading<T>, layer: Linear<T>, x: Table) -> Table {
    |r: int, c: int|
        series(
            layer.weight.value.rows as nat,
            |i: int| x(r, i) * (read.value)(layer.weight.value.at(i, c)),
        ) + (match layer.bias {
            Some(bias) => (read.value)(bias.value@[c]),
            None => 0 as real,
        })
}

/// Row `r` of `y` is row `r` of `x`, of `n` numbers, normalized: less its mean, over the root of
/// its variance and `eps`, times `gamma`, plus `beta`.
pub open spec fn is_normed<T>(
    read: Reading<T>,
    layer: LayerNorm<T>,
    n: nat,
    x: Table,
    y: Table,
    r: int,
) -> bool {
    exists|root: real| #[trigger] is_normed_by(read, layer, n, x, y, r, root)
}

/// What [`is_normed`] says, with the root.
pub open spec fn is_normed_by<T>(
    read: Reading<T>,
    layer: LayerNorm<T>,
    n: nat,
    x: Table,
    y: Table,
    r: int,
    root: real,
) -> bool {
    let row = |k: int| x(r, k);
    &&& root > 0 as real
    &&& root * root == variance_over(n, row) + (read.value)(layer.eps)
    &&& forall|c: int|
        0 <= c < n ==> #[trigger] y(r, c) == (read.value)(layer.gamma.value@[c]) * (deviation(
            n,
            row,
            c,
        ) / root) + (read.value)(layer.beta.value@[c])
}

/// `p` is the softmax of the first `n` numbers `s`: exponentials, all shifted alike, over their
/// sum.
pub open spec fn is_softmax(
    exp: spec_fn(real) -> real,
    n: nat,
    s: spec_fn(int) -> real,
    p: spec_fn(int) -> real,
) -> bool {
    exists|shift: real| #[trigger] is_softmax_shifted(exp, n, s, p, shift)
}

/// What [`is_softmax`] says, with the shift.
pub open spec fn is_softmax_shifted(
    exp: spec_fn(real) -> real,
    n: nat,
    s: spec_fn(int) -> real,
    p: spec_fn(int) -> real,
    shift: real,
) -> bool {
    series(n, |j: int| exp(s(j) - shift)) > 0 as real && forall|u: int|
        0 <= u < n ==> #[trigger] p(u) == exp(s(u) - shift) / series(
            n,
            |j: int| exp(s(j) - shift),
        )
}

/// The score of row `u` for row `t` in head `h` of sequence `b`: the inner product of the query of
/// `t` and the key of `u`, over the root of the size of a head. The columns of `qkv` hold the
/// queries of all heads, then the keys, then the values.
pub open spec fn score_of(
    qkv: Table,
    n_head: int,
    size: int,
    time: int,
    b: int,
    h: int,
    t: int,
    u: int,
) -> real {
    inverse_root(size) * series(
        size as nat,
        |c: int|
            qkv(b * time + t, h * size + c) * qkv(b * time + u, n_head * size + h * size + c),
    )
}

/// The weights of every head are the softmax of the scores of the rows up to the one that looks;
/// later rows have no weight.
pub open spec fn attends<T>(
    read: Reading<T>,
    layer: MultiHeadSelfAttention<T>,
    batch: int,
    time: int,
    probs: Tensor3<T>,
    x: Table,
) -> bool {
    let qkv = linear_of(read, layer.qkv, x);
    let (n_head, size) = (layer.n_head as int, layer.head_size as int);
    forall|b: int, h: int, t: int|
        0 <= b < batch && 0 <= h < n_head && 0 <= t < time ==> #[trigger] row_attends(
            read,
            qkv,
            n_head,
            size,
            time,
            probs,
            b,
            h,
            t,
        )
}

/// What [`attends`] says of row `t` in head `h` of sequence `b`.
pub open spec fn row_attends<T>(
    read: Reading<T>,
    qkv: Table,
    n_head: int,
    size: int,
    time: int,
    probs: Tensor3<T>,
    b: int,
    h: int,
    t: int,
) -> bool {
    let row = (b * n_head + h) * time + t;
    &&& is_softmax(
        read.exp,
        (t + 1) as nat,
        |u: int| score_of(qkv, n_head, size, time, b, h, t, u),
        |u: int| (read.value)(probs.flat.at(row, u)),
    )
    &&& forall|u: int|
        t < u < time ==> (read.value)(#[trigger] probs.flat.at(row, u)) == 0 as real
}

/// What the heads take from the values, side by side: column `x` of row `t` of sequence `b` is the
/// sum of the values in that column, each times the weight of its row in the head of the column,
/// and times what dropout makes of the weight.
pub open spec fn context_of<T>(
    read: Reading<T>,
    n_head: int,
    size: int,
    time: int,
    probs: Tensor3<T>,
    mask: Option<Tensor3<T>>,
    qkv: Table,
) -> Table {
    |r: int, x: int|
        series(
            time as nat,
            |u: int|
                masked(read, mask, cells(read, probs.flat))(
                    ((r / time) * n_head + x / size) * time + r % time,
                    u,
                ) * qkv((r / time) * time + u, 2 * (n_head * size) + x),
        )
}

/// What attention makes of `x`, with these weights.
pub open spec fn attention_of<T>(
    read: Reading<T>,
    layer: MultiHeadSelfAttention<T>,
    time: int,
    cache: AttentionCache<T>,
    x: Table,
) -> Table {
    masked(
        read,
        cache.proj_dropout_mask,
        linear_of(
            read,
            layer.proj,
            context_of(
                read,
                layer.n_head as int,
                layer.head_size as int,
                time,
                cache.att_probs,
                cache.att_dropout_mask,
                linear_of(read, layer.qkv, x),
            ),
        ),
    )
}

/// `x` with zero in place of what lies below zero.
pub open spec fn rectified(x: Table) -> Table {
    |r: int, c: int|
        if x(r, c) >= 0 as real {
            x(r, c)
        } else {
            0 as real
        }
}

/// What a feed-forward network makes of `x`.
pub open spec fn feed_forward_of<T>(
    read: Reading<T>,
    layer: FeedForward<T>,
    mask: Option<Tensor3<T>>,
    x: Table,
) -> Table {
    masked(read, mask, linear_of(read, layer.fc2, rectified(linear_of(read, layer.fc1, x))))
}

/// `y` is what the block makes of `x`, in a run that left this cache: to `x` is added what
/// attention makes of its normalized rows, and to that what the feed-forward network makes of the
/// normalized rows of the sum.
pub open spec fn is_block_of<T>(
    read: Reading<T>,
    block: Block<T>,
    batch: int,
    time: int,
    width: int,
    x: Table,
    cache: BlockCache<T>,
    y: Table,
) -> bool {
    let n1 = cells(read, cache.attention.input.flat);
    let residual = table_sum(x, attention_of(read, block.attention, time, cache.attention, n1));
    let n2 = cells(read, cache.feed_forward.input.flat);
    let spread = feed_forward_of(read, block.feed_forward, cache.feed_forward.dropout_mask, n2);
    &&& forall|r: int|
        0 <= r < batch * time ==> #[trigger] is_normed(read, block.ln1, width as nat, x, n1, r)
    &&& attends(read, block.attention, batch, time, cache.attention.att_probs, n1)
    &&& forall|r: int|
        0 <= r < batch * time ==> #[trigger] is_normed(
            read,
            block.ln2,
            width as nat,
            residual,
            n2,
            r,
        )
    &&& forall|r: int, c: int|
        0 <= r < batch * time && 0 <= c < width ==> #[trigger] y(r, c) == residual(r, c) + spread(
            r,
            c,
        )
}

/// What a linear layer reads as, given that it was run.
pub proof fn lemma_linear_reads<T: Real>(
    read: Reading<T>,
    layer: Linear<T>,
    input: Tensor3<T>,
    output: Tensor3<T>,
    r: int,
    c: int,
)
    requires
        is_exact(read),
        layer.wf(),
        layer_is_finite(read, layer),
        stack_finite(read, input),
        input.flat.cols == layer.weight.value.rows,
        linear_gives(layer, input, output),
        0 <= r < input.flat.rows,
        0 <= c < layer.weight.value.cols,
    ensures
        cells(read, output.flat)(r, c) == linear_of(read, layer, cells(read, input.flat))(r, c),
{
    let v = read.value;
    let w = layer.weight.value;
    let x = cells(read, input.flat);
    lemma_parts_finite(read, input);
    let (row, col, y) = (input.flat.row(r), w.col(c), output.flat.at(r, c));
    assert(affine_gives(row, col, layer.bias_at(c), y));
    assert forall|k: int| 0 <= k < col.len() implies (read.finite)(#[trigger] col[k]) by {
        lemma_index_in_range(k, w.rows as int, c, w.cols as int);
        assert(col[k] == w.at(k, c));
    }
    lemma_dot_is_series(read, row, col);
    lemma_series_same(
        w.rows as nat,
        |i: int| v(row[i]) * v(col[i]),
        |i: int| x(r, i) * v(w.at(i, c)),
    );
    match layer.bias {
        Some(b) => {
            let product = choose|product: T| #[trigger]
                dot_gives(row, col, product) && plus_gives(product, b.value@[c], y);
            lemma_dot_exact(read, row, col, product);
            assert((read.finite)(b.value@[c]));
        },
        None => {
            lemma_dot_exact(read, row, col, y);
        },
    }
}

/// Linear layers make the same of tables that agree on a row.
pub proof fn lemma_linear_of_same<T>(
    read: Reading<T>,
    layer: Linear<T>,
    x: Table,
    y: Table,
    r: int,
    c: int,
)
    requires
        forall|i: int| 0 <= i < layer.weight.value.rows ==> #[trigger] x(r, i) == y(r, i),
    ensures
        linear_of(read, layer, x)(r, c) == linear_of(read, layer, y)(r, c),
{
    let w = layer.weight.value;
    let (f, g) = (
        |i: int| x(r, i) * (read.value)(w.at(i, c)),
        |i: int| y(r, i) * (read.value)(w.at(i, c)),
    );
    assert forall|i: int| 0 <= i < w.rows implies #[trigger] f(i) == g(i) by {
        assert(x(r, i) == y(r, i));
    }
    lemma_series_same(w.rows as nat, f, g);
}

/// What a normalization reads as, given that it was run.
pub proof fn lemma_norm_reads<T: Real>(
    read: Reading<T>,
    layer: LayerNorm<T>,
    input: Tensor3<T>,
    output: Tensor3<T>,
    cache: LayerNormCache<T>,
    r: int,
)
    requires
        is_exact(read),
        input.flat.cols > 0,
        layer.has_width(input.flat.cols as int),
        norm_values_finite(read, layer),
        stack_finite(read, input),
        layer_norm_gives(layer, input, output, cache),
        0 <= r < input.flat.rows,
    ensures
        is_normed(
            read,
            layer,
            input.flat.cols as nat,
            cells(read, input.flat),
            cells(read, output.flat),
            r,
        ),
{
    let v = read.value;
    let n = input.flat.cols as nat;
    let (x, y) = (cells(read, input.flat), cells(read, output.flat));
    lemma_parts_finite(read, input);
    let items = input.flat.row(r);
    let (x_hat, inv) = (cache.x_hat.flat.row(r), cache.inv_std.data@[r]);
    assert(normalized_row_gives(items, layer.eps, x_hat, inv));
    assert(all_finite(read, items));
    lemma_row_root(read, items, layer.eps, x_hat, inv);
    let root = 1 as real / v(inv);
    lemma_normalized_values(read, items, layer.eps, x_hat, inv, root);
    let (f, g) = (|k: int| v(items[k]), |k: int| x(r, k));
    assert forall|k: int| 0 <= k < n implies #[trigger] f(k) == g(k) by {}
    lemma_moments_same(n, f, g);
    assert forall|c: int| 0 <= c < n implies #[trigger] y(r, c) == v(layer.gamma.value@[c]) * (
    deviation(n, g, c) / root) + v(layer.beta.value@[c]) by {
        let (gamma, beta) = (layer.gamma.value@[c], layer.beta.value@[c]);
        assert((read.finite)(gamma) && (read.finite)(beta));
        assert((read.finite)(x_hat[c]));
        assert(x_hat[c] == cache.x_hat.flat.at(r, c));
        let out = output.flat.at(r, c);
        assert(rescaled_gives(gamma, cache.x_hat.flat.at(r, c), beta, out));
        let scaled = choose|scaled: T| #[trigger]
            times_gives(gamma, x_hat[c], scaled) && plus_gives(scaled, beta, out);
        assert(f(c) == g(c));
        lemma_over(deviation(n, g, c), root);
        lemma_distribute(deviation(n, f, c), 1 as real / root, 0 as real);
    }
    assert(is_normed_by(read, layer, n, x, y, r, root));
}

/// Rows that agree have the same mean, deviations and variance.
pub proof fn lemma_moments_same(n: nat, f: spec_fn(int) -> real, g: spec_fn(int) -> real)
    requires
        forall|k: int| 0 <= k < n ==> #[trigger] f(k) == g(k),
    ensures
        mean_over(n, f) == mean_over(n, g),
        forall|k: int| 0 <= k < n ==> #[trigger] deviation(n, f, k) == deviation(n, g, k),
        variance_over(n, f) == variance_over(n, g),
{
    lemma_series_same(n, f, g);
    assert forall|k: int| 0 <= k < n implies #[trigger] deviation(n, f, k) == deviation(
        n,
        g,
        k,
    ) by {
        assert(f(k) == g(k));
    }
    let (p, q) = (
        |k: int| deviation(n, f, k) * deviation(n, f, k),
        |k: int| deviation(n, g, k) * deviation(n, g, k),
    );
    assert forall|k: int| 0 <= k < n implies #[trigger] p(k) == q(k) by {
        assert(deviation(n, f, k) == deviation(n, g, k));
    }
    lemma_series_same(n, p, q);
}

/// What the softmax of finite numbers, followed by numbers that stand for minus infinity, reads
/// as.
pub proof fn lemma_softmax_reads<T: Real>(
    read: Reading<T>,
    items: Seq<T>,
    probs: Seq<T>,
    n: nat,
    s: spec_fn(int) -> real,
)
    requires
        is_exact(read),
        0 < n <= items.len(),
        forall|i: int|
            0 <= i < n ==> (read.finite)(#[trigger] items[i]) && (read.value)(items[i]) == s(i),
        forall|i: int| n <= i < items.len() ==> (read.bottom)(#[trigger] items[i]),
        softmax_gives(items, probs),
    ensures
        is_softmax(read.exp, n, s, |u: int| (read.value)(probs[u])),
        forall|i: int| n <= i < items.len() ==> (read.value)(#[trigger] probs[i]) == 0 as real,
{
    let v = read.value;
    assert((read.finite)(items[0]));
    let (powers, shift, total) = lemma_softmax_parts(read, items, probs);
    let terms = |j: int| (read.exp)(s(j) - shift);
    let all = |j: int| v(powers[j]);
    assert forall|j: int| 0 <= j < items.len() implies #[trigger] all(j) == (if j < n {
        terms(j)
    } else {
        0 as real
    }) by {
        if j < n {
            assert((read.finite)(items[j]));
        } else {
            assert((read.bottom)(items[j]));
        }
        let x = powers[j];
    }
    lemma_total_is_series(read, powers);
    lemma_series_append(n, (items.len() - n) as nat, all);
    let tail = |j: int| all(n + j);
    assert forall|j: int| 0 <= j < items.len() - n implies #[trigger] tail(j) == 0 as real by {
        assert(all(n + j) == 0 as real);
    }
    lemma_series_nought((items.len() - n) as nat, tail);
    assert((n + (items.len() - n) as nat) as nat == items.len());
    lemma_series_same(n, all, terms);
    let p = |u: int| v(probs[u]);
    assert forall|u: int| 0 <= u < n implies #[trigger] p(u) == (read.exp)(s(u) - shift) / series(
        n,
        terms,
    ) by {
        assert(all(u) == terms(u));
        let x = probs[u];
    }
    assert(is_softmax_shifted(read.exp, n, s, p, shift));
    assert forall|i: int| n <= i < items.len() implies v(#[trigger] probs[i]) == 0 as real by {
        assert(all(i) == 0 as real);
        assert((0 as real) / total == 0 as real) by (nonlinear_arith)
            requires
                total > 0 as real,
        ;
    }
}

/// The softmax of finite numbers: exponentials, all shifted alike, over their sum.
pub proof fn lemma_softmax_value<T: Real>(read: Reading<T>, items: &mut Vec<T>)
    requires
        is_exact(read),
        old(items)@.len() > 0,
        all_finite(read, old(items)@),
        call_ensures(softmax_slice::<T>, (items,), ()),
    ensures
        final(items)@.len() == old(items)@.len(),
        is_softmax(
            read.exp,
            old(items)@.len(),
            |i: int| (read.value)(old(items)@[i]),
            |i: int| (read.value)(final(items)@[i]),
        ),
{
    let (before, after) = (old(items)@, final(items)@);
    let s = |i: int| (read.value)(before[i]);
    lemma_softmax_reads(read, before, after, before.len(), s);
    assert((read.finite)(before[0]));
    let parts = lemma_softmax_parts(read, before, after);
}

/// A mean is a sum over the number of its terms.
pub proof fn lemma_mean_of_value<T: Real>(read: Reading<T>, items: &Vec<T>, mean: T)
    requires
        is_exact(read),
        0 < items@.len() <= usize::MAX,
        all_finite(read, items@),
        call_ensures(mean_of::<T>, (items,), mean),
    ensures
        (read.value)(mean) == series(items@.len(), |i: int| (read.value)(items@[i]))
            / items@.len() as real,
{
    lemma_mean_is_total(read, items@, mean);
    lemma_total_is_series(read, items@);
}

} // verus!
