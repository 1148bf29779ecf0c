//! What the loss is, what tokens are drawn by and what training does, over the reals.

use crate::drawing::holds_last_tokens;
use crate::dropping::{block_drops_nothing, lemma_run_model_masks};
use crate::exact::{
    all_finite, is_exact, larger_of, lemma_softmax_is_distribution, lemma_softmax_parts,
    lemma_sum_exact, Reading,
};
use crate::finite::model_values_finite;
use crate::generation::{next_token_steps_give, window_below, window_of};
use crate::gradient::{lemma_series_same, lemma_total_is_series, series};
use crate::grid::{token_items, TokenArray};
use crate::loss::{
    cross_entropy_gives, cross_entropy_loss, loss_grad_gives, loss_grad_row_gives, mean_loss_gives,
    token_loss_gives, token_losses_give,
};
use crate::masks::draws_below_one;
use crate::meaning::{is_softmax, lemma_softmax_reads};
use crate::meaning_attention::lemma_is_softmax_same;
use crate::meaning_model::{is_model_of, lemma_model_reads};
use crate::model::{GptCache, GptLanguageModel};
use crate::pairing::{cells, Table};
use crate::reduce::{softmax_gives, sum_gives};
use crate::scalar::{
    count_gives, decimal_gives, larger_gives, ln_gives, minus_gives, negate_gives, one_gives,
    over_gives, pick_gives, Real,
};
use crate::scaling::{lemma_parts_finite, stack_finite};
use crate::softmax::lemma_least;
use crate::tangent::{lemma_distribute, lemma_over};
use crate::tensor::{lemma_split_index, Tensor3};
use crate::training::{loss_steps_give, targets_fit};
use rand::rngs::SmallRng;
use vstd::prelude::*;

verus! {

/// The token that stands in row `r` of the table, counted over all its sequences.
pub open spec fn token_at(tokens: TokenArray, r: int) -> int {
    tokens.at(r / tokens.cols(), r % tokens.cols()) as int
}

/// `probs` is the softmax of every row of `logits`; `loss` is the mean, over all rows, of minus the
/// logarithm of the probability of the target, or of 10^-12 where that is larger; `grad` is, for
/// every row, the probabilities less one at the target, over the number of rows.
pub open spec fn is_loss_of<T>(
    read: Reading<T>,
    logits: Tensor3<T>,
    targets: TokenArray,
    probs: Tensor3<T>,
    loss: T,
    grad: Tensor3<T>,
) -> bool {
    let (l, p, g) = (cells(read, logits.flat), cells(read, probs.flat), cells(read, grad.flat));
    let (rows, cols) = (logits.flat.rows as nat, logits.flat.cols as nat);
    &&& probs.same_shape(logits)
    &&& grad.same_shape(logits)
    &&& forall|r: int| 0 <= r < rows ==> #[trigger] is_softmax_row(read.exp, cols, l, p, r)
    &&& (read.value)(loss) == series(
        rows,
        |r: int|
            -(read.ln)(
                larger_of(p(r, token_at(targets, r)), 1 as real / 1_000_000_000_000 as real),
            ),
    ) / rows as real
    &&& forall|r: int, c: int|
        0 <= r < rows && 0 <= c < cols ==> #[trigger] g(r, c) == (p(r, c) - (if c == token_at(
            targets,
            r,
        ) {
            1 as real
        } else {
            0 as real
        })) / rows as real
}

/// Row `r` of `p` is the softmax of row `r` of `l`.
pub open spec fn is_softmax_row(
    exp: spec_fn(real) -> real,
    cols: nat,
    l: Table,
    p: Table,
    r: int,
) -> bool {
    is_softmax(exp, cols, |c: int| l(r, c), |c: int| p(r, c))
}

/// What a row of the probabilities and of the gradient reads as.
proof fn lemma_loss_row_reads<T: Real>(
    read: Reading<T>,
    logits: Tensor3<T>,
    probs: Tensor3<T>,
    grad: Tensor3<T>,
    target: usize,
    normalizer: T,
    r: int,
)
    requires
        is_exact(read),
        stack_finite(read, logits),
        probs.wf(),
        probs.same_shape(logits),
        grad.wf(),
        grad.same_shape(logits),
        0 <= r < logits.flat.rows,
        logits.flat.cols > 0,
        (read.finite)(normalizer),
        (read.value)(normalizer) == logits.flat.rows as real,
        softmax_gives(logits.flat.row(r), probs.flat.row(r)),
        loss_grad_row_gives(probs.flat.row(r), target, normalizer, grad.flat.row(r)),
    ensures
        is_softmax_row(
            read.exp,
            logits.flat.cols as nat,
            cells(read, logits.flat),
            cells(read, probs.flat),
            r,
        ),
        forall|c: int|
            0 <= c < logits.flat.cols ==> (read.finite)(#[trigger] probs.flat.at(r, c)) && cells(
                read,
                grad.flat,
            )(r, c) == (cells(read, probs.flat)(r, c) - (if c == target {
                1 as real
            } else {
                0 as real
            })) / logits.flat.rows as real,
{
    let v = read.value;
    let n = logits.flat.cols as nat;
    let (l, p, g) = (cells(read, logits.flat), cells(read, probs.flat), cells(read, grad.flat));
    let (items, shares, out) = (logits.flat.row(r), probs.flat.row(r), grad.flat.row(r));
    lemma_parts_finite(read, logits);
    assert(all_finite(read, items));
    let s = |c: int| l(r, c);
    assert forall|i: int| 0 <= i < n implies (read.finite)(#[trigger] items[i]) && v(items[i])
        == s(i) by {}
    lemma_softmax_reads(read, items, shares, n, s);
    lemma_is_softmax_same(read.exp, n, s, |u: int| v(shares[u]), |c: int| p(r, c));
    assert((read.finite)(items[0]));
    lemma_softmax_is_distribution(read, items, shares);
    assert forall|c: int| 0 <= c < n implies (read.finite)(#[trigger] probs.flat.at(r, c)) && g(
        r,
        c,
    ) == (p(r, c) - (if c == target {
        1 as real
    } else {
        0 as real
    })) / logits.flat.rows as real by {
        assert((read.finite)(shares[c]));
        assert(shares[c] == probs.flat.at(r, c));
        assert(out[c] == grad.flat.at(r, c));
        assert(loss_grad_gives(shares[c], c == target, normalizer, out[c]));
        if c == target {
            let (share, one, part) = choose|share: T, one: T, part: T| #[trigger]
                over_gives(shares[c], normalizer, share) && one_gives(one) && #[trigger] over_gives(
                    one,
                    normalizer,
                    part,
                ) && minus_gives(share, part, out[c]);
            let (x, m) = (v(shares[c]), v(normalizer));
            lemma_over(x, m);
            lemma_over(1 as real, m);
            lemma_over(x - 1 as real, m);
            lemma_distribute(1 as real / m, x, 1 as real);
        }
    }
}

/// What the loss reads as, given that it was computed.
pub proof fn lemma_loss_reads<T: Real>(
    read: Reading<T>,
    logits: Tensor3<T>,
    targets: TokenArray,
    probs: Tensor3<T>,
    loss: T,
    grad: Tensor3<T>,
)
    requires
        is_exact(read),
        stack_finite(read, logits),
        logits.flat.rows > 0,
        targets.rows() == logits.outer,
        targets.cols() == logits.inner,
        targets.all_below(logits.flat.cols as int),
        cross_entropy_gives(logits, targets, probs, loss, grad),
    ensures
        is_loss_of(read, logits, targets, probs, loss, grad),
{
    let v = read.value;
    let (rows, cols) = (logits.flat.rows as nat, logits.flat.cols as nat);
    let (l, p, g) = (cells(read, logits.flat), cells(read, probs.flat), cells(read, grad.flat));
    let normalizer = choose|normalizer: T| #[trigger]
        count_gives(logits.flat.rows, normalizer) && mean_loss_gives(
            probs,
            targets,
            normalizer,
            loss,
        ) && forall|r: int|
            0 <= r < logits.flat.rows ==> loss_grad_row_gives(
                probs.flat.row(r),
                token_items(targets)[r],
                normalizer,
                #[trigger] grad.flat.row(r),
            );
    let time = logits.inner as int;
    assert forall|r: int| 0 <= r < rows implies token_at(targets, r) == #[trigger] token_items(
        targets,
    )[r] && token_items(targets)[r] < cols by {
        assert(time > 0) by (nonlinear_arith)
            requires
                0 <= r < logits.outer * time,
                time >= 0,
        ;
        lemma_split_index(r, logits.outer as int, time);
        assert(targets.at(r / time, r % time) < cols);
    }
    assert forall|r: int| 0 <= r < rows implies #[trigger] is_softmax_row(
        read.exp,
        cols,
        l,
        p,
        r,
    ) by {
        let target = token_items(targets)[r];
        assert(softmax_gives(logits.flat.row(r), probs.flat.row(r)));
        assert(loss_grad_row_gives(probs.flat.row(r), target, normalizer, grad.flat.row(r)));
        lemma_loss_row_reads(read, logits, probs, grad, target, normalizer, r);
    }
    assert forall|r: int, c: int| 0 <= r < rows && 0 <= c < cols implies #[trigger] g(r, c) == (p(
        r,
        c,
    ) - (if c == token_at(targets, r) {
        1 as real
    } else {
        0 as real
    })) / rows as real by {
        let target = token_items(targets)[r];
        assert(softmax_gives(logits.flat.row(r), probs.flat.row(r)));
        assert(loss_grad_row_gives(probs.flat.row(r), target, normalizer, grad.flat.row(r)));
        lemma_loss_row_reads(read, logits, probs, grad, target, normalizer, r);
        assert((read.finite)(probs.flat.at(r, c)));
    }
    let (losses, total) = choose|losses: Seq<T>, total: T| #[trigger]
        token_losses_give(probs, targets, losses) && #[trigger] sum_gives(losses, total)
            && over_gives(total, normalizer, loss);
    let bound = 1 as real / 1_000_000_000_000 as real;
    let wanted = |r: int| -(read.ln)(larger_of(p(r, token_at(targets, r)), bound));
    assert forall|r: int| 0 <= r < losses.len() implies (read.finite)(#[trigger] losses[r]) && v(
        losses[r],
    ) == wanted(r) by {
        let target = token_items(targets)[r] as int;
        assert(token_items(targets)[r] < cols);
        assert(softmax_gives(logits.flat.row(r), probs.flat.row(r)));
        assert(loss_grad_row_gives(
            probs.flat.row(r),
            token_items(targets)[r],
            normalizer,
            grad.flat.row(r),
        ));
        lemma_loss_row_reads(
            read,
            logits,
            probs,
            grad,
            token_items(targets)[r],
            normalizer,
            r,
        );
        let q = probs.flat.at(r, target);
        assert((read.finite)(q));
        assert(token_loss_gives(q, losses[r]));
        let (least, clipped, log) = choose|least: T, clipped: T, log: T|
            decimal_gives(1, 12, least) && #[trigger] larger_gives(q, least, clipped)
                && #[trigger] ln_gives(clipped, log) && negate_gives(log, losses[r]);
        lemma_least(read, least);
        assert(bound > 0 as real);
    }
    lemma_sum_exact(read, losses, total);
    lemma_total_is_series(read, losses);
    let read_losses = |i: int| v(losses[i]);
    assert forall|r: int| 0 <= r < rows implies #[trigger] read_losses(r) == wanted(r) by {
        assert((read.finite)(losses[r]));
    }
    lemma_series_same(rows, read_losses, wanted);
}

/// What the loss of logits is: the mean of minus the logarithm of the probability of the target,
/// which the softmax of the logits gives; what it leaves in place of the logits are the
/// probabilities, and what it returns with the loss is its gradient.
pub proof fn lemma_cross_entropy_value<T: Real>(
    read: Reading<T>,
    logits: &mut Tensor3<T>,
    targets: &TokenArray,
    result: (T, Tensor3<T>),
)
    requires
        is_exact(read),
        stack_finite(read, *old(logits)),
        old(logits).flat.rows > 0,
        targets.rows() == old(logits).outer,
        targets.cols() == old(logits).inner,
        targets.all_below(old(logits).flat.cols as int),
        call_ensures(cross_entropy_loss::<T>, (logits, targets), result),
    ensures
        is_loss_of(read, *old(logits), *targets, *final(logits), result.0, result.1),
{
    lemma_loss_reads(read, *old(logits), *targets, *final(logits), result.0, result.1);
}

/// What the loss of a model on tokens and targets is: that of the logits that it makes of the
/// tokens with nothing dropped. Nothing is drawn.
pub proof fn lemma_loss_value<T: Real>(
    read: Reading<T>,
    model: &GptLanguageModel<T>,
    idx: &TokenArray,
    targets: &TokenArray,
    rng: &mut SmallRng,
    loss: T,
)
    requires
        is_exact(read),
        draws_below_one(read),
        model.wf(),
        model.takes(*idx),
        targets_fit(*model, *idx, *targets),
        model_values_finite(read, *model),
        idx.rows() * idx.cols() > 0,
        call_ensures(GptLanguageModel::<T>::loss, (model, idx, targets, rng), loss),
    ensures
        *final(rng) == *old(rng),
        exists|
            logits: Tensor3<T>,
            cache: GptCache<T>,
            stacks: Seq<Table>,
            probs: Tensor3<T>,
            grad: Tensor3<T>,
        |
            {
                &&& #[trigger] is_model_of(read, *model, *idx, cache, stacks, logits)
                &&& forall|l: int|
                    0 <= l < model.blocks@.len() ==> block_drops_nothing(
                        #[trigger] cache.blocks@[l],
                    )
                &&& #[trigger] is_loss_of(read, logits, *targets, probs, loss, grad)
            },
{
    let (logits, cache, probs, grad, rng_used) = choose|
        logits: Tensor3<T>,
        cache: GptCache<T>,
        probs: Tensor3<T>,
        grad: Tensor3<T>,
        rng_used: SmallRng,
    |
        loss_steps_give(
            *model,
            *idx,
            *targets,
            loss,
            logits,
            cache,
            probs,
            grad,
            rng_used,
        );
    let stacks = lemma_model_reads(
        read,
        *model,
        *idx,
        false,
        logits,
        cache,
        rng_used,
        rng_used,
    );
    lemma_run_model_masks(read, *model, *idx, false, logits, cache, rng_used, rng_used);
    lemma_loss_reads(read, logits, *targets, probs, loss, grad);
}

/// What a token is drawn by: the softmax of the logits that the model makes, with nothing dropped,
/// behind the last of the tokens.
pub proof fn lemma_draw_value<T: Real>(
    read: Reading<T>,
    model: &GptLanguageModel<T>,
    tokens: &Vec<usize>,
    rng: &mut SmallRng,
    drawn: Option<usize>,
)
    requires
        is_exact(read),
        draws_below_one(read),
        model.wf(),
        model.config.n_embd > 0,
        model.config.block_size > 0,
        tokens@.len() > 0,
        window_below(tokens@, model.config.block_size as int, model.config.vocab_size as int),
        model_values_finite(read, *model),
        call_ensures(GptLanguageModel::<T>::draw_token, (model, tokens, rng), drawn),
    ensures
        exists|
            idx: TokenArray,
            logits: Tensor3<T>,
            cache: GptCache<T>,
            stacks: Seq<Table>,
            weights: Vec<T>,
        |
            {
                &&& holds_last_tokens(model.config.block_size, tokens@, idx, idx.cols())
                &&& #[trigger] is_model_of(read, *model, idx, cache, stacks, logits)
                &&& forall|l: int|
                    0 <= l < model.blocks@.len() ==> block_drops_nothing(
                        #[trigger] cache.blocks@[l],
                    )
                &&& weights@.len() == model.config.vocab_size
                &&& is_softmax(
                    read.exp,
                    model.config.vocab_size as nat,
                    |c: int| (read.value)(logits.flat.at(idx.cols() - 1, c)),
                    |c: int| (read.value)(weights@[c]),
                )
                &&& #[trigger] pick_gives(weights, *old(rng), drawn, *final(rng))
            },
{
    let (before, after) = (*old(rng), *final(rng));
    let (idx, logits, cache, weights) = choose|
        idx: TokenArray,
        logits: Tensor3<T>,
        cache: GptCache<T>,
        weights: Vec<T>,
    |
        next_token_steps_give(
            *model,
            tokens@,
            before,
            drawn,
            after,
            idx,
            logits,
            cache,
            weights,
        );
    let window = window_of(tokens@, model.config.block_size as int);
    let n = idx.cols();
    let start = tokens@.len() - n;
    assert forall|t: int| 0 <= t < n implies #[trigger] idx.at(0, t) == tokens@[start + t]
        && idx.at(0, t) < model.config.vocab_size by {
        assert(0 * n == 0) by (nonlinear_arith);
        assert(idx.at(0, t) == window[t]);
        assert(window[t] == tokens@[start + t]);
        assert(tokens@[start + t] < model.config.vocab_size);
    }
    assert forall|r: int, c: int| 0 <= r < idx.rows() && 0 <= c < idx.cols() implies (
    #[trigger] idx.at(r, c)) < model.config.vocab_size by {
        assert(idx.at(0, c) < model.config.vocab_size);
    }
    assert(holds_last_tokens(model.config.block_size, tokens@, idx, n));
    let stacks = lemma_model_reads(read, *model, idx, false, logits, cache, before, before);
    lemma_run_model_masks(read, *model, idx, false, logits, cache, before, before);
    lemma_parts_finite(read, logits);
    assert(idx.at(0, 0) < model.config.vocab_size);
    let items = logits.row(0, n - 1);
    assert(0 * n == 0) by (nonlinear_arith);
    assert(items == logits.flat.row(n - 1));
    assert(all_finite(read, items));
    let m = model.config.vocab_size as nat;
    let s = |c: int| (read.value)(logits.flat.at(n - 1, c));
    assert forall|i: int| 0 <= i < m implies (read.finite)(#[trigger] items[i]) && (read.value)(
        items[i],
    ) == s(i) by {}
    lemma_softmax_reads(read, items, weights@, m, s);
    assert((read.finite)(items[0]));
    let parts = lemma_softmax_parts(read, items, weights@);
}

} // verus!
