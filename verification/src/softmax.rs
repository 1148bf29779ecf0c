//! The softmax and the loss, where the number type computes exactly.

use crate::exact::{
    all_finite, can_softmax, is_exact, lemma_softmax_is_distribution, lemma_softmax_parts,
    lemma_sum_exact, lemma_times_nought, lemma_total_at_least, lemma_total_of_multiples,
    lemma_total_of_same, ten_to, total_of, Reading,
};
use crate::grid::{token_items, TokenArray};
use crate::loss::{cross_entropy_gives, mean_loss_gives, token_loss_gives, token_losses_give};
use crate::reduce::{softmax_gives, sum_gives};
use crate::scalar::{
    count_gives, decimal_gives, larger_gives, ln_gives, negate_gives, over_gives, Real,
};
use crate::tensor::Tensor3;
use vstd::prelude::*;

verus! {

/// The exponential grows.
#[verifier::opaque]
pub open spec fn exp_grows<T>(read: Reading<T>) -> bool {
    forall|x: real, y: real| x < y ==> #[trigger] (read.exp)(x) < #[trigger] (read.exp)(y)
}

/// The exponential turns sums into products.
#[verifier::opaque]
pub open spec fn exp_multiplies<T>(read: Reading<T>) -> bool {
    forall|x: real, y: real| #[trigger]
        (read.exp)(x) * #[trigger] (read.exp)(y) == (read.exp)(x + y)
}

/// A share grows with what it is a share of.
proof fn lemma_shares_ordered(a: real, b: real, total: real)
    requires
        total > 0 as real,
    ensures
        a <= b ==> a / total <= b / total,
        a < b ==> a / total < b / total,
{
    assert((a <= b ==> a / total <= b / total) && (a < b ==> a / total < b / total))
        by (nonlinear_arith)
        requires
            total > 0 as real,
    ;
}

/// A larger number gets a larger probability, equal numbers get equal ones, and minus infinity
/// gets no more than any other.
pub proof fn lemma_softmax_keeps_order<T: Real>(
    read: Reading<T>,
    items: Seq<T>,
    probs: Seq<T>,
    i: int,
    j: int,
)
    requires
        is_exact(read),
        exp_grows(read),
        can_softmax(read, items),
        softmax_gives(items, probs),
        0 <= i < items.len(),
        0 <= j < items.len(),
    ensures
        0 as real <= (read.value)(probs[i]) <= 1 as real,
        (read.bottom)(items[i]) ==> (read.value)(probs[i]) <= (read.value)(probs[j]),
        (read.finite)(items[i]) && (read.finite)(items[j]) && (read.value)(items[i])
            <= (read.value)(items[j]) ==> (read.value)(probs[i]) <= (read.value)(probs[j]),
        (read.finite)(items[i]) && (read.finite)(items[j]) && (read.value)(items[i])
            < (read.value)(items[j]) ==> (read.value)(probs[i]) < (read.value)(probs[j]),
{
    let (powers, max, total) = lemma_softmax_parts(read, items, probs);
    lemma_softmax_is_distribution(read, items, probs);
    assert forall|k: int| 0 <= k < probs.len() implies (read.value)(#[trigger] probs[k])
        >= 0 as real by {
        assert((read.finite)(items[k]) || (read.bottom)(items[k]));
    }
    lemma_total_at_least(read, probs, i);
    let (a, b) = ((read.value)(powers[i]), (read.value)(powers[j]));
    assert((read.value)(probs[i]) == a / total);
    assert((read.value)(probs[j]) == b / total);
    lemma_shares_ordered(a, b, total);
    assert((read.value)(probs[j]) >= 0 as real);
    if (read.finite)(items[i]) && (read.finite)(items[j]) && (read.value)(items[i])
        <= (read.value)(items[j]) {
        reveal(exp_grows);
        let (x, y) = ((read.value)(items[i]) - max, (read.value)(items[j]) - max);
        assert(a == (read.exp)(x) && b == (read.exp)(y));
    }
}

/// A common shift changes no probability.
pub proof fn lemma_softmax_ignores_shift<T: Real>(
    read: Reading<T>,
    a: Seq<T>,
    b: Seq<T>,
    shift: real,
    p: Seq<T>,
    q: Seq<T>,
    i: int,
)
    requires
        is_exact(read),
        exp_multiplies(read),
        can_softmax(read, a),
        a.len() == b.len(),
        forall|k: int|
            #![trigger a[k]]
            #![trigger b[k]]
            0 <= k < a.len() ==> if (read.finite)(a[k]) {
                (read.finite)(b[k]) && (read.value)(b[k]) == (read.value)(a[k]) + shift
            } else {
                (read.bottom)(b[k])
            },
        softmax_gives(a, p),
        softmax_gives(b, q),
        0 <= i < a.len(),
    ensures
        (read.value)(p[i]) == (read.value)(q[i]),
{
    let first = choose|k: int| 0 <= k < a.len() && (read.finite)(#[trigger] a[k]);
    assert((read.finite)(b[first]));
    let (u, m, s) = lemma_softmax_parts(read, a, p);
    let (v, n, t) = lemma_softmax_parts(read, b, q);
    let factor = (read.exp)(shift - n + m);
    assert forall|k: int| 0 <= k < a.len() implies (read.value)(#[trigger] v[k]) == factor * (
    read.value)(u[k]) by {
        assert((read.finite)(a[k]) || (read.bottom)(a[k]));
        if (read.finite)(a[k]) {
            let x = (read.value)(a[k]);
            lemma_exp_sum(read, shift - n + m, x - m);
            assert(shift - n + m + (x - m) == (x + shift) - n);
            assert((read.finite)(b[k]));
        } else {
            assert(!(read.finite)(a[k]));
            lemma_times_nought(factor);
            assert((read.bottom)(b[k]));
        }
    }
    lemma_total_of_multiples(read, u, v, factor);
    let x = (read.value)(u[i]);
    assert((read.value)(v[i]) == factor * x);
    assert((factor * x) / (factor * s) == x / s) by (nonlinear_arith)
        requires
            factor > 0 as real,
            s > 0 as real,
    ;
}

/// The exponential of a sum.
proof fn lemma_exp_sum<T>(read: Reading<T>, x: real, y: real)
    requires
        exp_multiplies(read),
    ensures
        (read.exp)(x) * (read.exp)(y) == (read.exp)(x + y),
{
    reveal(exp_multiplies);
}

/// Where all numbers read the same, each gets the same share.
pub proof fn lemma_softmax_of_equals<T: Real>(
    read: Reading<T>,
    items: Seq<T>,
    probs: Seq<T>,
    x: real,
    i: int,
)
    requires
        is_exact(read),
        all_finite(read, items),
        forall|k: int| 0 <= k < items.len() ==> (read.value)(#[trigger] items[k]) == x,
        softmax_gives(items, probs),
        0 <= i < items.len(),
    ensures
        (read.finite)(probs[i]),
        (read.value)(probs[i]) == 1 as real / items.len() as real,
{
    assert((read.finite)(items[0]));
    lemma_softmax_is_distribution(read, items, probs);
    let (powers, max, total) = lemma_softmax_parts(read, items, probs);
    let e = (read.exp)(x - max);
    assert forall|k: int| 0 <= k < powers.len() implies (read.value)(#[trigger] powers[k])
        == e by {
        assert((read.finite)(items[k]));
    }
    lemma_total_of_same(read, powers, e);
    let n = items.len() as real;
    assert(e / (n * e) == 1 as real / n) by (nonlinear_arith)
        requires
            e > 0 as real,
            n > 0 as real,
    ;
    assert((read.value)(powers[i]) == e);
    assert((read.finite)(probs[i]));
}

/// The lower bound on a probability.
pub proof fn lemma_least<T: Real>(read: Reading<T>, least: T)
    requires
        is_exact(read),
        decimal_gives(1, 12, least),
    ensures
        (read.finite)(least),
        (read.value)(least) == 1 as real / 1_000_000_000_000 as real,
{
    reveal_with_fuel(ten_to, 13);
    assert(ten_to(12) == 1_000_000_000_000 as real);
    let x = (read.value)(least);
    assert(x == 1 as real / 1_000_000_000_000 as real) by (nonlinear_arith)
        requires
            x * (1_000_000_000_000 as real) == 1 as real,
    ;
}

/// The loss of a target that has the probability of one in `n` is minus the logarithm of that.
proof fn lemma_loss_of_share<T: Real>(read: Reading<T>, p: T, n: nat, loss: T)
    requires
        is_exact(read),
        0 < n <= 1_000_000_000_000,
        (read.finite)(p),
        (read.value)(p) == 1 as real / n as real,
        token_loss_gives(p, loss),
    ensures
        (read.finite)(loss),
        (read.value)(loss) == -(read.ln)(1 as real / n as real),
{
    let (least, clipped, log) = choose|least: T, clipped: T, log: T|
        decimal_gives(1, 12, least) && #[trigger] larger_gives(p, least, clipped)
            && #[trigger] ln_gives(clipped, log) && negate_gives(log, loss);
    lemma_least(read, least);
    let (x, limit) = (n as real, 1_000_000_000_000 as real);
    assert(x <= limit);
    assert(1 as real / x >= 1 as real / limit && 1 as real / x > 0 as real) by (nonlinear_arith)
        requires
            (0 as real) < x,
            x <= limit,
    ;
}

/// Logits without preference: where all logits of row `r` read the same, each probability of the
/// row is one over their number, and the loss of the row is minus the logarithm of that.
pub proof fn lemma_indifferent_row<T: Real>(
    read: Reading<T>,
    logits: Tensor3<T>,
    targets: TokenArray,
    probs: Tensor3<T>,
    loss: T,
    grad: Tensor3<T>,
    r: int,
    x: real,
    row_loss: T,
)
    requires
        is_exact(read),
        logits.wf(),
        cross_entropy_gives(logits, targets, probs, loss, grad),
        0 <= r < logits.flat.rows,
        all_finite(read, logits.flat.row(r)),
        forall|c: int|
            0 <= c < logits.flat.cols ==> (read.value)(#[trigger] logits.flat.at(r, c)) == x,
        token_items(targets)[r] < logits.flat.cols <= 1_000_000_000_000,
        token_loss_gives(probs.flat.at(r, token_items(targets)[r] as int), row_loss),
    ensures
        forall|c: int|
            0 <= c < logits.flat.cols ==> (read.value)(#[trigger] probs.flat.at(r, c)) == 1 as real
                / logits.flat.cols as real,
        (read.finite)(row_loss),
        (read.value)(row_loss) == -(read.ln)(1 as real / logits.flat.cols as real),
{
    let (items, shares) = (logits.flat.row(r), probs.flat.row(r));
    assert(softmax_gives(items, shares));
    assert forall|k: int| 0 <= k < items.len() implies (read.value)(#[trigger] items[k]) == x by {
        assert(items[k] == logits.flat.at(r, k));
    }
    assert forall|c: int| 0 <= c < logits.flat.cols implies (read.finite)(
        #[trigger] probs.flat.at(r, c),
    ) && (read.value)(probs.flat.at(r, c)) == 1 as real / logits.flat.cols as real by {
        lemma_softmax_of_equals(read, items, shares, x, c);
        assert(shares[c] == probs.flat.at(r, c));
    }
    lemma_loss_of_share(
        read,
        probs.flat.at(r, token_items(targets)[r] as int),
        logits.flat.cols as nat,
        row_loss,
    );
}

/// Where the logits of no row have a preference, the loss is minus the logarithm of one over
/// their number.
pub proof fn lemma_indifferent_loss<T: Real>(
    read: Reading<T>,
    logits: Tensor3<T>,
    targets: TokenArray,
    probs: Tensor3<T>,
    loss: T,
    grad: Tensor3<T>,
)
    requires
        is_exact(read),
        logits.wf(),
        cross_entropy_gives(logits, targets, probs, loss, grad),
        logits.flat.rows > 0,
        logits.flat.cols <= 1_000_000_000_000,
        forall|r: int|
            0 <= r < logits.flat.rows ==> all_finite(read, #[trigger] logits.flat.row(r)),
        forall|r: int, c: int|
            0 <= r < logits.flat.rows && 0 <= c < logits.flat.cols ==> (read.value)(
                #[trigger] logits.flat.at(r, c),
            ) == (read.value)(logits.flat.at(r, 0)),
        forall|r: int|
            0 <= r < logits.flat.rows ==> (#[trigger] token_items(targets)[r]) < logits.flat.cols,
    ensures
        (read.value)(loss) == -(read.ln)(1 as real / logits.flat.cols as real),
{
    let normalizer = choose|normalizer: T| #[trigger]
        count_gives(logits.flat.rows, normalizer) && mean_loss_gives(
            probs,
            targets,
            normalizer,
            loss,
        );
    let (losses, total) = choose|losses: Seq<T>, total: T| #[trigger]
        token_losses_give(probs, targets, losses) && #[trigger] sum_gives(losses, total)
            && over_gives(total, normalizer, loss);
    let each = -(read.ln)(1 as real / logits.flat.cols as real);
    assert forall|r: int| 0 <= r < losses.len() implies (read.finite)(#[trigger] losses[r]) && (
    read.value)(losses[r]) == each by {
        assert(token_items(targets)[r] < logits.flat.cols);
        assert(all_finite(read, logits.flat.row(r)));
        assert(token_loss_gives(
            probs.flat.at(r, token_items(targets)[r] as int),
            losses[r],
        ));
        lemma_indifferent_row(
            read,
            logits,
            targets,
            probs,
            loss,
            grad,
            r,
            (read.value)(logits.flat.at(r, 0)),
            losses[r],
        );
    }
    lemma_sum_exact(read, losses, total);
    lemma_total_of_same(read, losses, each);
    let n = logits.flat.rows as real;
    assert((read.value)(normalizer) == n);
    assert((n * each) / n == each) by (nonlinear_arith)
        requires
            n > 0 as real,
    ;
}

/// The logarithm rises, and that of one is zero.
pub open spec fn ln_rises<T>(read: Reading<T>) -> bool {
    &&& (read.ln)(1 as real) == 0 as real
    &&& forall|x: real, y: real|
        (0 as real) < x && x <= y ==> #[trigger] (read.ln)(x) <= #[trigger] (read.ln)(y)
}

/// The largest loss: minus the logarithm of the bound that a probability is raised to.
pub open spec fn largest_loss<T>(read: Reading<T>) -> real {
    -(read.ln)(1 as real / 1_000_000_000_000 as real)
}

/// The loss of a target whose probability lies from zero to one.
proof fn lemma_token_loss_bounded<T: Real>(read: Reading<T>, p: T, loss: T)
    requires
        is_exact(read),
        ln_rises(read),
        (read.finite)(p),
        0 as real <= (read.value)(p),
        (read.value)(p) <= 1 as real,
        token_loss_gives(p, loss),
    ensures
        (read.finite)(loss),
        0 as real <= (read.value)(loss),
        (read.value)(loss) <= largest_loss(read),
{
    let (least, clipped, log) = choose|least: T, clipped: T, log: T|
        decimal_gives(1, 12, least) && #[trigger] larger_gives(p, least, clipped)
            && #[trigger] ln_gives(clipped, log) && negate_gives(log, loss);
    lemma_least(read, least);
    let bound = 1 as real / 1_000_000_000_000 as real;
    assert((0 as real) < bound && bound <= 1 as real);
    let x = (read.value)(clipped);
    assert(bound <= x && x <= 1 as real);
    assert((read.ln)(bound) <= (read.ln)(x));
    assert((read.ln)(x) <= (read.ln)(1 as real));
}

/// A sum of numbers between two bounds lies between their multiples.
proof fn lemma_total_bounded<T>(read: Reading<T>, items: Seq<T>, high: real)
    requires
        forall|i: int|
            0 <= i < items.len() ==> 0 as real <= (read.value)(#[trigger] items[i]) && (read.value)(
                items[i],
            ) <= high,
    ensures
        0 as real <= total_of(read, items),
        total_of(read, items) <= items.len() as real * high,
    decreases items.len(),
{
    if items.len() == 0 {
        assert((0 as real) * high == 0 as real) by (nonlinear_arith);
    } else {
        let front = items.drop_last();
        assert forall|i: int| 0 <= i < front.len() implies 0 as real <= (read.value)(
            #[trigger] front[i],
        ) && (read.value)(front[i]) <= high by {
            assert(front[i] == items[i]);
        }
        lemma_total_bounded(read, front, high);
        assert((read.value)(items[items.len() - 1]) <= high);
        assert(0 as real <= (read.value)(items[items.len() - 1]));
        let n = front.len() as real;
        assert(items.len() as real == n + 1 as real);
        assert((n + 1 as real) * high == n * high + high) by (nonlinear_arith);
    }
}

/// The loss lies between zero and minus the logarithm of the bound that it clips at, where the
/// logarithm rises and that of one is zero.
pub proof fn lemma_loss_bounded<T: Real>(
    read: Reading<T>,
    logits: Tensor3<T>,
    targets: TokenArray,
    probs: Tensor3<T>,
    loss: T,
    grad: Tensor3<T>,
)
    requires
        is_exact(read),
        ln_rises(read),
        logits.wf(),
        cross_entropy_gives(logits, targets, probs, loss, grad),
        logits.flat.rows > 0,
        forall|r: int|
            0 <= r < logits.flat.rows ==> all_finite(read, #[trigger] logits.flat.row(r)),
        forall|r: int|
            0 <= r < logits.flat.rows ==> (#[trigger] token_items(targets)[r]) < logits.flat.cols,
    ensures
        (read.finite)(loss),
        0 as real <= (read.value)(loss),
        (read.value)(loss) <= largest_loss(read),
{
    let normalizer = choose|normalizer: T| #[trigger]
        count_gives(logits.flat.rows, normalizer) && mean_loss_gives(
            probs,
            targets,
            normalizer,
            loss,
        );
    let (losses, total) = choose|losses: Seq<T>, total: T| #[trigger]
        token_losses_give(probs, targets, losses) && #[trigger] sum_gives(losses, total)
            && over_gives(total, normalizer, loss);
    let high = largest_loss(read);
    assert forall|r: int| 0 <= r < losses.len() implies (read.finite)(#[trigger] losses[r])
        && 0 as real <= (read.value)(losses[r]) && (read.value)(losses[r]) <= high by {
        let target = token_items(targets)[r] as int;
        assert(token_items(targets)[r] < logits.flat.cols);
        let (items, shares) = (logits.flat.row(r), probs.flat.row(r));
        assert(all_finite(read, items));
        assert((read.finite)(items[0]));
        assert(softmax_gives(items, shares));
        lemma_softmax_is_distribution(read, items, shares);
        assert forall|k: int| 0 <= k < shares.len() implies (read.value)(#[trigger] shares[k])
            >= 0 as real by {
            assert((read.finite)(items[k]));
        }
        lemma_total_at_least(read, shares, target);
        assert(shares[target] == probs.flat.at(r, target));
        assert((read.finite)(shares[target]));
        assert(token_loss_gives(probs.flat.at(r, target), losses[r]));
        lemma_token_loss_bounded(read, shares[target], losses[r]);
    }
    lemma_sum_exact(read, losses, total);
    lemma_total_bounded(read, losses, high);
    let (n, sum) = (logits.flat.rows as real, (read.value)(total));
    assert((read.value)(normalizer) == n);
    assert(0 as real <= sum / n && sum / n <= high) by (nonlinear_arith)
        requires
            n > 0 as real,
            0 as real <= sum,
            sum <= n * high,
    ;
}

} // verus!
