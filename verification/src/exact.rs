//! What the layers compute where the number type computes exactly.
//!
//! A [`Reading`] says which real numbers the numbers of a type stand for. The laws here hold of
//! every type and reading under which the operations are those on real numbers, with no rounding.

use crate::attention::{probs_give, score_gives, scores_give};
use crate::grid::{token_items, TokenArray};
use crate::layer_norm::{inv_root_gives, normalized_row_gives, standardized_gives, variance_gives};
use crate::loss::{cross_entropy_gives, loss_grad_gives, loss_grad_row_gives, mean_loss_gives};
use crate::optim::{
    complement_gives, decay_factor_gives, first_moment_gives, matrix_entry_gives, matrix_step_gives,
    second_moment_gives, undecayed, undecayed_matrix_step_gives, update_gives, vector_entry_gives,
    vector_step_gives, AdamStep, Param1D, Param2D,
};
use crate::reduce::{
    dot_gives, max_gives, mean_gives, powers_give, shifted_exp_gives, softmax_gives, sum_gives,
};
use crate::scalar::{
    at_most_gives, count_gives, decimal_gives, equals_gives, exp_gives, larger_gives, less_gives,
    ln_gives, minus_gives, negate_gives, negative_infinity_gives, one_gives, over_gives, plus_gives,
    sqrt_gives, times_gives, zero_gives, Real,
};
use crate::tensor::Tensor3;
use vstd::prelude::*;

verus! {

/// What the numbers of a type stand for.
#[verifier::reject_recursive_types(T)]
pub ghost struct Reading<T> {
    /// The number stands for a real number.
    pub finite: spec_fn(T) -> bool,
    /// The number stands for minus infinity.
    pub bottom: spec_fn(T) -> bool,
    /// The real number.
    pub value: spec_fn(T) -> real,
    /// What the exponential of a real number is.
    pub exp: spec_fn(real) -> real,
    /// What the natural logarithm of a real number is.
    pub ln: spec_fn(real) -> real,
}

/// Ten to the power `n`.
pub open spec fn ten_to(n: nat) -> real
    decreases n,
{
    if n == 0 {
        1 as real
    } else {
        10 as real * ten_to((n - 1) as nat)
    }
}

/// The larger of two real numbers.
pub open spec fn larger_of(a: real, b: real) -> real {
    if a >= b {
        a
    } else {
        b
    }
}

/// Under this reading the number type computes exactly.
pub open spec fn is_exact<T: Real>(read: Reading<T>) -> bool {
    &&& forall|a: T| #[trigger] (read.bottom)(a) ==> !(read.finite)(a)
    &&& forall|r: T| #[trigger] zero_gives(r) ==> (read.finite)(r) && (read.value)(r) == 0 as real
    &&& forall|r: T| #[trigger] one_gives(r) ==> (read.finite)(r) && (read.value)(r) == 1 as real
    &&& forall|n: usize, r: T| #[trigger]
        count_gives(n, r) ==> (read.finite)(r) && (read.value)(r) == n as real
    &&& forall|digits: u32, places: u32, r: T| #[trigger]
        decimal_gives(digits, places, r) ==> (read.finite)(r) && (read.value)(r) * ten_to(
            places as nat,
        ) == digits as real
    &&& forall|r: T| #[trigger] negative_infinity_gives(r) ==> (read.bottom)(r)
    &&& forall|a: T, b: T, r: T| #[trigger]
        plus_gives(a, b, r) && (read.finite)(a) && (read.finite)(b) ==> (read.finite)(r)
            && (read.value)(r) == (read.value)(a) + (read.value)(b)
    &&& forall|a: T, b: T, r: T| #[trigger]
        minus_gives(a, b, r) && (read.finite)(a) && (read.finite)(b) ==> (read.finite)(r)
            && (read.value)(r) == (read.value)(a) - (read.value)(b)
    &&& forall|a: T, b: T, r: T| #[trigger]
        minus_gives(a, b, r) && (read.bottom)(a) && (read.finite)(b) ==> (read.bottom)(r)
    &&& forall|a: T, b: T, r: T| #[trigger]
        times_gives(a, b, r) && (read.finite)(a) && (read.finite)(b) ==> (read.finite)(r)
            && (read.value)(r) == (read.value)(a) * (read.value)(b)
    &&& forall|a: T, b: T, r: T| #[trigger]
        over_gives(a, b, r) && (read.finite)(a) && (read.finite)(b) && (read.value)(b) != 0 as real
            ==> (read.finite)(r) && (read.value)(r) == (read.value)(a) / (read.value)(b)
    &&& forall|a: T, b: T, r: T| #[trigger]
        larger_gives(a, b, r) && ((read.finite)(a) || (read.bottom)(a)) && ((read.finite)(b)
            || (read.bottom)(b)) ==> if (read.finite)(a) && (read.finite)(b) {
            (read.finite)(r) && (read.value)(r) == larger_of((read.value)(a), (read.value)(b))
        } else if (read.finite)(a) {
            (read.finite)(r) && (read.value)(r) == (read.value)(a)
        } else if (read.finite)(b) {
            (read.finite)(r) && (read.value)(r) == (read.value)(b)
        } else {
            (read.bottom)(r)
        }
    &&& forall|a: T, r: T| #[trigger]
        negate_gives(a, r) && (read.finite)(a) ==> (read.finite)(r) && (read.value)(r) == -(
        read.value)(a)
    &&& forall|a: T, b: T, r: bool| #[trigger]
        less_gives(a, b, r) && (read.finite)(a) && (read.finite)(b) ==> r == ((read.value)(a) < (
        read.value)(b))
    &&& forall|a: T, b: T, r: bool| #[trigger]
        equals_gives(a, b, r) && (read.finite)(a) && (read.finite)(b) ==> r == ((read.value)(a)
            == (read.value)(b))
    &&& forall|a: T, b: T, r: bool| #[trigger]
        at_most_gives(a, b, r) && (read.finite)(a) && (read.finite)(b) ==> r == ((read.value)(a)
            <= (read.value)(b))
    &&& forall|a: T, r: T| #[trigger]
        sqrt_gives(a, r) && (read.finite)(a) && (read.value)(a) >= 0 as real ==> (read.finite)(r)
            && (read.value)(r) >= 0 as real && (read.value)(r) * (read.value)(r) == (read.value)(a)
    &&& forall|a: T, r: T| #[trigger]
        exp_gives(a, r) && (read.finite)(a) ==> (read.finite)(r) && (read.value)(r) == (read.exp)(
            (read.value)(a),
        )
    &&& forall|x: real| #[trigger] (read.exp)(x) > 0 as real
    &&& forall|a: T, r: T| #[trigger]
        exp_gives(a, r) && (read.bottom)(a) ==> (read.finite)(r) && (read.value)(r) == 0 as real
    &&& forall|a: T, r: T| #[trigger]
        ln_gives(a, r) && (read.finite)(a) && (read.value)(a) > 0 as real ==> (read.finite)(r) && (
        read.value)(r) == (read.ln)((read.value)(a))
}

/// All items stand for real numbers.
pub open spec fn all_finite<T>(read: Reading<T>, items: Seq<T>) -> bool {
    forall|i: int| 0 <= i < items.len() ==> (read.finite)(#[trigger] items[i])
}

/// The sum of the real numbers that the items stand for.
pub open spec fn total_of<T>(read: Reading<T>, items: Seq<T>) -> real
    decreases items.len(),
{
    if items.len() == 0 {
        0 as real
    } else {
        total_of(read, items.drop_last()) + (read.value)(items.last())
    }
}

/// A sum of exact numbers is exact.
pub proof fn lemma_sum_exact<T: Real>(read: Reading<T>, items: Seq<T>, r: T)
    requires
        is_exact(read),
        all_finite(read, items),
        sum_gives(items, r),
    ensures
        (read.finite)(r),
        (read.value)(r) == total_of(read, items),
    decreases items.len(),
{
    if items.len() > 0 {
        let acc = choose|acc: T|
            sum_gives(items.drop_last(), acc) && #[trigger] plus_gives(acc, items.last(), r);
        lemma_sum_exact(read, items.drop_last(), acc);
    }
}

/// The inner product of the real numbers that the items stand for.
pub open spec fn dot_of<T>(read: Reading<T>, a: Seq<T>, b: Seq<T>) -> real
    decreases a.len(),
{
    if a.len() == 0 {
        0 as real
    } else {
        dot_of(read, a.drop_last(), b.drop_last()) + (read.value)(a.last()) * (read.value)(b.last())
    }
}

/// An inner product of exact numbers is exact.
pub proof fn lemma_dot_exact<T: Real>(read: Reading<T>, a: Seq<T>, b: Seq<T>, r: T)
    requires
        is_exact(read),
        a.len() == b.len(),
        all_finite(read, a),
        all_finite(read, b),
        dot_gives(a, b, r),
    ensures
        (read.finite)(r),
        (read.value)(r) == dot_of(read, a, b),
    decreases a.len(),
{
    if a.len() > 0 {
        let (acc, product) = choose|acc: T, product: T|
            dot_gives(a.drop_last(), b.drop_last(), acc) && #[trigger] times_gives(
                a.last(),
                b.last(),
                product,
            ) && #[trigger] plus_gives(acc, product, r);
        lemma_dot_exact(read, a.drop_last(), b.drop_last(), acc);
    }
}

/// The largest of some items stands for a real number where one of them does.
pub proof fn lemma_max_finite<T: Real>(read: Reading<T>, items: Seq<T>, r: T)
    requires
        is_exact(read),
        items.len() > 0,
        forall|i: int|
            0 <= i < items.len() ==> (read.finite)(#[trigger] items[i]) || (read.bottom)(items[i]),
        max_gives(items, r),
    ensures
        (read.finite)(r) || (read.bottom)(r),
        (exists|i: int| 0 <= i < items.len() && (read.finite)(#[trigger] items[i]))
            ==> (read.finite)(r),
    decreases items.len(),
{
    if items.len() > 1 {
        let acc = choose|acc: T|
            max_gives(items.drop_last(), acc) && #[trigger] larger_gives(acc, items.last(), r);
        let front = items.drop_last();
        assert forall|i: int| 0 <= i < front.len() implies (read.finite)(#[trigger] front[i])
            || (read.bottom)(front[i]) by {
            assert(front[i] == items[i]);
        }
        lemma_max_finite(read, front, acc);
        if exists|i: int| 0 <= i < items.len() && (read.finite)(#[trigger] items[i]) {
            let i = choose|i: int| 0 <= i < items.len() && (read.finite)(#[trigger] items[i]);
            if i < items.len() - 1 {
                assert(front[i] == items[i]);
            }
        }
        assert((read.finite)(items.last()) || (read.bottom)(items.last())) by {
            assert(items.last() == items[items.len() - 1]);
        }
    }
}

/// A sum of items that are not negative is not negative, and no smaller than any of them.
pub proof fn lemma_total_at_least<T>(read: Reading<T>, items: Seq<T>, i: int)
    requires
        forall|k: int| 0 <= k < items.len() ==> (read.value)(#[trigger] items[k]) >= 0 as real,
        0 <= i < items.len(),
    ensures
        total_of(read, items) >= (read.value)(items[i]),
    decreases items.len(),
{
    let front = items.drop_last();
    assert forall|k: int| 0 <= k < front.len() implies (read.value)(#[trigger] front[k])
        >= 0 as real by {
        assert(front[k] == items[k]);
    }
    reveal_with_fuel(total_of, 2);
    assert((read.value)(items[items.len() - 1]) >= 0 as real);
    if i < items.len() - 1 {
        lemma_total_at_least(read, front, i);
    } else if front.len() > 0 {
        lemma_total_at_least(read, front, 0);
        assert((read.value)(front[0]) >= 0 as real);
    }
}

/// The sum of shares of a total.
proof fn lemma_total_of_shares<T>(read: Reading<T>, items: Seq<T>, shares: Seq<T>, total: real)
    requires
        total != 0 as real,
        shares.len() == items.len(),
        forall|i: int|
            0 <= i < items.len() ==> (read.value)(#[trigger] shares[i]) == (read.value)(items[i])
                / total,
    ensures
        total_of(read, shares) == total_of(read, items) / total,
    decreases items.len(),
{
    if items.len() == 0 {
        assert((0 as real) / total == 0 as real) by (nonlinear_arith)
            requires
                total != 0 as real,
        ;
    } else {
        let (a, b) = (items.drop_last(), shares.drop_last());
        assert forall|i: int| 0 <= i < a.len() implies (read.value)(#[trigger] b[i])
            == (read.value)(a[i]) / total by {
            assert(b[i] == shares[i]);
        }
        lemma_total_of_shares(read, a, b, total);
        let (x, y) = (total_of(read, a), (read.value)(items.last()));
        assert(shares.last() == shares[shares.len() - 1]);
        assert((x + y) / total == x / total + y / total) by (nonlinear_arith)
            requires
                total != 0 as real,
        ;
    }
}

/// A sum of multiples is the multiple of the sum.
pub proof fn lemma_total_of_multiples<T>(read: Reading<T>, a: Seq<T>, b: Seq<T>, k: real)
    requires
        a.len() == b.len(),
        forall|i: int|
            0 <= i < a.len() ==> (read.value)(#[trigger] b[i]) == k * (read.value)(a[i]),
    ensures
        total_of(read, b) == k * total_of(read, a),
    decreases a.len(),
{
    if a.len() == 0 {
        lemma_times_nought(k);
    } else {
        let (f, g) = (a.drop_last(), b.drop_last());
        assert forall|i: int| 0 <= i < f.len() implies (read.value)(#[trigger] g[i]) == k * (
        read.value)(f[i]) by {
            assert(g[i] == b[i]);
        }
        lemma_total_of_multiples(read, f, g, k);
        assert((read.value)(b[b.len() - 1]) == k * (read.value)(a[a.len() - 1]));
        let (x, y) = (total_of(read, f), (read.value)(a.last()));
        assert(k * (x + y) == k * x + k * y) by (nonlinear_arith);
    }
}

/// The sum of numbers that read the same.
pub proof fn lemma_total_of_same<T>(read: Reading<T>, items: Seq<T>, x: real)
    requires
        forall|i: int| 0 <= i < items.len() ==> (read.value)(#[trigger] items[i]) == x,
    ensures
        total_of(read, items) == items.len() as real * x,
    decreases items.len(),
{
    if items.len() == 0 {
        assert((0 as real) * x == 0 as real) by (nonlinear_arith);
    } else {
        let front = items.drop_last();
        assert forall|i: int| 0 <= i < front.len() implies (read.value)(#[trigger] front[i])
            == x by {
            assert(front[i] == items[i]);
        }
        lemma_total_of_same(read, front, x);
        assert((read.value)(items[items.len() - 1]) == x);
        let n = front.len() as real;
        assert(items.len() as real == n + 1 as real);
        assert((n + 1 as real) * x == n * x + x) by (nonlinear_arith);
    }
}

/// Every item stands for a real number or for minus infinity, and one for a real number.
pub open spec fn can_softmax<T>(read: Reading<T>, items: Seq<T>) -> bool {
    &&& forall|i: int|
        0 <= i < items.len() ==> (read.finite)(#[trigger] items[i]) || (read.bottom)(items[i])
    &&& exists|i: int| 0 <= i < items.len() && (read.finite)(#[trigger] items[i])
}

/// The parts of a softmax: the shifted exponentials, the number that they were shifted by, and
/// their sum.
pub proof fn lemma_softmax_parts<T: Real>(read: Reading<T>, items: Seq<T>, probs: Seq<T>) -> (parts: (
    Seq<T>,
    real,
    real,
))
    requires
        is_exact(read),
        can_softmax(read, items),
        softmax_gives(items, probs),
    ensures
        parts.0.len() == items.len(),
        probs.len() == items.len(),
        all_finite(read, probs),
        forall|i: int|
            #![trigger parts.0[i]]
            0 <= i < items.len() && (read.finite)(items[i]) ==> (read.value)(parts.0[i]) == (
            read.exp)((read.value)(items[i]) - parts.1),
        forall|i: int|
            #![trigger parts.0[i]]
            0 <= i < items.len() && (read.bottom)(items[i]) ==> (read.value)(parts.0[i])
                == 0 as real,
        parts.2 == total_of(read, parts.0),
        parts.2 > 0 as real,
        forall|i: int|
            #![trigger probs[i]]
            0 <= i < items.len() ==> (read.value)(probs[i]) == (read.value)(parts.0[i]) / parts.2,
{
    let (powers, total) = choose|powers: Seq<T>, total: T| #[trigger]
        powers_give(items, powers) && #[trigger] sum_gives(powers, total) && probs.len()
            == items.len() && forall|i: int|
            0 <= i < items.len() ==> over_gives(powers[i], total, #[trigger] probs[i]);
    let max = choose|max: T| #[trigger]
        max_gives(items, max) && powers.len() == items.len() && forall|i: int|
            0 <= i < items.len() ==> shifted_exp_gives(items[i], max, #[trigger] powers[i]);
    lemma_max_finite(read, items, max);
    assert forall|i: int| 0 <= i < items.len() implies (read.finite)(#[trigger] powers[i]) && (
    read.value)(powers[i]) >= 0 as real && ((read.finite)(items[i]) ==> (read.value)(powers[i]) == (
    read.exp)((read.value)(items[i]) - (read.value)(max))) && ((read.bottom)(items[i]) ==> (
    read.value)(powers[i]) == 0 as real) by {
        assert(shifted_exp_gives(items[i], max, powers[i]));
        let shifted = choose|shifted: T| #[trigger]
            minus_gives(items[i], max, shifted) && exp_gives(shifted, powers[i]);
        assert((read.finite)(items[i]) || (read.bottom)(items[i]));
    }
    lemma_sum_exact(read, powers, total);
    let first = choose|i: int| 0 <= i < items.len() && (read.finite)(#[trigger] items[i]);
    lemma_total_at_least(read, powers, first);
    assert((read.value)(powers[first]) > 0 as real);
    assert forall|i: int|
        #![trigger probs[i]]
        0 <= i < items.len() implies (read.finite)(probs[i]) && (read.value)(probs[i]) == (
    read.value)(powers[i]) / total_of(read, powers) by {
        assert((read.finite)(powers[i]));
        assert(over_gives(powers[i], total, probs[i]));
    }
    (powers, (read.value)(max), total_of(read, powers))
}

/// The softmax of numbers, some of which may be minus infinity: the probabilities sum to one; an
/// item that stands for a real number has a positive probability, and minus infinity has the
/// probability zero.
pub proof fn lemma_softmax_is_distribution<T: Real>(
    read: Reading<T>,
    items: Seq<T>,
    probs: Seq<T>,
)
    requires
        is_exact(read),
        can_softmax(read, items),
        softmax_gives(items, probs),
    ensures
        all_finite(read, probs),
        total_of(read, probs) == 1 as real,
        forall|i: int|
            #![trigger probs[i]]
            0 <= i < items.len() && (read.finite)(items[i]) ==> (read.value)(probs[i]) > 0 as real,
        forall|i: int|
            #![trigger probs[i]]
            0 <= i < items.len() && (read.bottom)(items[i]) ==> (read.value)(probs[i])
                == 0 as real,
{
    let (powers, max, total) = lemma_softmax_parts(read, items, probs);
    assert forall|i: int| 0 <= i < powers.len() implies (read.value)(#[trigger] probs[i]) == (
    read.value)(powers[i]) / total by {}
    lemma_total_of_shares(read, powers, probs, total);
    assert(total / total == 1 as real) by (nonlinear_arith)
        requires
            total > 0 as real,
    ;
    assert forall|i: int|
        #![trigger probs[i]]
        0 <= i < items.len() && (read.finite)(items[i]) implies (read.value)(probs[i])
        > 0 as real by {
        let power = (read.value)(powers[i]);
        assert(power / total > 0 as real) by (nonlinear_arith)
            requires
                power > 0 as real,
                total > 0 as real,
        ;
    }
    assert((0 as real) / total == 0 as real) by (nonlinear_arith)
        requires
            total > 0 as real,
    ;
    assert forall|i: int|
        #![trigger probs[i]]
        0 <= i < items.len() && (read.bottom)(items[i]) implies (read.value)(probs[i])
        == 0 as real by {
        assert((read.value)(powers[i]) == 0 as real);
    }
}

/// The sum of a row of the gradient of the loss: the sum of the probabilities less one at the
/// target, over the number of tokens.
proof fn lemma_loss_grads_total<T: Real>(
    read: Reading<T>,
    probs: Seq<T>,
    target: usize,
    normalizer: T,
    grad: Seq<T>,
)
    requires
        is_exact(read),
        all_finite(read, probs),
        (read.finite)(normalizer),
        (read.value)(normalizer) != 0 as real,
        loss_grad_row_gives(probs, target, normalizer, grad),
    ensures
        total_of(read, grad) == (total_of(read, probs) - (if target < probs.len() {
            1 as real
        } else {
            0 as real
        })) / (read.value)(normalizer),
    decreases probs.len(),
{
    let n = (read.value)(normalizer);
    if probs.len() == 0 {
        assert((0 as real - 0 as real) / n == 0 as real) by (nonlinear_arith)
            requires
                n != 0 as real,
        ;
    } else {
        let last = probs.len() - 1;
        let (p, g) = (probs.drop_last(), grad.drop_last());
        assert forall|c: int| 0 <= c < p.len() implies loss_grad_gives(
            p[c],
            c == target,
            normalizer,
            #[trigger] g[c],
        ) by {
            assert(g[c] == grad[c]);
        }
        lemma_loss_grads_total(read, p, target, normalizer, g);
        assert(loss_grad_gives(probs[last], last == target, normalizer, grad[last]));
        let before = total_of(read, p);
        let x = (read.value)(probs[last]);
        let one = 1 as real;
        if last == target {
            let (share, unit, part) = choose|share: T, unit: T, part: T| #[trigger]
                over_gives(probs[last], normalizer, share) && one_gives(unit)
                    && #[trigger] over_gives(unit, normalizer, part) && minus_gives(
                    share,
                    part,
                    grad[last],
                );
            assert((read.value)(grad[last]) == x / n - one / n);
            assert((before - 0 as real) / n + (x / n - one / n) == (before + x - one) / n)
                by (nonlinear_arith)
                requires
                    n != 0 as real,
            ;
        } else if target < last {
            assert((read.value)(grad[last]) == x / n);
            assert((before - one) / n + x / n == (before + x - one) / n) by (nonlinear_arith)
                requires
                    n != 0 as real,
            ;
        } else {
            assert((read.value)(grad[last]) == x / n);
            assert((before - 0 as real) / n + x / n == (before + x - 0 as real) / n)
                by (nonlinear_arith)
                requires
                    n != 0 as real,
            ;
        }
    }
}

/// The gradient of the loss sums to zero over the logits of each token.
pub proof fn lemma_loss_grads_sum_to_zero<T: Real>(
    read: Reading<T>,
    logits: Tensor3<T>,
    targets: TokenArray,
    probs: Tensor3<T>,
    loss: T,
    grad: Tensor3<T>,
    r: int,
)
    requires
        is_exact(read),
        logits.wf(),
        cross_entropy_gives(logits, targets, probs, loss, grad),
        0 <= r < logits.flat.rows,
        all_finite(read, logits.flat.row(r)),
        token_items(targets)[r] < logits.flat.cols,
    ensures
        total_of(read, grad.flat.row(r)) == 0 as real,
{
    let items = logits.flat.row(r);
    assert((read.finite)(items[0]));
    lemma_softmax_is_distribution(read, items, probs.flat.row(r));
    let normalizer = choose|normalizer: T| #[trigger]
        count_gives(logits.flat.rows, normalizer) && mean_loss_gives(
            probs,
            targets,
            normalizer,
            loss,
        ) && forall|k: int|
            0 <= k < logits.flat.rows ==> loss_grad_row_gives(
                probs.flat.row(k),
                token_items(targets)[k],
                normalizer,
                #[trigger] grad.flat.row(k),
            );
    let n = (read.value)(normalizer);
    assert(n == logits.flat.rows as real);
    assert(n > 0 as real);
    assert(loss_grad_row_gives(
        probs.flat.row(r),
        token_items(targets)[r],
        normalizer,
        grad.flat.row(r),
    ));
    lemma_loss_grads_total(
        read,
        probs.flat.row(r),
        token_items(targets)[r],
        normalizer,
        grad.flat.row(r),
    );
    assert((1 as real - 1 as real) / n == 0 as real) by (nonlinear_arith)
        requires
            n > 0 as real,
    ;
}

/// A query gives no weight to the keys behind it, and spreads a weight of one over the others,
/// each of which gets some.
pub proof fn lemma_later_keys_get_no_weight<T: Real>(
    read: Reading<T>,
    q: Seq<T>,
    keys: Seq<Seq<T>>,
    i: int,
    scale: T,
    probs: Seq<T>,
)
    requires
        is_exact(read),
        all_finite(read, q),
        forall|j: int| 0 <= j < keys.len() ==> all_finite(read, #[trigger] keys[j]),
        forall|j: int| 0 <= j < keys.len() ==> (#[trigger] keys[j]).len() == q.len(),
        (read.finite)(scale),
        0 <= i < keys.len(),
        probs_give(q, keys, i, scale, probs),
    ensures
        all_finite(read, probs),
        total_of(read, probs) == 1 as real,
        forall|j: int| 0 <= j <= i ==> (read.value)(#[trigger] probs[j]) > 0 as real,
        forall|j: int| i < j < keys.len() ==> (read.value)(#[trigger] probs[j]) == 0 as real,
{
    let scores = choose|scores: Seq<T>| #[trigger]
        scores_give(q, keys, i, scale, scores) && softmax_gives(scores, probs);
    assert forall|j: int| 0 <= j < scores.len() implies if j <= i {
        (read.finite)(#[trigger] scores[j])
    } else {
        (read.bottom)(scores[j])
    } by {
        assert(score_gives(q, keys[j], i, j, scale, scores[j]));
        if j <= i {
            let product = choose|product: T| #[trigger]
                dot_gives(q, keys[j], product) && times_gives(product, scale, scores[j]);
            lemma_dot_exact(read, q, keys[j], product);
        }
    }
    assert((read.finite)(scores[0]));
    lemma_softmax_is_distribution(read, scores, probs);
}

/// The sum of the items, each less `mean` and times `factor`.
proof fn lemma_standardized_total<T: Real>(
    read: Reading<T>,
    items: Seq<T>,
    mean: T,
    factor: T,
    x_hat: Seq<T>,
)
    requires
        is_exact(read),
        all_finite(read, items),
        (read.finite)(mean),
        (read.finite)(factor),
        x_hat.len() == items.len(),
        forall|i: int|
            0 <= i < items.len() ==> standardized_gives(
                items[i],
                mean,
                factor,
                #[trigger] x_hat[i],
            ),
    ensures
        total_of(read, x_hat) == (total_of(read, items) - items.len() as real * (read.value)(mean))
            * (read.value)(factor),
    decreases items.len(),
{
    let (m, f) = ((read.value)(mean), (read.value)(factor));
    if items.len() == 0 {
        assert((0 as real - (0 as real) * m) * f == 0 as real) by (nonlinear_arith);
    } else {
        let last = items.len() - 1;
        let (a, b) = (items.drop_last(), x_hat.drop_last());
        assert forall|i: int| 0 <= i < a.len() implies standardized_gives(
            a[i],
            mean,
            factor,
            #[trigger] b[i],
        ) by {
            assert(b[i] == x_hat[i]);
        }
        lemma_standardized_total(read, a, mean, factor, b);
        assert(standardized_gives(items[last], mean, factor, x_hat[last]));
        let (n, total, x) = (a.len() as real, total_of(read, a), (read.value)(items[last]));
        assert(items.len() as real == n + 1 as real);
        assert((total - n * m) * f + (x - m) * f == (total + x - (n + 1 as real) * m) * f)
            by (nonlinear_arith);
    }
}

/// The normalized numbers of a row sum to zero.
pub proof fn lemma_normalized_rows_are_centred<T: Real>(
    read: Reading<T>,
    items: Seq<T>,
    eps: T,
    x_hat: Seq<T>,
    inv_std: T,
)
    requires
        is_exact(read),
        0 < items.len() <= usize::MAX,
        all_finite(read, items),
        (read.finite)(inv_std),
        normalized_row_gives(items, eps, x_hat, inv_std),
    ensures
        total_of(read, x_hat) == 0 as real,
{
    let (mean, var) = choose|mean: T, var: T| #[trigger]
        mean_gives(items, mean) && #[trigger] variance_gives(items, mean, var) && inv_root_gives(
            var,
            eps,
            inv_std,
        ) && x_hat.len() == items.len() && forall|i: int|
            0 <= i < items.len() ==> standardized_gives(
                items[i],
                mean,
                inv_std,
                #[trigger] x_hat[i],
            );
    let (total, count) = choose|total: T, count: T| #[trigger]
        sum_gives(items, total) && count_gives(items.len() as usize, count)
            && #[trigger] over_gives(total, count, mean);
    lemma_sum_exact(read, items, total);
    let n = items.len() as real;
    assert((read.value)(count) == n);
    assert(n > 0 as real);
    lemma_standardized_total(read, items, mean, inv_std, x_hat);
    let (t, f) = ((read.value)(total), (read.value)(inv_std));
    assert((t - n * (t / n)) * f == 0 as real) by (nonlinear_arith)
        requires
            n > 0 as real,
    ;
}

/// Where the weights behind position `i` are zero, the items behind it do not matter to the
/// weighted sum.
proof fn lemma_dot_ignores_zero_weights<T>(
    read: Reading<T>,
    weights: Seq<T>,
    items: Seq<T>,
    others: Seq<T>,
    i: int,
)
    requires
        0 <= i,
        items.len() == weights.len(),
        others.len() == weights.len(),
        forall|j: int|
            i < j < weights.len() ==> (read.value)(#[trigger] weights[j]) == 0 as real,
        forall|j: int| 0 <= j <= i && j < items.len() ==> #[trigger] others[j] == items[j],
    ensures
        dot_of(read, weights, items) == dot_of(read, weights, others),
    decreases weights.len(),
{
    if weights.len() > 0 {
        let last = weights.len() - 1;
        let (w, a, b) = (weights.drop_last(), items.drop_last(), others.drop_last());
        assert forall|j: int| i < j < w.len() implies (read.value)(#[trigger] w[j])
            == 0 as real by {
            assert(w[j] == weights[j]);
        }
        assert forall|j: int| 0 <= j <= i && j < a.len() implies #[trigger] b[j] == a[j] by {
            assert(b[j] == others[j]);
        }
        lemma_dot_ignores_zero_weights(read, w, a, b, i);
        if last > i {
            let (x, y) = ((read.value)(items[last]), (read.value)(others[last]));
            assert((read.value)(weights[last]) == 0 as real);
            assert((0 as real) * x == (0 as real) * y) by (nonlinear_arith);
        } else {
            assert(others[last] == items[last]);
        }
    }
}

/// What a position takes from the values depends on no later position: with the attention
/// probabilities of query `i` as weights, values that agree up to position `i` have the same
/// weighted sum.
pub proof fn lemma_attention_is_causal<T: Real>(
    read: Reading<T>,
    q: Seq<T>,
    keys: Seq<Seq<T>>,
    i: int,
    scale: T,
    probs: Seq<T>,
    values: Seq<T>,
    others: Seq<T>,
    r: T,
    s: T,
)
    requires
        is_exact(read),
        all_finite(read, q),
        forall|j: int| 0 <= j < keys.len() ==> all_finite(read, #[trigger] keys[j]),
        forall|j: int| 0 <= j < keys.len() ==> (#[trigger] keys[j]).len() == q.len(),
        (read.finite)(scale),
        0 <= i < keys.len(),
        probs_give(q, keys, i, scale, probs),
        values.len() == keys.len(),
        others.len() == keys.len(),
        all_finite(read, values),
        all_finite(read, others),
        forall|j: int| 0 <= j <= i ==> #[trigger] others[j] == values[j],
        dot_gives(probs, values, r),
        dot_gives(probs, others, s),
    ensures
        (read.value)(r) == (read.value)(s),
{
    lemma_later_keys_get_no_weight(read, q, keys, i, scale, probs);
    let scores = choose|scores: Seq<T>| #[trigger]
        scores_give(q, keys, i, scale, scores) && softmax_gives(scores, probs);
    assert(probs.len() == keys.len());
    lemma_dot_exact(read, probs, values, r);
    lemma_dot_exact(read, probs, others, s);
    lemma_dot_ignores_zero_weights(read, probs, values, others, i);
}

/// The numbers that a step of the optimizer divides by and multiplies with stand for real
/// numbers, and it divides by no zero.
pub open spec fn step_is_sound<T>(read: Reading<T>, step: AdamStep<T>) -> bool {
    &&& (read.finite)(step.beta1)
    &&& (read.finite)(step.beta2)
    &&& (read.finite)(step.beta1_correction)
    &&& (read.value)(step.beta1_correction) != 0 as real
    &&& (read.finite)(step.beta2_correction)
    &&& (read.value)(step.beta2_correction) > 0 as real
    &&& (read.finite)(step.lr)
    &&& (read.finite)(step.eps)
    &&& (read.value)(step.eps) > 0 as real
    &&& (read.finite)(step.weight_decay)
}

/// The number stands for zero.
pub open spec fn is_nought<T>(read: Reading<T>, x: T) -> bool {
    (read.finite)(x) && (read.value)(x) == 0 as real
}

/// Any number times zero is zero.
pub proof fn lemma_times_nought(x: real)
    ensures
        x * (0 as real) == 0 as real,
{
    assert(x * (0 as real) == 0 as real) by (nonlinear_arith);
}

/// Moments of zero and a gradient of zero give moments of zero.
proof fn lemma_idle_moments<T: Real>(
    read: Reading<T>,
    step: AdamStep<T>,
    m: T,
    v: T,
    g: T,
    next_m: T,
    next_v: T,
)
    requires
        is_exact(read),
        step_is_sound(read, step),
        is_nought(read, m),
        is_nought(read, v),
        is_nought(read, g),
        first_moment_gives(step.beta1, m, g, next_m),
        second_moment_gives(step.beta2, v, g, next_v),
    ensures
        is_nought(read, next_m),
        is_nought(read, next_v),
{
    let (kept, rest, added) = choose|kept: T, rest: T, added: T| #[trigger]
        times_gives(step.beta1, m, kept) && #[trigger] complement_gives(step.beta1, rest)
            && #[trigger] times_gives(rest, g, added) && plus_gives(kept, added, next_m);
    assert((read.finite)(rest));
    lemma_times_nought((read.value)(step.beta1));
    lemma_times_nought((read.value)(rest));
    let (kept2, rest2, scaled2, added2) = choose|kept: T, rest: T, scaled: T, added: T| #[trigger]
        times_gives(step.beta2, v, kept) && #[trigger] complement_gives(step.beta2, rest)
            && #[trigger] times_gives(rest, g, scaled) && #[trigger] times_gives(scaled, g, added)
            && plus_gives(kept, added, next_v);
    assert((read.finite)(rest2));
    lemma_times_nought((read.value)(step.beta2));
    lemma_times_nought((read.value)(rest2));
    lemma_times_nought((read.value)(scaled2));
}

/// Moments of zero give an update of zero.
proof fn lemma_idle_update<T: Real>(read: Reading<T>, step: AdamStep<T>, m: T, v: T, r: T)
    requires
        is_exact(read),
        step_is_sound(read, step),
        is_nought(read, m),
        is_nought(read, v),
        update_gives(step, m, v, r),
    ensures
        is_nought(read, r),
{
    let nought = 0 as real;
    let (m_hat, v_hat, above, root, below) = choose|
        m_hat: T,
        v_hat: T,
        above: T,
        root: T,
        below: T,
    | #[trigger]
        over_gives(m, step.beta1_correction, m_hat) && #[trigger] over_gives(
            v,
            step.beta2_correction,
            v_hat,
        ) && #[trigger] times_gives(step.lr, m_hat, above) && #[trigger] sqrt_gives(v_hat, root)
            && #[trigger] plus_gives(root, step.eps, below) && over_gives(above, below, r);
    let (c1, c2) = ((read.value)(step.beta1_correction), (read.value)(step.beta2_correction));
    assert(nought / c1 == nought) by (nonlinear_arith)
        requires
            nought == 0 as real,
            c1 != 0 as real,
    ;
    assert(nought / c2 == nought) by (nonlinear_arith)
        requires
            nought == 0 as real,
            c2 > 0 as real,
    ;
    lemma_times_nought((read.value)(step.lr));
    let divisor = (read.value)(below);
    assert(divisor > 0 as real);
    assert(nought / divisor == nought) by (nonlinear_arith)
        requires
            nought == 0 as real,
            divisor > 0 as real,
    ;
}

/// A vector with no gradient and no moments comes out of a step as it was.
pub proof fn lemma_idle_vector_is_kept<T: Real>(
    read: Reading<T>,
    step: AdamStep<T>,
    before: Param1D<T>,
    after: Param1D<T>,
    i: int,
)
    requires
        is_exact(read),
        step_is_sound(read, step),
        before.has_len(before.value@.len() as int),
        vector_step_gives(step, before, after),
        0 <= i < before.value@.len(),
        (read.finite)(before.value@[i]),
        is_nought(read, before.grad@[i]),
        is_nought(read, before.m@[i]),
        is_nought(read, before.v@[i]),
    ensures
        (read.value)(after.value@[i]) == (read.value)(before.value@[i]),
{
    let (m, v) = (after.m@[i], after.v@[i]);
    lemma_idle_moments(read, step, before.m@[i], before.v@[i], before.grad@[i], m, v);
    assert(vector_entry_gives(step, before.value@[i], m, v, after.value@[i]));
    let update = choose|update: T| #[trigger]
        update_gives(step, m, v, update) && minus_gives(
            before.value@[i],
            update,
            after.value@[i],
        );
    lemma_idle_update(read, step, m, v, update);
}

/// A matrix with no gradient and no moments is multiplied in a step by one less the learning
/// rate times the weight decay.
pub proof fn lemma_idle_matrix_decays<T: Real>(
    read: Reading<T>,
    step: AdamStep<T>,
    before: Param2D<T>,
    after: Param2D<T>,
    i: int,
)
    requires
        is_exact(read),
        step_is_sound(read, step),
        before.wf(),
        matrix_step_gives(step, before, after),
        0 <= i < before.value.data@.len(),
        (read.finite)(before.value.data@[i]),
        is_nought(read, before.grad.data@[i]),
        is_nought(read, before.m.data@[i]),
        is_nought(read, before.v.data@[i]),
    ensures
        (read.value)(after.value.data@[i]) == (read.value)(before.value.data@[i]) * (1 as real - (
        read.value)(step.lr) * (read.value)(step.weight_decay)),
{
    let (m, v) = (after.m.data@[i], after.v.data@[i]);
    let (x, y) = (before.value.data@[i], after.value.data@[i]);
    lemma_idle_moments(
        read,
        step,
        before.m.data@[i],
        before.v.data@[i],
        before.grad.data@[i],
        m,
        v,
    );
    assert(matrix_entry_gives(step, x, m, v, y));
    let (factor, kept, update) = choose|factor: T, kept: T, update: T| #[trigger]
        decay_factor_gives(step, factor) && #[trigger] times_gives(x, factor, kept)
            && #[trigger] update_gives(step, m, v, update) && minus_gives(kept, update, y);
    lemma_idle_update(read, step, m, v, update);
    let rate = choose|rate: T| #[trigger]
        times_gives(step.lr, step.weight_decay, rate) && complement_gives(rate, factor);
}

/// A matrix that is stepped without weight decay, and has no gradient and no moments, comes out
/// of a step as it was.
pub proof fn lemma_idle_embedding_is_kept<T: Real>(
    read: Reading<T>,
    step: AdamStep<T>,
    before: Param2D<T>,
    after: Param2D<T>,
    i: int,
)
    requires
        is_exact(read),
        step_is_sound(read, step),
        before.wf(),
        undecayed_matrix_step_gives(step, before, after),
        0 <= i < before.value.data@.len(),
        (read.finite)(before.value.data@[i]),
        is_nought(read, before.grad.data@[i]),
        is_nought(read, before.m.data@[i]),
        is_nought(read, before.v.data@[i]),
    ensures
        (read.value)(after.value.data@[i]) == (read.value)(before.value.data@[i]),
{
    let plain = choose|plain: AdamStep<T>| #[trigger]
        undecayed(step, plain) && matrix_step_gives(plain, before, after);
    lemma_idle_matrix_decays(read, plain, before, after, i);
    let (x, lr) = ((read.value)(before.value.data@[i]), (read.value)(step.lr));
    assert(x * (1 as real - lr * (0 as real)) == x) by (nonlinear_arith);
}

} // verus!
