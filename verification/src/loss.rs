//! The cross-entropy loss.

use crate::grid::{token_items, TokenArray};
use crate::reduce::{softmax_gives, softmax_slice, sum, sum_gives};
use crate::scalar::{
    count_gives, decimal_gives, larger_gives, ln_gives, minus_gives, negate_gives, one_gives,
    over_gives, Real,
};
use crate::tensor::{lemma_split_index, Tensor2, Tensor3};
use vstd::prelude::*;

verus! {

/// `r` is the loss of a target with the probability `p`: minus the logarithm of the probability,
/// which is first raised to at least a millionth of a millionth.
pub open spec fn token_loss_gives<T: Real>(p: T, r: T) -> bool {
    exists|least: T, clipped: T, log: T|
        decimal_gives(1, 12, least) && #[trigger] larger_gives(p, least, clipped)
            && #[trigger] ln_gives(clipped, log) && negate_gives(log, r)
}

/// `r` is an entry of the gradient of the loss: the probability over the number of tokens, less
/// one over that number at the target.
pub open spec fn loss_grad_gives<T: Real>(p: T, at_target: bool, normalizer: T, r: T) -> bool {
    if at_target {
        exists|share: T, one: T, part: T| #[trigger]
            over_gives(p, normalizer, share) && one_gives(one) && #[trigger] over_gives(
                one,
                normalizer,
                part,
            ) && minus_gives(share, part, r)
    } else {
        over_gives(p, normalizer, r)
    }
}

/// `grad` is a row of the gradient of the loss.
pub open spec fn loss_grad_row_gives<T: Real>(
    probs: Seq<T>,
    target: usize,
    normalizer: T,
    grad: Seq<T>,
) -> bool {
    grad.len() == probs.len() && forall|c: int|
        0 <= c < probs.len() ==> loss_grad_gives(probs[c], c == target, normalizer, #[trigger] grad[c])
}

/// `losses` are the losses of all tokens.
pub open spec fn token_losses_give<T: Real>(
    probs: Tensor3<T>,
    targets: TokenArray,
    losses: Seq<T>,
) -> bool {
    losses.len() == probs.flat.rows && forall|r: int|
        0 <= r < losses.len() ==> token_loss_gives(
            probs.flat.at(r, token_items(targets)[r] as int),
            #[trigger] losses[r],
        )
}

/// `loss` is the mean loss of all tokens, where `normalizer` is their number.
pub open spec fn mean_loss_gives<T: Real>(
    probs: Tensor3<T>,
    targets: TokenArray,
    normalizer: T,
    loss: T,
) -> bool {
    exists|losses: Seq<T>, total: T| #[trigger]
        token_losses_give(probs, targets, losses) && #[trigger] sum_gives(losses, total)
            && over_gives(total, normalizer, loss)
}

/// `probs` is the softmax of the rows of `logits`, `loss` the mean loss of the targets, and
/// `grad` the gradient of that loss with respect to the logits.
pub open spec fn cross_entropy_gives<T: Real>(
    logits: Tensor3<T>,
    targets: TokenArray,
    probs: Tensor3<T>,
    loss: T,
    grad: Tensor3<T>,
) -> bool {
    &&& probs.wf()
    &&& probs.same_shape(logits)
    &&& forall|r: int|
        0 <= r < logits.flat.rows ==> softmax_gives(
            logits.flat.row(r),
            #[trigger] probs.flat.row(r),
        )
    &&& grad.wf()
    &&& grad.same_shape(logits)
    &&& exists|normalizer: T| #[trigger]
        count_gives(logits.flat.rows, normalizer) && mean_loss_gives(
            probs,
            targets,
            normalizer,
            loss,
        ) && forall|r: int|
            0 <= r < logits.flat.rows ==> loss_grad_row_gives(
                probs.flat.row(r),
                token_items(targets)[r],
                normalizer,
                #[trigger] grad.flat.row(r),
            )
}

/// A row of the gradient of the loss.
fn loss_grad_row<T: Real>(probs: &Vec<T>, target: usize, normalizer: T) -> (grad: Vec<T>)
    ensures
        loss_grad_row_gives(probs@, target, normalizer, grad@),
{
    let part = T::one().over(normalizer);
    let mut grad: Vec<T> = Vec::new();
    let mut c: usize = 0;
    while c < probs.len()
        invariant
            c <= probs@.len(),
            exists|one: T| one_gives(one) && #[trigger] over_gives(one, normalizer, part),
            grad@.len() == c,
            forall|k: int|
                0 <= k < c ==> loss_grad_gives(
                    probs@[k],
                    k == target,
                    normalizer,
                    #[trigger] grad@[k],
                ),
        decreases probs@.len() - c,
    {
        let share = probs[c].over(normalizer);
        if c == target {
            grad.push(share.minus(part));
        } else {
            grad.push(share);
        }
        c = c + 1;
    }
    grad
}

/// The loss of a target with the probability `p`.
pub fn token_loss<T: Real>(p: T) -> (r: T)
    ensures
        token_loss_gives(p, r),
{
    p.larger(T::decimal(1, 12)).ln().negate()
}

/// Replaces the logits by probabilities; returns the mean loss of the targets and its gradient.
pub fn cross_entropy_loss<T: Real>(logits: &mut Tensor3<T>, targets: &TokenArray) -> (result: (
    T,
    Tensor3<T>,
))
    requires
        old(logits).wf(),
        targets.rows() == old(logits).outer,
        targets.cols() == old(logits).inner,
        targets.all_below(old(logits).flat.cols as int),
    ensures
        cross_entropy_gives(*old(logits), *targets, *final(logits), result.0, result.1),
{
    let (outer, inner) = (logits.outer, logits.inner);
    let (count, width) = (logits.flat.rows, logits.flat.cols);
    let normalizer = T::from_count(count);
    let mut prob_rows: Vec<Vec<T>> = Vec::new();
    let mut grad_rows: Vec<Vec<T>> = Vec::new();
    let mut losses: Vec<T> = Vec::new();
    let mut r: usize = 0;
    while r < count
        invariant
            r <= count,
            *logits == *old(logits),
            logits.has_shape(outer as int, inner as int, width as int),
            count == logits.flat.rows,
            targets.rows() == outer,
            targets.cols() == inner,
            targets.all_below(width as int),
            prob_rows@.len() == r,
            grad_rows@.len() == r,
            losses@.len() == r,
            forall|k: int| 0 <= k < r ==> (#[trigger] prob_rows@[k])@.len() == width,
            forall|k: int|
                0 <= k < r ==> softmax_gives(logits.flat.row(k), (#[trigger] prob_rows@[k])@),
            forall|k: int|
                0 <= k < r ==> token_loss_gives(
                    prob_rows@[k]@[token_items(*targets)[k] as int],
                    #[trigger] losses@[k],
                ),
            forall|k: int| 0 <= k < r ==> token_items(*targets)[k] < width,
            forall|k: int| 0 <= k < r ==> (#[trigger] grad_rows@[k])@.len() == width,
            forall|k: int|
                0 <= k < r ==> loss_grad_row_gives(
                    prob_rows@[k]@,
                    token_items(*targets)[k],
                    normalizer,
                    (#[trigger] grad_rows@[k])@,
                ),
        decreases count - r,
    {
        let mut row = logits.flat.row_vec(r);
        softmax_slice(&mut row);
        proof {
            assert(inner > 0) by {
                if inner == 0 {
                    assert(outer * inner == 0) by (nonlinear_arith)
                        requires
                            inner == 0,
                    ;
                }
            }
            lemma_split_index(r as int, outer as int, inner as int);
        }
        let target = targets.get(r / inner, r % inner);
        assert(target == token_items(*targets)[r as int]);
        assert(target < width);
        let loss = token_loss(row[target]);
        let grad_row = loss_grad_row(&row, target, normalizer);
        prob_rows.push(row);
        grad_rows.push(grad_row);
        losses.push(loss);
        r = r + 1;
    }
    let total = sum(&losses);
    let loss = total.over(normalizer);
    let ghost probs_parts = prob_rows@;
    let ghost grad_parts = grad_rows@;
    let grad = Tensor3 { outer, inner, flat: Tensor2::from_rows(grad_rows, width) };
    *logits = Tensor3 { outer, inner, flat: Tensor2::from_rows(prob_rows, width) };
    proof {
        assert forall|k: int| 0 <= k < count implies softmax_gives(
            old(logits).flat.row(k),
            #[trigger] logits.flat.row(k),
        ) by {
            assert(logits.flat.row(k) == probs_parts[k]@);
        }
        assert forall|k: int| 0 <= k < count implies token_loss_gives(
            logits.flat.at(k, token_items(*targets)[k] as int),
            #[trigger] losses@[k],
        ) by {
            assert(token_items(*targets)[k] < width);
            assert(logits.flat.at(k, token_items(*targets)[k] as int)
                == probs_parts[k]@[token_items(*targets)[k] as int]);
        }
        assert(token_losses_give(*logits, *targets, losses@));
        assert(mean_loss_gives(*logits, *targets, normalizer, loss));
        assert forall|k: int| 0 <= k < count implies loss_grad_row_gives(
            logits.flat.row(k),
            token_items(*targets)[k],
            normalizer,
            #[trigger] grad.flat.row(k),
        ) by {
            assert(grad.flat.row(k) == grad_parts[k]@);
            assert(logits.flat.row(k) == probs_parts[k]@);
        }
    }
    (loss, grad)
}

} // verus!
