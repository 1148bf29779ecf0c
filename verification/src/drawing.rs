//! What tokens are drawn by: the probabilities that the model gives the successor of the last
//! token, which are those that its loss is taken from.

use crate::agreement::lemma_logits_shape;
use crate::generation::{
    generated_gives, lemma_generation_extends, next_token_gives, next_token_steps_give,
    window_below, window_of, GenerateError,
};
use crate::grid::TokenArray;
use crate::loss::{cross_entropy_gives, cross_entropy_loss};
use crate::model::{model_gives, GptCache, GptLanguageModel};
use crate::reduce::softmax_gives;
use crate::replay::{lemma_generated_window, lemma_logits_repeat, lemma_softmax_repeats, one_result};
use crate::scalar::{pick_gives, Real};
use crate::tensor::Tensor3;
use rand::rngs::SmallRng;
use vstd::prelude::*;

verus! {

/// `idx` holds one row: the last `n` of `tokens`, which are all of them or as many as a block of
/// the model takes.
pub open spec fn holds_last_tokens(
    block_size: usize,
    tokens: Seq<usize>,
    idx: TokenArray,
    n: int,
) -> bool {
    &&& idx.rows() == 1
    &&& idx.cols() == n
    &&& 0 < n <= tokens.len()
    &&& n <= block_size
    &&& n < tokens.len() ==> n == block_size
    &&& forall|t: int| 0 <= t < n ==> #[trigger] idx.at(0, t) == tokens[tokens.len() - n + t]
}

/// The weights that a token is drawn by, given that it was drawn.
proof fn lemma_drawn_weights_are_last_row<T: Real>(
    model: GptLanguageModel<T>,
    tokens: Seq<usize>,
    before: SmallRng,
    drawn: Option<usize>,
    after: SmallRng,
    idx: TokenArray,
    n: int,
    logits: Tensor3<T>,
    cache: GptCache<T>,
    rng: (SmallRng, SmallRng),
    targets: TokenArray,
    probs: Tensor3<T>,
    loss: T,
    grad: Tensor3<T>,
) -> (weights: Vec<T>)
    requires
        one_result::<T>(),
        model.wf(),
        model.config.n_embd > 0,
        window_below(tokens, model.config.block_size as int, model.config.vocab_size as int),
        holds_last_tokens(model.config.block_size, tokens, idx, n),
        model_gives(model, idx, false, logits, cache, rng.0, rng.1),
        cross_entropy_gives(logits, targets, probs, loss, grad),
        next_token_gives(model, tokens, before, drawn, after),
    ensures
        weights@ == probs.row(0, n - 1),
        pick_gives(weights, before, drawn, after),
{
    let (idy, made, other, weights) = choose|
        idy: TokenArray,
        made: Tensor3<T>,
        other: GptCache<T>,
        weights: Vec<T>,
    |
        next_token_steps_give(model, tokens, before, drawn, after, idy, made, other, weights);
    let window = window_of(tokens, model.config.block_size as int);
    let start = tokens.len() - n;
    assert(window.len() == n);
    assert forall|r: int, c: int| 0 <= r < idx.rows() && 0 <= c < idx.cols() implies (
    #[trigger] idx.at(r, c)) < model.config.vocab_size && idx.at(r, c) == idy.at(r, c) by {
        assert(idx.at(0, c) == tokens[start + c]);
        assert(idy.at(r, c) == window[c]);
        assert(window[c] == tokens[start + c]);
        assert(tokens[start + c] < model.config.vocab_size);
    }
    assert forall|r: int, c: int| 0 <= r < idx.rows() && 0 <= c < idx.cols() implies idx.at(r, c)
        == #[trigger] idy.at(r, c) by {
        assert(idx.at(r, c) == idy.at(r, c));
    }
    lemma_logits_repeat(model, idx, idy, logits, made, cache, other, rng, (before, before));
    lemma_logits_shape(model, idx, false, logits, cache, rng.0, rng.1);
    assert(logits.row(0, n - 1) =~= made.row(0, n - 1));
    assert(idx.at(0, 0) < model.config.vocab_size);
    assert(logits.flat.rows == n);
    assert(0 * n == 0) by (nonlinear_arith);
    assert(softmax_gives(logits.flat.row(n - 1), probs.flat.row(n - 1)));
    lemma_softmax_repeats(logits.row(0, n - 1), weights@, probs.row(0, n - 1));
    weights
}

/// A token is drawn by the probabilities that the model gives the successor of the last token:
/// run the model on the last tokens and hold any targets against what it makes, and the
/// probabilities that the target of the last position is held against are the weights.
pub proof fn lemma_draw_is_by_last_position<T: Real>(
    model: &GptLanguageModel<T>,
    tokens: &Vec<usize>,
    rng: &mut SmallRng,
    drawn: Option<usize>,
    idx: &TokenArray,
    n: int,
    other: &mut SmallRng,
    cache: GptCache<T>,
    logits: &mut Tensor3<T>,
    targets: &TokenArray,
    scored: (T, Tensor3<T>),
)
    requires
        one_result::<T>(),
        model.wf(),
        model.config.n_embd > 0,
        window_below(tokens@, model.config.block_size as int, model.config.vocab_size as int),
        holds_last_tokens(model.config.block_size, tokens@, *idx, n),
        call_ensures(
            GptLanguageModel::<T>::forward,
            (model, idx, false, other),
            Ok((*old(logits), cache)),
        ),
        call_ensures(cross_entropy_loss::<T>, (logits, targets), scored),
        call_ensures(GptLanguageModel::<T>::draw_token, (model, tokens, rng), drawn),
    ensures
        exists|weights: Vec<T>|
            weights@ == final(logits).row(0, n - 1) && #[trigger] pick_gives(
                weights,
                *old(rng),
                drawn,
                *final(rng),
            ),
{
    let weights = lemma_drawn_weights_are_last_row(
        *model,
        tokens@,
        *old(rng),
        drawn,
        *final(rng),
        *idx,
        n,
        *old(logits),
        cache,
        (*old(other), *final(other)),
        *targets,
        *final(logits),
        scored.0,
        scored.1,
    );
}

/// New token `k` was drawn behind those before it, and from generator `k`.
spec fn drawn_at<T: Real>(
    model: GptLanguageModel<T>,
    len: nat,
    tokens: Seq<usize>,
    gens: Seq<SmallRng>,
    k: int,
) -> bool {
    let before = tokens.take(len + k);
    &&& window_below(before, model.config.block_size as int, model.config.vocab_size as int)
    &&& next_token_gives(model, before, gens[k], Some(tokens[len + k]), gens[k + 1])
}

/// The generators between the draws of a generation.
proof fn lemma_generation_draws<T: Real>(
    model: GptLanguageModel<T>,
    context: Seq<usize>,
    count: nat,
    before: SmallRng,
    tokens: Seq<usize>,
    after: SmallRng,
) -> (gens: Seq<SmallRng>)
    requires
        generated_gives(model, context, count, before, tokens, after),
        window_below(context, model.config.block_size as int, model.config.vocab_size as int),
    ensures
        tokens.len() == context.len() + count,
        gens.len() == count + 1,
        gens[0] == before,
        gens[count as int] == after,
        forall|k: int|
            0 <= k < count ==> #[trigger] drawn_at(model, context.len(), tokens, gens, k),
    decreases count,
{
    if count == 0 {
        seq![before]
    } else {
        let front = tokens.drop_last();
        let mid = choose|mid: SmallRng|
            generated_gives(model, context, (count - 1) as nat, before, front, mid)
                && #[trigger] next_token_gives(model, front, mid, Some(tokens.last()), after);
        let short = lemma_generation_draws(
            model,
            context,
            (count - 1) as nat,
            before,
            front,
            mid,
        );
        lemma_generated_window(model, context, (count - 1) as nat, before, front, mid);
        let gens = short.push(after);
        assert forall|k: int| 0 <= k < count implies #[trigger] drawn_at(
            model,
            context.len(),
            tokens,
            gens,
            k,
        ) by {
            assert(tokens.take(context.len() + k) =~= front.take(context.len() + k));
            if k < count - 1 {
                assert(drawn_at(model, context.len(), front, short, k));
                assert(gens[k] == short[k] && gens[k + 1] == short[k + 1]);
                assert(tokens[context.len() + k] == front[context.len() + k]);
            } else {
                assert(front.take(context.len() + k) =~= front);
                assert(gens[k] == mid);
            }
        }
        gens
    }
}

/// Every token of a generation, the first new one and all others, is drawn by the probabilities
/// that the model gives the successor of the token before it: run the model on the last tokens
/// before it, and hold any targets against what it makes. The draws follow one another from the
/// first generator to the last.
pub proof fn lemma_generation_is_by_last_positions<T: Real>(
    model: &GptLanguageModel<T>,
    context: &[usize],
    count: usize,
    rng: &mut SmallRng,
    tokens: Vec<usize>,
    k: int,
    idx: &TokenArray,
    n: int,
    other: &mut SmallRng,
    cache: GptCache<T>,
    logits: &mut Tensor3<T>,
    targets: &TokenArray,
    scored: (T, Tensor3<T>),
)
    requires
        one_result::<T>(),
        model.wf(),
        model.config.n_embd > 0,
        window_below(context@, model.config.block_size as int, model.config.vocab_size as int),
        call_ensures(GptLanguageModel::<T>::generate, (model, context, count, rng), Ok(tokens)),
        0 <= k < count,
        holds_last_tokens(
            model.config.block_size,
            tokens@.take(context@.len() + k),
            *idx,
            n,
        ),
        call_ensures(
            GptLanguageModel::<T>::forward,
            (model, idx, false, other),
            Ok((*old(logits), cache)),
        ),
        call_ensures(cross_entropy_loss::<T>, (logits, targets), scored),
    ensures
        tokens@.len() == context@.len() + count,
        tokens@.take(context@.len() as int) == context@,
        exists|gens: Seq<SmallRng>, weights: Vec<T>|
            gens.len() == count + 1 && gens[0] == *old(rng) && gens[count as int] == *final(rng)
                && weights@ == final(logits).row(0, n - 1) && #[trigger] pick_gives(
                weights,
                gens[k],
                Some(tokens@[context@.len() + k]),
                gens[k + 1],
            ),
{
    let gens = lemma_generation_draws(
        *model,
        context@,
        count as nat,
        *old(rng),
        tokens@,
        *final(rng),
    );
    assert(drawn_at(*model, context@.len(), tokens@, gens, k));
    let weights = lemma_drawn_weights_are_last_row(
        *model,
        tokens@.take(context@.len() + k),
        gens[k],
        Some(tokens@[context@.len() + k]),
        gens[k + 1],
        *idx,
        n,
        *old(logits),
        cache,
        (*old(other), *final(other)),
        *targets,
        *final(logits),
        scored.0,
        scored.1,
    );
    assert(pick_gives(weights, gens[k], Some(tokens@[context@.len() + k]), gens[k + 1]));
}

/// Generation stops early only at a draw: behind the context and some new tokens, fewer than were
/// asked for and all in the vocabulary, either nothing could be drawn, or what was drawn is not in
/// the vocabulary. The error says which.
pub proof fn lemma_generation_stops_at_a_draw<T: Real>(
    model: &GptLanguageModel<T>,
    context: &[usize],
    count: usize,
    rng: &mut SmallRng,
    error: GenerateError,
)
    requires
        call_ensures(GptLanguageModel::<T>::generate, (model, context, count, rng), Err(error)),
    ensures
        exists|tokens: Seq<usize>, weights: Vec<T>, mid: SmallRng, drawn: Option<usize>|
            {
                &&& #[trigger] tokens.take(context@.len() as int) == context@
                &&& context@.len() <= tokens.len() < context@.len() + count
                &&& forall|i: int|
                    context@.len() <= i < tokens.len() ==> (#[trigger] tokens[i])
                        < model.config.vocab_size
                &&& #[trigger] pick_gives(weights, mid, drawn, *final(rng))
                &&& match drawn {
                    None => error == GenerateError::NoDistribution,
                    Some(token) => token >= model.config.vocab_size && error
                        == GenerateError::TokenOutOfRange,
                }
            },
{
    let (before, after) = (*old(rng), *final(rng));
    let (done, tokens, mid, drawn) = choose|
        done: nat,
        tokens: Seq<usize>,
        mid: SmallRng,
        drawn: Option<usize>,
    |
        done < count && #[trigger] generated_gives(*model, context@, done, before, tokens, mid)
            && #[trigger] next_token_gives(*model, tokens, mid, drawn, after) && match drawn {
            None => error == GenerateError::NoDistribution,
            Some(token) => token >= model.config.vocab_size && error
                == GenerateError::TokenOutOfRange,
        };
    lemma_generation_extends(*model, context@, done, before, tokens, mid);
    let (idx, logits, cache, weights) = choose|
        idx: TokenArray,
        logits: Tensor3<T>,
        cache: GptCache<T>,
        weights: Vec<T>,
    |
        next_token_steps_give(*model, tokens, mid, drawn, after, idx, logits, cache, weights);
    assert(tokens.take(context@.len() as int) == context@);
    assert(pick_gives(weights, mid, drawn, after));
}

} // verus!
