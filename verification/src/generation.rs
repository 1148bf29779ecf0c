//! Generating tokens.

use crate::grid::{token_items, TokenArray};
use crate::model::{model_gives, GptCache, GptLanguageModel};
use crate::reduce::{softmax_gives, softmax_slice};
use crate::scalar::{pick_gives, Real};
use crate::tensor::Tensor3;
use rand::rngs::SmallRng;
use vstd::prelude::*;

verus! {

/// Why no further token could be generated.
#[derive(Clone, Copy, Debug, PartialEq, Eq, Structural)]
pub enum GenerateError {
    /// The probabilities of the next token are not weights that a token can be drawn by.
    NoDistribution,
    /// The token that was drawn is not in the vocabulary.
    TokenOutOfRange,
}

/// The tokens that the next one depends on: the last `block_size`, or all where there are fewer.
pub open spec fn window_of(tokens: Seq<usize>, block_size: int) -> Seq<usize> {
    if tokens.len() <= block_size {
        tokens
    } else {
        tokens.subrange(tokens.len() - block_size, tokens.len() as int)
    }
}

/// The tokens that the next one depends on lie below `bound`.
pub open spec fn window_below(tokens: Seq<usize>, block_size: int, bound: int) -> bool {
    forall|i: int|
        0 <= i < tokens.len() && i >= tokens.len() - block_size ==> (#[trigger] tokens[i]) < bound
}

/// The steps of [`next_token_gives`], with the table that holds the window, what the model makes
/// of it, and the probabilities of the next token.
pub open spec fn next_token_steps_give<T: Real>(
    model: GptLanguageModel<T>,
    tokens: Seq<usize>,
    before: SmallRng,
    drawn: Option<usize>,
    after: SmallRng,
    idx: TokenArray,
    logits: Tensor3<T>,
    cache: GptCache<T>,
    probs: Vec<T>,
) -> bool {
    let window = window_of(tokens, model.config.block_size as int);
    &&& idx.rows() == 1
    &&& idx.cols() == window.len()
    &&& token_items(idx) == window
    &&& model_gives(model, idx, false, logits, cache, before, before)
    &&& softmax_gives(logits.row(0, window.len() - 1), probs@)
    &&& pick_gives(probs, before, drawn, after)
}

/// `drawn` is what was drawn behind `tokens` by the generator `before`, which left the generator
/// `after`: the weights are the softmax of the logits for the last token of the window.
pub open spec fn next_token_gives<T: Real>(
    model: GptLanguageModel<T>,
    tokens: Seq<usize>,
    before: SmallRng,
    drawn: Option<usize>,
    after: SmallRng,
) -> bool {
    exists|idx: TokenArray, logits: Tensor3<T>, cache: GptCache<T>, probs: Vec<T>|
        next_token_steps_give(model, tokens, before, drawn, after, idx, logits, cache, probs)
}

/// `tokens` are the tokens `context` and `count` further ones, each drawn behind those before it
/// and in the vocabulary; the generator `before` was left as `after`.
pub open spec fn generated_gives<T: Real>(
    model: GptLanguageModel<T>,
    context: Seq<usize>,
    count: nat,
    before: SmallRng,
    tokens: Seq<usize>,
    after: SmallRng,
) -> bool
    decreases count,
{
    if count == 0 {
        tokens == context && after == before
    } else {
        &&& tokens.len() > 0
        &&& tokens.last() < model.config.vocab_size
        &&& exists|mid: SmallRng|
            generated_gives(
                model,
                context,
                (count - 1) as nat,
                before,
                tokens.drop_last(),
                mid,
            ) && #[trigger] next_token_gives(
                model,
                tokens.drop_last(),
                mid,
                Some(tokens.last()),
                after,
            )
    }
}

/// Generation stopped with `error`: some tokens, fewer than `count`, had been generated, and
/// what was drawn behind them is no token of the vocabulary.
pub open spec fn generation_stops<T: Real>(
    model: GptLanguageModel<T>,
    context: Seq<usize>,
    count: nat,
    before: SmallRng,
    error: GenerateError,
    after: SmallRng,
) -> bool {
    exists|done: nat, tokens: Seq<usize>, mid: SmallRng, drawn: Option<usize>|
        done < count && #[trigger] generated_gives(model, context, done, before, tokens, mid)
            && #[trigger] next_token_gives(model, tokens, mid, drawn, after) && match drawn {
            None => error == GenerateError::NoDistribution,
            Some(token) => token >= model.config.vocab_size && error
                == GenerateError::TokenOutOfRange,
        }
}

/// Generation keeps the context, adds as many tokens as were asked for, and takes them from the
/// vocabulary.
pub proof fn lemma_generation_extends<T: Real>(
    model: GptLanguageModel<T>,
    context: Seq<usize>,
    count: nat,
    before: SmallRng,
    tokens: Seq<usize>,
    after: SmallRng,
)
    requires
        generated_gives(model, context, count, before, tokens, after),
    ensures
        tokens.len() == context.len() + count,
        tokens.take(context.len() as int) == context,
        forall|i: int|
            context.len() <= i < tokens.len() ==> (#[trigger] tokens[i]) < model.config.vocab_size,
    decreases count,
{
    if count == 0 {
        assert(tokens.take(context.len() as int) =~= context);
    } else {
        let mid = choose|mid: SmallRng|
            generated_gives(
                model,
                context,
                (count - 1) as nat,
                before,
                tokens.drop_last(),
                mid,
            ) && #[trigger] next_token_gives(
                model,
                tokens.drop_last(),
                mid,
                Some(tokens.last()),
                after,
            );
        lemma_generation_extends(
            model,
            context,
            (count - 1) as nat,
            before,
            tokens.drop_last(),
            mid,
        );
        assert(tokens.take(context.len() as int) =~= tokens.drop_last().take(context.len() as int));
        assert forall|i: int| context.len() <= i < tokens.len() implies (#[trigger] tokens[i])
            < model.config.vocab_size by {
            if i < tokens.len() - 1 {
                assert(tokens[i] == tokens.drop_last()[i]);
            }
        }
    }
}

/// Generating some tokens and, from what is then there, further ones is generating them all.
pub proof fn lemma_generation_continues<T: Real>(
    model: GptLanguageModel<T>,
    context: Seq<usize>,
    first: nat,
    second: nat,
    before: SmallRng,
    middle: Seq<usize>,
    between: SmallRng,
    tokens: Seq<usize>,
    after: SmallRng,
)
    requires
        generated_gives(model, context, first, before, middle, between),
        generated_gives(model, middle, second, between, tokens, after),
    ensures
        generated_gives(model, context, first + second, before, tokens, after),
    decreases second,
{
    if second > 0 {
        let mid = choose|mid: SmallRng|
            generated_gives(
                model,
                middle,
                (second - 1) as nat,
                between,
                tokens.drop_last(),
                mid,
            ) && #[trigger] next_token_gives(
                model,
                tokens.drop_last(),
                mid,
                Some(tokens.last()),
                after,
            );
        lemma_generation_continues(
            model,
            context,
            first,
            (second - 1) as nat,
            before,
            middle,
            between,
            tokens.drop_last(),
            mid,
        );
        assert((first + second - 1) as nat == first + (second - 1) as nat);
    }
}

impl<T: Real> GptLanguageModel<T> {
    /// Draws a token behind `tokens`.
    pub fn draw_token(&self, tokens: &Vec<usize>, rng: &mut SmallRng) -> (drawn: Option<usize>)
        requires
            self.wf(),
            self.config.n_embd > 0,
            0 < self.config.block_size <= isize::MAX,
            tokens@.len() > 0,
            window_below(tokens@, self.config.block_size as int, self.config.vocab_size as int),
        ensures
            next_token_gives(*self, tokens@, *old(rng), drawn, *final(rng)),
    {
        let start: usize = if tokens.len() <= self.config.block_size {
            0
        } else {
            tokens.len() - self.config.block_size
        };
        let mut window: Vec<usize> = Vec::new();
        let mut i: usize = start;
        while i < tokens.len()
            invariant
                start <= i <= tokens@.len(),
                window@ == tokens@.subrange(start as int, i as int),
            decreases tokens@.len() - i,
        {
            window.push(tokens[i]);
            i = i + 1;
            assert(window@ =~= tokens@.subrange(start as int, i as int));
        }
        let ghost last_tokens = window_of(tokens@, self.config.block_size as int);
        assert(window@ =~= last_tokens);
        let width: usize = window.len();
        let idx = TokenArray::from_shape_vec(1, width, window).unwrap();
        proof {
            assert forall|r: int, c: int|
                0 <= r < idx.rows() && 0 <= c < idx.cols() implies (#[trigger] idx.at(r, c))
                < self.config.vocab_size by {
                assert(idx.at(r, c) == last_tokens[c]);
                assert(last_tokens[c] == tokens@[start + c]);
                assert(tokens@[start + c] < self.config.vocab_size);
            }
        }
        let (logits, cache) = self.forward(&idx, false, rng).unwrap();
        let mut probs = logits.flat.row_vec(width - 1);
        assert(logits.row(0, width - 1) =~= probs@);
        softmax_slice(&mut probs);
        let (drawn, next) = T::pick(&probs, rng);
        *rng = next;
        assert(next_token_steps_give(
            *self,
            tokens@,
            *old(rng),
            drawn,
            *rng,
            idx,
            logits,
            cache,
            probs,
        ));
        drawn
    }

    /// The tokens `context` and `max_new_tokens` further ones.
    pub fn generate(&self, context: &[usize], max_new_tokens: usize, rng: &mut SmallRng) -> (result:
        Result<Vec<usize>, GenerateError>)
        requires
            self.wf(),
            context@.len() > 0,
            max_new_tokens > 0 ==> {
                &&& self.config.n_embd > 0
                &&& 0 < self.config.block_size <= isize::MAX
                &&& window_below(
                    context@,
                    self.config.block_size as int,
                    self.config.vocab_size as int,
                )
            },
        ensures
            match result {
                Ok(tokens) => {
                    &&& generated_gives(
                        *self,
                        context@,
                        max_new_tokens as nat,
                        *old(rng),
                        tokens@,
                        *final(rng),
                    )
                    &&& tokens@.len() == context@.len() + max_new_tokens
                    &&& tokens@.take(context@.len() as int) == context@
                    &&& forall|i: int|
                        context@.len() <= i < tokens@.len() ==> (#[trigger] tokens@[i])
                            < self.config.vocab_size
                },
                Err(error) => generation_stops(
                    *self,
                    context@,
                    max_new_tokens as nat,
                    *old(rng),
                    error,
                    *final(rng),
                ),
            },
    {
        let mut tokens: Vec<usize> = Vec::new();
        let len: usize = context.len();
        let mut i: usize = 0;
        while i < len
            invariant
                i <= len,
                len == context@.len(),
                tokens@ == context@.take(i as int),
            decreases len - i,
        {
            tokens.push(context[i]);
            i = i + 1;
            assert(tokens@ =~= context@.take(i as int));
        }
        assert(tokens@ =~= context@);
        let mut made: usize = 0;
        while made < max_new_tokens
            invariant
                made <= max_new_tokens,
                self.wf(),
                max_new_tokens > 0 ==> {
                    &&& self.config.n_embd > 0
                    &&& 0 < self.config.block_size <= isize::MAX
                    &&& window_below(
                        tokens@,
                        self.config.block_size as int,
                        self.config.vocab_size as int,
                    )
                },
                tokens@.len() > 0,
                generated_gives(*self, context@, made as nat, *old(rng), tokens@, *rng),
            decreases max_new_tokens - made,
        {
            let ghost mid = *rng;
            let ghost before = tokens@;
            let token = match self.draw_token(&tokens, rng) {
                Some(token) => token,
                None => {
                    return Err(GenerateError::NoDistribution);
                },
            };
            if token >= self.config.vocab_size {
                return Err(GenerateError::TokenOutOfRange);
            }
            tokens.push(token);
            proof {
                assert(tokens@.drop_last() =~= before);
                assert forall|k: int|
                    0 <= k < tokens@.len() && k >= tokens@.len() - self.config.block_size implies (
                #[trigger] tokens@[k]) < self.config.vocab_size by {
                    if k < before.len() {
                        assert(before[k] < self.config.vocab_size);
                    }
                }
                assert(next_token_gives(
                    *self,
                    tokens@.drop_last(),
                    mid,
                    Some(tokens@.last()),
                    *rng,
                ));
                assert((made + 1) as nat - 1 == made);
            }
            made = made + 1;
        }
        proof {
            lemma_generation_extends(
                *self,
                context@,
                max_new_tokens as nat,
                *old(rng),
                tokens@,
                *rng,
            );
        }
        Ok(tokens)
    }
}

/// What is drawn depends on the last tokens alone, as many as the model's block holds.
pub proof fn lemma_only_window_matters<T: Real>(
    model: GptLanguageModel<T>,
    tokens: Seq<usize>,
    others: Seq<usize>,
    before: SmallRng,
    drawn: Option<usize>,
    after: SmallRng,
)
    requires
        window_of(tokens, model.config.block_size as int) == window_of(
            others,
            model.config.block_size as int,
        ),
        next_token_gives(model, tokens, before, drawn, after),
    ensures
        next_token_gives(model, others, before, drawn, after),
{
    let (idx, logits, cache, probs) = choose|
        idx: TokenArray,
        logits: Tensor3<T>,
        cache: GptCache<T>,
        probs: Vec<T>,
    |
        next_token_steps_give(model, tokens, before, drawn, after, idx, logits, cache, probs);
    assert(next_token_steps_give(model, others, before, drawn, after, idx, logits, cache, probs));
}

} // verus!
