//! One block of the transformer.

use crate::attention::{
    attention_backward_gives, attention_gives, attention_grads_cleared, attention_step_gives,
    fresh_attention, AttentionCache, MultiHeadSelfAttention,
};
use crate::dropout::{rate_refused, rate_zero_gives, InvalidRate};
use crate::elementwise::{plus_tensor, plus_tensor_gives};
use crate::feed_forward::{
    feed_forward_backward_gives, feed_forward_gives, feed_forward_grads_cleared,
    feed_forward_step_gives, fresh_feed_forward, FeedForward, FeedForwardCache,
};
use crate::layer_norm::{
    fresh_layer_norm, layer_norm_backward_gives, layer_norm_gives, layer_norm_grads_cleared,
    layer_norm_step_gives, LayerNorm, LayerNormCache,
};
use crate::optim::AdamStep;
use crate::scalar::Real;
use crate::tensor::Tensor3;
use rand::rngs::SmallRng;
use vstd::prelude::*;

verus! {

/// What going back through the block needs.
pub struct BlockCache<T> {
    pub ln1: LayerNormCache<T>,
    pub ln2: LayerNormCache<T>,
    pub attention: AttentionCache<T>,
    pub feed_forward: FeedForwardCache<T>,
}

/// Attention and feed-forward, each behind a layer normalization and beside a residual path.
pub struct Block<T> {
    pub ln1: LayerNorm<T>,
    pub attention: MultiHeadSelfAttention<T>,
    pub ln2: LayerNorm<T>,
    pub feed_forward: FeedForward<T>,
}

impl<T> Block<T> {
    /// The block takes rows of `n_embd` numbers, in sequences of up to `block_size` rows.
    pub open spec fn has_shape(self, n_embd: int, block_size: int) -> bool {
        &&& self.ln1.has_width(n_embd)
        &&& self.attention.has_shape(n_embd, block_size)
        &&& self.ln2.has_width(n_embd)
        &&& self.feed_forward.has_width(n_embd)
    }
}

impl<T> BlockCache<T> {
    /// The cache belongs to `batch` sequences of `time` rows, and to this block.
    pub open spec fn fits(self, block: Block<T>, batch: int, time: int, n_embd: int) -> bool {
        &&& self.ln1.has_shape(batch, time, n_embd)
        &&& self.ln2.has_shape(batch, time, n_embd)
        &&& self.attention.has_shape(
            batch,
            time,
            block.attention.n_head as int,
            block.attention.head_size as int,
        )
        &&& self.feed_forward.has_shape(batch, time, n_embd)
    }
}

/// `block` is a new block whose weights were drawn from the generator `before`, those of the
/// attention first; the generator `after` is left.
pub open spec fn fresh_block<T: Real>(
    block: Block<T>,
    n_embd: int,
    n_head: int,
    block_size: int,
    before: SmallRng,
    after: SmallRng,
) -> bool {
    &&& block.has_shape(n_embd, block_size)
    &&& fresh_layer_norm(block.ln1, n_embd)
    &&& fresh_layer_norm(block.ln2, n_embd)
    &&& exists|mid: SmallRng| #[trigger]
        fresh_attention(block.attention, n_embd, n_head, block_size, before, mid)
            && fresh_feed_forward(block.feed_forward, n_embd, mid, after)
}

/// What stands between the steps of a block.
pub ghost struct BlockSteps<T> {
    pub ln1_output: Tensor3<T>,
    pub attention_output: Tensor3<T>,
    pub residual: Tensor3<T>,
    pub ln2_output: Tensor3<T>,
    pub feed_forward_output: Tensor3<T>,
    pub rng: SmallRng,
}

/// The steps of [`block_gives`].
pub open spec fn block_steps_give<T: Real>(
    block: Block<T>,
    input: Tensor3<T>,
    training: bool,
    dropout: T,
    output: Tensor3<T>,
    cache: BlockCache<T>,
    before: SmallRng,
    after: SmallRng,
    s: BlockSteps<T>,
) -> bool {
    &&& layer_norm_gives(block.ln1, input, s.ln1_output, cache.ln1)
    &&& attention_gives(
        block.attention,
        s.ln1_output,
        training,
        dropout,
        s.attention_output,
        cache.attention,
        before,
        s.rng,
    )
    &&& plus_tensor_gives(input, s.attention_output, s.residual)
    &&& layer_norm_gives(block.ln2, s.residual, s.ln2_output, cache.ln2)
    &&& feed_forward_gives(
        block.feed_forward,
        s.ln2_output,
        training,
        dropout,
        s.feed_forward_output,
        cache.feed_forward,
        s.rng,
        after,
    )
    &&& plus_tensor_gives(s.residual, s.feed_forward_output, output)
}

/// `output` and `cache` are what the block makes of `input`: to the input is added the attention
/// of its normalized rows, and to that the feed-forward of its normalized rows. The generator
/// `before` is left as `after`.
pub open spec fn block_gives<T: Real>(
    block: Block<T>,
    input: Tensor3<T>,
    training: bool,
    dropout: T,
    output: Tensor3<T>,
    cache: BlockCache<T>,
    before: SmallRng,
    after: SmallRng,
) -> bool {
    exists|s: BlockSteps<T>|
        block_steps_give(block, input, training, dropout, output, cache, before, after, s)
}

/// What stands between the steps of going back through a block.
pub ghost struct BlockGrads<T> {
    pub feed_forward: Tensor3<T>,
    pub ln2_input: Tensor3<T>,
    pub residual: Tensor3<T>,
    pub attention: Tensor3<T>,
    pub ln1_input: Tensor3<T>,
}

/// The steps of [`block_backward_gives`].
pub open spec fn block_backward_steps_give<T: Real>(
    before: Block<T>,
    cache: BlockCache<T>,
    grad_output: Tensor3<T>,
    after: Block<T>,
    grad_input: Tensor3<T>,
    g: BlockGrads<T>,
) -> bool {
    &&& feed_forward_backward_gives(
        before.feed_forward,
        cache.feed_forward,
        grad_output,
        after.feed_forward,
        g.feed_forward,
    )
    &&& layer_norm_backward_gives(
        before.ln2,
        cache.ln2,
        g.feed_forward,
        after.ln2,
        g.ln2_input,
    )
    &&& plus_tensor_gives(grad_output, g.ln2_input, g.residual)
    &&& attention_backward_gives(
        before.attention,
        cache.attention,
        g.residual,
        after.attention,
        g.attention,
    )
    &&& layer_norm_backward_gives(before.ln1, cache.ln1, g.attention, after.ln1, g.ln1_input)
    &&& plus_tensor_gives(g.residual, g.ln1_input, grad_input)
}

/// Going back through the block: the gradients of its layers grow by what `grad_output` adds to
/// them, and `grad_input` is the gradient of the input.
pub open spec fn block_backward_gives<T: Real>(
    before: Block<T>,
    cache: BlockCache<T>,
    grad_output: Tensor3<T>,
    after: Block<T>,
    grad_input: Tensor3<T>,
) -> bool {
    exists|g: BlockGrads<T>|
        block_backward_steps_give(before, cache, grad_output, after, grad_input, g)
}

/// `after` is `before` with gradients of zeros.
pub open spec fn block_grads_cleared<T: Real>(before: Block<T>, after: Block<T>) -> bool {
    &&& layer_norm_grads_cleared(before.ln1, after.ln1)
    &&& attention_grads_cleared(before.attention, after.attention)
    &&& layer_norm_grads_cleared(before.ln2, after.ln2)
    &&& feed_forward_grads_cleared(before.feed_forward, after.feed_forward)
}

/// `after` is `before` after an optimizer step.
pub open spec fn block_step_gives<T: Real>(
    step: AdamStep<T>,
    before: Block<T>,
    after: Block<T>,
) -> bool {
    &&& layer_norm_step_gives(step, before.ln1, after.ln1)
    &&& attention_step_gives(step, before.attention, after.attention)
    &&& layer_norm_step_gives(step, before.ln2, after.ln2)
    &&& feed_forward_step_gives(step, before.feed_forward, after.feed_forward)
}

/// Heads that fill a row have a size.
pub proof fn lemma_head_size_positive(n_head: int, head_size: int, n_embd: int)
    requires
        n_head * head_size == n_embd,
        n_embd > 0,
        head_size >= 0,
    ensures
        head_size > 0,
{
    if head_size == 0 {
        assert(n_head * head_size == 0) by (nonlinear_arith)
            requires
                head_size == 0,
        ;
    }
}

impl<T: Real> Block<T> {
    /// A new block.
    pub fn new(n_embd: usize, n_head: usize, block_size: usize, rng: &mut SmallRng) -> (block:
        Block<T>)
        requires
            n_head > 0,
            n_embd % n_head == 0,
            4 * n_embd <= usize::MAX,
            n_embd * (4 * n_embd) <= usize::MAX,
            block_size * block_size <= isize::MAX,
        ensures
            fresh_block(
                block,
                n_embd as int,
                n_head as int,
                block_size as int,
                *old(rng),
                *final(rng),
            ),
    {
        assert(n_embd * (3 * n_embd) <= n_embd * (4 * n_embd)) by (nonlinear_arith)
            requires
                n_embd >= 0,
        ;
        let ln1 = LayerNorm::new(n_embd);
        let attention = MultiHeadSelfAttention::new(n_embd, n_head, block_size, rng);
        let ln2 = LayerNorm::new(n_embd);
        let feed_forward = FeedForward::new(n_embd, rng);
        Block { ln1, attention, ln2, feed_forward }
    }

    /// Applies the block to `input`.
    pub fn forward(
        &self,
        input: &Tensor3<T>,
        training: bool,
        dropout: T,
        rng: &mut SmallRng,
    ) -> (result: Result<(Tensor3<T>, BlockCache<T>), InvalidRate>)
        requires
            input.wf(),
            input.flat.cols > 0,
            self.has_shape(input.flat.cols as int, self.attention.block_size()),
            0 < input.inner <= self.attention.block_size(),
        ensures
            match result {
                Ok((output, cache)) => {
                    &&& block_gives(
                        *self,
                        *input,
                        training,
                        dropout,
                        output,
                        cache,
                        *old(rng),
                        *final(rng),
                    )
                    &&& output.wf()
                    &&& output.same_shape(*input)
                    &&& cache.fits(
                        *self,
                        input.outer as int,
                        input.inner as int,
                        input.flat.cols as int,
                    )
                },
                Err(_) => training && rate_zero_gives(dropout, false) && rate_refused(dropout),
            },
            !training ==> *final(rng) == *old(rng),
    {
        proof {
            lemma_head_size_positive(
                self.attention.n_head as int,
                self.attention.head_size as int,
                input.flat.cols as int,
            );
        }
        let (ln1_output, ln1) = self.ln1.forward(input);
        let (attention_output, attention) = match self.attention.forward(
            &ln1_output,
            training,
            dropout,
            rng,
        ) {
            Ok(pair) => pair,
            Err(e) => {
                return Err(e);
            },
        };
        let ghost mid = *rng;
        let residual = plus_tensor(input, &attention_output);
        let (ln2_output, ln2) = self.ln2.forward(&residual);
        let (feed_forward_output, feed_forward) = match self.feed_forward.forward(
            &ln2_output,
            training,
            dropout,
            rng,
        ) {
            Ok(pair) => pair,
            Err(e) => {
                return Err(e);
            },
        };
        let output = plus_tensor(&residual, &feed_forward_output);
        let cache = BlockCache { ln1, ln2, attention, feed_forward };
        proof {
            let s = BlockSteps {
                ln1_output,
                attention_output,
                residual,
                ln2_output,
                feed_forward_output,
                rng: mid,
            };
            assert(block_steps_give(
                *self,
                *input,
                training,
                dropout,
                output,
                cache,
                *old(rng),
                *rng,
                s,
            ));
        }
        Ok((output, cache))
    }

    /// Adds the gradients of the layers to those kept so far, and returns the gradient of the
    /// input.
    pub fn backward(&mut self, cache: &BlockCache<T>, grad_output: &Tensor3<T>) -> (grad_input:
        Tensor3<T>)
        requires
            grad_output.wf(),
            grad_output.flat.cols > 0,
            grad_output.inner > 0,
            old(self).has_shape(grad_output.flat.cols as int, old(self).attention.block_size()),
            cache.fits(
                *old(self),
                grad_output.outer as int,
                grad_output.inner as int,
                grad_output.flat.cols as int,
            ),
        ensures
            block_backward_gives(*old(self), *cache, *grad_output, *final(self), grad_input),
            final(self).has_shape(
                grad_output.flat.cols as int,
                old(self).attention.block_size(),
            ),
            grad_input.wf(),
            grad_input.same_shape(*grad_output),
    {
        proof {
            lemma_head_size_positive(
                self.attention.n_head as int,
                self.attention.head_size as int,
                grad_output.flat.cols as int,
            );
        }
        let feed_forward = self.feed_forward.backward(&cache.feed_forward, grad_output);
        let ln2_input = self.ln2.backward(&cache.ln2, &feed_forward);
        let residual = plus_tensor(grad_output, &ln2_input);
        let attention = self.attention.backward(&cache.attention, &residual);
        let ln1_input = self.ln1.backward(&cache.ln1, &attention);
        let grad_input = plus_tensor(&residual, &ln1_input);
        proof {
            let g = BlockGrads { feed_forward, ln2_input, residual, attention, ln1_input };
            assert(block_backward_steps_give(
                *old(self),
                *cache,
                *grad_output,
                *self,
                grad_input,
                g,
            ));
        }
        grad_input
    }

    /// Sets the gradients to zeros.
    pub fn zero_grad(&mut self)
        requires
            exists|n_embd: int, block_size: int| old(self).has_shape(n_embd, block_size),
        ensures
            block_grads_cleared(*old(self), *final(self)),
            forall|n_embd: int, block_size: int|
                old(self).has_shape(n_embd, block_size) ==> #[trigger] final(self).has_shape(
                    n_embd,
                    block_size,
                ),
    {
        self.ln1.zero_grad();
        self.attention.zero_grad();
        self.ln2.zero_grad();
        self.feed_forward.zero_grad();
    }

    /// Applies an optimizer step.
    pub fn step(&mut self, step: AdamStep<T>)
        requires
            exists|n_embd: int, block_size: int| old(self).has_shape(n_embd, block_size),
        ensures
            block_step_gives(step, *old(self), *final(self)),
            forall|n_embd: int, block_size: int|
                old(self).has_shape(n_embd, block_size) ==> #[trigger] final(self).has_shape(
                    n_embd,
                    block_size,
                ),
    {
        self.ln1.step(step);
        self.attention.step(step);
        self.ln2.step(step);
        self.feed_forward.step(step);
    }
}

} // verus!
