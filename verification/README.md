# llm

A small transformer language model over the bytes of a text: vocabulary, embeddings, multi-head
self-attention, layer normalization, feed-forward layers, dropout, cross-entropy, backpropagation,
the AdamW optimizer and text generation. The library is verified with Verus.

Every layer works over a number type that implements `scalar::Real`. The methods of that trait
promise nothing; the contracts say which of them were applied to which numbers, and in which
order. What follows where the operations have one result each, or compute exactly, is stated and
proved beside them.

- `src/scalar.rs`: the number type
- `src/tensor.rs`, `src/reduce.rs`, `src/elementwise.rs`: matrices, sums and products
- `src/grid.rs`, `src/random.rs`, `src/parallel.rs`: token tables, random generators and threads,
  on top of `ndarray`, `rand` and `rayon`
- `src/linear.rs`, `src/layer_norm.rs`, `src/dropout.rs`, `src/attention.rs`,
  `src/feed_forward.rs`, `src/block.rs`, `src/model.rs`: the layers and the model
- `src/vocab.rs`, `src/batch.rs`, `src/loss.rs`, `src/optim.rs`, `src/training.rs`: training
- `src/generation.rs`: text generation
- `src/params.rs`: the number of parameters
- `src/laws.rs`: what holds of the model as a whole
- `src/likeness.rs`, `src/agreement.rs`, `src/replay.rs`: what two runs have in common, and when
  they are equal
- `src/exact.rs`, `src/causal.rs`, `src/softmax.rs`, `src/corrections.rs`, `src/masks.rs`: what
  follows where the number type computes exactly
- `src/scaling.rs`, `src/linearity.rs`, `src/silent.rs`: going back is linear
- `src/finite.rs`: a run from finite parameters holds finite numbers only
- `src/gradient.rs`, `src/tangent.rs`, `src/norm_tangent.rs`: the gradients of single steps are
  slopes
- `src/pairing.rs`, `src/heads.rs`, `src/slope.rs`, `src/slope_attention.rs`,
  `src/slope_block.rs`, `src/slope_model.rs`: the gradients of every layer, and of the whole model
  up to the loss, are slopes
- `src/causal_gradient.rs`: gradients keep to the order of time
- `app/`: the program; it reads `set.txt`, trains a model in single precision and prints a
  continuation
