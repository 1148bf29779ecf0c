//! Causality: where the number type computes exactly, what a place gets depends on no later place
//! and on no other sequence.

use crate::agreement::{agree, lemma_attention_agrees, lemma_model_agrees, linear_fin, model_fin};
use crate::attention::{attention_gives, AttentionCache, MultiHeadSelfAttention};
use crate::exact::{is_exact, Reading};
use crate::grid::TokenArray;
use crate::likeness::{has_bottom, respects, Like};
use crate::model::{model_gives, GptCache, GptLanguageModel};
use crate::scalar::{over_gives, sqrt_gives, times_gives, Real};
use crate::tensor::{lemma_index_in_range, Tensor3};
use rand::rngs::SmallRng;
use vstd::prelude::*;

verus! {

/// Two numbers are alike where they stand for the same real number, or both for minus infinity.
pub open spec fn exact_like<T>(read: Reading<T>) -> Like<T> {
    Like {
        alike: |a: T, b: T|
            (read.finite)(a) && (read.finite)(b) && (read.value)(a) == (read.value)(b) || (
            read.bottom)(a) && (read.bottom)(b),
        fin: |a: T| (read.finite)(a),
        low: |a: T| (read.bottom)(a),
        nonneg: |a: T| (read.finite)(a) && (read.value)(a) >= 0 as real,
        pos: |a: T| (read.finite)(a) && (read.value)(a) > 0 as real,
        nought: |a: T| (read.finite)(a) && (read.value)(a) == 0 as real,
    }
}

/// A square is not negative.
proof fn lemma_square_sign(x: real)
    ensures
        x * x >= 0 as real,
{
    assert(x * x >= 0 as real) by (nonlinear_arith);
}

/// The share of a number that is not negative is not negative, and that of zero is zero.
proof fn lemma_share_sign(x: real, y: real)
    requires
        x >= 0 as real,
        y > 0 as real,
    ensures
        x / y >= 0 as real,
        x == 0 as real ==> x / y == 0 as real,
{
    assert(x / y >= 0 as real && (x == 0 as real ==> x / y == 0 as real)) by (nonlinear_arith)
        requires
            x >= 0 as real,
            y > 0 as real,
    ;
}

/// A root is determined by its square, and positive where that is.
proof fn lemma_root_unique(r: real, s: real)
    requires
        r >= 0 as real,
        s >= 0 as real,
        r * r == s * s,
    ensures
        r == s,
        r * r > 0 as real ==> r > 0 as real,
{
    assert(r == s && (r * r > 0 as real ==> r > 0 as real)) by (nonlinear_arith)
        requires
            r >= 0 as real,
            s >= 0 as real,
            r * r == s * s,
    ;
}

/// The operations of a type that computes exactly respect what its numbers stand for.
pub proof fn lemma_exact_respects<T: Real>(read: Reading<T>)
    requires
        is_exact(read),
    ensures
        respects(exact_like(read)),
        has_bottom(exact_like(read)),
{
    let like = exact_like(read);
    let v = read.value;
    assert forall|a: T, r: T| #[trigger] times_gives(a, a, r) && (like.fin)(a) implies (
    like.nonneg)(r) by {
        lemma_square_sign(v(a));
    }
    assert forall|a: T, b: T, r: T| #[trigger]
        times_gives(a, b, r) && (like.nought)(a) && (like.fin)(b) implies (like.nought)(r) by {
        let y = v(b);
        assert((0 as real) * y == 0 as real) by (nonlinear_arith);
    }
    assert forall|a: T, b: T, r: T| #[trigger]
        over_gives(a, b, r) && (like.nonneg)(a) && (like.pos)(b) implies (like.nonneg)(r) && ((
    like.nought)(a) ==> (like.nought)(r)) by {
        lemma_share_sign(v(a), v(b));
    }
    assert forall|a: T, b: T, r: T, s: T| #[trigger]
        sqrt_gives(a, r) && #[trigger] sqrt_gives(b, s) && like.both(a, b) && (like.pos)(a) && (
        like.pos)(b) implies like.both(r, s) by {
        lemma_root_unique(v(r), v(s));
    }
    assert forall|a: T, r: T| #[trigger] sqrt_gives(a, r) && (like.pos)(a) implies (like.pos)(
        r,
    ) by {
        lemma_root_unique(v(r), v(r));
    }
    assert forall|a: T, b: T, r: T| #[trigger]
        over_gives(a, b, r) && (like.nought)(a) && (like.pos)(b) implies (like.nought)(r) by {
        lemma_share_sign(v(a), v(b));
    }
    reveal(respects);
}

/// Outside training, the layer is causal: where two inputs read the same in sequence `b` up to
/// place `t`, so do the outputs, whatever stands behind that place and in other sequences.
pub proof fn lemma_attention_layer_is_causal<T: Real>(
    read: Reading<T>,
    layer: MultiHeadSelfAttention<T>,
    block_size: int,
    dropout: T,
    x: Tensor3<T>,
    y: Tensor3<T>,
    u: Tensor3<T>,
    v: Tensor3<T>,
    cx: AttentionCache<T>,
    cy: AttentionCache<T>,
    rx: (SmallRng, SmallRng),
    ry: (SmallRng, SmallRng),
    b: int,
    t: int,
)
    requires
        is_exact(read),
        layer.has_shape(x.flat.cols as int, block_size),
        layer.head_size > 0,
        linear_fin(exact_like(read), layer.qkv),
        linear_fin(exact_like(read), layer.proj),
        x.wf(),
        y.wf(),
        x.same_shape(y),
        0 <= b < x.outer,
        0 <= t < x.inner,
        forall|i: int| 0 <= i < x.flat.data@.len() ==> (read.finite)(#[trigger] x.flat.data@[i]),
        forall|i: int| 0 <= i < y.flat.data@.len() ==> (read.finite)(#[trigger] y.flat.data@[i]),
        forall|s: int, c: int|
            0 <= s <= t && 0 <= c < x.flat.cols ==> (read.value)(#[trigger] x.cell(b, s, c)) == (
            read.value)(y.cell(b, s, c)),
        attention_gives(layer, x, false, dropout, u, cx, rx.0, rx.1),
        attention_gives(layer, y, false, dropout, v, cy, ry.0, ry.1),
    ensures
        forall|s: int, c: int|
            0 <= s <= t && 0 <= c < x.flat.cols ==> (read.value)(#[trigger] u.cell(b, s, c)) == (
            read.value)(v.cell(b, s, c)),
{
    let like = exact_like(read);
    lemma_exact_respects(read);
    assert forall|s: int, c: int| 0 <= s < x.inner && 0 <= c < x.flat.cols implies (read.finite)(
        #[trigger] x.cell(b, s, c),
    ) && (read.finite)(y.cell(b, s, c)) by {
        lemma_index_in_range(b, x.outer as int, s, x.inner as int);
        lemma_index_in_range(b * x.inner + s, x.flat.rows as int, c, x.flat.cols as int);
    }
    assert(agree(like, x, y, b, t));
    assert forall|s: int, c: int|
        #![trigger y.cell(b, s, c)]
        0 <= s < x.inner && 0 <= c < x.flat.cols implies like.both(
        y.cell(b, s, c),
        y.cell(b, s, c),
    ) by {
        assert((read.finite)(x.cell(b, s, c)));
    }
    lemma_attention_agrees(like, layer, dropout, x, y, u, v, cx, cy, rx, ry, b, t);
    assert forall|s: int, c: int| 0 <= s <= t && 0 <= c < x.flat.cols implies (read.value)(
        #[trigger] u.cell(b, s, c),
    ) == (read.value)(v.cell(b, s, c)) by {
        assert(u.flat.cols == x.flat.cols);
        assert(like.both(u.cell(b, s, c), v.cell(b, s, c)));
    }
}

/// Outside training, the model is causal: where two tables of tokens agree in sequence `b` up to
/// place `t`, the logits up to that place read the same, whatever stands behind that place and in
/// other sequences, and whatever the generators are.
pub proof fn lemma_logits_are_causal<T: Real>(
    read: Reading<T>,
    model: GptLanguageModel<T>,
    idx: TokenArray,
    idy: TokenArray,
    u: Tensor3<T>,
    v: Tensor3<T>,
    cx: GptCache<T>,
    cy: GptCache<T>,
    rx: (SmallRng, SmallRng),
    ry: (SmallRng, SmallRng),
    b: int,
    t: int,
)
    requires
        is_exact(read),
        model.wf(),
        model_fin(exact_like(read), model),
        model.takes(idx),
        model.takes(idy),
        idy.rows() == idx.rows(),
        idy.cols() == idx.cols(),
        0 <= b < idx.rows(),
        0 <= t < idx.cols(),
        forall|s: int| 0 <= s <= t ==> #[trigger] idx.at(b, s) == idy.at(b, s),
        model_gives(model, idx, false, u, cx, rx.0, rx.1),
        model_gives(model, idy, false, v, cy, ry.0, ry.1),
    ensures
        forall|s: int, c: int|
            0 <= s <= t && 0 <= c < model.config.vocab_size ==> (read.value)(
                #[trigger] u.cell(b, s, c),
            ) == (read.value)(v.cell(b, s, c)),
{
    let like = exact_like(read);
    lemma_exact_respects(read);
    lemma_model_agrees(like, model, idx, idy, u, v, cx, cy, rx, ry, b, t);
    assert forall|s: int, c: int|
        0 <= s <= t && 0 <= c < model.config.vocab_size implies (read.value)(
        #[trigger] u.cell(b, s, c),
    ) == (read.value)(v.cell(b, s, c)) by {
        assert(u.flat.cols == model.config.vocab_size);
        assert(like.both(u.cell(b, s, c), v.cell(b, s, c)));
    }
}

} // verus!
