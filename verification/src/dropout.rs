//! Dropout.

use crate::elementwise::{times_tensor, times_tensor_gives};
use crate::optim::complement_gives;
use crate::parallel::par_map;
use crate::random::{random_u64, random_u64_gives, rng_from_seed, seeded_gives};
use crate::scalar::{
    at_most_gives, equals_gives, less_gives, one_gives, over_gives, uniform_gives, zero_gives, Real,
};
use crate::tensor::{Tensor2, Tensor3};
use rand::rngs::SmallRng;
use vstd::arithmetic::div_mod::{
    lemma_mod_bound, lemma_mul_mod_noop_left, lemma_mul_mod_noop_right, lemma_small_mod,
};
use vstd::prelude::*;

verus! {

/// How many numbers of a mask are drawn from one generator.
pub const DROPOUT_CHUNK_SIZE: usize = 4096;

/// The factor that spreads the seeds of the chunks.
pub const SEED_STRIDE: u64 = 0x9E37_79B9_7F4A_7C15;

/// The dropout rate does not lie between zero (included) and one (excluded).
#[derive(Clone, Copy, Debug, PartialEq, Eq, Structural)]
pub struct InvalidRate;

/// The seed of chunk `chunk` of a mask with the base seed `base`.
pub open spec fn chunk_seed_of(base: u64, chunk: int) -> u64 {
    base ^ ((chunk * SEED_STRIDE) % 0x1_0000_0000_0000_0000) as u64
}

/// The seed of chunk `chunk` of a mask with the base seed `base`.
pub fn chunk_seed(base: u64, chunk: usize) -> (seed: u64)
    ensures
        seed == chunk_seed_of(base, chunk as int),
{
    let product = (chunk as u64).wrapping_mul(SEED_STRIDE);
    base ^ product
}

/// Multiplying by a number that has an inverse modulo `m` loses nothing modulo `m`.
proof fn lemma_factor_injective(a: int, b: int, g: int, inverse: int, m: int)
    requires
        0 <= a < m,
        0 <= b < m,
        (g * inverse) % m == 1,
        (a * g) % m == (b * g) % m,
    ensures
        a == b,
{
    lemma_mul_mod_noop_left(a * g, inverse, m);
    lemma_mul_mod_noop_left(b * g, inverse, m);
    assert((a * g) * inverse == a * (g * inverse)) by (nonlinear_arith);
    assert((b * g) * inverse == b * (g * inverse)) by (nonlinear_arith);
    lemma_mul_mod_noop_right(a, g * inverse, m);
    lemma_mul_mod_noop_right(b, g * inverse, m);
    lemma_small_mod(a as nat, m as nat);
    lemma_small_mod(b as nat, m as nat);
}

/// The stride is odd, so it has an inverse modulo two to the power 64.
proof fn lemma_stride_has_inverse()
    ensures
        (SEED_STRIDE * 0xF1DE_83E1_9937_733D) % 0x1_0000_0000_0000_0000 == 1,
{
}

/// Exclusive or with one number tells two others apart.
proof fn lemma_xor_injective(base: u64, x: u64, y: u64)
    requires
        base ^ x == base ^ y,
    ensures
        x == y,
{
    assert(x == y) by (bit_vector)
        requires
            base ^ x == base ^ y,
    ;
}

/// Different chunks of a mask have different seeds.
pub proof fn lemma_chunk_seeds_differ(base: u64, a: u64, b: u64)
    requires
        a != b,
    ensures
        chunk_seed_of(base, a as int) != chunk_seed_of(base, b as int),
{
    if chunk_seed_of(base, a as int) == chunk_seed_of(base, b as int) {
        let m: int = 0x1_0000_0000_0000_0000;
        lemma_xor_injective(base, ((a * SEED_STRIDE) % m) as u64, ((b * SEED_STRIDE) % m) as u64);
        lemma_mod_bound(a * SEED_STRIDE, m);
        lemma_mod_bound(b * SEED_STRIDE, m);
        lemma_stride_has_inverse();
        lemma_factor_injective(
            a as int,
            b as int,
            SEED_STRIDE as int,
            0xF1DE_83E1_9937_733D,
            m,
        );
    }
}

/// `r` is the mask entry of the draw `u`: one over `keep` where the draw lies below `keep`, and
/// zero elsewhere.
pub open spec fn mask_entry_gives<T: Real>(u: T, keep: T, r: T) -> bool {
    ||| less_gives(u, keep, true) && exists|one: T|
        one_gives(one) && #[trigger] over_gives(one, keep, r)
    ||| less_gives(u, keep, false) && zero_gives(r)
}

/// `items` are the mask entries of numbers drawn one after the other from the generator
/// `before`, and `after` is the generator that is left.
pub open spec fn mask_draws_give<T: Real>(
    before: SmallRng,
    keep: T,
    items: Seq<T>,
    after: SmallRng,
) -> bool
    decreases items.len(),
{
    if items.len() == 0 {
        after == before
    } else {
        exists|mid: SmallRng, u: T|
            mask_draws_give(before, keep, items.drop_last(), mid) && #[trigger] uniform_gives(
                mid,
                u,
                after,
            ) && mask_entry_gives(u, keep, items.last())
    }
}

/// `items` are the mask entries of numbers drawn from a generator made from `seed`.
pub open spec fn mask_chunk_gives<T: Real>(seed: u64, keep: T, items: Seq<T>) -> bool {
    exists|before: SmallRng, after: SmallRng| #[trigger]
        seeded_gives(seed, before) && #[trigger] mask_draws_give(before, keep, items, after)
}

/// Chunk `chunk` of a mask; the last one may be shorter than the others.
pub open spec fn mask_chunk<T>(mask: Seq<T>, chunk: int) -> Seq<T> {
    let start = chunk * DROPOUT_CHUNK_SIZE;
    mask.subrange(
        start,
        if start + DROPOUT_CHUNK_SIZE <= mask.len() {
            start + DROPOUT_CHUNK_SIZE
        } else {
            mask.len() as int
        },
    )
}

/// `mask` is the mask with the base seed `base`: each chunk is drawn from a generator of its
/// own.
pub open spec fn mask_gives<T: Real>(base: u64, keep: T, mask: Seq<T>) -> bool {
    forall|chunk: int|
        0 <= chunk && chunk * DROPOUT_CHUNK_SIZE < mask.len() ==> mask_chunk_gives(
            chunk_seed_of(base, chunk),
            keep,
            #[trigger] mask_chunk(mask, chunk),
        )
}

/// The rate was found equal (or not equal) to zero.
pub open spec fn rate_zero_gives<T: Real>(p: T, r: bool) -> bool {
    exists|zero: T| zero_gives(zero) && #[trigger] equals_gives(p, zero, r)
}

/// The rate was found to lie between zero (included) and one (excluded).
pub open spec fn rate_accepted<T: Real>(p: T) -> bool {
    &&& exists|zero: T| zero_gives(zero) && #[trigger] at_most_gives(zero, p, true)
    &&& exists|one: T| one_gives(one) && #[trigger] less_gives(p, one, true)
}

/// The rate was found to lie outside.
pub open spec fn rate_refused<T: Real>(p: T) -> bool {
    ||| exists|zero: T| zero_gives(zero) && #[trigger] at_most_gives(zero, p, false)
    ||| exists|one: T| one_gives(one) && #[trigger] less_gives(p, one, false)
}

/// `mask` keeps a share of one less `p` of the entries; its base seed was drawn from the generator
/// `before`, which left the generator `after`.
pub open spec fn random_mask_gives<T: Real>(
    p: T,
    mask: Seq<T>,
    before: SmallRng,
    after: SmallRng,
) -> bool {
    exists|base: u64, keep: T| #[trigger]
        complement_gives(p, keep) && #[trigger] random_u64_gives(before, base, after)
            && mask_gives(base, keep, mask)
}

/// `output` and `mask` are what dropout makes of `input`. Without training, or with a rate of
/// zero, the input passes unchanged and there is no mask; else the input is multiplied by a
/// random mask. The generator `before` is left as `after`.
pub open spec fn dropout_gives<T: Real>(
    input: Tensor3<T>,
    p: T,
    training: bool,
    output: Tensor3<T>,
    mask: Option<Tensor3<T>>,
    before: SmallRng,
    after: SmallRng,
) -> bool {
    &&& output.wf()
    &&& output.same_shape(input)
    &&& match mask {
        None => {
            &&& output.same(input)
            &&& training ==> rate_zero_gives(p, true)
            &&& after == before
        },
        Some(mask) => {
            &&& training
            &&& rate_zero_gives(p, false)
            &&& rate_accepted(p)
            &&& mask.wf()
            &&& mask.same_shape(input)
            &&& random_mask_gives(p, mask.flat.data@, before, after)
            &&& times_tensor_gives(input, mask, output)
        },
    }
}

/// `grad` is the gradient of the input, where `grad_output` is that of the output.
pub open spec fn dropout_backward_gives<T: Real>(
    mask: Option<Tensor3<T>>,
    grad_output: Tensor3<T>,
    grad: Tensor3<T>,
) -> bool {
    &&& grad.wf()
    &&& grad.same_shape(grad_output)
    &&& match mask {
        None => grad.same(grad_output),
        Some(mask) => times_tensor_gives(grad_output, mask, grad),
    }
}

/// The mask entry of the draw `u`.
pub fn mask_entry<T: Real>(u: T, keep: T) -> (r: T)
    ensures
        mask_entry_gives(u, keep, r),
{
    if u.less(keep) {
        T::one().over(keep)
    } else {
        T::zero()
    }
}

/// `len` mask entries drawn from a generator made from `seed`.
fn mask_chunk_values<T: Real>(seed: u64, len: usize, keep: T) -> (items: Vec<T>)
    ensures
        items@.len() == len,
        mask_chunk_gives(seed, keep, items@),
{
    let mut rng = rng_from_seed(seed);
    let ghost first = rng;
    let mut items: Vec<T> = Vec::new();
    let mut i: usize = 0;
    while i < len
        invariant
            i <= len,
            items@.len() == i,
            mask_draws_give(first, keep, items@, rng),
        decreases len - i,
    {
        let (u, next) = T::uniform(&rng);
        let ghost before = items@;
        let ghost mid = rng;
        let item = mask_entry(u, keep);
        items.push(item);
        rng = next;
        proof {
            assert(items@.drop_last() =~= before);
            assert(uniform_gives(mid, u, next));
        }
        i = i + 1;
    }
    items
}

/// The length of chunk `chunk` of a mask of `len` entries.
fn chunk_len(len: usize, chunk: usize) -> (size: usize)
    requires
        chunk * DROPOUT_CHUNK_SIZE < len,
    ensures
        size == if (chunk + 1) * DROPOUT_CHUNK_SIZE <= len {
            DROPOUT_CHUNK_SIZE as int
        } else {
            len - chunk * DROPOUT_CHUNK_SIZE
        },
{
    let rest: usize = len - chunk * DROPOUT_CHUNK_SIZE;
    if rest < DROPOUT_CHUNK_SIZE {
        rest
    } else {
        DROPOUT_CHUNK_SIZE
    }
}

/// A mask of `len` entries with the base seed `base`.
pub fn mask_from_seed<T: Real>(len: usize, keep: T, base: u64) -> (mask: Vec<T>)
    ensures
        mask@.len() == len,
        mask_gives(base, keep, mask@),
{
    let full: usize = len / DROPOUT_CHUNK_SIZE;
    let count: usize = if len % DROPOUT_CHUNK_SIZE == 0 {
        full
    } else {
        full + 1
    };
    let parts = par_map(count, |chunk: usize| -> (items: Vec<T>)
        requires
            chunk * DROPOUT_CHUNK_SIZE < len,
        ensures
            items@.len() == if (chunk + 1) * DROPOUT_CHUNK_SIZE <= len {
                DROPOUT_CHUNK_SIZE as int
            } else {
                len - chunk * DROPOUT_CHUNK_SIZE
            },
            mask_chunk_gives(chunk_seed_of(base, chunk as int), keep, items@),
        { mask_chunk_values(chunk_seed(base, chunk), chunk_len(len, chunk), keep) });
    let mut mask: Vec<T> = Vec::new();
    let mut i: usize = 0;
    while i < count
        invariant
            i <= count,
            parts@.len() == count,
            (count - 1) * DROPOUT_CHUNK_SIZE < len || count == 0,
            count * DROPOUT_CHUNK_SIZE >= len,
            mask@.len() == if i * DROPOUT_CHUNK_SIZE <= len {
                i * DROPOUT_CHUNK_SIZE
            } else {
                len as int
            },
            forall|k: int|
                0 <= k < count ==> (#[trigger] parts@[k])@.len() == if (k + 1)
                    * DROPOUT_CHUNK_SIZE <= len {
                    DROPOUT_CHUNK_SIZE as int
                } else {
                    len - k * DROPOUT_CHUNK_SIZE
                },
            forall|k: int| 0 <= k < i ==> #[trigger] mask_chunk(mask@, k) == parts@[k]@,
        decreases count - i,
    {
        let part = &parts[i];
        let ghost before = mask@;
        let mut x: usize = 0;
        while x < part.len()
            invariant
                x <= part@.len(),
                mask@ == before + part@.take(x as int),
            decreases part@.len() - x,
        {
            mask.push(part[x]);
            x = x + 1;
            assert(part@.take(x as int) =~= part@.take(x - 1).push(part@[x - 1]));
        }
        assert(part@.take(x as int) =~= part@);
        proof {
            assert forall|k: int| 0 <= k < i + 1 implies #[trigger] mask_chunk(mask@, k)
                == parts@[k]@ by {
                if k < i {
                    assert(mask_chunk(before, k) == parts@[k]@);
                    assert(mask_chunk(mask@, k) =~= mask_chunk(before, k));
                } else {
                    assert(mask_chunk(mask@, k) =~= parts@[k]@);
                }
            }
        }
        i = i + 1;
    }
    proof {
        assert forall|chunk: int|
            0 <= chunk && chunk * DROPOUT_CHUNK_SIZE < mask@.len() implies mask_chunk_gives(
            chunk_seed_of(base, chunk),
            keep,
            #[trigger] mask_chunk(mask@, chunk),
        ) by {
            assert(chunk < count);
            assert(mask_chunk(mask@, chunk) == parts@[chunk]@);
        }
    }
    mask
}

/// A mask of `len` entries with a base seed drawn from `rng`.
pub fn dropout_mask_values<T: Real>(len: usize, keep: T, rng: &mut SmallRng) -> (mask: Vec<T>)
    ensures
        mask@.len() == len,
        exists|base: u64| #[trigger]
            random_u64_gives(*old(rng), base, *final(rng)) && mask_gives(base, keep, mask@),
{
    let base = random_u64(rng);
    mask_from_seed(len, keep, base)
}

/// Drops a share `p` of the entries of `input` while training, and scales up the others.
pub fn dropout<T: Real>(
    input: &Tensor3<T>,
    p: T,
    training: bool,
    rng: &mut SmallRng,
) -> (result: Result<(Tensor3<T>, Option<Tensor3<T>>), InvalidRate>)
    requires
        input.wf(),
    ensures
        match result {
            Ok((output, mask)) => dropout_gives(
                *input,
                p,
                training,
                output,
                mask,
                *old(rng),
                *final(rng),
            ),
            Err(_) => {
                &&& training
                &&& rate_zero_gives(p, false)
                &&& rate_refused(p)
                &&& *final(rng) == *old(rng)
            },
        },
{
    if !training || p.equals(T::zero()) {
        return Ok((input.duplicate(), None));
    }
    if !(T::zero().at_most(p) && p.less(T::one())) {
        return Err(InvalidRate);
    }
    let keep = T::one().minus(p);
    assert(complement_gives(p, keep));
    let values = dropout_mask_values(input.flat.data.len(), keep, rng);
    let flat = Tensor2 { rows: input.flat.rows, cols: input.flat.cols, data: values };
    let mask = Tensor3 { outer: input.outer, inner: input.inner, flat };
    let output = times_tensor(input, &mask);
    Ok((output, Some(mask)))
}

/// The gradient of the input of a dropout with the given mask.
pub fn dropout_backward<T: Real>(mask: &Option<Tensor3<T>>, grad_output: &Tensor3<T>) -> (grad:
    Tensor3<T>)
    requires
        grad_output.wf(),
        mask matches Some(mask) ==> mask.wf() && mask.same_shape(*grad_output),
    ensures
        dropout_backward_gives(*mask, *grad_output, grad),
{
    match mask {
        Some(mask) => times_tensor(grad_output, mask),
        None => grad_output.duplicate(),
    }
}

/// Every entry drawn for a mask is zero, or one over the share that is kept.
pub open spec fn is_mask_entry<T: Real>(keep: T, x: T) -> bool {
    zero_gives(x) || exists|one: T| one_gives(one) && #[trigger] over_gives(one, keep, x)
}

proof fn lemma_drawn_entries<T: Real>(
    before: SmallRng,
    keep: T,
    items: Seq<T>,
    after: SmallRng,
    i: int,
)
    requires
        mask_draws_give(before, keep, items, after),
        0 <= i < items.len(),
    ensures
        is_mask_entry(keep, items[i]),
    decreases items.len(),
{
    let (mid, u) = choose|mid: SmallRng, u: T|
        mask_draws_give(before, keep, items.drop_last(), mid) && #[trigger] uniform_gives(
            mid,
            u,
            after,
        ) && mask_entry_gives(u, keep, items.last());
    if i < items.len() - 1 {
        lemma_drawn_entries(before, keep, items.drop_last(), mid, i);
        assert(items.drop_last()[i] == items[i]);
    }
}

/// Every entry of a mask is zero, or one over the share that is kept.
pub proof fn lemma_mask_entries<T: Real>(base: u64, keep: T, mask: Seq<T>, i: int)
    requires
        mask_gives(base, keep, mask),
        0 <= i < mask.len(),
    ensures
        is_mask_entry(keep, mask[i]),
{
    let size = DROPOUT_CHUNK_SIZE as int;
    let chunk = i / size;
    let place = i % size;
    let items = mask_chunk(mask, chunk);
    assert(chunk * size + place == i);
    assert(mask_chunk_gives(chunk_seed_of(base, chunk), keep, items));
    let (before, after) = choose|before: SmallRng, after: SmallRng| #[trigger]
        seeded_gives(chunk_seed_of(base, chunk), before) && #[trigger] mask_draws_give(
            before,
            keep,
            items,
            after,
        );
    lemma_drawn_entries(before, keep, items, after, place);
    assert(items[place] == mask[i]);
}

/// The rate is never found different from zero.
pub open spec fn surely_zero<T: Real>(p: T) -> bool {
    !rate_zero_gives(p, false)
}

/// With a rate of zero, training drops nothing: what comes out is what evaluation gives.
pub proof fn lemma_zero_rate_drops_nothing<T: Real>(
    input: Tensor3<T>,
    p: T,
    training: bool,
    output: Tensor3<T>,
    mask: Option<Tensor3<T>>,
    before: SmallRng,
    after: SmallRng,
)
    requires
        surely_zero(p),
        dropout_gives(input, p, training, output, mask, before, after),
    ensures
        dropout_gives(input, p, false, output, mask, before, after),
        mask is None,
        output.same(input),
        after == before,
{
}

} // verus!
