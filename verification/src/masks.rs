//! What a dropout mask reads as, where the number type computes exactly.

use crate::dropout::{
    chunk_seed_of, dropout_gives, is_mask_entry, lemma_mask_entries, mask_chunk, mask_chunk_gives,
    mask_draws_give, mask_entry_gives, mask_gives, rate_accepted, rate_refused, rate_zero_gives,
    surely_zero, DROPOUT_CHUNK_SIZE,
};
use crate::exact::{is_exact, Reading};
use crate::random::seeded_gives;
use crate::scalar::{less_gives, one_gives, over_gives, uniform_gives, zero_gives, Real};
use crate::tensor::Tensor3;
use rand::rngs::SmallRng;
use vstd::prelude::*;

verus! {

/// Numbers that are drawn uniformly lie from zero to below one.
pub open spec fn draws_below_one<T: Real>(read: Reading<T>) -> bool {
    forall|rng: SmallRng, u: T, next: SmallRng| #[trigger]
        uniform_gives(rng, u, next) ==> (read.finite)(u) && 0 as real <= (read.value)(u) && (
        read.value)(u) < 1 as real
}

/// Every entry of a mask reads as zero or as one over the share that is kept.
pub proof fn lemma_mask_readings<T: Real>(
    read: Reading<T>,
    base: u64,
    keep: T,
    mask: Seq<T>,
    i: int,
)
    requires
        is_exact(read),
        (read.finite)(keep),
        (read.value)(keep) > 0 as real,
        mask_gives(base, keep, mask),
        0 <= i < mask.len(),
    ensures
        (read.finite)(mask[i]),
        (read.value)(mask[i]) == 0 as real || (read.value)(mask[i]) == 1 as real / (read.value)(
            keep,
        ),
{
    lemma_mask_entries(base, keep, mask, i);
    assert(is_mask_entry(keep, mask[i]));
    if !zero_gives(mask[i]) {
        let one = choose|one: T| one_gives(one) && #[trigger] over_gives(one, keep, mask[i]);
    }
}

proof fn lemma_full_draws<T: Real>(
    read: Reading<T>,
    before: SmallRng,
    keep: T,
    items: Seq<T>,
    after: SmallRng,
    i: int,
)
    requires
        is_exact(read),
        draws_below_one(read),
        (read.finite)(keep),
        (read.value)(keep) == 1 as real,
        mask_draws_give(before, keep, items, after),
        0 <= i < items.len(),
    ensures
        (read.value)(items[i]) == 1 as real,
    decreases items.len(),
{
    let (mid, u) = choose|mid: SmallRng, u: T|
        mask_draws_give(before, keep, items.drop_last(), mid) && #[trigger] uniform_gives(
            mid,
            u,
            after,
        ) && mask_entry_gives(u, keep, items.last());
    if i < items.len() - 1 {
        lemma_full_draws(read, before, keep, items.drop_last(), mid, i);
    } else {
        assert(less_gives(u, keep, true));
        let one = choose|one: T| one_gives(one) && #[trigger] over_gives(one, keep, items.last());
    }
}

/// Where all is kept, every entry of a mask reads as one.
pub proof fn lemma_full_share_keeps_all<T: Real>(
    read: Reading<T>,
    base: u64,
    keep: T,
    mask: Seq<T>,
    i: int,
)
    requires
        is_exact(read),
        draws_below_one(read),
        (read.finite)(keep),
        (read.value)(keep) == 1 as real,
        mask_gives(base, keep, mask),
        0 <= i < mask.len(),
    ensures
        (read.value)(mask[i]) == 1 as real,
{
    let size = DROPOUT_CHUNK_SIZE as int;
    let chunk = i / size;
    let place = i % size;
    let items = mask_chunk(mask, chunk);
    let seed = chunk_seed_of(base, chunk);
    assert(chunk * size + place == i);
    assert(mask_chunk_gives(seed, keep, items));
    let (before, after) = choose|before: SmallRng, after: SmallRng| #[trigger]
        seeded_gives(seed, before) && #[trigger] mask_draws_give(before, keep, items, after);
    lemma_full_draws(read, before, keep, items, after, place);
    assert(items[place] == mask[i]);
}

/// What a rate reads as decides what is found of it: it is found to be zero exactly where it reads
/// as zero, and refused exactly where it reads as less than zero or as one or more.
pub proof fn lemma_rate_readings<T: Real>(read: Reading<T>, p: T)
    requires
        is_exact(read),
        (read.finite)(p),
    ensures
        (read.value)(p) == 0 as real ==> surely_zero(p),
        (read.value)(p) != 0 as real ==> !rate_zero_gives(p, true),
        rate_accepted(p) ==> 0 as real <= (read.value)(p) && (read.value)(p) < 1 as real,
        rate_refused(p) ==> (read.value)(p) < 0 as real || (read.value)(p) >= 1 as real,
{
}

/// While training, a dropout drops nothing exactly where its rate reads as zero; outside training
/// it never drops.
pub proof fn lemma_rate_decides_dropout<T: Real>(
    read: Reading<T>,
    input: Tensor3<T>,
    p: T,
    training: bool,
    output: Tensor3<T>,
    mask: Option<Tensor3<T>>,
    before: SmallRng,
    after: SmallRng,
)
    requires
        is_exact(read),
        (read.finite)(p),
        dropout_gives(input, p, training, output, mask, before, after),
    ensures
        mask is None <==> !training || (read.value)(p) == 0 as real,
        mask is None ==> output.same(input) && after == before,
        mask is Some ==> (0 as real) < (read.value)(p) && (read.value)(p) < 1 as real,
{
    lemma_rate_readings(read, p);
}

} // verus!
