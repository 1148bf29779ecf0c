//! Batches of training data.

use crate::grid::{shape_accepted, token_items, TokenArray};
use crate::random::{lemma_random_up_to_in_range, random_up_to, random_up_to_gives};
use crate::tensor::{concat_parts, tabulate};
use rand::rngs::SmallRng;
use vstd::prelude::*;

verus! {

/// A table of `rows` rows of `cols` entries is not too large for an array.
pub open spec fn table_fits(rows: int, cols: int) -> bool {
    shape_accepted(rows, cols, rows * cols)
}

/// Every window of `block_size` tokens from one of `starts` on, and the token behind it, lie
/// within `len` tokens.
pub open spec fn starts_fit(starts: Seq<usize>, block_size: int, len: int) -> bool {
    forall|b: int| 0 <= b < starts.len() ==> (#[trigger] starts[b]) + block_size < len
}

/// Row `b` of `input` is the window of `data` that starts at `starts[b]`, and row `b` of
/// `targets` is the window one token further.
pub open spec fn batch_gives(
    data: Seq<usize>,
    starts: Seq<usize>,
    block_size: int,
    input: TokenArray,
    targets: TokenArray,
) -> bool {
    &&& input.rows() == starts.len()
    &&& input.cols() == block_size
    &&& targets.rows() == starts.len()
    &&& targets.cols() == block_size
    &&& forall|b: int, t: int|
        0 <= b < starts.len() && 0 <= t < block_size ==> #[trigger] input.at(b, t)
            == data[starts[b] + t]
    &&& forall|b: int, t: int|
        0 <= b < starts.len() && 0 <= t < block_size ==> #[trigger] targets.at(b, t)
            == data[starts[b] + t + 1]
}

/// The two tables are a batch of windows of `data`.
pub open spec fn is_batch(
    data: Seq<usize>,
    batch_size: int,
    block_size: int,
    input: TokenArray,
    targets: TokenArray,
) -> bool {
    exists|starts: Seq<usize>|
        starts.len() == batch_size && starts_fit(starts, block_size, data.len() as int)
            && #[trigger] batch_gives(data, starts, block_size, input, targets)
}

/// `starts` are numbers from `0` to `max` that were drawn one after the other from the generator
/// `before`, which left the generator `after`.
pub open spec fn starts_drawn(
    max: usize,
    starts: Seq<usize>,
    before: SmallRng,
    after: SmallRng,
) -> bool
    decreases starts.len(),
{
    if starts.len() == 0 {
        after == before
    } else {
        exists|mid: SmallRng|
            starts_drawn(max, starts.drop_last(), before, mid) && #[trigger] random_up_to_gives(
                max,
                mid,
                starts.last(),
                after,
            )
    }
}

/// The two tables are a batch of windows of `data` whose starts were drawn, out of all starts at
/// which a window and the token behind it fit, from the generator `before`, which left the
/// generator `after`.
pub open spec fn batch_drawn(
    data: Seq<usize>,
    batch_size: int,
    block_size: int,
    input: TokenArray,
    targets: TokenArray,
    before: SmallRng,
    after: SmallRng,
) -> bool {
    exists|starts: Seq<usize>|
        starts.len() == batch_size && starts_drawn(
            (data.len() - block_size - 1) as usize,
            starts,
            before,
            after,
        ) && #[trigger] batch_gives(data, starts, block_size, input, targets)
}

/// Starts that were drawn lie in the range that they were drawn from.
proof fn lemma_starts_in_range(
    max: usize,
    starts: Seq<usize>,
    before: SmallRng,
    after: SmallRng,
    i: int,
)
    requires
        starts_drawn(max, starts, before, after),
        0 <= i < starts.len(),
    ensures
        starts[i] <= max,
    decreases starts.len(),
{
    let mid = choose|mid: SmallRng|
        starts_drawn(max, starts.drop_last(), before, mid) && #[trigger] random_up_to_gives(
            max,
            mid,
            starts.last(),
            after,
        );
    if i < starts.len() - 1 {
        lemma_starts_in_range(max, starts.drop_last(), before, mid, i);
    } else {
        lemma_random_up_to_in_range(max, mid, starts.last(), after);
    }
}

/// A batch that was drawn is a batch: its windows lie within the data.
pub proof fn lemma_drawn_batch_is_batch(
    data: Seq<usize>,
    batch_size: int,
    block_size: int,
    input: TokenArray,
    targets: TokenArray,
    before: SmallRng,
    after: SmallRng,
)
    requires
        0 <= block_size < data.len() <= usize::MAX,
        batch_drawn(data, batch_size, block_size, input, targets, before, after),
    ensures
        is_batch(data, batch_size, block_size, input, targets),
{
    let max = (data.len() - block_size - 1) as usize;
    let starts = choose|starts: Seq<usize>|
        starts.len() == batch_size && starts_drawn(max, starts, before, after)
            && #[trigger] batch_gives(data, starts, block_size, input, targets);
    assert forall|b: int| 0 <= b < starts.len() implies (#[trigger] starts[b]) + block_size
        < data.len() by {
        lemma_starts_in_range(max, starts, before, after, b);
    }
}

/// The target of a position is the input of the next.
pub proof fn lemma_targets_are_next_inputs(
    data: Seq<usize>,
    batch_size: int,
    block_size: int,
    input: TokenArray,
    targets: TokenArray,
    b: int,
    t: int,
)
    requires
        is_batch(data, batch_size, block_size, input, targets),
        0 <= b < batch_size,
        0 <= t,
        t + 1 < block_size,
    ensures
        targets.at(b, t) == input.at(b, t + 1),
{
    let starts = choose|starts: Seq<usize>|
        starts.len() == batch_size && starts_fit(starts, block_size, data.len() as int)
            && #[trigger] batch_gives(data, starts, block_size, input, targets);
    assert(targets.at(b, t) == data[starts[b] + t + 1]);
    assert(input.at(b, t + 1) == data[starts[b] + (t + 1)]);
}

/// The tokens of a batch are tokens of the data: where those lie below `bound`, these do.
pub proof fn lemma_batch_below(
    data: Seq<usize>,
    batch_size: int,
    block_size: int,
    input: TokenArray,
    targets: TokenArray,
    bound: int,
)
    requires
        is_batch(data, batch_size, block_size, input, targets),
        forall|i: int| 0 <= i < data.len() ==> (#[trigger] data[i]) < bound,
    ensures
        input.all_below(bound),
        targets.all_below(bound),
{
    let starts = choose|starts: Seq<usize>|
        starts.len() == batch_size && starts_fit(starts, block_size, data.len() as int)
            && #[trigger] batch_gives(data, starts, block_size, input, targets);
    assert forall|b: int, t: int|
        0 <= b < input.rows() && 0 <= t < input.cols() implies (#[trigger] input.at(b, t))
        < bound by {
        assert(starts[b] + block_size < data.len());
        assert(data[starts[b] + t] < bound);
    }
    assert forall|b: int, t: int|
        0 <= b < targets.rows() && 0 <= t < targets.cols() implies (#[trigger] targets.at(b, t))
        < bound by {
        assert(starts[b] + block_size < data.len());
        assert(data[starts[b] + t + 1] < bound);
    }
}

/// The windows of `data` that start `shift` behind `starts`, one behind the other.
fn windows(data: &[usize], starts: &Vec<usize>, block_size: usize, shift: usize) -> (items: Vec<
    usize,
>)
    requires
        shift <= 1,
        starts_fit(starts@, block_size as int, data@.len() as int),
    ensures
        items@.len() == starts@.len() * block_size,
        forall|b: int, t: int|
            0 <= b < starts@.len() && 0 <= t < block_size ==> #[trigger] items@[b * block_size + t]
                == data@[starts@[b] + t + shift],
{
    let len: usize = data.len();
    let parts = tabulate(starts.len(), |b: usize| -> (part: Vec<usize>)
        requires
            b < starts@.len(),
            shift <= 1,
            len == data@.len(),
            starts_fit(starts@, block_size as int, data@.len() as int),
        ensures
            part@.len() == block_size,
            forall|t: int|
                0 <= t < block_size ==> #[trigger] part@[t] == data@[starts@[b as int] + t + shift],
        {
            let start: usize = starts[b];
            assert(starts@[b as int] + block_size < data@.len());
            tabulate(block_size, |t: usize| -> (token: usize)
                requires
                    t < block_size,
                    shift <= 1,
                    start + block_size < len,
                    len == data@.len(),
                ensures
                    token == data@[start + t + shift],
                { data[start + t + shift] })
        });
    concat_parts(&parts, block_size)
}

/// The batch of the windows of `data` that start at `starts`.
pub fn batch_from_starts(data: &[usize], starts: &Vec<usize>, block_size: usize) -> (batch: (
    TokenArray,
    TokenArray,
))
    requires
        starts_fit(starts@, block_size as int, data@.len() as int),
        table_fits(starts@.len() as int, block_size as int),
    ensures
        batch_gives(data@, starts@, block_size as int, batch.0, batch.1),
{
    let rows: usize = starts.len();
    let input_items = windows(data, starts, block_size, 0);
    let target_items = windows(data, starts, block_size, 1);
    let input = TokenArray::from_shape_vec(rows, block_size, input_items).unwrap();
    let targets = TokenArray::from_shape_vec(rows, block_size, target_items).unwrap();
    proof {
        assert forall|b: int, t: int|
            0 <= b < rows && 0 <= t < block_size implies #[trigger] input.at(b, t)
            == data@[starts@[b] + t] by {
            assert(token_items(input)[b * block_size + t] == data@[starts@[b] + t + 0]);
        }
        assert forall|b: int, t: int|
            0 <= b < rows && 0 <= t < block_size implies #[trigger] targets.at(b, t)
            == data@[starts@[b] + t + 1] by {
            assert(token_items(targets)[b * block_size + t] == data@[starts@[b] + t + 1]);
        }
    }
    (input, targets)
}

/// A batch of windows of `data` that start at random places.
pub fn get_batch(data: &[usize], batch_size: usize, block_size: usize, rng: &mut SmallRng) -> (batch:
    (TokenArray, TokenArray))
    requires
        data@.len() > block_size,
        table_fits(batch_size as int, block_size as int),
    ensures
        batch_drawn(
            data@,
            batch_size as int,
            block_size as int,
            batch.0,
            batch.1,
            *old(rng),
            *final(rng),
        ),
        is_batch(data@, batch_size as int, block_size as int, batch.0, batch.1),
{
    let max_start: usize = data.len() - block_size - 1;
    let mut starts: Vec<usize> = Vec::new();
    let mut i: usize = 0;
    while i < batch_size
        invariant
            i <= batch_size,
            max_start + block_size < data@.len(),
            starts@.len() == i,
            starts_fit(starts@, block_size as int, data@.len() as int),
            starts_drawn(max_start, starts@, *old(rng), *rng),
        decreases batch_size - i,
    {
        let ghost before = starts@;
        let ghost mid = *rng;
        let start = random_up_to(max_start, rng);
        starts.push(start);
        assert(starts@.drop_last() =~= before);
        assert(random_up_to_gives(max_start, mid, starts@.last(), *rng));
        i = i + 1;
    }
    batch_from_starts(data, &starts, block_size)
}

} // verus!
