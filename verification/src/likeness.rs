//! Likeness: when two runs of the same computation count as alike.
//!
//! A [`Like`] says which numbers of one run are like which numbers of another. Where the operations
//! respect it, rows that are alike stay alike through sums, products, the softmax and the
//! normalization.

use crate::layer_norm::{
    inv_root_gives, normalized_row_gives, squared_deviation_gives, squares_give, standardized_gives,
    variance_gives,
};
use crate::reduce::{
    dot_gives, max_gives, mean_gives, powers_give, shifted_exp_gives, softmax_gives, sum_gives,
};
use crate::scalar::{
    count_gives, exp_gives, larger_gives, minus_gives, negative_infinity_gives, one_gives,
    over_gives, plus_gives, sqrt_gives, times_gives, zero_gives, Real,
};
use vstd::prelude::*;

verus! {

/// What two runs are compared by.
#[verifier::reject_recursive_types(T)]
pub ghost struct Like<T> {
    /// The two numbers are alike.
    pub alike: spec_fn(T, T) -> bool,
    /// The number can be computed with.
    pub fin: spec_fn(T) -> bool,
    /// The number lies below all others.
    pub low: spec_fn(T) -> bool,
    /// The number is not negative.
    pub nonneg: spec_fn(T) -> bool,
    /// The number is positive.
    pub pos: spec_fn(T) -> bool,
    /// The number is zero.
    pub nought: spec_fn(T) -> bool,
}

impl<T> Like<T> {
    /// The two numbers are alike, and can be computed with.
    pub open spec fn both(self, a: T, b: T) -> bool {
        (self.alike)(a, b) && (self.fin)(a) && (self.fin)(b)
    }

    /// The two numbers are alike, or lie below all others.
    pub open spec fn same(self, a: T, b: T) -> bool {
        self.both(a, b) || (self.low)(a) && (self.low)(b)
    }

    /// The two rows are alike, number by number.
    pub open spec fn rows(self, a: Seq<T>, b: Seq<T>) -> bool {
        a.len() == b.len() && forall|i: int|
            #![trigger a[i]]
            #![trigger b[i]]
            0 <= i < a.len() ==> self.both(a[i], b[i])
    }
}

/// The operations respect likeness: what they make of numbers that are alike is alike.
#[verifier::opaque]
pub open spec fn respects<T: Real>(like: Like<T>) -> bool {
    &&& forall|x: T| #[trigger] (like.pos)(x) ==> (like.nonneg)(x)
    &&& forall|x: T| #[trigger] (like.nonneg)(x) ==> (like.fin)(x)
    &&& forall|x: T| #[trigger] (like.nought)(x) ==> (like.nonneg)(x)
    &&& forall|x: T| #[trigger] (like.fin)(x) ==> (like.alike)(x, x)
    &&& forall|x: T| #[trigger] (like.low)(x) ==> !(like.fin)(x)
    &&& forall|x: T, y: T| #[trigger]
        (like.nought)(x) && #[trigger] (like.nought)(y) ==> like.both(x, y)
    &&& forall|r: T, s: T| #[trigger] zero_gives(r) && #[trigger] zero_gives(s) ==> like.both(r, s)
    &&& forall|r: T| #[trigger] zero_gives(r) ==> (like.nonneg)(r)
    &&& forall|r: T, s: T| #[trigger] one_gives(r) && #[trigger] one_gives(s) ==> like.both(r, s)
    &&& forall|n: usize, r: T, s: T| #[trigger]
        count_gives(n, r) && #[trigger] count_gives(n, s) ==> like.both(r, s)
    &&& forall|n: usize, r: T| #[trigger] count_gives(n, r) && n > 0 ==> (like.pos)(r)
    &&& forall|r: T, s: T| #[trigger]
        negative_infinity_gives(r) && #[trigger] negative_infinity_gives(s) ==> like.same(r, s)
    &&& forall|a: T, b: T, c: T, d: T, r: T, s: T| #[trigger]
        plus_gives(a, b, r) && #[trigger] plus_gives(c, d, s) && like.both(a, c) && like.both(b, d)
            ==> like.both(r, s)
    &&& forall|a: T, b: T, c: T, d: T, r: T, s: T| #[trigger]
        plus_gives(a, b, r) && #[trigger] plus_gives(c, d, s) && like.both(a, c) && (like.nought)(b)
            && (like.nought)(d) ==> like.both(r, s)
    &&& forall|a: T, b: T, r: T| #[trigger]
        plus_gives(a, b, r) && (like.nonneg)(a) && (like.nonneg)(b) ==> (like.nonneg)(r) && ((
        like.pos)(a) || (like.pos)(b) ==> (like.pos)(r))
    &&& forall|a: T, b: T, c: T, d: T, r: T, s: T| #[trigger]
        minus_gives(a, b, r) && #[trigger] minus_gives(c, d, s) && like.both(a, c) && like.both(
            b,
            d,
        ) ==> like.both(r, s)
    &&& forall|a: T, b: T, r: T| #[trigger]
        minus_gives(a, b, r) && (like.low)(a) && (like.fin)(b) ==> (like.low)(r)
    &&& forall|a: T, b: T, c: T, d: T, r: T, s: T| #[trigger]
        times_gives(a, b, r) && #[trigger] times_gives(c, d, s) && like.both(a, c) && like.both(
            b,
            d,
        ) ==> like.both(r, s)
    &&& forall|a: T, r: T| #[trigger] times_gives(a, a, r) && (like.fin)(a) ==> (like.nonneg)(r)
    &&& forall|a: T, b: T, r: T| #[trigger]
        times_gives(a, b, r) && (like.nought)(a) && (like.fin)(b) ==> (like.nought)(r)
    &&& forall|a: T, b: T, c: T, d: T, r: T, s: T| #[trigger]
        over_gives(a, b, r) && #[trigger] over_gives(c, d, s) && like.both(a, c) && like.both(b, d)
            && (like.pos)(b) && (like.pos)(d) ==> like.both(r, s)
    &&& forall|a: T, b: T, r: T| #[trigger]
        over_gives(a, b, r) && (like.nonneg)(a) && (like.pos)(b) ==> (like.nonneg)(r)
    &&& forall|a: T, b: T, r: T| #[trigger]
        over_gives(a, b, r) && (like.nought)(a) && (like.pos)(b) ==> (like.nought)(r)
    &&& forall|a: T, b: T, r: T, s: T| #[trigger]
        sqrt_gives(a, r) && #[trigger] sqrt_gives(b, s) && like.both(a, b) && (like.pos)(a) && (
        like.pos)(b) ==> like.both(r, s)
    &&& forall|a: T, r: T| #[trigger] sqrt_gives(a, r) && (like.pos)(a) ==> (like.pos)(r)
    &&& forall|a: T, b: T, c: T, d: T, r: T, s: T| #[trigger]
        larger_gives(a, b, r) && #[trigger] larger_gives(c, d, s) && like.same(a, c) && like.same(
            b,
            d,
        ) ==> like.same(r, s) && ((like.fin)(a) || (like.fin)(b) ==> like.both(r, s))
    &&& forall|a: T, b: T, r: T, s: T| #[trigger]
        exp_gives(a, r) && #[trigger] exp_gives(b, s) && like.both(a, b) ==> like.both(r, s)
    &&& forall|a: T, r: T| #[trigger] exp_gives(a, r) && (like.fin)(a) ==> (like.pos)(r)
    &&& forall|a: T, r: T| #[trigger] exp_gives(a, r) && (like.low)(a) ==> (like.nought)(r)
}

/// Minus infinity lies below all others.
pub open spec fn has_bottom<T: Real>(like: Like<T>) -> bool {
    forall|r: T| #[trigger] negative_infinity_gives(r) ==> (like.low)(r)
}

/// A row that can be computed with is like itself.
pub proof fn lemma_row_like_itself<T: Real>(like: Like<T>, a: Seq<T>)
    requires
        respects(like),
        forall|i: int| 0 <= i < a.len() ==> (like.fin)(#[trigger] a[i]),
    ensures
        like.rows(a, a),
{
    reveal(respects);
}

/// Sums of rows that are alike are alike.
pub proof fn lemma_sum_alike<T: Real>(like: Like<T>, a: Seq<T>, b: Seq<T>, r: T, s: T)
    requires
        respects(like),
        like.rows(a, b),
        sum_gives(a, r),
        sum_gives(b, s),
    ensures
        like.both(r, s),
    decreases a.len(),
{
    reveal(respects);
    if a.len() > 0 {
        let x = choose|x: T| sum_gives(a.drop_last(), x) && #[trigger] plus_gives(x, a.last(), r);
        let y = choose|y: T| sum_gives(b.drop_last(), y) && #[trigger] plus_gives(y, b.last(), s);
        assert(like.rows(a.drop_last(), b.drop_last()));
        assert(like.both(a[a.len() - 1], b[b.len() - 1]));
        lemma_sum_alike(like, a.drop_last(), b.drop_last(), x, y);
    }
}

/// A sum of numbers that are not negative is not negative, and positive where one of them is.
pub proof fn lemma_sum_sign<T: Real>(like: Like<T>, a: Seq<T>, r: T)
    requires
        respects(like),
        forall|i: int| 0 <= i < a.len() ==> (like.nonneg)(#[trigger] a[i]),
        sum_gives(a, r),
    ensures
        (like.nonneg)(r),
        (exists|i: int| 0 <= i < a.len() && (like.pos)(#[trigger] a[i])) ==> (like.pos)(r),
    decreases a.len(),
{
    reveal(respects);
    if a.len() > 0 {
        let front = a.drop_last();
        let x = choose|x: T| sum_gives(front, x) && #[trigger] plus_gives(x, a.last(), r);
        assert forall|i: int| 0 <= i < front.len() implies (like.nonneg)(#[trigger] front[i]) by {
            assert(front[i] == a[i]);
        }
        lemma_sum_sign(like, front, x);
        assert((like.nonneg)(a[a.len() - 1]));
        if exists|i: int| 0 <= i < a.len() && (like.pos)(#[trigger] a[i]) {
            let i = choose|i: int| 0 <= i < a.len() && (like.pos)(#[trigger] a[i]);
            if i < a.len() - 1 {
                assert((like.pos)(front[i]));
            }
        }
    }
}

/// Inner products are alike where the weights are alike and each pair of items is alike or has
/// weights of zero.
pub proof fn lemma_dot_alike<T: Real>(
    like: Like<T>,
    a: Seq<T>,
    b: Seq<T>,
    c: Seq<T>,
    d: Seq<T>,
    r: T,
    s: T,
)
    requires
        respects(like),
        like.rows(a, c),
        a.len() == b.len(),
        c.len() == d.len(),
        forall|i: int|
            #![trigger b[i]]
            #![trigger d[i]]
            0 <= i < a.len() ==> like.both(b[i], d[i]) || (like.nought)(a[i]) && (like.nought)(c[i])
                && (like.fin)(b[i]) && (like.fin)(d[i]),
        dot_gives(a, b, r),
        dot_gives(c, d, s),
    ensures
        like.both(r, s),
    decreases a.len(),
{
    reveal(respects);
    if a.len() > 0 {
        let n = a.len() - 1;
        let (x, p) = choose|x: T, p: T|
            dot_gives(a.drop_last(), b.drop_last(), x) && #[trigger] times_gives(
                a.last(),
                b.last(),
                p,
            ) && #[trigger] plus_gives(x, p, r);
        let (y, q) = choose|y: T, q: T|
            dot_gives(c.drop_last(), d.drop_last(), y) && #[trigger] times_gives(
                c.last(),
                d.last(),
                q,
            ) && #[trigger] plus_gives(y, q, s);
        assert(like.both(a[n], c[n]));
        assert forall|i: int|
            #![trigger b.drop_last()[i]]
            #![trigger d.drop_last()[i]]
            0 <= i < n implies like.both(b.drop_last()[i], d.drop_last()[i]) || (like.nought)(
            a.drop_last()[i],
        ) && (like.nought)(c.drop_last()[i]) && (like.fin)(b.drop_last()[i]) && (like.fin)(
            d.drop_last()[i],
        ) by {
            assert(b.drop_last()[i] == b[i]);
        }
        assert(like.rows(a.drop_last(), c.drop_last()));
        lemma_dot_alike(
            like,
            a.drop_last(),
            b.drop_last(),
            c.drop_last(),
            d.drop_last(),
            x,
            y,
        );
        assert(b.last() == b[n] && d.last() == d[n]);
    }
}

/// The largest numbers of two rows are alike.
proof fn lemma_max_alike<T: Real>(like: Like<T>, a: Seq<T>, b: Seq<T>, r: T, s: T)
    requires
        respects(like),
        a.len() > 0,
        a.len() == b.len(),
        forall|i: int|
            #![trigger a[i]]
            #![trigger b[i]]
            0 <= i < a.len() ==> like.same(a[i], b[i]),
        max_gives(a, r),
        max_gives(b, s),
    ensures
        like.same(r, s),
        (exists|i: int| 0 <= i < a.len() && (like.fin)(#[trigger] a[i])) ==> like.both(r, s),
    decreases a.len(),
{
    reveal(respects);
    if a.len() > 1 {
        let (f, g) = (a.drop_last(), b.drop_last());
        let x = choose|x: T| max_gives(f, x) && #[trigger] larger_gives(x, a.last(), r);
        let y = choose|y: T| max_gives(g, y) && #[trigger] larger_gives(y, b.last(), s);
        assert forall|i: int|
            #![trigger f[i]]
            #![trigger g[i]]
            0 <= i < f.len() implies like.same(f[i], g[i]) by {
            assert(f[i] == a[i]);
        }
        lemma_max_alike(like, f, g, x, y);
        assert(like.same(a[a.len() - 1], b[b.len() - 1]));
        if exists|i: int| 0 <= i < a.len() && (like.fin)(#[trigger] a[i]) {
            let i = choose|i: int| 0 <= i < a.len() && (like.fin)(#[trigger] a[i]);
            if i < a.len() - 1 {
                assert((like.fin)(f[i]));
            }
        }
    }
}

/// The softmax of rows that are alike is alike; what lies below all others gets the probability
/// zero.
pub proof fn lemma_softmax_alike<T: Real>(
    like: Like<T>,
    a: Seq<T>,
    b: Seq<T>,
    p: Seq<T>,
    q: Seq<T>,
)
    requires
        respects(like),
        a.len() == b.len(),
        forall|i: int|
            #![trigger a[i]]
            #![trigger b[i]]
            0 <= i < a.len() ==> like.same(a[i], b[i]),
        exists|i: int| 0 <= i < a.len() && (like.fin)(#[trigger] a[i]),
        softmax_gives(a, p),
        softmax_gives(b, q),
    ensures
        p.len() == a.len(),
        like.rows(p, q),
        forall|i: int|
            #![trigger p[i]]
            #![trigger q[i]]
            0 <= i < a.len() && (like.low)(a[i]) ==> (like.nought)(p[i]) && (like.nought)(q[i]),
{
    reveal(respects);
    let (u, t) = choose|u: Seq<T>, t: T| #[trigger]
        powers_give(a, u) && #[trigger] sum_gives(u, t) && p.len() == a.len() && forall|i: int|
            0 <= i < a.len() ==> over_gives(u[i], t, #[trigger] p[i]);
    let (v, w) = choose|v: Seq<T>, w: T| #[trigger]
        powers_give(b, v) && #[trigger] sum_gives(v, w) && q.len() == b.len() && forall|i: int|
            0 <= i < b.len() ==> over_gives(v[i], w, #[trigger] q[i]);
    let m = choose|m: T| #[trigger]
        max_gives(a, m) && u.len() == a.len() && forall|i: int|
            0 <= i < a.len() ==> shifted_exp_gives(a[i], m, #[trigger] u[i]);
    let n = choose|n: T| #[trigger]
        max_gives(b, n) && v.len() == b.len() && forall|i: int|
            0 <= i < b.len() ==> shifted_exp_gives(b[i], n, #[trigger] v[i]);
    lemma_max_alike(like, a, b, m, n);
    assert forall|i: int|
        #![trigger u[i]]
        #![trigger v[i]]
        0 <= i < a.len() implies like.both(u[i], v[i]) && (like.nonneg)(u[i]) && (like.nonneg)(v[i])
        && ((like.fin)(a[i]) ==> (like.pos)(u[i]) && (like.pos)(v[i])) && ((like.low)(a[i]) ==> (
    like.nought)(u[i]) && (like.nought)(v[i])) by {
        assert(shifted_exp_gives(a[i], m, u[i]));
        assert(shifted_exp_gives(b[i], n, v[i]));
        let x = choose|x: T| #[trigger] minus_gives(a[i], m, x) && exp_gives(x, u[i]);
        let y = choose|y: T| #[trigger] minus_gives(b[i], n, y) && exp_gives(y, v[i]);
        assert(like.same(a[i], b[i]));
        if like.both(a[i], b[i]) {
            assert(like.both(x, y));
        } else {
            assert((like.low)(x) && (like.low)(y));
        }
    }
    lemma_sum_alike(like, u, v, t, w);
    lemma_sum_sign(like, u, t);
    lemma_sum_sign(like, v, w);
    let k = choose|i: int| 0 <= i < a.len() && (like.fin)(#[trigger] a[i]);
    assert((like.pos)(u[k]) && (like.pos)(v[k]));
    assert forall|i: int|
        #![trigger p[i]]
        #![trigger q[i]]
        0 <= i < a.len() implies like.both(p[i], q[i]) && ((like.low)(a[i]) ==> (like.nought)(p[i])
        && (like.nought)(q[i])) by {
        assert(like.both(u[i], v[i]));
        assert(over_gives(u[i], t, p[i]));
        assert(over_gives(v[i], w, q[i]));
    }
}

/// Means of rows that are alike are alike.
proof fn lemma_mean_alike<T: Real>(like: Like<T>, a: Seq<T>, b: Seq<T>, r: T, s: T)
    requires
        respects(like),
        0 < a.len() <= usize::MAX,
        like.rows(a, b),
        mean_gives(a, r),
        mean_gives(b, s),
    ensures
        like.both(r, s),
{
    reveal(respects);
    let (x, n) = choose|x: T, n: T| #[trigger]
        sum_gives(a, x) && count_gives(a.len() as usize, n) && #[trigger] over_gives(x, n, r);
    let (y, m) = choose|y: T, m: T| #[trigger]
        sum_gives(b, y) && count_gives(b.len() as usize, m) && #[trigger] over_gives(y, m, s);
    lemma_sum_alike(like, a, b, x, y);
}

/// The mean of numbers that are not negative is not negative.
proof fn lemma_mean_sign<T: Real>(like: Like<T>, a: Seq<T>, r: T)
    requires
        respects(like),
        0 < a.len() <= usize::MAX,
        forall|i: int| 0 <= i < a.len() ==> (like.nonneg)(#[trigger] a[i]),
        mean_gives(a, r),
    ensures
        (like.nonneg)(r),
{
    reveal(respects);
    let (x, n) = choose|x: T, n: T| #[trigger]
        sum_gives(a, x) && count_gives(a.len() as usize, n) && #[trigger] over_gives(x, n, r);
    lemma_sum_sign(like, a, x);
}

/// Rows that are alike have normalized rows and factors that are alike.
pub proof fn lemma_normalized_alike<T: Real>(
    like: Like<T>,
    a: Seq<T>,
    b: Seq<T>,
    eps: T,
    p: Seq<T>,
    q: Seq<T>,
    f: T,
    g: T,
)
    requires
        respects(like),
        0 < a.len() <= usize::MAX,
        like.rows(a, b),
        (like.pos)(eps),
        normalized_row_gives(a, eps, p, f),
        normalized_row_gives(b, eps, q, g),
    ensures
        p.len() == a.len(),
        like.rows(p, q),
        like.both(f, g),
{
    reveal(respects);
    let (m, v) = choose|m: T, v: T| #[trigger]
        mean_gives(a, m) && #[trigger] variance_gives(a, m, v) && inv_root_gives(v, eps, f)
            && p.len() == a.len() && forall|i: int|
            0 <= i < a.len() ==> standardized_gives(a[i], m, f, #[trigger] p[i]);
    let (n, w) = choose|n: T, w: T| #[trigger]
        mean_gives(b, n) && #[trigger] variance_gives(b, n, w) && inv_root_gives(w, eps, g)
            && q.len() == b.len() && forall|i: int|
            0 <= i < b.len() ==> standardized_gives(b[i], n, g, #[trigger] q[i]);
    lemma_mean_alike(like, a, b, m, n);
    let u = choose|u: Seq<T>| #[trigger] squares_give(a, m, u) && mean_gives(u, v);
    let z = choose|z: Seq<T>| #[trigger] squares_give(b, n, z) && mean_gives(z, w);
    assert forall|i: int|
        #![trigger u[i]]
        #![trigger z[i]]
        0 <= i < a.len() implies like.both(u[i], z[i]) && (like.nonneg)(u[i]) && (like.nonneg)(
        z[i],
    ) by {
        assert(like.both(a[i], b[i]));
        assert(squared_deviation_gives(a[i], m, u[i]));
        assert(squared_deviation_gives(b[i], n, z[i]));
    }
    lemma_mean_alike(like, u, z, v, w);
    lemma_mean_sign(like, u, v);
    lemma_mean_sign(like, z, w);
    let (x, rx, ox) = choose|x: T, rx: T, ox: T| #[trigger]
        plus_gives(v, eps, x) && #[trigger] sqrt_gives(x, rx) && one_gives(ox)
            && #[trigger] over_gives(ox, rx, f);
    let (y, ry, oy) = choose|y: T, ry: T, oy: T| #[trigger]
        plus_gives(w, eps, y) && #[trigger] sqrt_gives(y, ry) && one_gives(oy)
            && #[trigger] over_gives(oy, ry, g);
    assert(like.both(eps, eps));
    assert(like.both(x, y));
    assert(like.both(rx, ry));
    assert(like.both(f, g));
    assert forall|i: int|
        #![trigger p[i]]
        #![trigger q[i]]
        0 <= i < a.len() implies like.both(p[i], q[i]) by {
        assert(like.both(a[i], b[i]));
        assert(standardized_gives(a[i], m, f, p[i]));
        assert(standardized_gives(b[i], n, g, q[i]));
    }
}

} // verus!
