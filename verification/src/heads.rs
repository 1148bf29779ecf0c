//! Inner products of tables whose columns are dealt out to heads, and of the two products that
//! attention takes head by head.

use crate::gradient::{lemma_series_plus, lemma_series_same, lemma_series_swap, series};
use crate::pairing::{
    column_pair, lemma_pair_columns, lemma_pair_pages, lemma_pair_same, lemma_product_slope,
    lemma_series_append, lemma_series_split, page_of, pair, product_tangent, row_pair, Table,
};
use crate::tensor::{lemma_index_split, lemma_split_index};
use vstd::prelude::*;

verus! {

/// The columns of a table from `start` on.
pub open spec fn columns_from(f: Table, start: int) -> Table {
    |r: int, c: int| f(r, start + c)
}

/// A table with `time` rows for each sequence and `size` columns for each of `n_head` heads, with
/// the rows of every head of every sequence one after another.
pub open spec fn dealt(f: Table, n_head: int, size: int, time: int) -> Table {
    |r: int, c: int|
        f(((r / time) / n_head) * time + r % time, ((r / time) % n_head) * size + c)
}

/// The rows of every head put side by side again.
pub open spec fn gathered(f: Table, n_head: int, size: int, time: int) -> Table {
    |r: int, x: int| f(((r / time) * n_head + x / size) * time + r % time, x % size)
}

/// The row of the dealt table that holds head `h` of row `t` of sequence `b`.
pub proof fn lemma_dealt_row(b: int, h: int, t: int, n_head: int, time: int)
    requires
        0 <= b,
        0 <= h < n_head,
        0 <= t < time,
    ensures
        ((b * n_head + h) * time + t) / time == b * n_head + h,
        ((b * n_head + h) * time + t) % time == t,
        (b * n_head + h) / n_head == b,
        (b * n_head + h) % n_head == h,
        0 <= b * n_head + h,
{
    assert(0 <= b * n_head) by (nonlinear_arith)
        requires
            0 <= b,
            0 <= n_head,
    ;
    lemma_index_split(b * n_head + h, t, time);
    lemma_index_split(b, h, n_head);
}

/// Inner products of tables with the columns in two parts.
pub proof fn lemma_pair_split(n: nat, a: nat, b: nat, g: Table, d: Table)
    ensures
        pair(n, a + b, g, d) == pair(n, a, g, d) + pair(
            n,
            b,
            columns_from(g, a as int),
            columns_from(d, a as int),
        ),
{
    let (x, y, z) = (
        |r: int| row_pair(a, g, d, r),
        |r: int| row_pair(b, columns_from(g, a as int), columns_from(d, a as int), r),
        |r: int| row_pair(a + b, g, d, r),
    );
    assert forall|r: int| 0 <= r < n implies #[trigger] z(r) == x(r) + y(r) by {
        let f = |c: int| g(r, c) * d(r, c);
        lemma_series_append(a, b, f);
        lemma_series_same(
            b,
            |j: int| f(a + j),
            |c: int| columns_from(g, a as int)(r, c) * columns_from(d, a as int)(r, c),
        );
    }
    lemma_series_plus(n, x, y, z);
}

/// Dealing the columns out to the heads keeps inner products.
pub proof fn lemma_pair_dealt(
    batch: nat,
    n_head: nat,
    time: nat,
    size: nat,
    g: Table,
    d: Table,
)
    requires
        n_head > 0,
        size > 0,
    ensures
        pair(batch * time, n_head * size, g, d) == pair(
            (batch * n_head) * time,
            size,
            dealt(g, n_head as int, size as int, time as int),
            dealt(d, n_head as int, size as int, time as int),
        ),
{
    let (gd, dd) = (
        dealt(g, n_head as int, size as int, time as int),
        dealt(d, n_head as int, size as int, time as int),
    );
    lemma_pair_pages(batch, time, n_head * size, g, d);
    lemma_pair_pages(batch * n_head, time, size, gd, dd);
    let of_head = |i: int| pair(time, size, page_of(gd, time, i), page_of(dd, time, i));
    lemma_series_split(batch, n_head, of_head);
    let (x, y) = (
        |b: int| pair(time, n_head * size, page_of(g, time, b), page_of(d, time, b)),
        |b: int| series(n_head, |h: int| of_head(b * n_head + h)),
    );
    assert forall|b: int| 0 <= b < batch implies #[trigger] x(b) == y(b) by {
        let (pg, pd) = (page_of(g, time, b), page_of(d, time, b));
        let part = |t: int, h: int|
            series(size, |c: int| pg(t, h * size + c) * pd(t, h * size + c));
        let (p, q) = (
            |t: int| row_pair(n_head * size, pg, pd, t),
            |t: int| series(n_head, |h: int| part(t, h)),
        );
        assert forall|t: int| 0 <= t < time implies #[trigger] p(t) == q(t) by {
            let f = |c: int| pg(t, c) * pd(t, c);
            lemma_series_split(n_head, size, f);
            let (u, w) = (
                |h: int| series(size, |c: int| f(h * size + c)),
                |h: int| part(t, h),
            );
            assert forall|h: int| 0 <= h < n_head implies #[trigger] u(h) == w(h) by {
                lemma_series_same(
                    size,
                    |c: int| f(h * size + c),
                    |c: int| pg(t, h * size + c) * pd(t, h * size + c),
                );
            }
            lemma_series_same(n_head, u, w);
        }
        lemma_series_same(time, p, q);
        lemma_series_swap(time, n_head, part);
        let (u, w) = (
            |h: int| series(time, |t: int| part(t, h)),
            |h: int| of_head(b * n_head + h),
        );
        assert forall|h: int| 0 <= h < n_head implies #[trigger] u(h) == w(h) by {
            let i: int = b * n_head + h;
            let (hg, hd) = (page_of(gd, time, i), page_of(dd, time, i));
            let (s, v) = (|t: int| part(t, h), |t: int| row_pair(size, hg, hd, t));
            assert forall|t: int| 0 <= t < time implies #[trigger] s(t) == v(t) by {
                lemma_dealt_row(b, h, t, n_head as int, time as int);
                lemma_series_same(
                    size,
                    |c: int| pg(t, h * size + c) * pd(t, h * size + c),
                    |c: int| hg(t, c) * hd(t, c),
                );
            }
            lemma_series_same(time, s, v);
        }
        lemma_series_same(n_head, u, w);
    }
    lemma_series_same(batch, x, y);
}

/// Gathering what the heads made, then dealing it out, gives it back.
pub proof fn lemma_dealt_gathered(
    f: Table,
    n_head: int,
    size: int,
    time: int,
    heads: int,
    r: int,
    c: int,
)
    requires
        0 < n_head,
        0 < size,
        0 <= r < heads * time,
        0 <= heads,
        0 < time,
        0 <= c < size,
    ensures
        dealt(gathered(f, n_head, size, time), n_head, size, time)(r, c) == f(r, c),
{
    lemma_split_index(r, heads, time);
    let (i, t) = (r / time, r % time);
    vstd::arithmetic::div_mod::lemma_fundamental_div_mod(i, n_head);
    let (b, h) = (i / n_head, i % n_head);
    assert(0 <= b) by (nonlinear_arith)
        requires
            0 <= i,
            0 < n_head,
            b == i / n_head,
    ;
    assert(n_head * b == b * n_head) by (nonlinear_arith);
    lemma_index_split(b, t, time);
    lemma_index_split(h, c, size);
}

/// How the inner products of the rows of `q` and `k` change along `dq` and `dk`, where a page of
/// both has `time` rows of `size` numbers: entry `(r, j)` is for row `r` of `q` and row `j` of the
/// same page of `k`.
pub open spec fn score_tangent(
    time: nat,
    size: nat,
    q: Table,
    k: Table,
    dq: Table,
    dk: Table,
) -> Table {
    |r: int, j: int|
        series(
            size,
            |c: int|
                dq(r, c) * k((r / time as int) * time + j, c) + q(r, c) * dk(
                    (r / time as int) * time + j,
                    c,
                ),
        )
}

/// How the sums of the rows of `v`, each times its weight in a row of `att`, change along `datt`
/// and `dv`, where a page of both has `time` rows.
pub open spec fn context_tangent(time: nat, att: Table, v: Table, datt: Table, dv: Table) -> Table {
    |r: int, c: int|
        series(
            time,
            |u: int|
                datt(r, u) * v((r / time as int) * time + u, c) + att(r, u) * dv(
                    (r / time as int) * time + u,
                    c,
                ),
        )
}

/// What is handed back for the weights and the values of attention is the slope along them.
pub proof fn lemma_context_slope(
    n: nat,
    time: nat,
    size: nat,
    att: Table,
    v: Table,
    datt: Table,
    dv: Table,
    g: Table,
    gatt: Table,
    gv: Table,
)
    requires
        forall|h: int, t: int, u: int|
            0 <= h < n && 0 <= t < time && 0 <= u < time ==> #[trigger] page_of(gatt, time, h)(t, u)
                == series(size, |c: int| g(h * time + t, c) * v(h * time + u, c)),
        forall|h: int, u: int, c: int|
            0 <= h < n && 0 <= u < time && 0 <= c < size ==> #[trigger] page_of(gv, time, h)(u, c)
                == series(time, |t: int| att(h * time + t, u) * g(h * time + t, c)),
    ensures
        pair(n * time, size, g, context_tangent(time, att, v, datt, dv)) == pair(
            n * time,
            time,
            gatt,
            datt,
        ) + pair(n * time, size, gv, dv),
{
    let d = context_tangent(time, att, v, datt, dv);
    lemma_pair_pages(n, time, size, g, d);
    lemma_pair_pages(n, time, time, gatt, datt);
    lemma_pair_pages(n, time, size, gv, dv);
    let (x, y, z) = (
        |h: int| pair(time, time, page_of(gatt, time, h), page_of(datt, time, h)),
        |h: int| pair(time, size, page_of(gv, time, h), page_of(dv, time, h)),
        |h: int| pair(time, size, page_of(g, time, h), page_of(d, time, h)),
    );
    assert forall|h: int| 0 <= h < n implies #[trigger] z(h) == x(h) + y(h) by {
        let (pa, pv, pda, pdv, pg) = (
            page_of(att, time, h),
            page_of(v, time, h),
            page_of(datt, time, h),
            page_of(dv, time, h),
            page_of(g, time, h),
        );
        let (pga, pgv) = (page_of(gatt, time, h), page_of(gv, time, h));
        assert forall|t: int, u: int| 0 <= t < time && 0 <= u < time implies #[trigger] pga(t, u)
            == series(size, |c: int| pg(t, c) * pv(u, c)) by {
            lemma_series_same(
                size,
                |c: int| g(h * time + t, c) * v(h * time + u, c),
                |c: int| pg(t, c) * pv(u, c),
            );
        }
        assert forall|u: int, c: int| 0 <= u < time && 0 <= c < size implies #[trigger] pgv(u, c)
            == series(time, |t: int| pa(t, u) * pg(t, c)) by {
            lemma_series_same(
                time,
                |t: int| att(h * time + t, u) * g(h * time + t, c),
                |t: int| pa(t, u) * pg(t, c),
            );
        }
        lemma_product_slope(time, time, size, pa, pv, pda, pdv, pg, pga, pgv);
        let (pd, e) = (page_of(d, time, h), product_tangent(time, pa, pv, pda, pdv));
        assert forall|t: int, c: int| 0 <= t < time && 0 <= c < size implies (#[trigger] pg(t, c))
            * pd(t, c) == pg(t, c) * e(t, c) by {
            lemma_index_split(h, t, time as int);
            let r: int = h * time + t;
            lemma_series_same(
                time,
                |u: int|
                    datt(r, u) * v((r / time as int) * time + u, c) + att(r, u) * dv(
                        (r / time as int) * time + u,
                        c,
                    ),
                |u: int| pda(t, u) * pv(u, c) + pa(t, u) * pdv(u, c),
            );
        }
        lemma_pair_same(time, size, pg, pd, pg, e);
    }
    lemma_series_plus(n, x, y, z);
}

/// A table with its rows and columns exchanged.
pub open spec fn turned(f: Table) -> Table {
    |r: int, c: int| f(c, r)
}

/// Exchanging rows and columns keeps inner products.
pub proof fn lemma_pair_turned(n: nat, m: nat, g: Table, d: Table)
    ensures
        pair(n, m, turned(g), turned(d)) == pair(m, n, g, d),
{
    lemma_pair_columns(m, n, g, d);
    let (x, y) = (
        |r: int| row_pair(m, turned(g), turned(d), r),
        |c: int| column_pair(m, g, d, c),
    );
    assert forall|r: int| 0 <= r < n implies #[trigger] x(r) == y(r) by {
        lemma_series_same(
            m,
            |c: int| turned(g)(r, c) * turned(d)(r, c),
            |c: int| g(c, r) * d(c, r),
        );
    }
    lemma_series_same(n, x, y);
}

/// What is handed back for the queries and the keys of attention is the slope along them.
pub proof fn lemma_scores_slope(
    n: nat,
    time: nat,
    size: nat,
    q: Table,
    k: Table,
    dq: Table,
    dk: Table,
    g: Table,
    gq: Table,
    gk: Table,
)
    requires
        forall|h: int, i: int, c: int|
            0 <= h < n && 0 <= i < time && 0 <= c < size ==> #[trigger] page_of(gq, time, h)(i, c)
                == series(time, |j: int| g(h * time + i, j) * k(h * time + j, c)),
        forall|h: int, j: int, c: int|
            0 <= h < n && 0 <= j < time && 0 <= c < size ==> #[trigger] page_of(gk, time, h)(j, c)
                == series(time, |i: int| q(h * time + i, c) * g(h * time + i, j)),
    ensures
        pair(n * time, time, g, score_tangent(time, size, q, k, dq, dk)) == pair(
            n * time,
            size,
            gq,
            dq,
        ) + pair(n * time, size, gk, dk),
{
    let d = score_tangent(time, size, q, k, dq, dk);
    lemma_pair_pages(n, time, time, g, d);
    lemma_pair_pages(n, time, size, gq, dq);
    lemma_pair_pages(n, time, size, gk, dk);
    let (x, y, z) = (
        |h: int| pair(time, size, page_of(gq, time, h), page_of(dq, time, h)),
        |h: int| pair(time, size, page_of(gk, time, h), page_of(dk, time, h)),
        |h: int| pair(time, time, page_of(g, time, h), page_of(d, time, h)),
    );
    assert forall|h: int| 0 <= h < n implies #[trigger] z(h) == x(h) + y(h) by {
        let (pq, pk, pdq, pdk, pg) = (
            page_of(q, time, h),
            turned(page_of(k, time, h)),
            page_of(dq, time, h),
            turned(page_of(dk, time, h)),
            page_of(g, time, h),
        );
        let (pgq, pgk) = (page_of(gq, time, h), turned(page_of(gk, time, h)));
        assert forall|i: int, c: int| 0 <= i < time && 0 <= c < size implies #[trigger] pgq(i, c)
            == series(time, |j: int| pg(i, j) * pk(c, j)) by {
            lemma_series_same(
                time,
                |j: int| g(h * time + i, j) * k(h * time + j, c),
                |j: int| pg(i, j) * pk(c, j),
            );
        }
        assert forall|c: int, j: int| 0 <= c < size && 0 <= j < time implies #[trigger] pgk(c, j)
            == series(time, |i: int| pq(i, c) * pg(i, j)) by {
            assert(pgk(c, j) == page_of(gk, time, h)(j, c));
            lemma_series_same(
                time,
                |i: int| q(h * time + i, c) * g(h * time + i, j),
                |i: int| pq(i, c) * pg(i, j),
            );
        }
        lemma_product_slope(time, size, time, pq, pk, pdq, pdk, pg, pgq, pgk);
        lemma_pair_turned(size, time, page_of(gk, time, h), page_of(dk, time, h));
        let (pd, e) = (page_of(d, time, h), product_tangent(size, pq, pk, pdq, pdk));
        assert forall|i: int, j: int| 0 <= i < time && 0 <= j < time implies (#[trigger] pg(i, j))
            * pd(i, j) == pg(i, j) * e(i, j) by {
            lemma_index_split(h, i, time as int);
            let r: int = h * time + i;
            lemma_series_same(
                size,
                |c: int|
                    dq(r, c) * k((r / time as int) * time + j, c) + q(r, c) * dk(
                        (r / time as int) * time + j,
                        c,
                    ),
                |c: int| pdq(i, c) * pk(c, j) + pq(i, c) * pdk(c, j),
            );
        }
        lemma_pair_same(time, time, pg, pd, pg, e);
    }
    lemma_series_plus(n, x, y, z);
}

} // verus!
