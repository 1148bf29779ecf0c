//! Inner products of two tables of real numbers, as sums over their rows and columns.

use crate::exact::Reading;
use crate::gradient::{
    lemma_series_plus, lemma_series_rotate, lemma_series_same, lemma_series_swap,
    lemma_series_times, series,
};
use crate::tangent::{lemma_distribute, lemma_regroup};
use crate::tensor::{Tensor2, Tensor3};
use vstd::prelude::*;

verus! {

/// A table of real numbers, by row and column.
pub type Table = spec_fn(int, int) -> real;

/// The real numbers that the entries of a matrix stand for.
pub open spec fn cells<T>(read: Reading<T>, m: Tensor2<T>) -> Table {
    |r: int, c: int| (read.value)(m.at(r, c))
}

/// The inner product of row `r` of two tables with `m` columns.
pub open spec fn row_pair(m: nat, g: Table, d: Table, r: int) -> real {
    series(m, |c: int| g(r, c) * d(r, c))
}

/// The inner product of two tables with `n` rows and `m` columns.
pub open spec fn pair(n: nat, m: nat, g: Table, d: Table) -> real {
    series(n, |r: int| row_pair(m, g, d, r))
}

/// The inner product of a stack, read as a table, with a table.
pub open spec fn stack_pair<T>(read: Reading<T>, g: Tensor3<T>, d: Table) -> real {
    pair(g.flat.rows as nat, g.flat.cols as nat, cells(read, g.flat), d)
}

/// The sum of two tables.
pub open spec fn table_sum(a: Table, b: Table) -> Table {
    |r: int, c: int| a(r, c) + b(r, c)
}

/// Tables with the same products have the same inner product.
pub proof fn lemma_pair_same(n: nat, m: nat, g: Table, d: Table, h: Table, e: Table)
    requires
        forall|r: int, c: int|
            #![trigger g(r, c)]
            #![trigger h(r, c)]
            0 <= r < n && 0 <= c < m ==> g(r, c) * d(r, c) == h(r, c) * e(r, c),
    ensures
        pair(n, m, g, d) == pair(n, m, h, e),
{
    let (x, y) = (|r: int| row_pair(m, g, d, r), |r: int| row_pair(m, h, e, r));
    assert forall|r: int| 0 <= r < n implies #[trigger] x(r) == y(r) by {
        lemma_series_same(m, |c: int| g(r, c) * d(r, c), |c: int| h(r, c) * e(r, c));
    }
    lemma_series_same(n, x, y);
}

/// Tables whose rows have the same inner products have the same inner product.
pub proof fn lemma_pair_rows(n: nat, m: nat, k: nat, g: Table, d: Table, h: Table, e: Table)
    requires
        forall|r: int| 0 <= r < n ==> #[trigger] row_pair(m, g, d, r) == row_pair(k, h, e, r),
    ensures
        pair(n, m, g, d) == pair(n, k, h, e),
{
    lemma_series_same(n, |r: int| row_pair(m, g, d, r), |r: int| row_pair(k, h, e, r));
}

/// An inner product with a sum of two tables.
pub proof fn lemma_pair_plus(n: nat, m: nat, g: Table, a: Table, b: Table)
    ensures
        pair(n, m, g, table_sum(a, b)) == pair(n, m, g, a) + pair(n, m, g, b),
{
    let d = table_sum(a, b);
    let (x, y, z) = (
        |r: int| row_pair(m, g, a, r),
        |r: int| row_pair(m, g, b, r),
        |r: int| row_pair(m, g, d, r),
    );
    assert forall|r: int| 0 <= r < n implies #[trigger] z(r) == x(r) + y(r) by {
        let (p, q, s) = (
            |c: int| g(r, c) * a(r, c),
            |c: int| g(r, c) * b(r, c),
            |c: int| g(r, c) * d(r, c),
        );
        assert forall|c: int| 0 <= c < m implies #[trigger] s(c) == p(c) + q(c) by {
            lemma_distribute(g(r, c), a(r, c), b(r, c));
        }
        lemma_series_plus(m, p, q, s);
    }
    lemma_series_plus(n, x, y, z);
}

/// An inner product of a sum of two tables.
pub proof fn lemma_plus_pair(n: nat, m: nat, a: Table, b: Table, d: Table)
    ensures
        pair(n, m, table_sum(a, b), d) == pair(n, m, a, d) + pair(n, m, b, d),
{
    let g = table_sum(a, b);
    assert forall|r: int, c: int| 0 <= r < n && 0 <= c < m implies #[trigger] g(r, c) * d(r, c)
        == d(r, c) * g(r, c) by {
        lemma_distribute(g(r, c), d(r, c), 0 as real);
    }
    lemma_pair_same(n, m, g, d, d, g);
    lemma_pair_plus(n, m, d, a, b);
    assert forall|r: int, c: int| 0 <= r < n && 0 <= c < m implies #[trigger] a(r, c) * d(r, c)
        == d(r, c) * a(r, c) && b(r, c) * d(r, c) == d(r, c) * b(r, c) by {
        lemma_distribute(a(r, c), d(r, c), 0 as real);
        lemma_distribute(b(r, c), d(r, c), 0 as real);
    }
    lemma_pair_same(n, m, a, d, d, a);
    assert forall|r: int, c: int| 0 <= r < n && 0 <= c < m implies #[trigger] b(r, c) * d(r, c)
        == d(r, c) * b(r, c) by {
        lemma_distribute(b(r, c), d(r, c), 0 as real);
    }
    lemma_pair_same(n, m, b, d, d, b);
}

/// The inner product of column `c` of two tables with `n` rows.
pub open spec fn column_pair(n: nat, g: Table, d: Table, c: int) -> real {
    series(n, |r: int| g(r, c) * d(r, c))
}

/// An inner product of two tables, column by column.
pub proof fn lemma_pair_columns(n: nat, m: nat, g: Table, d: Table)
    ensures
        pair(n, m, g, d) == series(m, |c: int| column_pair(n, g, d, c)),
{
    let h = |r: int, c: int| g(r, c) * d(r, c);
    let (a, b) = (|r: int| row_pair(m, g, d, r), |r: int| series(m, |c: int| h(r, c)));
    assert forall|r: int| 0 <= r < n implies #[trigger] a(r) == b(r) by {
        lemma_series_same(m, |c: int| g(r, c) * d(r, c), |c: int| h(r, c));
    }
    lemma_series_same(n, a, b);
    lemma_series_swap(n, m, h);
    let (x, y) = (|c: int| series(n, |r: int| h(r, c)), |c: int| column_pair(n, g, d, c));
    assert forall|c: int| 0 <= c < m implies #[trigger] x(c) == y(c) by {
        lemma_series_same(n, |r: int| h(r, c), |r: int| g(r, c) * d(r, c));
    }
    lemma_series_same(m, x, y);
}

/// A sum over `n * m` numbers, as `n` sums of `m` numbers.
pub proof fn lemma_series_split(n: nat, m: nat, f: spec_fn(int) -> real)
    ensures
        series(n * m, f) == series(n, |i: int| series(m, |j: int| f(i * m + j))),
    decreases n,
{
    let rows = |i: int| series(m, |j: int| f(i * m + j));
    if n == 0 {
        assert(n * m == 0) by (nonlinear_arith)
            requires
                n == 0,
        ;
    } else {
        let less = (n - 1) as nat;
        lemma_series_split(less, m, f);
        assert(n * m == less * m + m) by (nonlinear_arith)
            requires
                n == less + 1,
        ;
        lemma_series_append(less * m, m, f);
        lemma_series_same(m, |j: int| f(less * m + j), |j: int| f((n - 1) * m + j));
    }
}

/// A sum of nothing but zeros.
pub proof fn lemma_series_nought(n: nat, f: spec_fn(int) -> real)
    requires
        forall|i: int| 0 <= i < n ==> #[trigger] f(i) == 0 as real,
    ensures
        series(n, f) == 0 as real,
    decreases n,
{
    if n > 0 {
        lemma_series_nought((n - 1) as nat, f);
        assert(f(n - 1) == 0 as real);
    }
}

/// A sum in two parts.
pub proof fn lemma_series_append(n: nat, m: nat, f: spec_fn(int) -> real)
    ensures
        series(n + m, f) == series(n, f) + series(m, |j: int| f(n + j)),
    decreases m,
{
    if m > 0 {
        let less = (m - 1) as nat;
        lemma_series_append(n, less, f);
        let tail = |j: int| f(n + j);
        assert(n + m - 1 == n + less);
        assert(series(m, tail) == series(less, tail) + tail(m - 1));
        assert(series(n + m, f) == series((n + less) as nat, f) + f(n + m - 1));
    }
}

/// The rows `page * height` to `page * height + height - 1` of a table.
pub open spec fn page_of(f: Table, height: nat, page: int) -> Table {
    |t: int, c: int| f(page * height + t, c)
}

/// The inner product of two tables of `n` pages with `height` rows each is the sum of those of
/// their pages.
pub proof fn lemma_pair_pages(n: nat, height: nat, m: nat, g: Table, d: Table)
    ensures
        pair(n * height, m, g, d) == series(
            n,
            |i: int| pair(height, m, page_of(g, height, i), page_of(d, height, i)),
        ),
{
    let rows = |r: int| row_pair(m, g, d, r);
    lemma_series_split(n, height, rows);
    let (x, y) = (
        |i: int| series(height, |t: int| rows(i * height + t)),
        |i: int| pair(height, m, page_of(g, height, i), page_of(d, height, i)),
    );
    assert forall|i: int| 0 <= i < n implies #[trigger] x(i) == y(i) by {
        let (a, b) = (page_of(g, height, i), page_of(d, height, i));
        let (p, q) = (|t: int| rows(i * height + t), |t: int| row_pair(m, a, b, t));
        assert forall|t: int| 0 <= t < height implies #[trigger] p(t) == q(t) by {
            lemma_series_same(
                m,
                |c: int| g(i * height + t, c) * d(i * height + t, c),
                |c: int| a(t, c) * b(t, c),
            );
        }
        lemma_series_same(height, p, q);
    }
    lemma_series_same(n, x, y);
}

/// How the product of two tables, whose entry `(r, c)` is the sum over the `k` numbers `i` of
/// `x(r, i) * w(i, c)`, changes along `dx` and `dw`: by the product rule.
pub open spec fn product_tangent(k: nat, x: Table, w: Table, dx: Table, dw: Table) -> Table {
    |r: int, c: int| series(k, |i: int| dx(r, i) * w(i, c) + x(r, i) * dw(i, c))
}

/// How an entry of a product of two tables changes: by the tangent, which is linear in the two
/// changes, and by the product of the changes.
pub proof fn lemma_product_change(
    k: nat,
    x: Table,
    w: Table,
    dx: Table,
    dw: Table,
    r: int,
    c: int,
)
    ensures
        series(k, |i: int| (x(r, i) + dx(r, i)) * (w(i, c) + dw(i, c))) == series(
            k,
            |i: int| x(r, i) * w(i, c),
        ) + product_tangent(k, x, w, dx, dw)(r, c) + series(k, |i: int| dx(r, i) * dw(i, c)),
{
    let (a, b, e) = (
        |i: int| x(r, i) * w(i, c),
        |i: int| dx(r, i) * w(i, c) + x(r, i) * dw(i, c),
        |i: int| dx(r, i) * dw(i, c),
    );
    let both = |i: int| a(i) + b(i);
    let all = |i: int| (x(r, i) + dx(r, i)) * (w(i, c) + dw(i, c));
    lemma_series_plus(k, a, b, both);
    assert forall|i: int| 0 <= i < k implies #[trigger] all(i) == both(i) + e(i) by {
        lemma_distribute(w(i, c) + dw(i, c), x(r, i), dx(r, i));
        lemma_distribute(x(r, i), w(i, c), dw(i, c));
        lemma_distribute(dx(r, i), w(i, c), dw(i, c));
    }
    lemma_series_plus(k, both, e, all);
}

/// Going back through a product of two tables: the inner product of `g` with the change of the
/// product is that of `g` times the second table, turned, with the change of the first, plus that
/// of the first table, turned, times `g` with the change of the second.
pub proof fn lemma_product_slope(
    n: nat,
    k: nat,
    m: nat,
    x: Table,
    w: Table,
    dx: Table,
    dw: Table,
    g: Table,
    gx: Table,
    gw: Table,
)
    requires
        forall|r: int, i: int|
            0 <= r < n && 0 <= i < k ==> #[trigger] gx(r, i) == series(
                m,
                |c: int| g(r, c) * w(i, c),
            ),
        forall|i: int, c: int|
            0 <= i < k && 0 <= c < m ==> #[trigger] gw(i, c) == series(
                n,
                |r: int| x(r, i) * g(r, c),
            ),
    ensures
        pair(n, m, g, product_tangent(k, x, w, dx, dw)) == pair(n, k, gx, dx) + pair(k, m, gw, dw),
{
    let a = |r: int, c: int| series(k, |i: int| dx(r, i) * w(i, c));
    let b = |r: int, c: int| series(k, |i: int| x(r, i) * dw(i, c));
    let whole = product_tangent(k, x, w, dx, dw);
    assert forall|r: int, c: int| 0 <= r < n && 0 <= c < m implies #[trigger] g(r, c) * whole(r, c)
        == g(r, c) * table_sum(a, b)(r, c) by {
        lemma_series_plus(
            k,
            |i: int| dx(r, i) * w(i, c),
            |i: int| x(r, i) * dw(i, c),
            |i: int| dx(r, i) * w(i, c) + x(r, i) * dw(i, c),
        );
    }
    lemma_pair_same(n, m, g, whole, g, table_sum(a, b));
    lemma_pair_plus(n, m, g, a, b);
    // Along the first table, row by row.
    assert forall|r: int| 0 <= r < n implies #[trigger] row_pair(m, g, a, r) == row_pair(
        k,
        gx,
        dx,
        r,
    ) by {
        let h = |c: int, i: int| g(r, c) * (dx(r, i) * w(i, c));
        let (p, q) = (|c: int| g(r, c) * a(r, c), |c: int| series(k, |i: int| h(c, i)));
        assert forall|c: int| 0 <= c < m implies #[trigger] p(c) == q(c) by {
            lemma_series_times(k, g(r, c), |i: int| dx(r, i) * w(i, c), |i: int| h(c, i));
        }
        lemma_series_same(m, p, q);
        lemma_series_swap(m, k, h);
        let (s, t) = (|i: int| series(m, |c: int| h(c, i)), |i: int| gx(r, i) * dx(r, i));
        assert forall|i: int| 0 <= i < k implies #[trigger] s(i) == t(i) by {
            let (line, f) = (|c: int| g(r, c) * w(i, c), |c: int| h(c, i));
            assert forall|c: int| 0 <= c < m implies #[trigger] f(c) == dx(r, i) * line(c) by {
                lemma_regroup(g(r, c), dx(r, i), w(i, c));
            }
            lemma_series_times(m, dx(r, i), line, f);
            assert(gx(r, i) == series(m, |c: int| g(r, c) * w(i, c)));
            lemma_distribute(gx(r, i), dx(r, i), 0 as real);
        }
        lemma_series_same(k, s, t);
    }
    lemma_pair_rows(n, m, k, g, a, gx, dx);
    // Along the second.
    let h = |r: int, c: int, i: int| g(r, c) * (x(r, i) * dw(i, c));
    let (p, q) = (
        |r: int| row_pair(m, g, b, r),
        |r: int| series(m, |c: int| series(k, |i: int| h(r, c, i))),
    );
    assert forall|r: int| 0 <= r < n implies #[trigger] p(r) == q(r) by {
        let (s, t) = (|c: int| g(r, c) * b(r, c), |c: int| series(k, |i: int| h(r, c, i)));
        assert forall|c: int| 0 <= c < m implies #[trigger] s(c) == t(c) by {
            lemma_series_times(k, g(r, c), |i: int| x(r, i) * dw(i, c), |i: int| h(r, c, i));
        }
        lemma_series_same(m, s, t);
    }
    lemma_series_same(n, p, q);
    lemma_series_rotate(n, m, k, h);
    let (y, z) = (
        |i: int| series(m, |c: int| series(n, |r: int| h(r, c, i))),
        |i: int| row_pair(m, gw, dw, i),
    );
    assert forall|i: int| 0 <= i < k implies #[trigger] y(i) == z(i) by {
        let (s, t) = (
            |c: int| series(n, |r: int| h(r, c, i)),
            |c: int| gw(i, c) * dw(i, c),
        );
        assert forall|c: int| 0 <= c < m implies #[trigger] s(c) == t(c) by {
            let (line, f) = (|r: int| x(r, i) * g(r, c), |r: int| h(r, c, i));
            assert forall|r: int| 0 <= r < n implies #[trigger] f(r) == dw(i, c) * line(r) by {
                lemma_regroup(g(r, c), x(r, i), dw(i, c));
                lemma_regroup(x(r, i), g(r, c), dw(i, c));
                lemma_distribute(x(r, i) * g(r, c), dw(i, c), 0 as real);
            }
            lemma_series_times(n, dw(i, c), line, f);
            assert(gw(i, c) == series(n, |r: int| x(r, i) * g(r, c)));
            lemma_distribute(gw(i, c), dw(i, c), 0 as real);
        }
        lemma_series_same(m, s, t);
    }
    lemma_series_same(k, y, z);
}

} // verus!
