//! Counting cells of a rectangular grid that satisfy a predicate.
//!
//! The game invariants relate executable counters (mines placed, safe cells
//! still hidden) to the number of grid cells satisfying a predicate. This
//! module defines that count over a `Seq<Seq<T>>` and proves how it behaves
//! under point updates, and when the predicate holds uniformly.
use vstd::prelude::*;

verus! {

/// Number of elements of `s` that satisfy `f`.
pub open spec fn row_count<T>(s: Seq<T>, f: spec_fn(T) -> bool) -> int
    decreases s.len(),
{
    if s.len() == 0 {
        0
    } else {
        row_count(s.drop_last(), f) + if f(s.last()) {
            1int
        } else {
            0int
        }
    }
}

/// Number of cells of the grid `g` that satisfy `f`.
pub open spec fn grid_count<T>(g: Seq<Seq<T>>, f: spec_fn(T) -> bool) -> int
    decreases g.len(),
{
    if g.len() == 0 {
        0
    } else {
        grid_count(g.drop_last(), f) + row_count(g.last(), f)
    }
}

pub proof fn lemma_row_count_bounds<T>(s: Seq<T>, f: spec_fn(T) -> bool)
    ensures
        0 <= row_count(s, f) <= s.len(),
    decreases s.len(),
{
    if s.len() > 0 {
        lemma_row_count_bounds(s.drop_last(), f);
    }
}

pub proof fn lemma_row_count_update<T>(s: Seq<T>, f: spec_fn(T) -> bool, i: int, v: T)
    requires
        0 <= i < s.len(),
    ensures
        row_count(s.update(i, v), f) == row_count(s, f) - (if f(s[i]) {
            1int
        } else {
            0int
        }) + (if f(v) {
            1int
        } else {
            0int
        }),
    decreases s.len(),
{
    let su = s.update(i, v);
    if i == s.len() - 1 {
        assert(su.drop_last() =~= s.drop_last());
    } else {
        assert(su.drop_last() =~= s.drop_last().update(i, v));
        lemma_row_count_update(s.drop_last(), f, i, v);
    }
}

pub proof fn lemma_row_count_at<T>(s: Seq<T>, f: spec_fn(T) -> bool, i: int)
    requires
        0 <= i < s.len(),
    ensures
        f(s[i]) ==> row_count(s, f) >= 1,
        !f(s[i]) ==> row_count(s, f) <= s.len() - 1,
    decreases s.len(),
{
    lemma_row_count_bounds(s.drop_last(), f);
    if i < s.len() - 1 {
        lemma_row_count_at(s.drop_last(), f, i);
    }
}

pub proof fn lemma_row_count_uniform<T>(s: Seq<T>, f: spec_fn(T) -> bool, b: bool)
    requires
        forall|j: int| 0 <= j < s.len() ==> f(#[trigger] s[j]) == b,
    ensures
        row_count(s, f) == if b {
            s.len() as int
        } else {
            0int
        },
    decreases s.len(),
{
    if s.len() > 0 {
        lemma_row_count_uniform(s.drop_last(), f, b);
    }
}

pub proof fn lemma_row_count_complement<T>(s: Seq<T>, f: spec_fn(T) -> bool, g: spec_fn(T) -> bool)
    requires
        forall|j: int| 0 <= j < s.len() ==> g(#[trigger] s[j]) == !f(s[j]),
    ensures
        row_count(s, f) + row_count(s, g) == s.len(),
    decreases s.len(),
{
    if s.len() > 0 {
        lemma_row_count_complement(s.drop_last(), f, g);
    }
}

pub proof fn lemma_row_count_congruent<T>(s1: Seq<T>, s2: Seq<T>, f: spec_fn(T) -> bool)
    requires
        s1.len() == s2.len(),
        forall|j: int| 0 <= j < s1.len() ==> f(#[trigger] s1[j]) == f(#[trigger] s2[j]),
    ensures
        row_count(s1, f) == row_count(s2, f),
    decreases s1.len(),
{
    if s1.len() > 0 {
        lemma_row_count_congruent(s1.drop_last(), s2.drop_last(), f);
    }
}

/// Grids of the same shape whose cells agree under `f` have the same count.
pub proof fn lemma_grid_count_congruent<T>(g1: Seq<Seq<T>>, g2: Seq<Seq<T>>, f: spec_fn(T) -> bool)
    requires
        g1.len() == g2.len(),
        forall|i: int| 0 <= i < g1.len() ==> (#[trigger] g1[i]).len() == (#[trigger] g2[i]).len(),
        forall|i: int, j: int|
            0 <= i < g1.len() && 0 <= j < (#[trigger] g1[i]).len() ==> f(#[trigger] g1[i][j]) == f(
                g2[i][j],
            ),
    ensures
        grid_count(g1, f) == grid_count(g2, f),
    decreases g1.len(),
{
    if g1.len() > 0 {
        lemma_grid_count_congruent(g1.drop_last(), g2.drop_last(), f);
        lemma_row_count_congruent(g1.last(), g2.last(), f);
    }
}

/// All rows of `g` have length `w`.
pub open spec fn uniform_width<T>(g: Seq<Seq<T>>, w: int) -> bool {
    forall|i: int| 0 <= i < g.len() ==> (#[trigger] g[i]).len() == w
}

pub proof fn lemma_grid_count_bounds<T>(g: Seq<Seq<T>>, f: spec_fn(T) -> bool, w: int)
    requires
        uniform_width(g, w),
        w >= 0,
    ensures
        0 <= grid_count(g, f) <= g.len() * w,
    decreases g.len(),
{
    if g.len() > 0 {
        lemma_grid_count_bounds(g.drop_last(), f, w);
        lemma_row_count_bounds(g.last(), f);
        assert((g.len() - 1) * w + w == g.len() * w) by (nonlinear_arith);
    }
}

pub proof fn lemma_grid_count_update<T>(
    g: Seq<Seq<T>>,
    f: spec_fn(T) -> bool,
    r: int,
    c: int,
    v: T,
)
    requires
        0 <= r < g.len(),
        0 <= c < g[r].len(),
    ensures
        grid_count(g.update(r, g[r].update(c, v)), f) == grid_count(g, f) - (if f(g[r][c]) {
            1int
        } else {
            0int
        }) + (if f(v) {
            1int
        } else {
            0int
        }),
    decreases g.len(),
{
    let gu = g.update(r, g[r].update(c, v));
    if r == g.len() - 1 {
        assert(gu.drop_last() =~= g.drop_last());
        lemma_row_count_update(g.last(), f, c, v);
    } else {
        assert(gu.drop_last() =~= g.drop_last().update(r, g[r].update(c, v)));
        lemma_grid_count_update(g.drop_last(), f, r, c, v);
    }
}

pub proof fn lemma_grid_count_at<T>(g: Seq<Seq<T>>, f: spec_fn(T) -> bool, r: int, c: int, w: int)
    requires
        uniform_width(g, w),
        w >= 0,
        0 <= r < g.len(),
        0 <= c < g[r].len(),
    ensures
        f(g[r][c]) ==> grid_count(g, f) >= 1,
        !f(g[r][c]) ==> grid_count(g, f) <= g.len() * w - 1,
    decreases g.len(),
{
    lemma_row_count_bounds(g.last(), f);
    lemma_grid_count_bounds(g.drop_last(), f, w);
    if r == g.len() - 1 {
        lemma_row_count_at(g.last(), f, c);
        assert((g.len() - 1) * w + w == g.len() * w) by (nonlinear_arith);
    } else {
        lemma_grid_count_at(g.drop_last(), f, r, c, w);
        assert((g.len() - 1) * w + w == g.len() * w) by (nonlinear_arith);
    }
}

pub proof fn lemma_grid_count_uniform<T>(g: Seq<Seq<T>>, f: spec_fn(T) -> bool, b: bool, w: int)
    requires
        uniform_width(g, w),
        w >= 0,
        forall|i: int, j: int| 0 <= i < g.len() && 0 <= j < w ==> f(#[trigger] g[i][j]) == b,
    ensures
        grid_count(g, f) == if b {
            g.len() * w
        } else {
            0int
        },
    decreases g.len(),
{
    if g.len() > 0 {
        lemma_grid_count_uniform(g.drop_last(), f, b, w);
        lemma_row_count_uniform(g.last(), f, b);
        assert((g.len() - 1) * w + w == g.len() * w) by (nonlinear_arith);
    }
}

pub proof fn lemma_grid_count_complement<T>(
    g: Seq<Seq<T>>,
    f: spec_fn(T) -> bool,
    h: spec_fn(T) -> bool,
    w: int,
)
    requires
        uniform_width(g, w),
        w >= 0,
        forall|i: int, j: int|
            0 <= i < g.len() && 0 <= j < (#[trigger] g[i]).len() ==> h(#[trigger] g[i][j]) == !f(
                g[i][j],
            ),
    ensures
        grid_count(g, f) + grid_count(g, h) == g.len() * w,
    decreases g.len(),
{
    if g.len() > 0 {
        lemma_grid_count_complement(g.drop_last(), f, h, w);
        lemma_row_count_complement(g.last(), f, h);
        assert((g.len() - 1) * w + w == g.len() * w) by (nonlinear_arith);
    }
}

} // verus!
