//! Sums of numbers in exact arithmetic, in whatever order they are taken, and
//! what the operations that sum leave.

use crate::lanes::{every, fold};
use crate::scan::Arith;
use crate::scatter::collected;
use vstd::prelude::*;

verus! {

impl<T: Copy, A: Fn(T, T) -> T, M: Fn(T, T) -> T, S: Fn(T, T) -> T, E: Fn(T) -> T> Arith<
    T,
    A,
    M,
    S,
    E,
> {
    /// The sum of `f(0)` to `f(n - 1)`.
    pub open spec fn tally(self, n: int, f: spec_fn(int) -> T) -> T
        decreases n,
    {
        if n <= 0 {
            self.zero
        } else {
            self.sum(self.tally(n - 1, f), f(n - 1))
        }
    }

    pub(crate) proof fn lemma_tally_same(self, n: int, f: spec_fn(int) -> T, g: spec_fn(int) -> T)
        requires
            forall|i: int| 0 <= i < n ==> #[trigger] f(i) == g(i),
        ensures
            self.tally(n, f) == self.tally(n, g),
        decreases n,
    {
        if n > 0 {
            self.lemma_tally_same(n - 1, f, g);
            assert(f(n - 1) == g(n - 1));
        }
    }

    pub(crate) proof fn lemma_tally_nothing(self, n: int, f: spec_fn(int) -> T)
        requires
            self.exact(),
            forall|i: int| 0 <= i < n ==> #[trigger] f(i) == self.zero,
        ensures
            self.tally(n, f) == self.zero,
        decreases n,
    {
        if n > 0 {
            self.lemma_tally_nothing(n - 1, f);
            assert(f(n - 1) == self.zero);
            self.lemma_neutral(self.zero);
        }
    }

    /// A sum with one term that counts.
    pub(crate) proof fn lemma_tally_one(self, n: int, f: spec_fn(int) -> T, p: int)
        requires
            self.exact(),
            0 <= p < n,
            forall|i: int| 0 <= i < n && i != p ==> #[trigger] f(i) == self.zero,
        ensures
            self.tally(n, f) == f(p),
        decreases n,
    {
        self.lemma_neutral(f(p));
        if p == n - 1 {
            self.lemma_tally_nothing(n - 1, f);
        } else {
            self.lemma_tally_one(n - 1, f, p);
            assert(f(n - 1) == self.zero);
        }
    }

    pub(crate) proof fn lemma_tally_add(self, n: int, f: spec_fn(int) -> T, g: spec_fn(int) -> T)
        requires
            self.exact(),
        ensures
            self.tally(n, |i: int| self.sum(f(i), g(i))) == self.sum(
                self.tally(n, f),
                self.tally(n, g),
            ),
        decreases n,
    {
        if n > 0 {
            self.lemma_tally_add(n - 1, f, g);
            self.lemma_crossed(self.tally(n - 1, f), self.tally(n - 1, g), f(n - 1), g(n - 1));
        } else {
            self.lemma_neutral(self.zero);
        }
    }

    pub(crate) proof fn lemma_tally_scale(self, n: int, f: spec_fn(int) -> T, c: T)
        requires
            self.exact(),
        ensures
            self.tally(n, |i: int| self.prod(c, f(i))) == self.prod(c, self.tally(n, f)),
        decreases n,
    {
        if n > 0 {
            self.lemma_tally_scale(n - 1, f, c);
            self.lemma_spread(c, self.tally(n - 1, f), f(n - 1));
        } else {
            self.lemma_nothing(c);
        }
    }

    /// Sums over two indices may be taken in either order.
    pub(crate) proof fn lemma_tally_swap(self, n: int, m: int, f: spec_fn(int, int) -> T)
        requires
            self.exact(),
        ensures
            self.tally(n, |i: int| self.tally(m, |j: int| f(i, j))) == self.tally(
                m,
                |j: int| self.tally(n, |i: int| f(i, j)),
            ),
        decreases n,
    {
        let rows = |i: int| self.tally(m, |j: int| f(i, j));
        if n > 0 {
            self.lemma_tally_swap(n - 1, m, f);
            let shorter = |j: int| self.tally(n - 1, |i: int| f(i, j));
            let last = |j: int| f(n - 1, j);
            self.lemma_tally_add(m, shorter, last);
            self.lemma_tally_same(
                m,
                |j: int| self.sum(shorter(j), last(j)),
                |j: int| self.tally(n, |i: int| f(i, j)),
            );
            assert(self.tally(n, rows) == self.sum(self.tally(n - 1, rows), rows(n - 1)));
            self.lemma_tally_same(m, |j: int| f(n - 1, j), last);
        } else {
            self.lemma_tally_nothing(m, |j: int| self.tally(n, |i: int| f(i, j)));
        }
    }

    /// A sum can be taken in two parts.
    pub(crate) proof fn lemma_tally_split(self, n: int, m: int, f: spec_fn(int) -> T)
        requires
            self.exact(),
            0 <= n,
            0 <= m,
        ensures
            self.tally(n + m, f) == self.sum(self.tally(n, f), self.tally(m, |i: int| f(n + i))),
        decreases m,
    {
        let g = |i: int| f(n + i);
        if m > 0 {
            self.lemma_tally_split(n, m - 1, f);
            assert(self.tally(n + m, f) == self.sum(self.tally(n + m - 1, f), f(n + m - 1)));
            self.lemma_regroup(self.tally(n, f), self.tally(m - 1, g), g(m - 1));
        } else {
            self.lemma_neutral(self.tally(n, f));
        }
    }

    /// A chain of additions is a sum.
    pub(crate) proof fn lemma_fold_tally(self, xs: Seq<T>)
        ensures
            fold(self.plus, self.zero, xs) == self.tally(xs.len() as int, |i: int| xs[i]),
        decreases xs.len(),
    {
        if xs.len() > 0 {
            let ys = xs.drop_last();
            self.lemma_fold_tally(ys);
            self.lemma_tally_same(ys.len() as int, |i: int| ys[i], |i: int| xs[i]);
        }
    }

    /// A sum over the elements that one list points to, regrouped by where they
    /// go.
    pub(crate) proof fn lemma_tally_sort(
        self,
        n: int,
        m: int,
        f: spec_fn(int) -> T,
        to: spec_fn(int) -> int,
    )
        requires
            self.exact(),
            forall|i: int| 0 <= i < n ==> 0 <= #[trigger] to(i) < m,
        ensures
            self.tally(m, |j: int| self.tally(n, |i: int| if to(i) == j { f(i) } else { self.zero }))
                == self.tally(n, f),
    {
        let h = |j: int, i: int|
            if to(i) == j {
                f(i)
            } else {
                self.zero
            };
        let rows = |j: int| self.tally(n, |i: int| h(j, i));
        let held = |j: int| self.tally(n, |i: int| if to(i) == j { f(i) } else { self.zero });
        assert forall|j: int| 0 <= j < m implies #[trigger] held(j) == rows(j) by {
            self.lemma_tally_same(
                n,
                |i: int| if to(i) == j { f(i) } else { self.zero },
                |i: int| h(j, i),
            );
        }
        self.lemma_tally_same(m, held, rows);
        self.lemma_tally_swap(m, n, h);
        let cols = |i: int| self.tally(m, |j: int| h(j, i));
        assert forall|i: int| 0 <= i < n implies #[trigger] cols(i) == f(i) by {
            self.lemma_tally_one(m, |j: int| h(j, i), to(i));
        }
        self.lemma_tally_same(n, cols, f);
    }

    /// The chain of additions over every `step`-th element from `from` on is the
    /// sum of those elements.
    pub(crate) proof fn lemma_every_tally(self, xs: Seq<T>, from: int, step: int)
        requires
            self.exact(),
            0 < step,
            0 <= from,
        ensures
            fold(self.plus, self.zero, every(xs, from, step)) == self.tally(
                xs.len() as int,
                |i: int|
                    if i >= from && (i - from) % step == 0 {
                        xs[i]
                    } else {
                        self.zero
                    },
            ),
        decreases (if from < xs.len() {
                xs.len() - from
            } else {
                0
            }),
    {
        let n = xs.len() as int;
        let f = |i: int|
            if i >= from && (i - from) % step == 0 {
                xs[i]
            } else {
                self.zero
            };
        let list = every(xs, from, step);
        if from >= n {
            self.lemma_tally_nothing(n, f);
        } else {
            let next = from + step;
            self.lemma_every_tally(xs, next, step);
            let g = |i: int|
                if i >= next && (i - next) % step == 0 {
                    xs[i]
                } else {
                    self.zero
                };
            let h = |i: int|
                if i == from {
                    xs[i]
                } else {
                    self.zero
                };
            self.lemma_tally_one(n, h, from);
            self.lemma_tally_add(n, h, g);
            assert forall|i: int| 0 <= i < n implies #[trigger] f(i) == self.sum(h(i), g(i)) by {
                self.lemma_neutral(xs[i]);
                self.lemma_neutral(self.zero);
                let e = i - from;
                vstd::arithmetic::div_mod::lemma_mod_sub_multiples_vanish(e, step);
                assert((i - next) % step == e % step);
                if 0 < e < step {
                    vstd::arithmetic::div_mod::lemma_small_mod(e as nat, step as nat);
                } else if e == 0 {
                    vstd::arithmetic::div_mod::lemma_small_mod(0, step as nat);
                }
            }
            self.lemma_tally_same(n, f, |i: int| self.sum(h(i), g(i)));
            let rest = every(xs, next, step);
            assert(list == Seq::empty().push(xs[from]) + rest);
            self.lemma_fold_tally(list);
            self.lemma_fold_tally(rest);
            let m = rest.len() as int;
            let at = |i: int| list[i];
            self.lemma_tally_split(1, m, at);
            assert(self.tally(1, at) == self.sum(self.tally(0, at), at(0)));
            self.lemma_neutral(at(0));
            self.lemma_tally_same(m, |i: int| at(1 + i), |i: int| rest[i]);
        }
    }

    /// The order of the terms of a sum does not matter.
    pub(crate) proof fn lemma_tally_permuted(
        self,
        n: int,
        f: spec_fn(int) -> T,
        to: spec_fn(int) -> int,
        back: spec_fn(int) -> int,
    )
        requires
            self.exact(),
            forall|i: int| 0 <= i < n ==> 0 <= #[trigger] to(i) < n && back(to(i)) == i,
            forall|j: int| 0 <= j < n ==> 0 <= #[trigger] back(j) < n && to(back(j)) == j,
        ensures
            self.tally(n, f) == self.tally(n, |j: int| f(back(j))),
    {
        self.lemma_tally_sort(n, n, f, to);
        let held = |j: int| self.tally(n, |i: int| if to(i) == j { f(i) } else { self.zero });
        let moved = |j: int| f(back(j));
        assert forall|j: int| 0 <= j < n implies #[trigger] held(j) == moved(j) by {
            let h = |i: int|
                if to(i) == j {
                    f(i)
                } else {
                    self.zero
                };
            assert forall|i: int| 0 <= i < n && i != back(j) implies #[trigger] h(i)
                == self.zero by {
                assert(back(to(i)) == i);
            }
            self.lemma_tally_one(n, h, back(j));
        }
        self.lemma_tally_same(n, held, moved);
    }

    /// A sum over rows of equal length is the sum of the rows' sums.
    pub(crate) proof fn lemma_tally_rows(self, n: int, m: int, f: spec_fn(int) -> T)
        requires
            self.exact(),
            0 <= n,
            0 <= m,
        ensures
            self.tally(n * m, f) == self.tally(n, |i: int| self.tally(m, |j: int| f(i * m + j))),
        decreases n,
    {
        let rows = |i: int| self.tally(m, |j: int| f(i * m + j));
        if n == 0 {
            assert(0 * m == 0);
        } else {
            self.lemma_tally_rows(n - 1, m, f);
            assert(n * m == (n - 1) * m + m && 0 <= (n - 1) * m) by (nonlinear_arith)
                requires
                    n >= 1,
                    m >= 0,
            ;
            self.lemma_tally_split((n - 1) * m, m, f);
            let last = |j: int| f((n - 1) * m + j);
            self.lemma_tally_same(m, last, |j: int| f((n - 1) * m + j));
            assert(self.tally(n, rows) == self.sum(self.tally(n - 1, rows), rows(n - 1)));
        }
    }

    /// What goes back to element `p` is the sum of what reads it.
    pub(crate) proof fn lemma_collected_tally(
        self,
        go: Seq<T>,
        sources: Seq<Option<usize>>,
        p: int,
    )
        requires
            self.exact(),
        ensures
            fold(self.plus, self.zero, collected(go, sources, p)) == self.tally(
                sources.len() as int,
                |i: int|
                    if sources[i] matches Some(q) && q == p {
                        go[i]
                    } else {
                        self.zero
                    },
            ),
        decreases sources.len(),
    {
        if sources.len() > 0 {
            let less = sources.drop_last();
            self.lemma_collected_tally(go, less, p);
            let rest = collected(go, less, p);
            let n = less.len() as int;
            self.lemma_tally_same(
                n,
                |i: int|
                    if less[i] matches Some(q) && q == p {
                        go[i]
                    } else {
                        self.zero
                    },
                |i: int|
                    if sources[i] matches Some(q) && q == p {
                        go[i]
                    } else {
                        self.zero
                    },
            );
            self.lemma_neutral(fold(self.plus, self.zero, rest));
            if sources[n] matches Some(q) && q == p {
                let list = rest.push(go[n]);
                assert(list.drop_last() =~= rest);
            }
        }
    }
}

} // verus!
