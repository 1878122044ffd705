//! Finite sums over a list of vertices, the shape of every count in this crate.

use vstd::prelude::*;
use crate::graph::Vertex;

verus! {

/// The sum of `f` over the entries of `s`.
pub open spec fn sum_over(s: Seq<Vertex>, f: spec_fn(Vertex) -> nat) -> nat
    decreases s.len(),
{
    if s.len() == 0 {
        0
    } else {
        sum_over(s.drop_last(), f) + f(s.last())
    }
}

/// Taking one more entry adds that entry's term.
pub proof fn lemma_sum_take_succ(s: Seq<Vertex>, f: spec_fn(Vertex) -> nat, n: int)
    requires
        0 <= n < s.len(),
    ensures
        sum_over(s.take(n + 1), f) == sum_over(s.take(n), f) + f(s[n]),
{
    assert(s.take(n + 1).drop_last() =~= s.take(n));
    assert(s.take(n + 1).last() == s[n]);
}

/// The sum over a prefix is no more than the sum over the whole list.
pub proof fn lemma_sum_prefix_le(s: Seq<Vertex>, f: spec_fn(Vertex) -> nat, n: int)
    requires
        0 <= n <= s.len(),
    ensures
        sum_over(s.take(n), f) <= sum_over(s, f),
    decreases s.len(),
{
    if n == s.len() {
        assert(s.take(n) =~= s);
    } else {
        lemma_sum_prefix_le(s.drop_last(), f, n);
        assert(s.drop_last().take(n) =~= s.take(n));
    }
}

/// A sum whose terms are pointwise below those of another is below it.
pub proof fn lemma_sum_le(s: Seq<Vertex>, f: spec_fn(Vertex) -> nat, h: spec_fn(Vertex) -> nat)
    requires
        forall|x: Vertex| s.contains(x) ==> #[trigger] f(x) <= h(x),
    ensures
        sum_over(s, f) <= sum_over(s, h),
    decreases s.len(),
{
    if s.len() > 0 {
        let t = s.drop_last();
        assert forall|x: Vertex| t.contains(x) implies #[trigger] f(x) <= h(x) by {
            let i = choose|i: int| 0 <= i < t.len() && t[i] == x;
            assert(s[i] == x);
        }
        lemma_sum_le(t, f, h);
        assert(s.contains(s.last())) by {
            assert(s[s.len() - 1] == s.last());
        }
    }
}

/// A sum of terms that are all 0 is 0.
pub proof fn lemma_sum_zero(s: Seq<Vertex>, f: spec_fn(Vertex) -> nat)
    requires
        forall|x: Vertex| s.contains(x) ==> #[trigger] f(x) == 0,
    ensures
        sum_over(s, f) == 0,
    decreases s.len(),
{
    if s.len() > 0 {
        let t = s.drop_last();
        assert forall|x: Vertex| t.contains(x) implies #[trigger] f(x) == 0 by {
            let i = choose|i: int| 0 <= i < t.len() && t[i] == x;
            assert(s[i] == x);
        }
        lemma_sum_zero(t, f);
        assert(s.contains(s.last())) by {
            assert(s[s.len() - 1] == s.last());
        }
    }
}

/// Sums of terms that agree on the list agree.
pub proof fn lemma_sum_eq(s: Seq<Vertex>, f: spec_fn(Vertex) -> nat, h: spec_fn(Vertex) -> nat)
    requires
        forall|x: Vertex| s.contains(x) ==> #[trigger] f(x) == h(x),
    ensures
        sum_over(s, f) == sum_over(s, h),
{
    lemma_sum_le(s, f, h);
    lemma_sum_le(s, h, f);
}

/// The sum of a sum of two terms is the sum of the two sums.
pub proof fn lemma_sum_add(
    s: Seq<Vertex>,
    f: spec_fn(Vertex) -> nat,
    h: spec_fn(Vertex) -> nat,
    fh: spec_fn(Vertex) -> nat,
)
    requires
        forall|x: Vertex| s.contains(x) ==> #[trigger] fh(x) == f(x) + h(x),
    ensures
        sum_over(s, fh) == sum_over(s, f) + sum_over(s, h),
    decreases s.len(),
{
    if s.len() > 0 {
        let t = s.drop_last();
        assert forall|x: Vertex| t.contains(x) implies #[trigger] fh(x) == f(x) + h(x) by {
            let i = choose|i: int| 0 <= i < t.len() && t[i] == x;
            assert(s[i] == x);
        }
        lemma_sum_add(t, f, h, fh);
        assert(s.contains(s.last())) by {
            assert(s[s.len() - 1] == s.last());
        }
    }
}

/// Taking one entry out of a list takes its term out of the sum.
pub proof fn lemma_sum_remove(s: Seq<Vertex>, f: spec_fn(Vertex) -> nat, p: int)
    requires
        0 <= p < s.len(),
    ensures
        sum_over(s, f) == sum_over(s.remove(p), f) + f(s[p]),
    decreases s.len(),
{
    if p == s.len() - 1 {
        assert(s.remove(p) =~= s.drop_last());
    } else {
        lemma_sum_remove(s.drop_last(), f, p);
        assert(s.remove(p).drop_last() =~= s.drop_last().remove(p));
        assert(s.remove(p).last() == s.last());
    }
}

/// A sum over a part of a list is the sum over the list of the terms that
/// belong to the part. Neither list may hold anything twice.
pub proof fn lemma_sum_restrict(
    part: Seq<Vertex>,
    all: Seq<Vertex>,
    f: spec_fn(Vertex) -> nat,
    fr: spec_fn(Vertex) -> nat,
)
    requires
        part.no_duplicates(),
        all.no_duplicates(),
        forall|x: Vertex| part.contains(x) ==> all.contains(x),
        forall|x: Vertex|
            all.contains(x) ==> #[trigger] fr(x) == (if part.contains(x) {
                f(x)
            } else {
                0
            }),
    ensures
        sum_over(part, f) == sum_over(all, fr),
    decreases all.len(),
{
    if all.len() == 0 {
        if part.len() > 0 {
            assert(part.contains(part[0]));
        }
    } else {
        let rest = all.drop_last();
        let y = all.last();
        assert(all[all.len() - 1] == y);
        assert(all.contains(y));
        assert forall|x: Vertex| rest.contains(x) implies all.contains(x) && x != y by {
            let i = choose|i: int| 0 <= i < rest.len() && rest[i] == x;
            assert(all[i] == x);
        }
        if part.contains(y) {
            let p = part.index_of(y);
            assert(0 <= p < part.len() && part[p] == y);
            let sub = part.remove(p);
            assert forall|x: Vertex| sub.contains(x) <==> (part.contains(x) && x != y) by {
                if sub.contains(x) {
                    let i = choose|i: int| 0 <= i < sub.len() && sub[i] == x;
                    if i < p {
                        assert(part[i] == x);
                    } else {
                        assert(part[i + 1] == x);
                    }
                }
                if part.contains(x) && x != y {
                    let i = choose|i: int| 0 <= i < part.len() && part[i] == x;
                    if i < p {
                        assert(sub[i] == x);
                    } else {
                        assert(sub[i - 1] == x);
                    }
                }
            }
            assert forall|x: Vertex| sub.contains(x) implies rest.contains(x) by {
                let i = choose|i: int| 0 <= i < all.len() && all[i] == x;
                assert(rest[i] == x);
            }
            lemma_sum_restrict(sub, rest, f, fr);
            lemma_sum_remove(part, f, p);
        } else {
            assert forall|x: Vertex| part.contains(x) implies rest.contains(x) by {
                let i = choose|i: int| 0 <= i < all.len() && all[i] == x;
                assert(rest[i] == x);
            }
            lemma_sum_restrict(part, rest, f, fr);
        }
    }
}

// ---------------------------------------------------------------------
// Sums over two lists
// ---------------------------------------------------------------------

/// `f2` with its first argument fixed.
pub open spec fn row(f2: spec_fn(Vertex, Vertex) -> nat, a: Vertex) -> spec_fn(Vertex) -> nat {
    |b: Vertex| f2(a, b)
}

/// For each `a`, the sum of `f2(a, b)` over the `b` of `t`.
pub open spec fn rows(t: Seq<Vertex>, f2: spec_fn(Vertex, Vertex) -> nat) -> spec_fn(Vertex) -> nat {
    |a: Vertex| sum_over(t, row(f2, a))
}

/// The sum of `f2(a, b)` over the `a` of `s` and the `b` of `t`.
pub open spec fn sum2(s: Seq<Vertex>, t: Seq<Vertex>, f2: spec_fn(Vertex, Vertex) -> nat) -> nat {
    sum_over(s, rows(t, f2))
}

/// `f2` with its arguments in the other order.
pub open spec fn flip(f2: spec_fn(Vertex, Vertex) -> nat) -> spec_fn(Vertex, Vertex) -> nat {
    |a: Vertex, b: Vertex| f2(b, a)
}

/// A double sum may be taken in either order.
pub proof fn lemma_swap2(s: Seq<Vertex>, t: Seq<Vertex>, f2: spec_fn(Vertex, Vertex) -> nat)
    ensures
        sum2(s, t, f2) == sum2(t, s, flip(f2)),
    decreases s.len(),
{
    let g2 = flip(f2);
    if s.len() == 0 {
        assert forall|b: Vertex| t.contains(b) implies #[trigger] rows(s, g2)(b) == 0 by {}
        lemma_sum_zero(t, rows(s, g2));
    } else {
        let s1 = s.drop_last();
        let a0 = s.last();
        lemma_swap2(s1, t, f2);
        assert forall|b: Vertex| t.contains(b) implies #[trigger] rows(s, g2)(b) == rows(s1, g2)(b)
            + row(f2, a0)(b) by {
            assert(row(g2, b)(a0) == f2(a0, b));
        }
        lemma_sum_add(t, rows(s1, g2), row(f2, a0), rows(s, g2));
    }
}

// ---------------------------------------------------------------------
// Sums over triples of one list
// ---------------------------------------------------------------------

/// `p` with its first two arguments fixed.
pub open spec fn inner3(p: spec_fn(Vertex, Vertex, Vertex) -> nat, i: Vertex, j: Vertex) -> spec_fn(
    Vertex,
) -> nat {
    |k: Vertex| p(i, j, k)
}

/// For each `j`, the sum of `p(i, j, k)` over the `k` of `s`.
pub open spec fn mid3(s: Seq<Vertex>, p: spec_fn(Vertex, Vertex, Vertex) -> nat, i: Vertex) -> spec_fn(
    Vertex,
) -> nat {
    |j: Vertex| sum_over(s, inner3(p, i, j))
}

/// For each `i`, the sum of `p(i, j, k)` over the `j` and `k` of `s`.
pub open spec fn outer3(s: Seq<Vertex>, p: spec_fn(Vertex, Vertex, Vertex) -> nat) -> spec_fn(
    Vertex,
) -> nat {
    |i: Vertex| sum_over(s, mid3(s, p, i))
}

/// The sum of `p` over all triples of entries of `s`.
pub open spec fn sum3(s: Seq<Vertex>, p: spec_fn(Vertex, Vertex, Vertex) -> nat) -> nat {
    sum_over(s, outer3(s, p))
}

/// `p` with its first argument fixed.
pub open spec fn slice(p: spec_fn(Vertex, Vertex, Vertex) -> nat, i: Vertex) -> spec_fn(
    Vertex,
    Vertex,
) -> nat {
    |j: Vertex, k: Vertex| p(i, j, k)
}

/// For each `i` and `j`, the sum of `p(i, j, k)` over the `k` of `s`.
pub open spec fn pairs(s: Seq<Vertex>, p: spec_fn(Vertex, Vertex, Vertex) -> nat) -> spec_fn(
    Vertex,
    Vertex,
) -> nat {
    |i: Vertex, j: Vertex| sum_over(s, inner3(p, i, j))
}

/// Triple sums of terms that agree on the list agree.
pub proof fn lemma_sum3_eq(
    s: Seq<Vertex>,
    p: spec_fn(Vertex, Vertex, Vertex) -> nat,
    q: spec_fn(Vertex, Vertex, Vertex) -> nat,
)
    requires
        forall|i: Vertex, j: Vertex, k: Vertex|
            s.contains(i) && s.contains(j) && s.contains(k) ==> #[trigger] p(i, j, k) == q(i, j, k),
    ensures
        sum3(s, p) == sum3(s, q),
{
    assert forall|i: Vertex| s.contains(i) implies #[trigger] outer3(s, p)(i) == outer3(s, q)(i) by {
        assert forall|j: Vertex| s.contains(j) implies #[trigger] mid3(s, p, i)(j) == mid3(s, q, i)(
            j,
        ) by {
            assert forall|k: Vertex| s.contains(k) implies #[trigger] inner3(p, i, j)(k) == inner3(
                q,
                i,
                j,
            )(k) by {
                assert(p(i, j, k) == q(i, j, k));
            }
            lemma_sum_eq(s, inner3(p, i, j), inner3(q, i, j));
        }
        lemma_sum_eq(s, mid3(s, p, i), mid3(s, q, i));
    }
    lemma_sum_eq(s, outer3(s, p), outer3(s, q));
}

/// The triple sum of a sum of two terms is the sum of the two triple sums.
pub proof fn lemma_sum3_add(
    s: Seq<Vertex>,
    p: spec_fn(Vertex, Vertex, Vertex) -> nat,
    q: spec_fn(Vertex, Vertex, Vertex) -> nat,
    r: spec_fn(Vertex, Vertex, Vertex) -> nat,
)
    requires
        forall|i: Vertex, j: Vertex, k: Vertex| #[trigger] r(i, j, k) == p(i, j, k) + q(i, j, k),
    ensures
        sum3(s, r) == sum3(s, p) + sum3(s, q),
{
    assert forall|i: Vertex| s.contains(i) implies #[trigger] outer3(s, r)(i) == outer3(s, p)(i)
        + outer3(s, q)(i) by {
        assert forall|j: Vertex| s.contains(j) implies #[trigger] mid3(s, r, i)(j) == mid3(s, p, i)(
            j,
        ) + mid3(s, q, i)(j) by {
            assert forall|k: Vertex| s.contains(k) implies #[trigger] inner3(r, i, j)(k) == inner3(
                p,
                i,
                j,
            )(k) + inner3(q, i, j)(k) by {
                assert(r(i, j, k) == p(i, j, k) + q(i, j, k));
            }
            lemma_sum_add(s, inner3(p, i, j), inner3(q, i, j), inner3(r, i, j));
        }
        lemma_sum_add(s, mid3(s, p, i), mid3(s, q, i), mid3(s, r, i));
    }
    lemma_sum_add(s, outer3(s, p), outer3(s, q), outer3(s, r));
}

/// A triple sum does not change when the last two places trade roles.
pub proof fn lemma_sum3_swap23(
    s: Seq<Vertex>,
    p: spec_fn(Vertex, Vertex, Vertex) -> nat,
    q: spec_fn(Vertex, Vertex, Vertex) -> nat,
)
    requires
        forall|i: Vertex, j: Vertex, k: Vertex| #[trigger] q(i, j, k) == p(i, k, j),
    ensures
        sum3(s, p) == sum3(s, q),
{
    assert forall|i: Vertex| s.contains(i) implies #[trigger] outer3(s, p)(i) == outer3(s, q)(i) by {
        let f2 = slice(p, i);
        assert forall|j: Vertex| s.contains(j) implies #[trigger] mid3(s, p, i)(j) == rows(s, f2)(
            j,
        ) by {
            assert forall|k: Vertex| s.contains(k) implies #[trigger] inner3(p, i, j)(k) == row(
                f2,
                j,
            )(k) by {}
            lemma_sum_eq(s, inner3(p, i, j), row(f2, j));
        }
        lemma_sum_eq(s, mid3(s, p, i), rows(s, f2));
        lemma_swap2(s, s, f2);
        let g2 = flip(f2);
        assert forall|j: Vertex| s.contains(j) implies #[trigger] rows(s, g2)(j) == mid3(s, q, i)(
            j,
        ) by {
            assert forall|k: Vertex| s.contains(k) implies #[trigger] row(g2, j)(k) == inner3(
                q,
                i,
                j,
            )(k) by {
                assert(q(i, j, k) == p(i, k, j));
            }
            lemma_sum_eq(s, row(g2, j), inner3(q, i, j));
        }
        lemma_sum_eq(s, rows(s, g2), mid3(s, q, i));
    }
    lemma_sum_eq(s, outer3(s, p), outer3(s, q));
}

/// A triple sum does not change when the first two places trade roles.
pub proof fn lemma_sum3_swap12(
    s: Seq<Vertex>,
    p: spec_fn(Vertex, Vertex, Vertex) -> nat,
    q: spec_fn(Vertex, Vertex, Vertex) -> nat,
)
    requires
        forall|i: Vertex, j: Vertex, k: Vertex| #[trigger] q(i, j, k) == p(j, i, k),
    ensures
        sum3(s, p) == sum3(s, q),
{
    let f2 = pairs(s, p);
    assert forall|i: Vertex| s.contains(i) implies #[trigger] outer3(s, p)(i) == rows(s, f2)(i) by {
        assert forall|j: Vertex| s.contains(j) implies #[trigger] mid3(s, p, i)(j) == row(f2, i)(
            j,
        ) by {}
        lemma_sum_eq(s, mid3(s, p, i), row(f2, i));
    }
    lemma_sum_eq(s, outer3(s, p), rows(s, f2));
    lemma_swap2(s, s, f2);
    let g2 = flip(f2);
    assert forall|i: Vertex| s.contains(i) implies #[trigger] rows(s, g2)(i) == outer3(s, q)(i) by {
        assert forall|j: Vertex| s.contains(j) implies #[trigger] row(g2, i)(j) == mid3(s, q, i)(
            j,
        ) by {
            assert forall|k: Vertex| s.contains(k) implies #[trigger] inner3(p, j, i)(k) == inner3(
                q,
                i,
                j,
            )(k) by {
                assert(q(i, j, k) == p(j, i, k));
            }
            lemma_sum_eq(s, inner3(p, j, i), inner3(q, i, j));
        }
        lemma_sum_eq(s, row(g2, i), mid3(s, q, i));
    }
    lemma_sum_eq(s, rows(s, g2), outer3(s, q));
}

/// Adds a partial count to a running total; `None` stands for a count above
/// `u64::MAX`.
pub fn accumulate(total: u64, part: Option<u64>) -> (r: Option<u64>)
    ensures
        match r {
            Some(t) => part is Some && t == total + part->Some_0,
            None => part is None || total + part->Some_0 > u64::MAX,
        },
{
    match part {
        Some(c) => total.checked_add(c),
        None => None,
    }
}

} // verus!
