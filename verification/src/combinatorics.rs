//! Binomial coefficients.

use vstd::prelude::*;

verus! {

/// The number of ways to pick `k` things out of `n`, by Pascal's rule; 0
/// where either number is negative.
pub open spec fn binom(n: int, k: int) -> nat
    decreases n,
{
    if n < 0 || k < 0 {
        0
    } else if k == 0 {
        1
    } else if n == 0 {
        0
    } else {
        binom(n - 1, k - 1) + binom(n - 1, k)
    }
}

/// There is no way to pick more than there is.
pub proof fn lemma_binom_beyond(n: int, k: int)
    requires
        0 <= n < k,
    ensures
        binom(n, k) == 0,
    decreases n,
{
    if n > 0 {
        lemma_binom_beyond(n - 1, k - 1);
        lemma_binom_beyond(n - 1, k);
    }
}

/// There is one way to pick everything.
pub proof fn lemma_binom_full(n: int)
    requires
        0 <= n,
    ensures
        binom(n, n) == 1,
    decreases n,
{
    if n > 0 {
        lemma_binom_full(n - 1);
        lemma_binom_beyond(n - 1, n);
    }
}

/// More to pick from never gives fewer ways.
pub proof fn lemma_binom_monotone(m: int, n: int, k: int)
    requires
        m <= n,
    ensures
        binom(m, k) <= binom(n, k),
    decreases n - m,
{
    if m < n {
        lemma_binom_monotone(m, n - 1, k);
        if n - 1 < 0 || k < 0 {
        } else if k == 0 {
        } else {
            assert(binom(n, k) == binom(n - 1, k - 1) + binom(n - 1, k));
        }
    }
}

/// `k!`, the number of ways to put `k` things in order.
pub open spec fn factorial(k: int) -> nat
    decreases k,
{
    if k <= 0 {
        1
    } else {
        (k * factorial(k - 1)) as nat
    }
}

/// `n (n - 1) ... (n - k + 1)`, the number of ways to pick `k` things out
/// of `n` in order.
pub open spec fn falling(n: int, k: int) -> int
    decreases k,
{
    if k <= 0 {
        1
    } else {
        n * falling(n - 1, k - 1)
    }
}

/// Picking `k` things and then one of them to mark is picking the marked
/// one first and then the `k - 1` others.
pub proof fn lemma_binom_absorb(n: int, k: int)
    requires
        1 <= n,
        1 <= k,
    ensures
        k * binom(n, k) == n * binom(n - 1, k - 1),
    decreases n,
{
    let b = binom(n - 1, k - 1) as int;
    let c = binom(n - 1, k) as int;
    assert(binom(n, k) == b + c);
    if n == 1 {
        if k > 1 {
            lemma_binom_beyond(0, k - 1);
            lemma_binom_beyond(0, k);
        }
        assert(k * binom(n, k) == n * binom(n - 1, k - 1)) by (nonlinear_arith)
            requires
                n == 1,
                binom(n, k) == b + c,
                binom(n - 1, k - 1) == b,
                (k == 1 && b == 1 && c == 0) || (b == 0 && c == 0),
        ;
    } else {
        lemma_binom_absorb(n - 1, k);
        let d = binom(n - 2, k - 1) as int;
        assert(k * c == (n - 1) * d);
        if k == 1 {
            assert(b == 1 && d == 1);
            assert(k * binom(n, k) == n * binom(n - 1, k - 1)) by (nonlinear_arith)
                requires
                    k == 1,
                    binom(n, k) == b + c,
                    binom(n - 1, k - 1) == b,
                    b == 1,
                    d == 1,
                    k * c == (n - 1) * d,
            ;
        } else {
            lemma_binom_absorb(n - 1, k - 1);
            let e = binom(n - 2, k - 2) as int;
            assert((k - 1) * b == (n - 1) * e);
            assert(b == e + d);
            assert(k * binom(n, k) == n * binom(n - 1, k - 1)) by (nonlinear_arith)
                requires
                    binom(n, k) == b + c,
                    binom(n - 1, k - 1) == b,
                    k * c == (n - 1) * d,
                    (k - 1) * b == (n - 1) * e,
                    b == e + d,
            ;
        }
    }
}

/// The binomial coefficient is the falling product over the factorial:
/// `binom(n, k) k! = n (n - 1) ... (n - k + 1)`.
pub proof fn lemma_binom_formula(n: int, k: int)
    requires
        0 <= n,
        0 <= k,
    ensures
        binom(n, k) * factorial(k) == falling(n, k),
    decreases k,
{
    if k == 0 {
        assert(binom(n, k) * factorial(k) == falling(n, k)) by (nonlinear_arith)
            requires
                binom(n, k) == 1,
                factorial(k) == 1,
                falling(n, k) == 1,
        ;
    } else if n == 0 {
        assert(binom(n, k) * factorial(k) == falling(n, k)) by (nonlinear_arith)
            requires
                binom(n, k) == 0,
                n == 0,
                falling(n, k) == n * falling(n - 1, k - 1),
        ;
    } else {
        lemma_binom_absorb(n, k);
        lemma_binom_formula(n - 1, k - 1);
        let b = binom(n, k) as int;
        let c = binom(n - 1, k - 1) as int;
        let f = factorial(k - 1) as int;
        let g = falling(n - 1, k - 1);
        assert(factorial(k) == k * f);
        assert(b * factorial(k) == falling(n, k)) by (nonlinear_arith)
            requires
                factorial(k) == k * f,
                k * b == n * c,
                c * f == g,
                falling(n, k) == n * g,
        ;
    }
}

pub const CEILING: u128 = 0x1_0000_0000_0000_0000;

/// `x`, held down to one more than `u64::MAX`.
pub open spec fn held(x: nat) -> int {
    if x > CEILING {
        CEILING as int
    } else {
        x as int
    }
}

/// `binom(n, k)`; `None` where it is above `u64::MAX`.
pub fn binomial_of(n: usize, k: usize) -> (r: Option<u64>)
    ensures
        match r {
            Some(c) => c == binom(n as int, k as int),
            None => binom(n as int, k as int) > u64::MAX,
        },
{
    if k > n {
        proof {
            lemma_binom_beyond(n as int, k as int);
        }
        return Some(0);
    }
    if k == n {
        proof {
            lemma_binom_full(n as int);
        }
        return Some(1);
    }
    let mut row: Vec<u128> = Vec::new();
    row.push(1);
    let mut t: usize = 0;
    while t < k
        invariant
            t <= k < n,
            row@.len() == t + 1,
            forall|j: int| 0 <= j <= t ==> #[trigger] row@[j] == held(binom(0, j)),
        decreases k - t,
    {
        row.push(0);
        t += 1;
    }
    let mut m: usize = 0;
    while m < n
        invariant
            m <= n,
            k < n,
            row@.len() == k + 1,
            forall|j: int| 0 <= j <= k ==> #[trigger] row@[j] == held(binom(m as int, j)),
        decreases n - m,
    {
        let mut j: usize = k;
        while j > 0
            invariant
                j <= k,
                m < n,
                row@.len() == k + 1,
                forall|t: int| j < t <= k ==> #[trigger] row@[t] == held(binom(m + 1, t)),
                forall|t: int| 0 <= t <= j ==> #[trigger] row@[t] == held(binom(m as int, t)),
            decreases j,
        {
            let a: u128 = row[j];
            let b: u128 = row[j - 1];
            assert(a == held(binom(m as int, j as int)));
            assert(b == held(binom(m as int, j - 1)));
            let s: u128 = a + b;
            let c: u128 = if s > CEILING {
                CEILING
            } else {
                s
            };
            assert(c == held(binom(m + 1, j as int)));
            row.set(j, c);
            j -= 1;
        }
        m += 1;
    }
    let c: u128 = row[k];
    assert(c == held(binom(n as int, k as int)));
    if c < CEILING {
        Some(c as u64)
    } else {
        None
    }
}

/// `binom(n, k)`, which is 0 where `n` or `k` is negative or `k` is above
/// `n`; `None` where it is above `u64::MAX`.
pub fn binomial(n: i32, k: i32) -> (r: Option<u64>)
    ensures
        match r {
            Some(c) => c == binom(n as int, k as int),
            None => binom(n as int, k as int) > u64::MAX,
        },
{
    if n < 0 || k < 0 {
        Some(0)
    } else {
        binomial_of(n as usize, k as usize)
    }
}

/// The smaller of two numbers.
pub fn min(a: i32, b: i32) -> (r: i32)
    ensures
        r <= a,
        r <= b,
        r == a || r == b,
{
    if a < b {
        return a;
    }
    b
}

} // verus!
