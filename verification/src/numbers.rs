//! Factorials, binomial coefficients and Catalan numbers.
//!
//! The spec functions here are the mathematical definitions; the executable
//! functions compute them with machine integers and are proved to agree.

use vstd::prelude::*;

verus! {

/// n! = 1 * 2 * ... * n.
pub open spec fn factorial(n: nat) -> nat
    decreases n,
{
    if n == 0 {
        1
    } else {
        n * factorial((n - 1) as nat)
    }
}

/// The binomial coefficient C(n, k), by Pascal's rule (0 when k > n).
pub open spec fn binom(n: nat, k: nat) -> nat
    decreases n,
{
    if k == 0 {
        1
    } else if n == 0 {
        0
    } else {
        binom((n - 1) as nat, (k - 1) as nat) + binom((n - 1) as nat, k)
    }
}

/// The n-th Catalan number, C_n = (2n)! / (n! (n+1)!).
pub open spec fn catalan_number(n: nat) -> nat {
    factorial(2 * n) / (factorial(n) * factorial(n + 1))
}

/// Cancelling a positive common factor.
proof fn lemma_cancel(p: int, x: int, y: int)
    requires
        p > 0,
        x * p == y * p,
    ensures
        x == y,
{
    vstd::arithmetic::mul::lemma_mul_is_commutative(x, p);
    vstd::arithmetic::mul::lemma_mul_is_commutative(y, p);
    vstd::arithmetic::mul::lemma_mul_equality_converse(p, x, y);
}

pub proof fn lemma_factorial_positive(n: nat)
    ensures
        factorial(n) >= 1,
    decreases n,
{
    if n > 0 {
        lemma_factorial_positive((n - 1) as nat);
        assert(n * factorial((n - 1) as nat) >= 1) by (nonlinear_arith)
            requires
                n >= 1,
                factorial((n - 1) as nat) >= 1,
        ;
    }
}

/// C(n, k) = 0 when k exceeds n.
pub proof fn lemma_binom_above(n: nat, k: nat)
    requires
        k > n,
    ensures
        binom(n, k) == 0,
    decreases n,
{
    if n > 0 {
        lemma_binom_above((n - 1) as nat, (k - 1) as nat);
        lemma_binom_above((n - 1) as nat, k);
    }
}

/// C(n, k) * k! * (n-k)! = n!.
pub proof fn lemma_binom_factorial(n: nat, k: nat)
    requires
        k <= n,
    ensures
        binom(n, k) * factorial(k) * factorial((n - k) as nat) == factorial(n),
    decreases n,
{
    if k == 0 {
        assert(factorial(0) == 1);
        assert(binom(n, 0) == 1);
        assert(1 * 1 * factorial(n) == factorial(n)) by (nonlinear_arith);
    } else if k == n {
        lemma_binom_above((n - 1) as nat, k);
        lemma_binom_factorial((n - 1) as nat, (k - 1) as nat);
        assert(factorial(0) == 1);
        let a = binom((n - 1) as nat, (k - 1) as nat);
        assert(a == 1) by {
            lemma_factorial_positive((n - 1) as nat);
            let f = factorial((n - 1) as nat);
            assert(a * f == 1 * f) by (nonlinear_arith)
                requires
                    a * factorial((k - 1) as nat) * factorial(0) == f,
                    factorial(0) == 1,
                    (k - 1) as nat == (n - 1) as nat,
                    f == factorial((k - 1) as nat),
            ;
            lemma_cancel(f as int, a as int, 1);
        }
        assert(binom(n, k) == 1);
        assert(1 * factorial(k) * factorial(0) == factorial(k)) by (nonlinear_arith)
            requires
                factorial(0) == 1,
        ;
    } else {
        let m = (n - 1) as nat;
        lemma_binom_factorial(m, (k - 1) as nat);
        lemma_binom_factorial(m, k);
        let a = binom(m, (k - 1) as nat);
        let b = binom(m, k);
        let fk1 = factorial((k - 1) as nat);
        let fk = factorial(k);
        let fmk = factorial((m - k) as nat);
        let fnk = factorial((n - k) as nat);
        assert(fk == k * fk1);
        assert(fnk == (n - k) * fmk);
        assert((m - (k - 1)) as nat == (n - k) as nat);
        assert(a * fk1 * fnk == factorial(m));
        assert(b * fk * fmk == factorial(m));
        assert(factorial(n) == n * factorial(m));
        assert((a + b) * fk * fnk == n * factorial(m)) by (nonlinear_arith)
            requires
                fk == k * fk1,
                fnk == (n - k) * fmk,
                a * fk1 * fnk == factorial(m),
                b * fk * fmk == factorial(m),
                n >= k,
        ;
    }
}

/// C(n, k) = C(n, n - k).
pub proof fn lemma_binom_symmetric(n: nat, k: nat)
    requires
        k <= n,
    ensures
        binom(n, k) == binom(n, (n - k) as nat),
{
    lemma_binom_factorial(n, k);
    lemma_binom_factorial(n, (n - k) as nat);
    lemma_factorial_positive(k);
    lemma_factorial_positive((n - k) as nat);
    let a = binom(n, k);
    let b = binom(n, (n - k) as nat);
    let p = factorial(k) * factorial((n - k) as nat);
    assert((n - (n - k)) as nat == k);
    assert(a * p == b * p) by (nonlinear_arith)
        requires
            a * factorial(k) * factorial((n - k) as nat) == factorial(n),
            b * factorial((n - k) as nat) * factorial(k) == factorial(n),
            p == factorial(k) * factorial((n - k) as nat),
    ;
    assert(p > 0) by (nonlinear_arith)
        requires
            factorial(k) >= 1,
            factorial((n - k) as nat) >= 1,
            p == factorial(k) * factorial((n - k) as nat),
    ;
    lemma_cancel(p as int, a as int, b as int);
}

/// (i + 1) * C(n, i + 1) = (n - i) * C(n, i).
pub proof fn lemma_binom_step(n: nat, i: nat)
    requires
        i <= n,
    ensures
        (i + 1) * binom(n, i + 1) == (n - i) * binom(n, i),
{
    if i == n {
        lemma_binom_above(n, i + 1);
        assert((i + 1) * 0 == 0);
    } else {
        lemma_binom_factorial(n, i + 1);
        lemma_binom_factorial(n, i);
        lemma_factorial_positive(i);
        lemma_factorial_positive((n - i - 1) as nat);
        let a = binom(n, i + 1);
        let b = binom(n, i);
        let fi = factorial(i);
        let fr = factorial((n - i - 1) as nat);
        assert(factorial(i + 1) == (i + 1) * fi);
        assert(factorial((n - i) as nat) == (n - i) * fr);
        assert((n - (i + 1)) as nat == (n - i - 1) as nat);
        let p = fi * fr;
        assert(((i + 1) * a) * p == ((n - i) * b) * p) by (nonlinear_arith)
            requires
                a * ((i + 1) * fi) * fr == factorial(n),
                b * fi * ((n - i) * fr) == factorial(n),
                p == fi * fr,
        ;
        assert(p > 0) by (nonlinear_arith)
            requires
                fi >= 1,
                fr >= 1,
                p == fi * fr,
        ;
        lemma_cancel(p as int, ((i + 1) * a) as int, ((n - i) * b) as int);
    }
}

/// (n + 1) * C_n = C(2n, n): the Catalan number is an integer quotient.
pub proof fn lemma_catalan_binom(n: nat)
    ensures
        catalan_number(n) * (n + 1) == binom(2 * n, n),
        catalan_number(n) >= 1,
{
    let m = 2 * n;
    lemma_binom_step(m, n);
    let a = binom(m, n);
    let b = binom(m, n + 1);
    assert((n + 1) * b == n * a);
    assert(b <= a) by (nonlinear_arith)
        requires
            (n + 1) * b == n * a,
    ;
    let c = (a - b) as nat;
    assert(c * (n + 1) == a) by (nonlinear_arith)
        requires
            (n + 1) * b == n * a,
            c == a - b,
    ;
    lemma_binom_factorial(m, n);
    lemma_factorial_positive(n);
    let f = factorial(n);
    assert((m - n) as nat == n);
    assert(factorial(n + 1) == (n + 1) * f);
    let d = f * factorial(n + 1);
    assert(c * d == factorial(m)) by (nonlinear_arith)
        requires
            c * (n + 1) == a,
            a * f * f == factorial(m),
            d == f * ((n + 1) * f),
    ;
    assert(d > 0) by (nonlinear_arith)
        requires
            f >= 1,
            d == f * ((n + 1) * f),
    ;
    vstd::arithmetic::div_mod::lemma_div_by_multiple(c as int, d as int);
    assert(catalan_number(n) == c);
    // C(2n, n) >= 1 since it times n! n! is (2n)! >= 1.
    lemma_factorial_positive(m);
    assert(a >= 1) by (nonlinear_arith)
        requires
            a * f * f == factorial(m),
            factorial(m) >= 1,
    ;
    assert(c >= 1) by (nonlinear_arith)
        requires
            c * (n + 1) == a,
            a >= 1,
    ;
}

/// (i + 2) * C_{i+1} = 2 (2i + 1) * C_i.
pub proof fn lemma_catalan_step(i: nat)
    ensures
        (i + 2) * catalan_number(i + 1) == 2 * (2 * i + 1) * catalan_number(i),
{
    lemma_catalan_binom(i);
    lemma_catalan_binom(i + 1);
    let m = 2 * i;
    // C(2i+2, i+1) (i+1)!^2 = (2i+2)! = (2i+2)(2i+1) C(2i, i) i!^2
    lemma_binom_factorial(m + 2, i + 1);
    lemma_binom_factorial(m, i);
    lemma_factorial_positive(i);
    let f = factorial(i);
    let big = binom(m + 2, i + 1);
    let small = binom(m, i);
    assert(((m + 2) - (i + 1)) as nat == i + 1);
    assert((m - i) as nat == i);
    assert(factorial(i + 1) == (i + 1) * f);
    assert(factorial((m + 1) as nat) == (m + 1) * factorial(m));
    assert(factorial((m + 2) as nat) == (m + 2) * factorial((m + 1) as nat));
    let p = (i + 1) * f * f;
    let fm = factorial(m);
    let top = (m + 2) * ((m + 1) * fm);
    assert(big * (i + 1) * p == top) by (nonlinear_arith)
        requires
            big * ((i + 1) * f) * ((i + 1) * f) == top,
            p == (i + 1) * f * f,
    ;
    assert(2 * (2 * i + 1) * small * p == top) by (nonlinear_arith)
        requires
            small * f * f == fm,
            top == (m + 2) * ((m + 1) * fm),
            m == 2 * i,
            p == (i + 1) * f * f,
    ;
    assert(p > 0) by (nonlinear_arith)
        requires
            f >= 1,
            p == (i + 1) * f * f,
    ;
    lemma_cancel(p as int, (big * (i + 1)) as int, (2 * (2 * i + 1) * small) as int);
    let c0 = catalan_number(i);
    let c1 = catalan_number(i + 1);
    assert(2 * (i + 1) == m + 2);
    assert(((i + 2) * c1) * (i + 1) == (2 * (2 * i + 1) * c0) * (i + 1)) by (nonlinear_arith)
        requires
            c1 * (i + 2) == big,
            c0 * (i + 1) == small,
            big * (i + 1) == 2 * (2 * i + 1) * small,
    ;
    lemma_cancel((i + 1) as int, ((i + 2) * c1) as int, (2 * (2 * i + 1) * c0) as int);
}

/// The intermediate products of the multiplicative binomial loop fit in a `usize`.
pub open spec fn binomial_fits(n: nat, k: nat) -> bool {
    forall|i: nat|
        #![trigger binom(n, i)]
        i < k && i < n - k ==> binom(n, i) * (n - i) <= usize::MAX
}

/// Binomial coefficient C(n, k), computed multiplicatively.
pub fn binomial(n: usize, k: usize) -> (r: usize)
    requires
        binomial_fits(n as nat, k as nat),
    ensures
        r == binom(n as nat, k as nat),
{
    if k > n {
        proof {
            lemma_binom_above(n as nat, k as nat);
        }
        return 0;
    }
    if k == 0 || k == n {
        proof {
            if k == n {
                lemma_binom_symmetric(n as nat, k as nat);
            }
        }
        return 1;
    }
    let kk = if k < n - k {
        k
    } else {
        n - k
    };
    proof {
        lemma_binom_symmetric(n as nat, k as nat);
    }
    let mut result: usize = 1;
    let mut i: usize = 0;
    while i < kk
        invariant
            0 < k < n,
            kk == k || kk == n - k,
            kk <= k,
            kk <= n - k,
            i <= kk,
            result == binom(n as nat, i as nat),
            binomial_fits(n as nat, k as nat),
        decreases kk - i,
    {
        proof {
            lemma_binom_step(n as nat, i as nat);
            assert(binom(n as nat, i as nat) * (n - i) <= usize::MAX);
            assert((result * (n - i)) % (i + 1) == 0) by {
                vstd::arithmetic::div_mod::lemma_mod_multiples_basic(
                    binom(n as nat, (i + 1) as nat) as int,
                    (i + 1) as int,
                );
                assert(result * (n - i) == binom(n as nat, (i + 1) as nat) * (i + 1)) by (nonlinear_arith)
                    requires
                        (i + 1) * binom(n as nat, (i + 1) as nat) == (n - i) * binom(n as nat, i as nat),
                        result == binom(n as nat, i as nat),
                ;
            }
        }
        let prod = result * (n - i);
        proof {
            assert(prod == binom(n as nat, (i + 1) as nat) * (i + 1)) by (nonlinear_arith)
                requires
                    (i + 1) * binom(n as nat, (i + 1) as nat) == (n - i) * binom(n as nat, i as nat),
                    result == binom(n as nat, i as nat),
                    prod == result * (n - i),
            ;
            vstd::arithmetic::div_mod::lemma_div_by_multiple(
                binom(n as nat, (i + 1) as nat) as int,
                (i + 1) as int,
            );
        }
        result = prod / (i + 1);
        i = i + 1;
    }
    result
}


/// Whether `binomial(n, k)` can compute without overflow.
pub fn binomial_in_range(n: usize, k: usize) -> (r: bool)
    ensures
        r == binomial_fits(n as nat, k as nat),
{
    if k == 0 || k >= n {
        return true;
    }
    let kk = if k < n - k {
        k
    } else {
        n - k
    };
    let mut result: usize = 1;
    let mut i: usize = 0;
    while i < kk
        invariant
            0 < k < n,
            kk <= k,
            kk <= n - k,
            kk == k || kk == n - k,
            i <= kk,
            result == binom(n as nat, i as nat),
            forall|j: nat| j < i ==> #[trigger] binom(n as nat, j) * (n - j) <= usize::MAX,
        decreases kk - i,
    {
        let prod = result.checked_mul(n - i);
        match prod {
            None => {
                proof {
                    assert(binom(n as nat, i as nat) * (n - i) > usize::MAX);
                }
                return false;
            },
            Some(p) => {
                proof {
                    lemma_binom_step(n as nat, i as nat);
                    assert(p == binom(n as nat, (i + 1) as nat) * (i + 1)) by (nonlinear_arith)
                        requires
                            (i + 1) * binom(n as nat, (i + 1) as nat) == (n - i) * binom(
                                n as nat,
                                i as nat,
                            ),
                            result == binom(n as nat, i as nat),
                            p == result * (n - i),
                    ;
                    vstd::arithmetic::div_mod::lemma_div_by_multiple(
                        binom(n as nat, (i + 1) as nat) as int,
                        (i + 1) as int,
                    );
                }
                result = p / (i + 1);
            },
        }
        i = i + 1;
    }
    true
}
/// The Narayana number N(n, k + 1) = C(n, k) C(n, k + 1) / n (n >= 1).
pub open spec fn narayana_number(n: nat, k: nat) -> nat {
    (binom(n, k) * binom(n, k + 1)) / n
}

/// Both binomial coefficients, and their product, fit in a `usize`.
pub open spec fn narayana_fits(n: nat, k: nat) -> bool {
    &&& binomial_fits(n, k)
    &&& binomial_fits(n, k + 1)
    &&& binom(n, k) * binom(n, k + 1) <= usize::MAX
}

/// The Narayana number N(n, k + 1) = C(n, k) C(n, k + 1) / n, for 0 <= k < n.
pub fn narayana(n: usize, k: usize) -> (r: usize)
    requires
        k < n,
        narayana_fits(n as nat, k as nat),
    ensures
        r == narayana_number(n as nat, k as nat),
{
    let a = binomial(n, k);
    let b = binomial(n, k + 1);
    a * b / n
}

/// Whether `narayana(n, k)` can be computed without overflow (0 <= k < n).
pub fn narayana_in_range(n: usize, k: usize) -> (r: bool)
    requires
        k < n,
    ensures
        r == narayana_fits(n as nat, k as nat),
{
    if !binomial_in_range(n, k) || !binomial_in_range(n, k + 1) {
        return false;
    }
    let a = binomial(n, k);
    let b = binomial(n, k + 1);
    a.checked_mul(b).is_some()
}

} // verus!
