//! Division and divisibility lemmas shared by the two codecs: stepping a
//! quotient through a chain of unit factors, and bounding a product by a
//! quotient.

use vstd::prelude::*;

verus! {

/// For positive `f`, `a * f <= m` exactly when `a <= m / f`.
pub proof fn lemma_mul_div_bound(a: nat, f: nat, m: nat)
    requires
        f >= 1,
    ensures
        a * f <= m <==> a <= m / f,
{
    let q = m / f;
    let r = m % f;
    assert(m == f * q + r && r < f) by {
        vstd::arithmetic::div_mod::lemma_fundamental_div_mod(m as int, f as int);
        vstd::arithmetic::div_mod::lemma_mod_division_less_than_divisor(m as int, f as int);
    }
    if a <= q {
        assert(a * f <= m) by (nonlinear_arith)
            requires
                a <= q,
                f >= 1,
                m == f * q + r,
                r >= 0,
        ;
    }
    if a * f <= m {
        assert(a <= q) by (nonlinear_arith)
            requires
                a * f <= m,
                m == f * q + r,
                0 <= r < f,
                f >= 1,
        ;
    }
}

/// What a product of factors divides, the first factor divides.
pub proof fn lemma_divides_factor(n: nat, a: nat, b: nat)
    requires
        a >= 1,
        b >= 1,
        n % (a * b) == 0,
    ensures
        n % a == 0,
{
    let q = n as int / (a * b) as int;
    assert(a * b >= 1) by (nonlinear_arith)
        requires
            a >= 1,
            b >= 1,
    ;
    vstd::arithmetic::div_mod::lemma_fundamental_div_mod(n as int, (a * b) as int);
    assert(n == q * (a as int * b as int));
    assert(n == (q * b) * a) by (nonlinear_arith)
        requires
            n == q * (a as int * b as int),
    ;
    vstd::arithmetic::div_mod::lemma_mod_multiples_basic(q * b, a as int);
}

/// One more division by the step `s` moves the quotient from the factor
/// `f` to the factor `f * s`.
pub proof fn lemma_div_step(n: nat, f: nat, s: nat, v: nat)
    requires
        f >= 1,
        s >= 1,
        n % f == 0,
        v == n / f,
        v % s == 0,
        v > 0,
    ensures
        n % (f * s) == 0,
        v / s == n / (f * s),
        v / s > 0,
{
    let q = (v / s) as int;
    vstd::arithmetic::div_mod::lemma_fundamental_div_mod(n as int, f as int);
    vstd::arithmetic::div_mod::lemma_fundamental_div_mod(v as int, s as int);
    assert(n == v * f);
    assert(v == q * s);
    assert(n == q * (f as int * s as int)) by (nonlinear_arith)
        requires
            n == v * f,
            v as int == q * s,
    ;
    assert(f * s >= 1) by (nonlinear_arith)
        requires
            f >= 1,
            s >= 1,
    ;
    vstd::arithmetic::div_mod::lemma_mod_multiples_basic(q, (f * s) as int);
    vstd::arithmetic::div_mod::lemma_div_by_multiple(q, (f * s) as int);
    assert(q > 0) by (nonlinear_arith)
        requires
            v as int == q * s,
            v > 0,
            s >= 1,
    ;
}

/// Where a value divides by both a factor and that factor times a step,
/// the quotient by the factor divides by the step.
pub proof fn lemma_quotient_divisible(n: nat, f: nat, s: nat)
    requires
        f >= 1,
        s >= 1,
        n % f == 0,
        n % (f * s) == 0,
    ensures
        (n / f) % s == 0,
{
    assert(f * s >= 1) by (nonlinear_arith)
        requires
            f >= 1,
            s >= 1,
    ;
    let q = n as int / (f * s) as int;
    vstd::arithmetic::div_mod::lemma_fundamental_div_mod(n as int, (f * s) as int);
    assert(n == q * (f as int * s as int));
    assert(n == (q * s) * f) by (nonlinear_arith)
        requires
            n == q * (f as int * s as int),
    ;
    vstd::arithmetic::div_mod::lemma_div_by_multiple(q * s, f as int);
    vstd::arithmetic::div_mod::lemma_mod_multiples_basic(q, s as int);
}

/// Soundness of a one-fractional-digit decomposition: the quotient by `f`
/// plus the first decimal digit of the remainder's fraction of `f`
/// reconstruct a value that undershoots the true one by less than `f`.
pub proof fn lemma_frac_approx(total: nat, f: nat)
    requires
        f >= 1,
    ensures
        ({
            let q = total / f;
            let rem = total % f;
            let frac: nat = if rem == 0 {
                0
            } else {
                rem * 10 / f
            };
            q * f + frac * f / 10 <= total && total < q * f + f
        }),
{
    let q = total / f;
    let rem = total % f;
    assert(total == f * q + rem && rem < f) by {
        vstd::arithmetic::div_mod::lemma_fundamental_div_mod(total as int, f as int);
        vstd::arithmetic::div_mod::lemma_mod_division_less_than_divisor(total as int, f as int);
    }
    if rem != 0 {
        let frac = rem * 10 / f;
        lemma_mul_div_bound(frac, f, rem * 10);
        assert(frac * f <= rem * 10);
        assert(frac * f / 10 <= rem) by {
            vstd::arithmetic::div_mod::lemma_div_is_ordered((frac * f) as int, (rem * 10) as int, 10);
            vstd::arithmetic::div_mod::lemma_div_multiples_vanish(rem as int, 10);
        }
        assert(q * f + frac * f / 10 <= total) by (nonlinear_arith)
            requires
                total == f * q + rem,
                frac * f / 10 <= rem,
        ;
    }
    assert(q * f + rem < q * f + f);
}

/// Soundness of the whole-second decomposition measured in nanoseconds:
/// the reconstruction from the quotient of the seconds by `scale` and the
/// first decimal digit of the remainder's fraction undershoots the true
/// nanosecond total by less than `scale` seconds.
pub proof fn lemma_sec_frac_approx(secs: nat, nanos: nat, scale: nat)
    requires
        scale >= 1,
        nanos < 1000000000,
    ensures
        ({
            let x = scale * 1000000000;
            let q = secs / scale;
            let rem = secs % scale;
            let frac: nat = if rem == 0 {
                0
            } else {
                rem * 10 / scale
            };
            q * x + frac * x / 10 <= secs * 1000000000 + nanos && secs * 1000000000 + nanos < q * x
                + frac * x / 10 + x
        }),
{
    let x = scale * 1000000000;
    let q = secs / scale;
    let rem = secs % scale;
    assert(secs == scale * q + rem && rem < scale) by {
        vstd::arithmetic::div_mod::lemma_fundamental_div_mod(secs as int, scale as int);
        vstd::arithmetic::div_mod::lemma_mod_division_less_than_divisor(secs as int, scale as int);
    }
    if rem == 0 {
        assert(q * x == secs * 1000000000) by (nonlinear_arith)
            requires
                secs == scale * q,
                x == scale * 1000000000,
        ;
        assert(secs * 1000000000 + nanos < q * x + x) by (nonlinear_arith)
            requires
                q * x == secs * 1000000000,
                nanos < 1000000000,
                x == scale * 1000000000,
                scale >= 1,
        ;
    } else {
        let frac = rem * 10 / scale;
        // the fractional nanoseconds are exactly frac * scale * 10^8
        assert(frac * x / 10 == frac * scale * 100000000) by {
            assert(frac * x == (frac * scale * 100000000) * 10) by (nonlinear_arith)
                requires
                    x == scale * 1000000000,
            ;
            vstd::arithmetic::div_mod::lemma_div_multiples_vanish(
                (frac * scale * 100000000) as int,
                10,
            );
        }
        lemma_mul_div_bound(frac, scale, rem * 10);
        assert(frac * scale <= rem * 10);
        let rr = (rem * 10) % scale;
        assert(rem * 10 == scale * frac + rr && rr < scale) by {
            vstd::arithmetic::div_mod::lemma_fundamental_div_mod((rem * 10) as int, scale as int);
            vstd::arithmetic::div_mod::lemma_mod_division_less_than_divisor(
                (rem * 10) as int,
                scale as int,
            );
        }
        assert(q * x + frac * scale * 100000000 <= secs * 1000000000) by (nonlinear_arith)
            requires
                secs == scale * q + rem,
                frac * scale <= rem * 10,
                x == scale * 1000000000,
        ;
        // scale >= 2 because a nonzero remainder needs room below scale
        assert(scale >= 2);
        assert(secs * 1000000000 + nanos < q * x + frac * scale * 100000000 + x)
            by (nonlinear_arith)
            requires
                secs == scale * q + rem,
                rem * 10 == scale * frac + rr,
                rr < scale,
                nanos < 1000000000,
                x == scale * 1000000000,
                scale >= 2,
        ;
    }
}

} // verus!
