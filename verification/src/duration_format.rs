//! Approximate, display-oriented form of a duration: one unit, an
//! integral part, and at most one fractional decimal digit. Sub-second
//! durations use the decimal table ns/μs/ms; durations of a second or
//! more use the table s/m/h/d.

use vstd::prelude::*;

use crate::arith::lemma_frac_approx;
use crate::arith::lemma_mul_div_bound;
use crate::arith::lemma_sec_frac_approx;
use crate::duration::Duration;
use crate::text::char_of_digit;
use crate::text::dec_digits;
use crate::text::push_decimal;
use crate::text::push_digit;
use vstd::string::StringExecFns;

verus! {

/// Approximate duration that includes unit, integral and fractional parts
/// as fields. This type is useful when custom formatting of the output is
/// needed, i.e. colors, locale-specific units etc.
pub struct FormattedDuration {
    /// Duration unit.
    pub unit: &'static str,
    /// Integral part. Max. value is 213503982334601.
    pub integer: u64,
    /// Fractional part. Max. value is 9.
    pub fraction: u8,
}

/// 1000 raised to `e`.
pub open spec fn pow1000(e: nat) -> nat
    decreases e,
{
    if e == 0 {
        1
    } else {
        1000 * pow1000((e - 1) as nat)
    }
}

/// How many divisions by 1000 bring `n` below 1000: the unit the
/// sub-second form uses.
pub open spec fn subsec_exp(n: nat) -> nat
    decreases n,
{
    if n < 1000 {
        0
    } else {
        1 + subsec_exp(n / 1000)
    }
}

/// Unit written for `e` divisions by 1000 of a nanosecond count.
pub open spec fn subsec_unit(e: nat) -> Seq<char> {
    if e == 0 {
        seq!['n', 's']
    } else if e == 1 {
        seq!['μ', 's']
    } else if e == 2 {
        seq!['m', 's']
    } else {
        seq!['s']
    }
}

/// The tier of a whole-second count: seconds, minutes, hours or days.
pub open spec fn sec_exp(s: nat) -> nat {
    if s < 60 {
        0
    } else if s < 3600 {
        1
    } else if s < 86400 {
        2
    } else {
        3
    }
}

/// Seconds in the unit of each tier.
pub open spec fn sec_scale(e: nat) -> nat {
    if e == 0 {
        1
    } else if e == 1 {
        60
    } else if e == 2 {
        3600
    } else {
        86400
    }
}

/// Unit written for each whole-second tier.
pub open spec fn sec_unit(e: nat) -> Seq<char> {
    if e == 0 {
        seq!['s']
    } else if e == 1 {
        seq!['m']
    } else if e == 2 {
        seq!['h']
    } else {
        seq!['d']
    }
}

/// The approximate decomposition of a duration into a unit, an integral
/// part, and the first decimal digit of the remainder's fraction of the
/// unit, zero for an exact multiple. A zero duration is `0 s`; a
/// sub-second duration decomposes its nanoseconds over ns/μs/ms; anything
/// longer decomposes its whole seconds over s/m/h/d.
pub open spec fn spec_format_duration_parts(
    secs: u64,
    nanos: u32,
    unit: Seq<char>,
    integer: nat,
    fraction: nat,
) -> bool {
    if secs == 0 && nanos == 0 {
        unit == seq!['s'] && integer == 0 && fraction == 0
    } else if secs == 0 {
        let e = subsec_exp(nanos as nat);
        let f = pow1000(e);
        unit == subsec_unit(e) && integer == nanos as nat / f && fraction == (
        if nanos as nat % f == 0 {
            0nat
        } else {
            (nanos as nat % f) * 10 / f
        })
    } else {
        let e = sec_exp(secs as nat);
        let f = sec_scale(e);
        unit == sec_unit(e) && integer == secs as nat / f && fraction == (
        if secs as nat % f == 0 {
            0nat
        } else {
            (secs as nat % f) * 10 / f
        })
    }
}

/// The approximate decomposition, stated of a [`FormattedDuration`].
pub open spec fn spec_format_duration(secs: u64, nanos: u32, r: FormattedDuration) -> bool {
    spec_format_duration_parts(secs, nanos, r.unit@, r.integer as nat, r.fraction as nat)
}

/// Text of the approximate form: integral part, `.` and the fractional
/// digit where it is nonzero, one space, the unit.
pub open spec fn spec_formatted_duration_text(fd: FormattedDuration) -> Seq<char> {
    dec_digits(fd.integer as nat) + (if fd.fraction == 0 {
        Seq::<char>::empty()
    } else {
        seq!['.', char_of_digit(fd.fraction as nat)]
    }) + seq![' '] + fd.unit@
}

impl FormattedDuration {
    /// A fractional part is a single decimal digit.
    pub open spec fn wf(self) -> bool {
        self.fraction < 10
    }

    /// The display text, e.g. `0 s`, `1.5 ms`, `12.5 h`.
    pub fn display(&self) -> (r: String)
        requires
            self.wf(),
        ensures
            r@ == spec_formatted_duration_text(*self),
    {
        let mut out = String::new();
        push_decimal(&mut out, self.integer as u128);
        if self.fraction != 0 {
            proof {
                reveal_strlit(".");
                assert("."@ =~= seq!['.']);
            }
            out.append(".");
            push_digit(&mut out, self.fraction);
        }
        proof {
            reveal_strlit(" ");
            assert(" "@ =~= seq![' ']);
        }
        out.append(" ");
        out.append(self.unit);
        proof {
            assert(out@ =~= spec_formatted_duration_text(*self));
        }
        out
    }
}

/// This trait adds a [`format_duration`](FormatDuration::format_duration)
/// method to the [`Duration`] type.
pub trait FormatDuration: Sized {
    /// Whole seconds of the duration being formatted.
    spec fn duration_secs(self) -> u64;

    /// Sub-second nanoseconds of the duration being formatted.
    spec fn duration_nanos(self) -> u32;

    /// Splits the original duration into integral, fractional and adds a
    /// unit.
    fn format_duration(self) -> (r: FormattedDuration)
        requires
            self.duration_nanos() < 1_000_000_000,
        ensures
            spec_format_duration(self.duration_secs(), self.duration_nanos(), r),
            r.wf(),
    ;
}

impl FormatDuration for Duration {
    open spec fn duration_secs(self) -> u64 {
        self.secs
    }

    open spec fn duration_nanos(self) -> u32 {
        self.nanos
    }

    fn format_duration(self) -> (r: FormattedDuration) {
        let (unit, integer, fraction) = format_duration_raw(self.secs, self.nanos);
        FormattedDuration { unit, integer, fraction }
    }
}

proof fn lemma_pow1000_pos(e: nat)
    ensures
        pow1000(e) >= 1,
    decreases e,
{
    if e > 0 {
        lemma_pow1000_pos((e - 1) as nat)
    }
}

/// The exponent reached by dividing by 1000 until the quotient is below
/// 1000 is the one the sub-second spec picks.
proof fn lemma_subsec_exp_determined(v: nat, i: nat)
    requires
        v / pow1000(i) < 1000,
        i == 0 || pow1000(i) <= v,
    ensures
        subsec_exp(v) == i,
    decreases i,
{
    if i == 0 {
        assert(pow1000(0) == 1);
        assert(v / 1 == v) by (nonlinear_arith);
    } else {
        lemma_pow1000_pos((i - 1) as nat);
        let p = pow1000((i - 1) as nat);
        assert(pow1000(i) == 1000 * p);
        assert(v >= 1000) by {
            assert(pow1000(i) >= 1000) by (nonlinear_arith)
                requires
                    pow1000(i) == 1000 * p,
                    p >= 1,
            ;
        }
        assert(subsec_exp(v) == 1 + subsec_exp(v / 1000));
        vstd::arithmetic::div_mod::lemma_div_denominator(v as int, 1000, p as int);
        assert((v / 1000) / p == v / pow1000(i));
        if i > 1 {
            assert(p <= v / 1000) by {
                vstd::arithmetic::div_mod::lemma_div_is_ordered(pow1000(i) as int, v as int, 1000);
                vstd::arithmetic::div_mod::lemma_div_multiples_vanish(p as int, 1000);
            }
        }
        lemma_subsec_exp_determined(v / 1000, (i - 1) as nat);
    }
}

/// Splits a duration into the fields of the approximate decomposition.
pub(crate) fn format_duration_raw(secs: u64, nanos: u32) -> (r: (&'static str, u64, u8))
    requires
        nanos < 1_000_000_000,
    ensures
        spec_format_duration_parts(secs, nanos, r.0@, r.1 as nat, r.2 as nat),
        r.2 < 10,
{
    if secs == 0 && nanos == 0 {
        proof {
            reveal_strlit("s");
            assert("s"@ =~= seq!['s']);
        }
        ("s", 0, 0)
    } else if secs == 0 {
        let mut i: usize = 0;
        let mut scale: u32 = 1;
        let mut n = nanos;
        proof {
            reveal_with_fuel(pow1000, 4);
        }
        while n >= 1000
            invariant
                nanos < 1_000_000_000,
                i <= 2,
                scale == pow1000(i as nat),
                n as nat == nanos as nat / pow1000(i as nat),
                i == 0 || pow1000(i as nat) <= nanos as nat,
            decreases 2 - i,
        {
            proof {
                reveal_with_fuel(pow1000, 4);
                lemma_pow1000_pos(i as nat);
                let p = pow1000(i as nat);
                vstd::arithmetic::div_mod::lemma_fundamental_div_mod(nanos as int, p as int);
                vstd::arithmetic::div_mod::lemma_mod_division_less_than_divisor(
                    nanos as int,
                    p as int,
                );
                assert(pow1000(((i as nat) + 1) as nat) <= nanos as nat) by (nonlinear_arith)
                    requires
                        nanos as nat == p * (nanos as nat / p) + nanos as nat % p,
                        nanos as nat % p >= 0,
                        nanos as nat / p >= 1000,
                        pow1000(((i as nat) + 1) as nat) == 1000 * p,
                ;
                if (i as nat) + 1 >= 3 {
                    assert(pow1000(3) <= pow1000(((i as nat) + 1) as nat)) by {
                        lemma_pow1000_mono(3, ((i as nat) + 1) as nat);
                    }
                    assert(false);
                }
                vstd::arithmetic::div_mod::lemma_div_denominator(nanos as int, p as int, 1000);
            }
            scale = scale * 1000;
            n = n / 1000;
            i = i + 1;
        }
        proof {
            lemma_subsec_exp_determined(nanos as nat, i as nat);
        }
        let rem = nanos % scale;
        let fraction: u8 = if rem != 0 {
            proof {
                vstd::arithmetic::div_mod::lemma_mod_division_less_than_divisor(
                    nanos as int,
                    scale as int,
                );
                lemma_mul_div_bound(10, scale as nat, rem as nat * 10);
            }
            ((rem * 10) / scale) as u8
        } else {
            0
        };
        let unit: &'static str = if i == 0 {
            proof {
                reveal_strlit("ns");
                assert("ns"@ =~= seq!['n', 's']);
            }
            "ns"
        } else if i == 1 {
            proof {
                reveal_strlit("μs");
                assert("μs"@ =~= seq!['μ', 's']);
            }
            "μs"
        } else {
            proof {
                reveal_strlit("ms");
                assert("ms"@ =~= seq!['m', 's']);
            }
            "ms"
        };
        (unit, n as u64, fraction)
    } else {
        let mut i: usize = 0;
        let mut scale: u64 = 1;
        let mut n = secs;
        while i < 3 && n >= sec_step(i)
            invariant
                i <= 3,
                scale == sec_scale(i as nat),
                n as nat == secs as nat / sec_scale(i as nat),
                i == 0 || sec_scale(i as nat) <= secs as nat,
            decreases 3 - i,
        {
            proof {
                let p = sec_scale(i as nat);
                let s = spec_sec_step(i as nat);
                vstd::arithmetic::div_mod::lemma_fundamental_div_mod(secs as int, p as int);
                vstd::arithmetic::div_mod::lemma_mod_division_less_than_divisor(
                    secs as int,
                    p as int,
                );
                assert(sec_scale(((i as nat) + 1) as nat) <= secs as nat) by (nonlinear_arith)
                    requires
                        secs as nat == p * (secs as nat / p) + secs as nat % p,
                        secs as nat % p >= 0,
                        secs as nat / p >= s,
                        sec_scale(((i as nat) + 1) as nat) == p * s,
                ;
                vstd::arithmetic::div_mod::lemma_div_denominator(secs as int, p as int, s as int);
            }
            let s = sec_step(i);
            scale = scale * s;
            n = n / s;
            i = i + 1;
        }
        proof {
            // the loop's exit pins the tier exactly
            if i < 3 {
                let p = sec_scale(i as nat);
                let s = spec_sec_step(i as nat);
                vstd::arithmetic::div_mod::lemma_fundamental_div_mod(secs as int, p as int);
                vstd::arithmetic::div_mod::lemma_mod_division_less_than_divisor(
                    secs as int,
                    p as int,
                );
                assert((secs as nat) < sec_scale(((i as nat) + 1) as nat)) by (nonlinear_arith)
                    requires
                        secs as nat == p * (secs as nat / p) + secs as nat % p,
                        secs as nat % p < p,
                        secs as nat / p < s,
                        sec_scale(((i as nat) + 1) as nat) == p * s,
                ;
            }
            assert(sec_exp(secs as nat) == i as nat);
        }
        let rem = secs % scale;
        let fraction: u8 = if rem != 0 {
            proof {
                vstd::arithmetic::div_mod::lemma_mod_division_less_than_divisor(
                    secs as int,
                    scale as int,
                );
                lemma_mul_div_bound(10, scale as nat, rem as nat * 10);
            }
            ((rem * 10) / scale) as u8
        } else {
            0
        };
        let unit: &'static str = if i == 0 {
            proof {
                reveal_strlit("s");
                assert("s"@ =~= seq!['s']);
            }
            "s"
        } else if i == 1 {
            proof {
                reveal_strlit("m");
                assert("m"@ =~= seq!['m']);
            }
            "m"
        } else if i == 2 {
            proof {
                reveal_strlit("h");
                assert("h"@ =~= seq!['h']);
            }
            "h"
        } else {
            proof {
                reveal_strlit("d");
                assert("d"@ =~= seq!['d']);
            }
            "d"
        };
        (unit, n, fraction)
    }
}

/// Ratio between two successive whole-second tiers.
pub open spec fn spec_sec_step(e: nat) -> nat {
    if e < 2 {
        60
    } else {
        24
    }
}

/// Ratio between successive whole-second tiers, as executable code.
fn sec_step(e: usize) -> (r: u64)
    requires
        e < 3,
    ensures
        r == spec_sec_step(e as nat),
{
    if e < 2 {
        60
    } else {
        24
    }
}

proof fn lemma_pow1000_mono(a: nat, b: nat)
    requires
        a <= b,
    ensures
        pow1000(a) <= pow1000(b),
    decreases b - a,
{
    if b > a {
        lemma_pow1000_mono(a, (b - 1) as nat);
        lemma_pow1000_pos((b - 1) as nat);
        assert(pow1000(b) == 1000 * pow1000((b - 1) as nat));
        assert(pow1000((b - 1) as nat) <= pow1000(b)) by (nonlinear_arith)
            requires
                pow1000(b) == 1000 * pow1000((b - 1) as nat),
                pow1000((b - 1) as nat) >= 1,
        ;
    }
}

/// The nanosecond factor of the unit the approximate form picks.
pub open spec fn dur_approx_factor(secs: u64, nanos: u32) -> nat {
    if secs == 0 && nanos == 0 {
        1000000000
    } else if secs == 0 {
        pow1000(subsec_exp(nanos as nat))
    } else {
        sec_scale(sec_exp(secs as nat)) * 1000000000
    }
}

/// Soundness of the approximate form: reconstructing
/// `integer * factor + fraction * factor / 10` in nanoseconds undershoots
/// the true duration by less than one unit of the chosen factor.
pub proof fn lemma_format_duration_sound(secs: u64, nanos: u32, r: FormattedDuration)
    requires
        nanos < 1_000_000_000,
        spec_format_duration(secs, nanos, r),
    ensures
        ({
            let x = dur_approx_factor(secs, nanos);
            let approx = r.integer as nat * x + r.fraction as nat * x / 10;
            approx <= secs as nat * 1000000000 + nanos as nat && (secs as nat * 1000000000
                + nanos as nat) < approx + x
        }),
{
    if secs == 0 && nanos == 0 {
    } else if secs == 0 {
        let e = subsec_exp(nanos as nat);
        let f = pow1000(e);
        lemma_pow1000_pos(e);
        lemma_frac_approx(nanos as nat, f);
    } else {
        let e = sec_exp(secs as nat);
        let scale = sec_scale(e);
        lemma_sec_frac_approx(secs as nat, nanos as nat, scale);
    }
}

} // verus!
