//! Approximate, display-oriented form of a byte count: one binary unit,
//! an integral part below 1024, and at most one fractional decimal digit.

use vstd::prelude::*;

use crate::arith::lemma_frac_approx;
use crate::arith::lemma_mul_div_bound;
use crate::size::Size;
use crate::size::lemma_pow1024_pos;
use crate::size::lemma_pow1024_values;
use crate::size::pow1024;
use crate::text::char_of_digit;
use crate::text::dec_digits;
use crate::text::push_decimal;
use crate::text::push_digit;
use vstd::string::StringExecFns;

verus! {

/// Formatted size that includes unit, integral and fractional parts as
/// fields. This type is useful when custom formatting of the output is
/// needed, i.e. colors, locale-specific units etc.
pub struct FormattedSize {
    /// Size unit.
    pub unit: &'static str,
    /// Integral part. Max. value is 1023.
    pub integer: u16,
    /// Fractional part. Max. value is 9.
    pub fraction: u8,
}

/// How many divisions by 1024 bring `v` below 1024: the unit the
/// approximate form uses.
pub open spec fn size_approx_exp(v: nat) -> nat
    decreases v,
{
    if v < 1024 {
        0
    } else {
        1 + size_approx_exp(v / 1024)
    }
}

/// Unit written for `e` divisions by 1024.
pub open spec fn size_approx_unit(e: nat) -> Seq<char> {
    if e == 0 {
        seq!['B']
    } else if e == 1 {
        seq!['K', 'i', 'B']
    } else if e == 2 {
        seq!['M', 'i', 'B']
    } else if e == 3 {
        seq!['G', 'i', 'B']
    } else if e == 4 {
        seq!['T', 'i', 'B']
    } else if e == 5 {
        seq!['P', 'i', 'B']
    } else {
        seq!['E', 'i', 'B']
    }
}

/// The approximate decomposition of `v` bytes: the quotient by the unit's
/// scale, and the first decimal digit of the remainder's fraction of the
/// scale, zero for an exact multiple.
pub open spec fn spec_format_size(v: u64, r: FormattedSize) -> bool {
    let e = size_approx_exp(v as nat);
    let f = pow1024(e);
    &&& r.unit@ == size_approx_unit(e)
    &&& r.integer == v as nat / f
    &&& r.fraction == (if v as nat % f == 0 {
        0
    } else {
        (v as nat % f) * 10 / f
    })
}

/// Text of the approximate form: integral part, `.` and the fractional
/// digit where it is nonzero, one space, the unit.
pub open spec fn spec_formatted_size_text(fs: FormattedSize) -> Seq<char> {
    dec_digits(fs.integer as nat) + (if fs.fraction == 0 {
        Seq::<char>::empty()
    } else {
        seq!['.', char_of_digit(fs.fraction as nat)]
    }) + seq![' '] + fs.unit@
}

impl FormattedSize {
    /// A fractional part is a single decimal digit.
    pub open spec fn wf(self) -> bool {
        self.fraction < 10
    }

    /// The display text, e.g. `512 B`, `3.5 GiB`.
    pub fn display(&self) -> (r: String)
        requires
            self.wf(),
        ensures
            r@ == spec_formatted_size_text(*self),
    {
        let mut out = String::new();
        push_decimal(&mut out, self.integer as u128);
        if self.fraction != 0 {
            proof {
                reveal_strlit(".");
                assert("."@ =~= seq!['.']);
            }
            out.append(".");
            push_digit(&mut out, self.fraction);
        }
        proof {
            reveal_strlit(" ");
            assert(" "@ =~= seq![' ']);
        }
        out.append(" ");
        out.append(self.unit);
        proof {
            assert(out@ =~= spec_formatted_size_text(*self));
        }
        out
    }
}

/// This trait adds a [`format_size`](FormatSize::format_size) method to
/// the primitive `u64` and `usize` types and to [`Size`].
pub trait FormatSize: Sized {
    /// The byte count being formatted.
    spec fn size_value(self) -> u64;

    /// Splits the original size into integral, fractional and adds a unit.
    fn format_size(self) -> (r: FormattedSize)
        ensures
            spec_format_size(self.size_value(), r),
            r.wf(),
    ;
}

impl FormatSize for u64 {
    open spec fn size_value(self) -> u64 {
        self
    }

    fn format_size(self) -> (r: FormattedSize) {
        format_size_u64(self)
    }
}

impl FormatSize for usize {
    open spec fn size_value(self) -> u64 {
        self as u64
    }

    fn format_size(self) -> (r: FormattedSize) {
        format_size_u64(self as u64)
    }
}

impl FormatSize for Size {
    open spec fn size_value(self) -> u64 {
        self.0
    }

    fn format_size(self) -> (r: FormattedSize) {
        format_size_u64(self.0)
    }
}

/// The exponent reached by dividing by 1024 until the quotient is below
/// 1024 is the one the approximate spec picks.
proof fn lemma_size_approx_exp_determined(v: nat, i: nat)
    requires
        v / pow1024(i) < 1024,
        i == 0 || pow1024(i) <= v,
    ensures
        size_approx_exp(v) == i,
    decreases i,
{
    if i == 0 {
        assert(pow1024(0) == 1);
        assert(v / 1 == v) by (nonlinear_arith);
    } else {
        lemma_pow1024_pos((i - 1) as nat);
        let p = pow1024((i - 1) as nat);
        assert(pow1024(i) == 1024 * p);
        assert(v >= 1024) by {
            assert(pow1024(i) >= 1024) by (nonlinear_arith)
                requires
                    pow1024(i) == 1024 * p,
                    p >= 1,
            ;
        }
        assert(size_approx_exp(v) == 1 + size_approx_exp(v / 1024));
        vstd::arithmetic::div_mod::lemma_div_denominator(v as int, 1024, p as int);
        assert((v / 1024) / p == v / pow1024(i));
        if i > 1 {
            assert(p <= v / 1024) by {
                vstd::arithmetic::div_mod::lemma_div_is_ordered(
                    pow1024(i) as int,
                    v as int,
                    1024,
                );
                vstd::arithmetic::div_mod::lemma_div_multiples_vanish(p as int, 1024);
            }
        }
        lemma_size_approx_exp_determined(v / 1024, (i - 1) as nat);
    }
}

/// Splits a byte count into the approximate decomposition.
pub fn format_size_u64(v: u64) -> (r: FormattedSize)
    ensures
        spec_format_size(v, r),
        r.wf(),
{
    let mut i: usize = 0;
    let mut scale: u64 = 1;
    let mut n = v;
    proof {
        lemma_pow1024_values();
    }
    while n >= 1024
        invariant
            i <= 6,
            scale == pow1024(i as nat),
            n as nat == v as nat / pow1024(i as nat),
            i == 0 || pow1024(i as nat) <= v as nat,
        decreases 6 - i,
    {
        proof {
            lemma_pow1024_pos(i as nat);
            let p = pow1024(i as nat);
            vstd::arithmetic::div_mod::lemma_fundamental_div_mod(v as int, p as int);
            vstd::arithmetic::div_mod::lemma_mod_division_less_than_divisor(v as int, p as int);
            assert(pow1024(i as nat + 1) <= v as nat) by (nonlinear_arith)
                requires
                    v as nat == p * (v as nat / p) + v as nat % p,
                    v as nat % p >= 0,
                    v as nat / p >= 1024,
                    pow1024(i as nat + 1) == 1024 * p,
            ;
            lemma_pow1024_values();
            if i as nat + 1 >= 7 {
                assert(pow1024(7) <= pow1024(i as nat + 1)) by {
                    lemma_pow1024_mono(7, i as nat + 1);
                }
                assert(false);
            }
            vstd::arithmetic::div_mod::lemma_div_denominator(v as int, p as int, 1024);
        }
        scale = scale * 1024;
        n = n / 1024;
        i = i + 1;
    }
    proof {
        lemma_size_approx_exp_determined(v as nat, i as nat);
        lemma_pow1024_values();
        lemma_pow1024_mono(i as nat, 6);
    }
    let rem = v % scale;
    let fraction: u8 = if rem != 0 {
        proof {
            vstd::arithmetic::div_mod::lemma_mod_division_less_than_divisor(
                v as int,
                scale as int,
            );
            lemma_mul_div_bound(10, scale as nat, rem as nat * 10);
        }
        ((rem * 10) / scale) as u8
    } else {
        0
    };
    FormattedSize {
        unit: if i == 0 {
            proof {
                reveal_strlit("B");
                assert("B"@ =~= seq!['B']);
            }
            "B"
        } else if i == 1 {
            proof {
                reveal_strlit("KiB");
                assert("KiB"@ =~= seq!['K', 'i', 'B']);
            }
            "KiB"
        } else if i == 2 {
            proof {
                reveal_strlit("MiB");
                assert("MiB"@ =~= seq!['M', 'i', 'B']);
            }
            "MiB"
        } else if i == 3 {
            proof {
                reveal_strlit("GiB");
                assert("GiB"@ =~= seq!['G', 'i', 'B']);
            }
            "GiB"
        } else if i == 4 {
            proof {
                reveal_strlit("TiB");
                assert("TiB"@ =~= seq!['T', 'i', 'B']);
            }
            "TiB"
        } else if i == 5 {
            proof {
                reveal_strlit("PiB");
                assert("PiB"@ =~= seq!['P', 'i', 'B']);
            }
            "PiB"
        } else {
            proof {
                reveal_strlit("EiB");
                assert("EiB"@ =~= seq!['E', 'i', 'B']);
            }
            "EiB"
        },
        integer: n as u16,
        fraction,
    }
}

/// Powers of 1024 grow with the exponent.
proof fn lemma_pow1024_mono(a: nat, b: nat)
    requires
        a <= b,
    ensures
        pow1024(a) <= pow1024(b),
    decreases b - a,
{
    if b > a {
        lemma_pow1024_mono(a, (b - 1) as nat);
        lemma_pow1024_pos((b - 1) as nat);
        assert(pow1024(b) == 1024 * pow1024((b - 1) as nat));
        assert(pow1024((b - 1) as nat) <= pow1024(b)) by (nonlinear_arith)
            requires
                pow1024(b) == 1024 * pow1024((b - 1) as nat),
                pow1024((b - 1) as nat) >= 1,
        ;
    }
}

/// Soundness of the approximate form: reconstructing
/// `integer * scale + fraction * scale / 10` undershoots the true count
/// by less than one unit of the chosen scale.
pub proof fn lemma_format_size_sound(v: u64, r: FormattedSize)
    requires
        spec_format_size(v, r),
    ensures
        ({
            let f = pow1024(size_approx_exp(v as nat));
            let approx = r.integer as nat * f + r.fraction as nat * f / 10;
            approx <= v && (v as nat) < approx + f
        }),
{
    let e = size_approx_exp(v as nat);
    let f = pow1024(e);
    lemma_pow1024_pos(e);
    lemma_frac_approx(v as nat, f);
}

} // verus!
