//! Exact duration with nanosecond precision.
//!
//! The intended use is configuration values where exact durations are
//! required, i.e. timeouts, cache max age, time-to-live etc. The text
//! form renders the total nanosecond count scaled by the largest unit
//! that divides it exactly, and parsing reverses that rendering without
//! loss.

use vstd::prelude::*;

use crate::arith::lemma_div_step;
use crate::arith::lemma_divides_factor;
use crate::arith::lemma_mul_div_bound;
use crate::arith::lemma_quotient_divisible;
use crate::text::all_digits;
use crate::text::all_space;
use crate::text::lemma_grammar_split;
use crate::text::dec_digits;
use crate::text::digits_val;
use crate::text::is_digit;
use crate::text::is_space;
use crate::text::last_digit_idx;
use crate::text::last_digit_index;
use crate::text::lemma_dec_digits_shape;
use crate::text::lemma_dec_digits_val;
use crate::text::lemma_last_digit_concat;
use crate::text::lemma_trim_back_at;
use crate::text::lemma_trim_front_at;
use crate::text::lemma_trim_no_outer_space;
use crate::text::lemma_dec_digits_len_le;
use crate::text::parse_decimal;
use crate::text::pow10;
use crate::text::push_decimal;
use crate::text::push_digit;
use crate::text::is_space_char;
use crate::text::trim;
use crate::text::trim_str;
use vstd::string::StrSliceExecFns;
use vstd::string::StringExecFns;

verus! {

/// Nanoseconds per second.
pub const NANOS_PER_SEC: u32 = 1_000_000_000;

/// Exact duration: whole seconds and a sub-second nanosecond part.
#[derive(Debug, Default, Clone, Copy, Hash, PartialEq, Eq, PartialOrd, Ord, Structural)]
pub struct Duration {
    /// Whole seconds.
    pub secs: u64,
    /// Sub-second nanoseconds; a valid value is below one billion.
    pub nanos: u32,
}

/// Duration parsing error.
#[derive(Debug)]
pub struct DurationError;

/// Nanoseconds in the largest unit that a chain of `e` exact divisions
/// reaches: ns, us, ms, s, m, h, d.
pub open spec fn dur_factor(e: nat) -> nat {
    if e == 0 {
        1
    } else if e == 1 {
        1000
    } else if e == 2 {
        1000000
    } else if e == 3 {
        1000000000
    } else if e == 4 {
        60000000000
    } else if e == 5 {
        3600000000000
    } else {
        86400000000000
    }
}

/// Ratio between two successive unit factors.
pub open spec fn spec_dur_step(e: nat) -> nat {
    if e < 3 {
        1000
    } else if e < 5 {
        60
    } else {
        24
    }
}

/// The largest `e <= 6` such that `dur_factor(e)` divides `n`: the
/// coarsest unit in which `n` nanoseconds render exactly.
pub open spec fn dur_exponent(n: nat) -> nat {
    if n % dur_factor(6) == 0 {
        6
    } else if n % dur_factor(5) == 0 {
        5
    } else if n % dur_factor(4) == 0 {
        4
    } else if n % dur_factor(3) == 0 {
        3
    } else if n % dur_factor(2) == 0 {
        2
    } else if n % dur_factor(1) == 0 {
        1
    } else {
        0
    }
}

/// Unit suffix written for exponent `e`.
pub open spec fn dur_unit_chars(e: nat) -> Seq<char> {
    if e == 0 {
        seq!['n', 's']
    } else if e == 1 {
        seq!['μ', 's']
    } else if e == 2 {
        seq!['m', 's']
    } else if e == 3 {
        seq!['s']
    } else if e == 4 {
        seq!['m']
    } else if e == 5 {
        seq!['h']
    } else {
        seq!['d']
    }
}

/// The largest representable duration, in nanoseconds.
pub open spec fn spec_max_nanos() -> nat {
    0xffff_ffff_ffff_ffff * 1000000000 + 999999999
}

/// The exact text form of a duration: the total nanosecond count divided
/// by the largest unit factor that divides it, followed by that unit's
/// suffix. Zero renders as `0s`.
pub open spec fn spec_duration_display(secs: u64, nanos: u32) -> Seq<char> {
    let n = secs as nat * 1000000000 + nanos as nat;
    if n == 0 {
        seq!['0', 's']
    } else {
        dec_digits(n / dur_factor(dur_exponent(n))) + dur_unit_chars(dur_exponent(n))
    }
}

/// The nanosecond factor a unit suffix stands for: none for an
/// unrecognized suffix. The empty suffix means seconds; suffixes are
/// case-sensitive and the microsecond one is written with the micro sign.
pub open spec fn spec_dur_unit_factor(u: Seq<char>) -> Option<nat> {
    if u.len() == 0 {
        Some(1000000000)
    } else if u.len() == 1 {
        if u[0] == 's' {
            Some(1000000000)
        } else if u[0] == 'm' {
            Some(60000000000)
        } else if u[0] == 'h' {
            Some(3600000000000)
        } else if u[0] == 'd' {
            Some(86400000000000)
        } else {
            None
        }
    } else if u.len() == 2 {
        if u[1] == 's' {
            if u[0] == 'n' {
                Some(1)
            } else if u[0] == 'μ' {
                Some(1000)
            } else if u[0] == 'm' {
                Some(1000000)
            } else {
                None
            }
        } else {
            None
        }
    } else {
        None
    }
}

/// The duration a string denotes, if any: whitespace-trimmed, a decimal
/// numeral up to its last digit, then an optional whitespace-separated
/// unit suffix. Absent digits, an unrecognized suffix, and any overflow
/// of the representable range denote nothing.
pub open spec fn spec_duration_parse(s: Seq<char>) -> Option<Duration> {
    let t = trim(s);
    let i = last_digit_idx(t);
    if i < 0 {
        None
    } else {
        let num = t.subrange(0, i + 1);
        let unit = trim(t.subrange(i + 1, t.len() as int));
        if all_digits(num) && digits_val(num) <= u128::MAX {
            match spec_dur_unit_factor(unit) {
                Some(f) => if digits_val(num) * f <= spec_max_nanos() {
                    let n = digits_val(num) * f;
                    Some(
                        Duration {
                            secs: (n / 1000000000) as u64,
                            nanos: (n % 1000000000) as u32,
                        },
                    )
                } else {
                    None
                },
                None => None,
            }
        } else {
            None
        }
    }
}

/// Maps a unit suffix to its factor in nanoseconds.
pub fn unit_to_factor(unit: &str) -> (r: Result<u64, DurationError>)
    ensures
        match r {
            Ok(f) => spec_dur_unit_factor(unit@) == Some(f as nat) && 1 <= f,
            Err(_) => spec_dur_unit_factor(unit@) is None,
        },
{
    let n = unit.unicode_len();
    if n == 0 {
        Ok(1_000_000_000)
    } else if n == 1 {
        let c = unit.get_char(0);
        if c == 's' {
            Ok(1_000_000_000)
        } else if c == 'm' {
            Ok(60_000_000_000)
        } else if c == 'h' {
            Ok(3_600_000_000_000)
        } else if c == 'd' {
            Ok(86_400_000_000_000)
        } else {
            Err(DurationError)
        }
    } else if n == 2 {
        let c0 = unit.get_char(0);
        let c1 = unit.get_char(1);
        if c1 == 's' {
            if c0 == 'n' {
                Ok(1)
            } else if c0 == 'μ' {
                Ok(1000)
            } else if c0 == 'm' {
                Ok(1_000_000)
            } else {
                Err(DurationError)
            }
        } else {
            Err(DurationError)
        }
    } else {
        Err(DurationError)
    }
}

/// Step and factor values used around the division loop.
proof fn lemma_dur_factor_step(e: nat)
    requires
        e < 6,
    ensures
        dur_factor(e) * spec_dur_step(e) == dur_factor(e + 1),
        dur_factor(e) >= 1,
        spec_dur_step(e) >= 1,
{
}

/// A value not divisible by a smaller unit factor is not divisible by a
/// larger one either.
proof fn lemma_dur_not_divides_up(n: nat, a: nat, b: nat)
    requires
        a <= b <= 6,
        n % dur_factor(a) != 0,
    ensures
        n % dur_factor(b) != 0,
    decreases b - a,
{
    if b > a {
        lemma_dur_not_divides_up(n, a, (b - 1) as nat);
        if n % dur_factor(b) == 0 {
            lemma_dur_factor_step((b - 1) as nat);
            lemma_divides_factor(n, dur_factor((b - 1) as nat), spec_dur_step((b - 1) as nat));
        }
    }
}

/// The exponent reached by dividing out unit steps while they divide
/// evenly is the one the display spec picks.
proof fn lemma_dur_exponent_determined(n: nat, e: nat)
    requires
        e <= 6,
        n % dur_factor(e) == 0,
        e < 6 ==> n % dur_factor(e + 1) != 0,
    ensures
        dur_exponent(n) == e,
{
    if e < 6 {
        lemma_dur_not_divides_up(n, e + 1, 6);
        if e + 1 <= 5 {
            lemma_dur_not_divides_up(n, e + 1, 5);
        }
        if e + 1 <= 4 {
            lemma_dur_not_divides_up(n, e + 1, 4);
        }
        if e + 1 <= 3 {
            lemma_dur_not_divides_up(n, e + 1, 3);
        }
        if e + 1 <= 2 {
            lemma_dur_not_divides_up(n, e + 1, 2);
        }
        lemma_dur_not_divides_up(n, e + 1, e + 1);
    }
}

/// Ratio between successive unit factors, as executable code.
fn dur_step(e: usize) -> (r: u64)
    requires
        e < 6,
    ensures
        r == spec_dur_step(e as nat),
{
    if e < 3 {
        1000
    } else if e < 5 {
        60
    } else {
        24
    }
}

impl Duration {
    /// Max. length of the duration in string form.
    pub const MAX_STRING_LEN: usize = 31;

    /// A valid duration keeps its sub-second part below one second.
    pub open spec fn wf(self) -> bool {
        self.nanos < NANOS_PER_SEC
    }

    /// Total length in nanoseconds.
    pub open spec fn total_nanos(self) -> nat {
        self.secs as nat * 1000000000 + self.nanos as nat
    }

    /// A duration from whole seconds and a sub-second nanosecond part.
    pub fn new(secs: u64, nanos: u32) -> (r: Duration)
        requires
            nanos < 1_000_000_000,
        ensures
            r == (Duration { secs, nanos }),
            r.wf(),
    {
        Duration { secs, nanos }
    }

    /// A duration of whole seconds.
    pub fn from_secs(secs: u64) -> (r: Duration)
        ensures
            r.secs == secs,
            r.nanos == 0,
            r.wf(),
            r.total_nanos() == secs as nat * 1000000000,
    {
        Duration { secs, nanos: 0 }
    }

    /// A duration of nanoseconds.
    pub fn from_nanos(nanos: u64) -> (r: Duration)
        ensures
            r.wf(),
            r.total_nanos() == nanos,
    {
        let secs = nanos / 1_000_000_000;
        let sub = (nanos % 1_000_000_000) as u32;
        proof {
            vstd::arithmetic::div_mod::lemma_fundamental_div_mod(nanos as int, 1_000_000_000);
        }
        Duration { secs, nanos: sub }
    }

    /// Whole seconds.
    pub fn as_secs(&self) -> (r: u64)
        ensures
            r == self.secs,
    {
        self.secs
    }

    /// Sub-second nanoseconds.
    pub fn subsec_nanos(&self) -> (r: u32)
        ensures
            r == self.nanos,
    {
        self.nanos
    }

    /// Total length in nanoseconds.
    pub fn as_nanos(&self) -> (r: u128)
        ensures
            r == self.total_nanos(),
    {
        self.secs as u128 * 1_000_000_000 + self.nanos as u128
    }

    /// Sum of two durations, or nothing where the sum would not be
    /// representable.
    pub fn checked_add(self, other: Duration) -> (r: Option<Duration>)
        requires
            self.wf(),
            other.wf(),
        ensures
            match r {
                Some(d) => d.wf() && d.total_nanos() == self.total_nanos() + other.total_nanos(),
                None => self.total_nanos() + other.total_nanos() > spec_max_nanos(),
            },
    {
        let mut ns = self.nanos + other.nanos;
        let mut carry: u64 = 0;
        if ns >= 1_000_000_000 {
            ns = ns - 1_000_000_000;
            carry = 1;
        }
        if other.secs > u64::MAX - self.secs {
            return None;
        }
        let s = self.secs + other.secs;
        if carry == 1 && s == u64::MAX {
            return None;
        }
        Some(Duration { secs: s + carry, nanos: ns })
    }

    /// The exact text form: the total nanosecond count scaled by the
    /// coarsest unit that divides it, e.g. `0s`, `2m`, `1μs`, `123s`.
    pub fn display(&self) -> (r: String)
        ensures
            r@ == spec_duration_display(self.secs, self.nanos),
            r@.len() <= Duration::MAX_STRING_LEN,
    {
        proof {
            lemma_duration_display_len(self.secs, self.nanos);
        }
        let mut out = String::new();
        let n: u128 = self.secs as u128 * 1_000_000_000 + self.nanos as u128;
        if n == 0 {
            push_digit(&mut out, 0);
            proof {
                reveal_strlit("s");
            }
            out.append("s");
            proof {
                assert(out@ =~= spec_duration_display(self.secs, self.nanos));
            }
            return out;
        }
        let mut v = n;
        let mut e: usize = 0;
        proof {
            assert(n as nat % dur_factor(0) == 0) by {
                vstd::arithmetic::div_mod::lemma_small_mod(0, 1);
                vstd::arithmetic::div_mod::lemma_mod_self_0(1);
            }
            assert(v as nat == n as nat / dur_factor(0));
        }
        while e < 6 && v % (dur_step(e) as u128) == 0
            invariant
                n == self.secs as u128 * 1_000_000_000 + self.nanos as u128,
                n > 0,
                e <= 6,
                n as nat % dur_factor(e as nat) == 0,
                v as nat == n as nat / dur_factor(e as nat),
                v > 0,
            decreases 6 - e,
        {
            proof {
                lemma_dur_factor_step(e as nat);
                lemma_div_step(n as nat, dur_factor(e as nat), spec_dur_step(e as nat), v as nat);
            }
            let s = dur_step(e);
            v = v / (s as u128);
            e = e + 1;
        }
        proof {
            if e < 6 && n as nat % dur_factor(e as nat + 1) == 0 {
                lemma_dur_factor_step(e as nat);
                lemma_quotient_divisible(n as nat, dur_factor(e as nat), spec_dur_step(e as nat));
            }
            lemma_dur_exponent_determined(n as nat, e as nat);
        }
        push_decimal(&mut out, v);
        if e == 0 {
            proof {
                reveal_strlit("ns");
                assert("ns"@ =~= seq!['n', 's']);
            }
            out.append("ns");
        } else if e == 1 {
            proof {
                reveal_strlit("μs");
                assert("μs"@ =~= seq!['μ', 's']);
            }
            out.append("μs");
        } else if e == 2 {
            proof {
                reveal_strlit("ms");
                assert("ms"@ =~= seq!['m', 's']);
            }
            out.append("ms");
        } else if e == 3 {
            proof {
                reveal_strlit("s");
                assert("s"@ =~= seq!['s']);
            }
            out.append("s");
        } else if e == 4 {
            proof {
                reveal_strlit("m");
                assert("m"@ =~= seq!['m']);
            }
            out.append("m");
        } else if e == 5 {
            proof {
                reveal_strlit("h");
                assert("h"@ =~= seq!['h']);
            }
            out.append("h");
        } else {
            proof {
                reveal_strlit("d");
                assert("d"@ =~= seq!['d']);
            }
            out.append("d");
        }
        proof {
            assert(out@ =~= spec_duration_display(self.secs, self.nanos));
        }
        out
    }

    /// Parses the duration grammar: optional whitespace, a decimal
    /// numeral, optional whitespace, an optional unit suffix, optional
    /// whitespace.
    pub fn parse(s: &str) -> (r: Result<Duration, DurationError>)
        ensures
            match r {
                Ok(d) => spec_duration_parse(s@) == Some(d) && d.wf(),
                Err(_) => spec_duration_parse(s@) is None,
            },
    {
        let t = trim_str(s);
        let n = t.unicode_len();
        let i = match last_digit_index(t) {
            None => {
                return Err(DurationError);
            },
            Some(i) => i,
        };
        let num: u128 = match parse_decimal(t, i + 1, u128::MAX) {
            None => {
                return Err(DurationError);
            },
            Some(v) => v,
        };
        let mut j = i + 1;
        while j < n && is_space_char(t.get_char(j))
            invariant
                n == t@.len(),
                i + 1 <= j <= n,
                forall|x: int| i + 1 <= x < j ==> is_space(t@[x]),
            decreases n - j,
        {
            j = j + 1;
        }
        proof {
            let rest = t@.subrange(i + 1, n as int);
            lemma_trim_front_at(rest, j - (i + 1));
            assert(rest.subrange(j - (i + 1), rest.len() as int) =~= t@.subrange(
                j as int,
                n as int,
            ));
            let tail = t@.subrange(j as int, n as int);
            lemma_trim_no_outer_space(s@);
            lemma_trim_back_at(tail, tail.len() as int);
            assert(tail.subrange(0, tail.len() as int) =~= tail);
            assert(trim(t@.subrange(i + 1, n as int)) == tail);
        }
        let unit = t.substring_char(j, n);
        let factor: u64 = match unit_to_factor(unit) {
            Ok(f) => f,
            Err(e) => {
                return Err(e);
            },
        };
        let max_nanos: u128 = u64::MAX as u128 * 1_000_000_000 + 999_999_999;
        if num > max_nanos / (factor as u128) {
            proof {
                lemma_mul_div_bound(num as nat, factor as nat, spec_max_nanos());
            }
            return Err(DurationError);
        }
        proof {
            lemma_mul_div_bound(num as nat, factor as nat, spec_max_nanos());
        }
        let total = num * (factor as u128);
        let secs = (total / 1_000_000_000) as u64;
        let nanos = (total % 1_000_000_000) as u32;
        proof {
            vstd::arithmetic::div_mod::lemma_fundamental_div_mod(total as int, 1_000_000_000);
            vstd::arithmetic::div_mod::lemma_mod_division_less_than_divisor(
                total as int,
                1_000_000_000,
            );
        }
        Ok(Duration { secs, nanos })
    }
}

impl From<Duration> for u128 {
    /// The total length in nanoseconds.
    fn from(other: Duration) -> (r: Self) {
        other.as_nanos()
    }
}

impl vstd::std_specs::convert::FromSpecImpl<Duration> for u128 {
    open spec fn obeys_from_spec() -> bool {
        true
    }

    open spec fn from_spec(other: Duration) -> Self {
        other.total_nanos() as u128
    }
}

impl core::str::FromStr for Duration {
    type Err = DurationError;

    /// Parses the duration grammar; see [`Duration::parse`].
    fn from_str(other: &str) -> Result<Self, DurationError> {
        Duration::parse(other)
    }
}

/// The grammar is accepted whole: a decimal literal with a recognized
/// unit and arbitrary surrounding whitespace parses to the literal times
/// the unit's factor, whenever that product is representable.
pub proof fn lemma_duration_parse_grammar(
    ws1: Seq<char>,
    digits: Seq<char>,
    ws2: Seq<char>,
    unit: Seq<char>,
    ws3: Seq<char>,
    f: nat,
)
    requires
        all_space(ws1),
        all_space(ws2),
        all_space(ws3),
        digits.len() > 0,
        all_digits(digits),
        spec_dur_unit_factor(unit) == Some(f),
        digits_val(digits) * f <= spec_max_nanos(),
    ensures
        ({
            let n = digits_val(digits) * f;
            spec_duration_parse(ws1 + digits + ws2 + unit + ws3) == Some(
                Duration { secs: (n / 1000000000) as u64, nanos: (n % 1000000000) as u32 },
            )
        }),
{
    assert(f >= 1);
    assert(forall|i: int| 0 <= i < unit.len() ==> !is_space(unit[i]) && !is_digit(unit[i]))
        by {
        if unit.len() == 1 {
            assert(unit[0] == 's' || unit[0] == 'm' || unit[0] == 'h' || unit[0] == 'd');
        }
        if unit.len() == 2 {
            assert(unit[1] == 's');
            assert(unit[0] == 'n' || unit[0] == 'μ' || unit[0] == 'm');
        }
    }
    lemma_grammar_split(ws1, digits, ws2, unit, ws3);
    assert(digits_val(digits) <= digits_val(digits) * f) by (nonlinear_arith)
        requires
            f >= 1,
    ;
}

/// Parse–display symmetry: a grammatical literal parses, rendering the
/// duration back yields text that parses to the very same duration, and
/// its nanosecond total is an exact multiple of the literal.
pub proof fn lemma_duration_parse_display_symmetry(
    ws1: Seq<char>,
    digits: Seq<char>,
    ws2: Seq<char>,
    unit: Seq<char>,
    ws3: Seq<char>,
    f: nat,
)
    requires
        all_space(ws1),
        all_space(ws2),
        all_space(ws3),
        digits.len() > 0,
        all_digits(digits),
        spec_dur_unit_factor(unit) == Some(f),
        digits_val(digits) * f <= spec_max_nanos(),
    ensures
        ({
            let n = digits_val(digits) * f;
            let d = Duration { secs: (n / 1000000000) as u64, nanos: (n % 1000000000) as u32 };
            &&& spec_duration_parse(ws1 + digits + ws2 + unit + ws3) == Some(d)
            &&& spec_duration_parse(spec_duration_display(d.secs, d.nanos)) == Some(d)
            &&& d.total_nanos() == n
            &&& digits_val(digits) > 0 ==> n % digits_val(digits) == 0
        }),
{
    lemma_duration_parse_grammar(ws1, digits, ws2, unit, ws3, f);
    let n = digits_val(digits) * f;
    let d = Duration { secs: (n / 1000000000) as u64, nanos: (n % 1000000000) as u32 };
    assert(n == 1000000000 * (n / 1000000000) + n % 1000000000 && n % 1000000000 < 1000000000)
        by {
        vstd::arithmetic::div_mod::lemma_fundamental_div_mod(n as int, 1000000000);
        vstd::arithmetic::div_mod::lemma_mod_division_less_than_divisor(n as int, 1000000000);
    }
    assert(d.total_nanos() == n);
    lemma_duration_round_trip(d.secs, d.nanos);
    if digits_val(digits) > 0 {
        let l = digits_val(digits);
        assert(n == f * l) by (nonlinear_arith)
            requires
                n == l * f,
        ;
        vstd::arithmetic::div_mod::lemma_mod_multiples_basic(f as int, l as int);
    }
}

/// The exact text form never needs more than
/// [`Duration::MAX_STRING_LEN`] characters: enough room for the whole
/// nanosecond-precision range.
pub proof fn lemma_duration_display_len(secs: u64, nanos: u32)
    ensures
        spec_duration_display(secs, nanos).len() <= Duration::MAX_STRING_LEN,
{
    let n = secs as nat * 1000000000 + nanos as nat;
    if n != 0 {
        let e = dur_exponent(n);
        let f = dur_factor(e);
        assert(f >= 1);
        let m = n / f;
        assert(pow10(29) == 100_000_000_000_000_000_000_000_000_000 && pow10(26)
            == 100_000_000_000_000_000_000_000_000) by {
            reveal_with_fuel(pow10, 30);
        }
        assert(n < pow10(29));
        if e == 0 {
            assert(m == n) by (nonlinear_arith)
                requires
                    m == n / 1,
            ;
            lemma_dec_digits_len_le(m, 29);
        } else {
            assert(f >= 1000);
            assert(m <= n / 1000) by {
                vstd::arithmetic::div_mod::lemma_div_is_ordered_by_denominator(
                    n as int,
                    1000,
                    f as int,
                );
            }
            assert(n / 1000 < pow10(26)) by {
                vstd::arithmetic::div_mod::lemma_div_is_ordered(
                    n as int,
                    pow10(29) as int - 1,
                    1000,
                );
            }
            lemma_dec_digits_len_le(m, 26);
        }
    }
}

/// Round-trip law: the exact text form of any valid duration parses back
/// to that same duration.
pub proof fn lemma_duration_round_trip(secs: u64, nanos: u32)
    requires
        nanos < 1_000_000_000,
    ensures
        spec_duration_parse(spec_duration_display(secs, nanos)) == Some(Duration { secs, nanos }),
{
    let n = secs as nat * 1000000000 + nanos as nat;
    if n == 0 {
        let s = spec_duration_display(secs, nanos);
        assert(s == seq!['0', 's']);
        lemma_trim_front_at(s, 0);
        assert(s.subrange(0, s.len() as int) =~= s);
        lemma_trim_back_at(s, s.len() as int);
        assert(s.subrange(0, 2) =~= s);
        assert(trim(s) == s);
        assert(!is_digit(s.last()));
        assert(last_digit_idx(s.drop_last()) == 0) by {
            assert(s.drop_last() =~= seq!['0']);
            assert(is_digit(seq!['0'].last()));
        }
        assert(last_digit_idx(s) == 0);
        assert(s.subrange(0, 1) =~= dec_digits(0));
        lemma_dec_digits_val(0);
        let unit = s.subrange(1, 2);
        assert(unit =~= seq!['s']);
        lemma_trim_front_at(unit, 0);
        assert(unit.subrange(0, 1) =~= unit);
        lemma_trim_back_at(unit, 1);
        assert(trim(unit) == unit);
        assert(spec_dur_unit_factor(unit) == Some(1000000000nat));
        assert(spec_duration_parse(s) == Some(Duration { secs: 0u64, nanos: 0u32 }));
    } else {
        let e = dur_exponent(n);
        let f = dur_factor(e);
        assert(f >= 1);
        assert(n % f == 0);
        let m = n / f;
        assert(m == (n as int) / (f as int));
        vstd::arithmetic::div_mod::lemma_fundamental_div_mod(n as int, f as int);
        assert((n as int) % (f as int) == 0);
        assert(n as int == f as int * ((n as int) / (f as int)));
        assert(n == m * f);
        assert(m >= 1 && m <= n) by (nonlinear_arith)
            requires
                n == m * f,
                f >= 1,
                n >= 1,
        ;
        let digits = dec_digits(m);
        let unit = dur_unit_chars(e);
        let s = digits + unit;
        lemma_dec_digits_shape(m);
        lemma_dec_digits_val(m);
        assert(spec_duration_display(secs, nanos) == s);
        // the rendering holds no whitespace, so trimming keeps it whole
        assert(forall|i: int| 0 <= i < s.len() ==> !is_space(s[i]));
        lemma_trim_front_at(s, 0);
        assert(s.subrange(0, s.len() as int) =~= s);
        lemma_trim_back_at(s, s.len() as int);
        assert(trim(s) == s);
        // the last digit is the last character of the numeral
        assert(forall|i: int| 0 <= i < unit.len() ==> !is_digit(unit[i]));
        lemma_last_digit_concat(digits, unit);
        assert(digits.last() == s[digits.len() - 1]);
        assert(last_digit_idx(s) == digits.len() - 1);
        let i = last_digit_idx(s);
        assert(s.subrange(0, i + 1) =~= digits);
        let rest = s.subrange(i + 1, s.len() as int);
        assert(rest =~= unit);
        lemma_trim_front_at(unit, 0);
        assert(unit.subrange(0, unit.len() as int) =~= unit);
        lemma_trim_back_at(unit, unit.len() as int);
        assert(trim(unit) == unit);
        assert(spec_dur_unit_factor(unit) == Some(f));
        assert(digits_val(digits) * f == n);
        assert(n <= spec_max_nanos());
        // splitting the nanosecond total reproduces the two parts
        vstd::arithmetic::div_mod::lemma_fundamental_div_mod_converse(
            n as int,
            1000000000,
            secs as int,
            nanos as int,
        );
    }
}

} // verus!
