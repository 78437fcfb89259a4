//! Exact size in bytes.
//!
//! The intended use is configuration values where exact numbers are
//! required, i.e. cache size, maximum HTTP body size etc. The text form
//! renders the count scaled by the largest power of 1024 that divides it
//! exactly, and parsing reverses that rendering without loss.

use vstd::prelude::*;

use crate::arith::lemma_div_step;
use crate::arith::lemma_divides_factor;
use crate::arith::lemma_mul_div_bound;
use crate::arith::lemma_quotient_divisible;
use crate::text::all_digits;
use crate::text::all_space;
use crate::text::lemma_grammar_split;
use crate::text::dec_digits;
use crate::text::digits_val;
use crate::text::is_digit;
use crate::text::is_space;
use crate::text::last_digit_idx;
use crate::text::last_digit_index;
use crate::text::lemma_dec_digits_shape;
use crate::text::lemma_dec_digits_val;
use crate::text::lemma_last_digit_concat;
use crate::text::lemma_trim_back_at;
use crate::text::lemma_trim_front_at;
use crate::text::lemma_trim_no_outer_space;
use crate::text::lemma_dec_digits_len_le;
use crate::text::parse_decimal;
use crate::text::pow10;
use crate::text::push_decimal;
use crate::text::push_digit;
use crate::text::is_space_char;
use crate::text::trim;
use crate::text::trim_str;
use vstd::string::StringExecFns;

verus! {

/// Exact size in bytes.
#[derive(Debug, Default, Clone, Copy, Hash, PartialEq, Eq, PartialOrd, Ord, Structural)]
pub struct Size(pub u64);

/// Size parsing error.
#[derive(Debug)]
pub struct SizeError;

/// 1024 raised to `e`.
pub open spec fn pow1024(e: nat) -> nat
    decreases e,
{
    if e == 0 {
        1
    } else {
        1024 * pow1024((e - 1) as nat)
    }
}

/// The largest exponent `e <= 4` such that `1024^e` divides `v`: the
/// coarsest unit in which `v` renders exactly.
pub open spec fn size_exponent(v: nat) -> nat {
    if v % pow1024(4) == 0 {
        4
    } else if v % pow1024(3) == 0 {
        3
    } else if v % pow1024(2) == 0 {
        2
    } else if v % pow1024(1) == 0 {
        1
    } else {
        0
    }
}

/// Unit suffix written for exponent `e`.
pub open spec fn size_unit_chars(e: nat) -> Seq<char> {
    if e == 1 {
        seq!['k']
    } else if e == 2 {
        seq!['m']
    } else if e == 3 {
        seq!['g']
    } else if e == 4 {
        seq!['t']
    } else {
        Seq::<char>::empty()
    }
}

/// The exact text form of a byte count: the count divided by the largest
/// power of 1024 that divides it, followed by that power's unit suffix.
/// Zero renders as a bare `0`.
pub open spec fn spec_size_display(v: u64) -> Seq<char> {
    if v == 0 {
        seq!['0']
    } else {
        dec_digits(v as nat / pow1024(size_exponent(v as nat))) + size_unit_chars(
            size_exponent(v as nat),
        )
    }
}

/// The factor a unit suffix stands for: none for an unrecognized suffix.
/// The empty suffix means bytes; `k`, `m`, `g`, `t` (either case) are the
/// four powers of 1024.
pub open spec fn spec_size_unit_factor(u: Seq<char>) -> Option<nat> {
    if u.len() == 0 {
        Some(1)
    } else if u.len() == 1 {
        if u[0] == 'k' || u[0] == 'K' {
            Some(1024)
        } else if u[0] == 'm' || u[0] == 'M' {
            Some(1024 * 1024)
        } else if u[0] == 'g' || u[0] == 'G' {
            Some(1024 * 1024 * 1024)
        } else if u[0] == 't' || u[0] == 'T' {
            Some(1024 * 1024 * 1024 * 1024)
        } else {
            None
        }
    } else {
        None
    }
}

/// The value a size string denotes, if any: whitespace-trimmed, a decimal
/// numeral up to its last digit, then an optional whitespace-separated
/// unit suffix. Absent digits, an unrecognized suffix, and any overflow
/// of the 64-bit range denote nothing.
pub open spec fn spec_size_parse(s: Seq<char>) -> Option<u64> {
    let t = trim(s);
    let i = last_digit_idx(t);
    if i < 0 {
        None
    } else {
        let num = t.subrange(0, i + 1);
        let unit = trim(t.subrange(i + 1, t.len() as int));
        if all_digits(num) && digits_val(num) <= u64::MAX {
            match spec_size_unit_factor(unit) {
                Some(f) => if digits_val(num) * f <= u64::MAX {
                    Some((digits_val(num) * f) as u64)
                } else {
                    None
                },
                None => None,
            }
        } else {
            None
        }
    }
}

/// Maps a single-character unit suffix to its byte factor.
pub fn unit_to_factor(unit: u8) -> (r: Result<u64, SizeError>)
    ensures
        ({
            let c = unit as char;
            match r {
                Ok(f) => spec_size_unit_factor(seq![c]) == Some(f as nat) && 1 <= f,
                Err(_) => spec_size_unit_factor(seq![c]) is None,
            }
        }),
{
    if unit == 107 || unit == 75 {
        // 'k' | 'K'
        Ok(1024)
    } else if unit == 109 || unit == 77 {
        // 'm' | 'M'
        Ok(1024 * 1024)
    } else if unit == 103 || unit == 71 {
        // 'g' | 'G'
        Ok(1024 * 1024 * 1024)
    } else if unit == 116 || unit == 84 {
        // 't' | 'T'
        Ok(1024 * 1024 * 1024 * 1024)
    } else {
        Err(SizeError)
    }
}

pub proof fn lemma_pow1024_pos(e: nat)
    ensures
        pow1024(e) >= 1,
    decreases e,
{
    if e > 0 {
        lemma_pow1024_pos((e - 1) as nat)
    }
}

/// One more division by 1024 moves the quotient one exponent up.
proof fn lemma_size_step(v0: nat, e: nat, v: nat)
    requires
        v0 % pow1024(e) == 0,
        v == v0 / pow1024(e),
        v % 1024 == 0,
        v > 0,
    ensures
        v0 % pow1024(e + 1) == 0,
        v / 1024 == v0 / pow1024(e + 1),
        v / 1024 > 0,
{
    lemma_pow1024_pos(e);
    lemma_div_step(v0, pow1024(e), 1024, v);
    assert(pow1024(e) * 1024 == pow1024(e + 1)) by (nonlinear_arith)
        requires
            pow1024(e + 1) == 1024 * pow1024(e),
    ;
}

/// A value not divisible by a smaller power of 1024 is not divisible by a
/// larger one either.
proof fn lemma_pow1024_not_divides_up(v0: nat, a: nat, b: nat)
    requires
        a <= b,
        v0 % pow1024(a) != 0,
    ensures
        v0 % pow1024(b) != 0,
    decreases b - a,
{
    if b > a {
        lemma_pow1024_not_divides_up(v0, a, (b - 1) as nat);
        let p = pow1024((b - 1) as nat) as int;
        lemma_pow1024_pos((b - 1) as nat);
        if v0 % pow1024(b) == 0 {
            assert(pow1024(b) == pow1024((b - 1) as nat) * 1024) by (nonlinear_arith)
                requires
                    pow1024(b) == 1024 * pow1024((b - 1) as nat),
            ;
            lemma_divides_factor(v0, pow1024((b - 1) as nat), 1024);
        }
    }
}

/// The exponent reached by dividing out 1024 while it divides evenly is
/// the one the display spec picks.
proof fn lemma_size_exponent_determined(v0: nat, e: nat)
    requires
        e <= 4,
        v0 % pow1024(e) == 0,
        e < 4 ==> v0 % pow1024(e + 1) != 0,
    ensures
        size_exponent(v0) == e,
{
    if e < 4 {
        lemma_pow1024_not_divides_up(v0, e + 1, 4);
        if e + 1 <= 3 {
            lemma_pow1024_not_divides_up(v0, e + 1, 3);
        }
        if e + 1 <= 2 {
            lemma_pow1024_not_divides_up(v0, e + 1, 2);
        }
        lemma_pow1024_not_divides_up(v0, e + 1, e + 1);
    }
}

/// Where one more power of 1024 still divides the value, the running
/// quotient is still divisible by 1024.
proof fn lemma_size_quotient_divisible(v0: nat, e: nat)
    requires
        v0 % pow1024(e) == 0,
        v0 % pow1024(e + 1) == 0,
    ensures
        (v0 / pow1024(e)) % 1024 == 0,
{
    lemma_pow1024_pos(e);
    assert(pow1024(e) * 1024 == pow1024(e + 1)) by (nonlinear_arith)
        requires
            pow1024(e + 1) == 1024 * pow1024(e),
    ;
    lemma_quotient_divisible(v0, pow1024(e), 1024);
}

impl Size {
    /// Max. length in string form.
    pub const MAX_STRING_LEN: usize = 20;

    /// The exact text form: the count scaled by the coarsest unit that
    /// divides it, e.g. `0`, `1k`, `1025`.
    pub fn display(&self) -> (r: String)
        ensures
            r@ == spec_size_display(self.0),
            r@.len() <= Size::MAX_STRING_LEN,
    {
        proof {
            lemma_size_display_len(self.0);
        }
        let mut out = String::new();
        if self.0 == 0 {
            push_digit(&mut out, 0);
            proof {
                assert(out@ =~= spec_size_display(self.0));
            }
            return out;
        }
        let mut v = self.0;
        let mut e: usize = 0;
        proof {
            assert(pow1024(0) == 1);
            assert(v as nat == self.0 as nat / 1);
            assert(self.0 as nat % 1 == 0) by {
                vstd::arithmetic::div_mod::lemma_mod_self_0(1);
                vstd::arithmetic::div_mod::lemma_small_mod(0, 1);
            }
        }
        while e < 4 && v % 1024 == 0
            invariant
                self.0 > 0,
                e <= 4,
                self.0 as nat % pow1024(e as nat) == 0,
                v as nat == self.0 as nat / pow1024(e as nat),
                v > 0,
            decreases 4 - e,
        {
            proof {
                lemma_size_step(self.0 as nat, e as nat, v as nat);
            }
            v = v / 1024;
            e = e + 1;
        }
        proof {
            if e < 4 && self.0 as nat % pow1024(e as nat + 1) == 0 {
                lemma_size_quotient_divisible(self.0 as nat, e as nat);
            }
            lemma_size_exponent_determined(self.0 as nat, e as nat);
        }
        push_decimal(&mut out, v as u128);
        if e == 1 {
            proof {
                reveal_strlit("k");
                assert("k"@ =~= seq!['k']);
            }
            out.append("k");
        } else if e == 2 {
            proof {
                reveal_strlit("m");
                assert("m"@ =~= seq!['m']);
            }
            out.append("m");
        } else if e == 3 {
            proof {
                reveal_strlit("g");
                assert("g"@ =~= seq!['g']);
            }
            out.append("g");
        } else if e == 4 {
            proof {
                reveal_strlit("t");
                assert("t"@ =~= seq!['t']);
            }
            out.append("t");
        }
        proof {
            assert(out@ =~= spec_size_display(self.0));
        }
        out
    }

    /// Parses the size grammar: optional whitespace, a decimal numeral,
    /// optional whitespace, an optional unit suffix, optional whitespace.
    pub fn parse(s: &str) -> (r: Result<Size, SizeError>)
        ensures
            match r {
                Ok(v) => spec_size_parse(s@) == Some(v.0),
                Err(_) => spec_size_parse(s@) is None,
            },
    {
        let t = trim_str(s);
        let n = t.unicode_len();
        let i = match last_digit_index(t) {
            None => {
                return Err(SizeError);
            },
            Some(i) => i,
        };
        let num: u64 = match parse_decimal(t, i + 1, u64::MAX as u128) {
            None => {
                return Err(SizeError);
            },
            Some(v) => v as u64,
        };
        let mut j = i + 1;
        while j < n && is_space_char(t.get_char(j))
            invariant
                n == t@.len(),
                i + 1 <= j <= n,
                forall|x: int| i + 1 <= x < j ==> is_space(t@[x]),
            decreases n - j,
        {
            j = j + 1;
        }
        proof {
            let rest = t@.subrange(i + 1, n as int);
            lemma_trim_front_at(rest, j - (i + 1));
            assert(rest.subrange(j - (i + 1), rest.len() as int) =~= t@.subrange(
                j as int,
                n as int,
            ));
            let tail = t@.subrange(j as int, n as int);
            lemma_trim_no_outer_space(s@);
            lemma_trim_back_at(tail, tail.len() as int);
            assert(tail.subrange(0, tail.len() as int) =~= tail);
            assert(trim(t@.subrange(i + 1, n as int)) == tail);
        }
        let factor: u64 = if j == n {
            proof {
                assert(t@.subrange(j as int, n as int) =~= Seq::<char>::empty());
            }
            1
        } else if j + 1 == n {
            let c = t.get_char(j);
            let u = c as u32;
            proof {
                assert(t@.subrange(j as int, n as int) =~= seq![t@[j as int]]);
            }
            if u < 128 {
                match unit_to_factor(u as u8) {
                    Ok(f) => f,
                    Err(e) => {
                        return Err(e);
                    },
                }
            } else {
                proof {
                    assert(c as u32 >= 128);
                    assert(c != 'k' && c != 'K' && c != 'm' && c != 'M' && c != 'g' && c != 'G'
                        && c != 't' && c != 'T');
                }
                return Err(SizeError);
            }
        } else {
            return Err(SizeError);
        };
        if num > u64::MAX / factor {
            proof {
                lemma_mul_div_bound(num as nat, factor as nat, u64::MAX as nat);
            }
            return Err(SizeError);
        }
        proof {
            lemma_mul_div_bound(num as nat, factor as nat, u64::MAX as nat);
        }
        Ok(Size(num * factor))
    }
}

/// The first eight powers of 1024, written out.
pub proof fn lemma_pow1024_values()
    ensures
        pow1024(0) == 1,
        pow1024(1) == 1024,
        pow1024(2) == 1024 * 1024,
        pow1024(3) == 1024 * 1024 * 1024,
        pow1024(4) == 1024 * 1024 * 1024 * 1024,
        pow1024(5) == 1024 * 1024 * 1024 * 1024 * 1024,
        pow1024(6) == 1024 * 1024 * 1024 * 1024 * 1024 * 1024,
        pow1024(7) == 1024 * 1024 * 1024 * 1024 * 1024 * 1024 * 1024,
{
    reveal_with_fuel(pow1024, 9);
}

impl From<u64> for Size {
    /// Wraps a raw byte count.
    fn from(other: u64) -> (r: Self) {
        Size(other)
    }
}

impl vstd::std_specs::convert::FromSpecImpl<u64> for Size {
    open spec fn obeys_from_spec() -> bool {
        true
    }

    open spec fn from_spec(other: u64) -> Self {
        Size(other)
    }
}

impl From<Size> for u64 {
    /// Unwraps the raw byte count.
    fn from(other: Size) -> (r: Self) {
        other.0
    }
}

impl vstd::std_specs::convert::FromSpecImpl<Size> for u64 {
    open spec fn obeys_from_spec() -> bool {
        true
    }

    open spec fn from_spec(other: Size) -> Self {
        other.0
    }
}

impl core::str::FromStr for Size {
    type Err = SizeError;

    /// Parses the size grammar; see [`Size::parse`].
    fn from_str(other: &str) -> Result<Self, SizeError> {
        Size::parse(other)
    }
}

/// The exact text form never needs more than [`Size::MAX_STRING_LEN`]
/// characters: enough room for every 64-bit count.
pub proof fn lemma_size_display_len(v: u64)
    ensures
        spec_size_display(v).len() <= Size::MAX_STRING_LEN,
{
    if v != 0 {
        let e = size_exponent(v as nat);
        let p = pow1024(e);
        lemma_pow1024_pos(e);
        lemma_pow1024_values();
        let m = v as nat / p;
        assert(pow10(20) == 100_000_000_000_000_000_000 && pow10(17) == 100_000_000_000_000_000)
            by {
            reveal_with_fuel(pow10, 21);
        }
        if e == 0 {
            assert(m == v) by (nonlinear_arith)
                requires
                    m == v as nat / 1,
            ;
            lemma_dec_digits_len_le(m, 20);
        } else {
            assert(p >= 1024);
            assert(m <= v as nat / 1024) by {
                vstd::arithmetic::div_mod::lemma_div_is_ordered_by_denominator(
                    v as int,
                    1024,
                    p as int,
                );
            }
            assert(v as nat / 1024 < 100_000_000_000_000_000) by {
                vstd::arithmetic::div_mod::lemma_div_is_ordered(
                    v as int,
                    u64::MAX as int,
                    1024,
                );
            }
            lemma_dec_digits_len_le(m, 17);
        }
    }
}

/// The grammar is accepted whole: a decimal literal with a recognized
/// unit and arbitrary surrounding whitespace parses to the literal times
/// the unit's factor, whenever that product is representable.
pub proof fn lemma_size_parse_grammar(
    ws1: Seq<char>,
    digits: Seq<char>,
    ws2: Seq<char>,
    unit: Seq<char>,
    ws3: Seq<char>,
    f: nat,
)
    requires
        all_space(ws1),
        all_space(ws2),
        all_space(ws3),
        digits.len() > 0,
        all_digits(digits),
        spec_size_unit_factor(unit) == Some(f),
        digits_val(digits) * f <= u64::MAX,
    ensures
        spec_size_parse(ws1 + digits + ws2 + unit + ws3) == Some(
            (digits_val(digits) * f) as u64,
        ),
{
    assert(f >= 1);
    assert(forall|i: int| 0 <= i < unit.len() ==> !is_space(unit[i]) && !is_digit(unit[i]))
        by {
        if unit.len() == 1 {
            assert(unit[0] == 'k' || unit[0] == 'K' || unit[0] == 'm' || unit[0] == 'M' || unit[0]
                == 'g' || unit[0] == 'G' || unit[0] == 't' || unit[0] == 'T');
        }
    }
    lemma_grammar_split(ws1, digits, ws2, unit, ws3);
    assert(digits_val(digits) <= digits_val(digits) * f) by (nonlinear_arith)
        requires
            f >= 1,
    ;
}

/// Parse–display symmetry: a grammatical literal parses, rendering the
/// value back yields text that parses to the very same value, and that
/// value is an exact multiple of the literal.
pub proof fn lemma_size_parse_display_symmetry(
    ws1: Seq<char>,
    digits: Seq<char>,
    ws2: Seq<char>,
    unit: Seq<char>,
    ws3: Seq<char>,
    f: nat,
)
    requires
        all_space(ws1),
        all_space(ws2),
        all_space(ws3),
        digits.len() > 0,
        all_digits(digits),
        spec_size_unit_factor(unit) == Some(f),
        digits_val(digits) * f <= u64::MAX,
    ensures
        ({
            let v = (digits_val(digits) * f) as u64;
            &&& spec_size_parse(ws1 + digits + ws2 + unit + ws3) == Some(v)
            &&& spec_size_parse(spec_size_display(v)) == Some(v)
            &&& digits_val(digits) > 0 ==> v as nat % digits_val(digits) == 0
        }),
{
    lemma_size_parse_grammar(ws1, digits, ws2, unit, ws3, f);
    let v = (digits_val(digits) * f) as u64;
    lemma_size_round_trip(v);
    if digits_val(digits) > 0 {
        let l = digits_val(digits);
        assert(v == f * l) by (nonlinear_arith)
            requires
                v == l * f,
        ;
        vstd::arithmetic::div_mod::lemma_mod_multiples_basic(f as int, l as int);
    }
}

/// Round-trip law: the exact text form of any byte count parses back to
/// that same count.
pub proof fn lemma_size_round_trip(v: u64)
    ensures
        spec_size_parse(spec_size_display(v)) == Some(v),
{
    if v == 0 {
        let s = spec_size_display(v);
        lemma_trim_front_at(s, 0);
        assert(s.subrange(0, s.len() as int) =~= s);
        lemma_trim_back_at(s, 1);
        assert(s.subrange(0, 1) =~= s);
        assert(trim(s) == s);
        assert(last_digit_idx(s) == 0);
        assert(s.subrange(0, 1) =~= dec_digits(0));
        lemma_dec_digits_val(0);
        assert(trim(s.subrange(1, 1)) =~= Seq::<char>::empty()) by {
            assert(s.subrange(1, 1) =~= Seq::<char>::empty());
        }
    } else {
        let e = size_exponent(v as nat);
        let p = pow1024(e);
        lemma_pow1024_pos(e);
        assert(v as nat % p == 0);
        let m = v as nat / p;
        assert(m == (v as int) / (p as int));
        vstd::arithmetic::div_mod::lemma_fundamental_div_mod(v as int, p as int);
        assert((v as int) % (p as int) == 0);
        assert(v as int == p as int * ((v as int) / (p as int)));
        assert(v == m * p);
        assert(m >= 1 && m <= v) by (nonlinear_arith)
            requires
                v == m * p,
                p >= 1,
                v >= 1,
        ;
        let digits = dec_digits(m);
        let unit = size_unit_chars(e);
        let s = digits + unit;
        lemma_dec_digits_shape(m);
        lemma_dec_digits_val(m);
        assert(spec_size_display(v) == s);
        // the rendering holds no whitespace, so trimming keeps it whole
        assert(forall|i: int| 0 <= i < s.len() ==> !is_space(s[i]));
        lemma_trim_front_at(s, 0);
        assert(s.subrange(0, s.len() as int) =~= s);
        lemma_trim_back_at(s, s.len() as int);
        assert(trim(s) == s);
        // the last digit is the last character of the numeral
        assert(forall|i: int| 0 <= i < unit.len() ==> !is_digit(unit[i]));
        lemma_last_digit_concat(digits, unit);
        assert(digits.last() == s[digits.len() - 1]);
        assert(last_digit_idx(s) == digits.len() - 1);
        let i = last_digit_idx(s);
        assert(s.subrange(0, i + 1) =~= digits);
        let rest = s.subrange(i + 1, s.len() as int);
        assert(rest =~= unit);
        lemma_trim_front_at(unit, 0);
        assert(unit.subrange(0, unit.len() as int) =~= unit);
        lemma_trim_back_at(unit, unit.len() as int);
        assert(trim(unit) == unit);
        assert(spec_size_unit_factor(unit) == Some(p)) by {
            lemma_pow1024_values();
        }
        assert(digits_val(digits) * p == v);
    }
}

} // verus!
