//! Character-level model of the text grammar shared by the size and
//! duration codecs: decimal digit sequences, whitespace trimming, and
//! locating the numeric part of a unit-suffixed literal.

use vstd::prelude::*;

verus! {

broadcast use vstd::string::group_string_axioms;

/// An ASCII decimal digit.
pub open spec fn is_digit(c: char) -> bool {
    '0' <= c && c <= '9'
}

/// Numeric value of a digit character.
pub open spec fn digit_val(c: char) -> nat {
    (c as int - '0' as int) as nat
}

/// The digit character for a value below ten.
pub open spec fn char_of_digit(d: nat) -> char {
    if d == 0 {
        '0'
    } else if d == 1 {
        '1'
    } else if d == 2 {
        '2'
    } else if d == 3 {
        '3'
    } else if d == 4 {
        '4'
    } else if d == 5 {
        '5'
    } else if d == 6 {
        '6'
    } else if d == 7 {
        '7'
    } else if d == 8 {
        '8'
    } else {
        '9'
    }
}

/// Decimal rendering of `n`, most significant digit first, no leading
/// zeros, at least one digit.
pub open spec fn dec_digits(n: nat) -> Seq<char>
    decreases n,
{
    if n < 10 {
        seq![char_of_digit(n)]
    } else {
        dec_digits(n / 10) + seq![char_of_digit(n % 10)]
    }
}

/// Value of a digit sequence read as a decimal numeral.
pub open spec fn digits_val(s: Seq<char>) -> nat
    decreases s.len(),
{
    if s.len() == 0 {
        0
    } else {
        digits_val(s.drop_last()) * 10 + digit_val(s.last())
    }
}

/// Every character is an ASCII decimal digit.
pub open spec fn all_digits(s: Seq<char>) -> bool {
    forall|i: int| 0 <= i < s.len() ==> is_digit(s[i])
}

/// Whitespace accepted around the number and the unit.
pub open spec fn is_space(c: char) -> bool {
    c == ' ' || c == '\t' || c == '\n' || c == '\r'
}

/// Every character is whitespace.
pub open spec fn all_space(s: Seq<char>) -> bool {
    forall|i: int| 0 <= i < s.len() ==> is_space(s[i])
}

/// `s` without its leading whitespace.
pub open spec fn trim_front(s: Seq<char>) -> Seq<char>
    decreases s.len(),
{
    if s.len() > 0 && is_space(s[0]) {
        trim_front(s.drop_first())
    } else {
        s
    }
}

/// `s` without its trailing whitespace.
pub open spec fn trim_back(s: Seq<char>) -> Seq<char>
    decreases s.len(),
{
    if s.len() > 0 && is_space(s.last()) {
        trim_back(s.drop_last())
    } else {
        s
    }
}

/// `s` without leading and trailing whitespace.
pub open spec fn trim(s: Seq<char>) -> Seq<char> {
    trim_back(trim_front(s))
}

/// Index of the last digit character of `s`, or `-1` if there is none.
pub open spec fn last_digit_idx(s: Seq<char>) -> int
    decreases s.len(),
{
    if s.len() == 0 {
        -1
    } else if is_digit(s.last()) {
        s.len() - 1
    } else {
        last_digit_idx(s.drop_last())
    }
}

/// 10 raised to `k`.
pub open spec fn pow10(k: nat) -> nat
    decreases k,
{
    if k == 0 {
        1
    } else {
        10 * pow10((k - 1) as nat)
    }
}

pub proof fn lemma_pow10_pos(k: nat)
    ensures
        pow10(k) >= 1,
    decreases k,
{
    if k > 0 {
        lemma_pow10_pos((k - 1) as nat)
    }
}

/// A value below `pow10(j)` renders in at most `j` digits.
pub proof fn lemma_dec_digits_len_le(m: nat, j: nat)
    requires
        j >= 1,
        m < pow10(j),
    ensures
        dec_digits(m).len() <= j,
    decreases j,
{
    if m < 10 {
    } else {
        assert(j >= 2) by {
            reveal_with_fuel(pow10, 3);
        }
        lemma_pow10_pos((j - 1) as nat);
        assert(pow10(j) == 10 * pow10((j - 1) as nat));
        assert(m / 10 < pow10((j - 1) as nat)) by (nonlinear_arith)
            requires
                m < 10 * pow10((j - 1) as nat),
                m >= 10,
                m / 10 <= m,
                m == 10 * (m / 10) + m % 10,
                m % 10 >= 0,
        ;
        lemma_dec_digits_len_le(m / 10, (j - 1) as nat);
    }
    if m >= 10 {
        assert(m == 10 * (m / 10) + m % 10) by {
            vstd::arithmetic::div_mod::lemma_fundamental_div_mod(m as int, 10);
        }
    }
}

/// A value below ten and its digit character correspond exactly.
pub proof fn lemma_char_digit_val(d: nat)
    requires
        d < 10,
    ensures
        digit_val(char_of_digit(d)) == d,
        is_digit(char_of_digit(d)),
{
}

/// The decimal rendering consists of digits and is never empty.
pub proof fn lemma_dec_digits_shape(n: nat)
    ensures
        dec_digits(n).len() >= 1,
        all_digits(dec_digits(n)),
    decreases n,
{
    if n < 10 {
    } else {
        lemma_dec_digits_shape(n / 10);
        assert forall|i: int| 0 <= i < dec_digits(n).len() implies is_digit(
            dec_digits(n)[i],
        ) by {
            if i < dec_digits(n / 10).len() {
                assert(dec_digits(n)[i] == dec_digits(n / 10)[i]);
            }
        }
    }
}

/// Reading the decimal rendering back gives the value rendered.
pub proof fn lemma_dec_digits_val(n: nat)
    ensures
        digits_val(dec_digits(n)) == n,
    decreases n,
{
    if n < 10 {
        lemma_char_digit_val(n);
        let s = dec_digits(n);
        assert(s =~= seq![char_of_digit(n)]);
        assert(s.len() == 1);
        assert(s.last() == char_of_digit(n));
        assert(s.drop_last() =~= Seq::<char>::empty());
        assert(digits_val(s.drop_last()) == 0);
        assert(digits_val(s) == digits_val(s.drop_last()) * 10 + digit_val(s.last()));
    } else {
        lemma_dec_digits_val(n / 10);
        lemma_char_digit_val(n % 10);
        let s = dec_digits(n);
        assert(s.drop_last() =~= dec_digits(n / 10));
        assert(s.last() == char_of_digit(n % 10));
        assert(n == (n / 10) * 10 + n % 10) by {
            vstd::arithmetic::div_mod::lemma_fundamental_div_mod(n as int, 10);
        }
    }
}

/// A numeral is at least as large as any of its prefixes.
pub proof fn lemma_digits_val_prefix_le(s: Seq<char>, k: int)
    requires
        0 <= k <= s.len(),
    ensures
        digits_val(s.subrange(0, k)) <= digits_val(s),
    decreases s.len() - k,
{
    if k == s.len() {
        assert(s.subrange(0, k) =~= s);
    } else {
        lemma_digits_val_prefix_le(s.drop_last(), k);
        assert(s.drop_last().subrange(0, k) =~= s.subrange(0, k));
        assert(digits_val(s.drop_last()) <= digits_val(s.drop_last()) * 10 + digit_val(s.last()));
    }
}

/// Where the first `k` characters are whitespace and the next one is not,
/// trimming the front drops exactly those `k`.
pub proof fn lemma_trim_front_at(s: Seq<char>, k: int)
    requires
        0 <= k <= s.len(),
        forall|i: int| 0 <= i < k ==> is_space(s[i]),
        k == s.len() || !is_space(s[k]),
    ensures
        trim_front(s) == s.subrange(k, s.len() as int),
    decreases k,
{
    if k == 0 {
        assert(s.subrange(0, s.len() as int) =~= s);
    } else {
        let t = s.drop_first();
        assert(forall|i: int| 0 <= i < k - 1 ==> is_space(t[i]));
        lemma_trim_front_at(t, k - 1);
        assert(t.subrange(k - 1, t.len() as int) =~= s.subrange(k, s.len() as int));
    }
}

/// Where the characters from `k` on are whitespace and the one before `k`
/// is not, trimming the back keeps exactly the first `k`.
pub proof fn lemma_trim_back_at(s: Seq<char>, k: int)
    requires
        0 <= k <= s.len(),
        forall|i: int| k <= i < s.len() ==> is_space(s[i]),
        k == 0 || !is_space(s[k - 1]),
    ensures
        trim_back(s) == s.subrange(0, k),
    decreases s.len() - k,
{
    if k == s.len() {
        assert(s.subrange(0, k) =~= s);
    } else {
        let t = s.drop_last();
        lemma_trim_back_at(t, k);
        assert(t.subrange(0, k) =~= s.subrange(0, k));
    }
}

/// A trimmed sequence neither starts nor ends with whitespace.
pub proof fn lemma_trim_no_outer_space(s: Seq<char>)
    ensures
        trim(s).len() > 0 ==> !is_space(trim(s)[0]),
        trim(s).len() > 0 ==> !is_space(trim(s).last()),
{
    lemma_trim_front_first(s);
    lemma_trim_back_shape(trim_front(s));
}

proof fn lemma_trim_front_first(s: Seq<char>)
    ensures
        trim_front(s).len() > 0 ==> !is_space(trim_front(s)[0]),
    decreases s.len(),
{
    if s.len() > 0 && is_space(s[0]) {
        lemma_trim_front_first(s.drop_first());
    }
}

/// Trimming the back keeps a prefix: the first character and any
/// non-trailing-space structure survive.
proof fn lemma_trim_back_shape(s: Seq<char>)
    ensures
        trim_back(s).len() > 0 ==> !is_space(trim_back(s).last()),
        trim_back(s).len() <= s.len(),
        forall|i: int| 0 <= i < trim_back(s).len() ==> trim_back(s)[i] == s[i],
    decreases s.len(),
{
    if s.len() > 0 && is_space(s.last()) {
        let t = s.drop_last();
        lemma_trim_back_shape(t);
        assert(trim_back(s) == trim_back(t));
        assert forall|i: int| 0 <= i < trim_back(s).len() implies trim_back(s)[i] == s[i] by {
            assert(trim_back(t)[i] == t[i]);
            assert(t[i] == s[i]);
        }
    }
}

/// A sequence with no digit at or after `k` has its last digit where its
/// prefix of length `k` has it.
pub proof fn lemma_last_digit_subrange(s: Seq<char>, k: int)
    requires
        0 <= k <= s.len(),
        forall|i: int| k <= i < s.len() ==> !is_digit(s[i]),
    ensures
        last_digit_idx(s) == last_digit_idx(s.subrange(0, k)),
    decreases s.len() - k,
{
    if k == s.len() {
        assert(s.subrange(0, k) =~= s);
    } else {
        let t = s.drop_last();
        lemma_last_digit_subrange(t, k);
        assert(t.subrange(0, k) =~= s.subrange(0, k));
    }
}

/// The last digit of a concatenation whose second part has no digits is
/// the last digit of the first part.
pub proof fn lemma_last_digit_concat(a: Seq<char>, b: Seq<char>)
    requires
        forall|i: int| 0 <= i < b.len() ==> !is_digit(b[i]),
    ensures
        last_digit_idx(a + b) == last_digit_idx(a),
{
    lemma_last_digit_subrange(a + b, a.len() as int);
    assert((a + b).subrange(0, a.len() as int) =~= a);
}

/// Splitting a grammatical literal: in whitespace, then a numeral, then
/// whitespace, a unit of neither digits nor whitespace, and whitespace
/// again, trimming finds the numeral up to its last digit and the unit
/// alone after it.
pub proof fn lemma_grammar_split(
    ws1: Seq<char>,
    digits: Seq<char>,
    ws2: Seq<char>,
    unit: Seq<char>,
    ws3: Seq<char>,
)
    requires
        all_space(ws1),
        all_space(ws2),
        all_space(ws3),
        digits.len() > 0,
        all_digits(digits),
        forall|i: int| 0 <= i < unit.len() ==> !is_space(unit[i]) && !is_digit(unit[i]),
    ensures
        ({
            let s = ws1 + digits + ws2 + unit + ws3;
            let t = trim(s);
            let i = last_digit_idx(t);
            &&& i == digits.len() - 1
            &&& t.subrange(0, i + 1) == digits
            &&& trim(t.subrange(i + 1, t.len() as int)) == unit
        }),
{
    let s = ws1 + digits + ws2 + unit + ws3;
    let a = ws1.len() as int;
    let d = digits.len() as int;
    let b = ws2.len() as int;
    let u = unit.len() as int;
    let all = s.len() as int;
    assert(!is_space(digits[0]));
    assert(s[a] == digits[0]);
    assert(forall|i: int| 0 <= i < a ==> s[i] == ws1[i]);
    lemma_trim_front_at(s, a);
    let x = s.subrange(a, all);
    assert(x =~= digits + ws2 + unit + ws3);
    if u > 0 {
        let k = d + b + u;
        assert(forall|i: int| k <= i < x.len() ==> is_space(x[i])) by {
            assert(forall|i: int| k <= i < x.len() ==> x[i] == ws3[i - k]);
        }
        assert(x[k - 1] == unit[u - 1]);
        assert(!is_space(x[k - 1]));
        lemma_trim_back_at(x, k);
        let t = x.subrange(0, k);
        assert(t =~= digits + (ws2 + unit));
        assert(trim(s) == t);
        let rest = ws2 + unit;
        assert(forall|i: int| 0 <= i < rest.len() ==> !is_digit(rest[i])) by {
            assert(forall|i: int| 0 <= i < b ==> rest[i] == ws2[i] && is_space(rest[i]));
            assert(forall|i: int| b <= i < rest.len() ==> rest[i] == unit[i - b]);
            assert(forall|i: int| 0 <= i < rest.len() ==> is_space(rest[i]) ==> !is_digit(
                rest[i],
            ));
        }
        lemma_last_digit_concat(digits, rest);
        assert(is_digit(digits[d - 1]));
        assert(last_digit_idx(digits) == d - 1);
        assert(last_digit_idx(t) == d - 1);
        assert(t.subrange(0, d) =~= digits);
        let w = t.subrange(d, t.len() as int);
        assert(w =~= rest);
        assert(forall|i: int| 0 <= i < b ==> is_space(w[i]));
        assert(w[b] == unit[0]);
        lemma_trim_front_at(w, b);
        assert(w.subrange(b, w.len() as int) =~= unit);
        assert(!is_space(unit[u - 1]));
        lemma_trim_back_at(unit, u);
        assert(unit.subrange(0, u) =~= unit);
        assert(trim(w) == unit);
    } else {
        let k = d;
        assert(forall|i: int| k <= i < x.len() ==> is_space(x[i])) by {
            assert(forall|i: int| k <= i < k + b ==> x[i] == ws2[i - k]);
            assert(forall|i: int| k + b <= i < x.len() ==> x[i] == ws3[i - k - b]);
        }
        assert(x[k - 1] == digits[d - 1]);
        assert(is_digit(x[k - 1]) && !is_space(x[k - 1]));
        lemma_trim_back_at(x, k);
        let t = x.subrange(0, k);
        assert(t =~= digits);
        assert(trim(s) == t);
        assert(last_digit_idx(t) == d - 1);
        assert(t.subrange(0, d) =~= digits);
        let w = t.subrange(d, t.len() as int);
        assert(w =~= Seq::<char>::empty());
        assert(trim(w) =~= unit);
        assert(trim(w) == unit);
    }
}

/// Whether `c` is whitespace the grammar accepts.
pub fn is_space_char(c: char) -> (r: bool)
    ensures
        r == is_space(c),
{
    c == ' ' || c == '\t' || c == '\n' || c == '\r'
}

/// Whether `c` is an ASCII decimal digit.
pub fn is_digit_char(c: char) -> (r: bool)
    ensures
        r == is_digit(c),
{
    '0' <= c && c <= '9'
}

/// Numeric value of a digit character.
pub fn digit_of_char(c: char) -> (r: u8)
    requires
        is_digit(c),
    ensures
        r == digit_val(c),
        r < 10,
{
    (c as u32 - '0' as u32) as u8
}

/// Appends the character for a value below ten.
pub fn push_digit(out: &mut String, d: u8)
    requires
        d < 10,
    ensures
        final(out)@ == old(out)@ + seq![char_of_digit(d as nat)],
{
    match d {
        0 => {
            proof {
                reveal_strlit("0");
                assert("0"@ =~= seq![char_of_digit(0)]);
            }
            out.append("0");
        },
        1 => {
            proof {
                reveal_strlit("1");
                assert("1"@ =~= seq![char_of_digit(1)]);
            }
            out.append("1");
        },
        2 => {
            proof {
                reveal_strlit("2");
                assert("2"@ =~= seq![char_of_digit(2)]);
            }
            out.append("2");
        },
        3 => {
            proof {
                reveal_strlit("3");
                assert("3"@ =~= seq![char_of_digit(3)]);
            }
            out.append("3");
        },
        4 => {
            proof {
                reveal_strlit("4");
                assert("4"@ =~= seq![char_of_digit(4)]);
            }
            out.append("4");
        },
        5 => {
            proof {
                reveal_strlit("5");
                assert("5"@ =~= seq![char_of_digit(5)]);
            }
            out.append("5");
        },
        6 => {
            proof {
                reveal_strlit("6");
                assert("6"@ =~= seq![char_of_digit(6)]);
            }
            out.append("6");
        },
        7 => {
            proof {
                reveal_strlit("7");
                assert("7"@ =~= seq![char_of_digit(7)]);
            }
            out.append("7");
        },
        8 => {
            proof {
                reveal_strlit("8");
                assert("8"@ =~= seq![char_of_digit(8)]);
            }
            out.append("8");
        },
        _ => {
            proof {
                reveal_strlit("9");
                assert("9"@ =~= seq![char_of_digit(9)]);
            }
            out.append("9");
        },
    }
}

/// Appends the decimal rendering of `n`.
pub fn push_decimal(out: &mut String, n: u128)
    ensures
        final(out)@ == old(out)@ + dec_digits(n as nat),
    decreases n,
{
    if n < 10 {
        push_digit(out, n as u8);
    } else {
        push_decimal(out, n / 10);
        push_digit(out, (n % 10) as u8);
        proof {
            assert(final(out)@ =~= old(out)@ + dec_digits(n as nat));
        }
    }
}

/// `s` without leading and trailing whitespace.
pub fn trim_str<'a>(s: &'a str) -> (t: &'a str)
    ensures
        t@ == trim(s@),
{
    let n = s.unicode_len();
    let mut lo: usize = 0;
    while lo < n && is_space_char(s.get_char(lo))
        invariant
            n == s@.len(),
            0 <= lo <= n,
            forall|i: int| 0 <= i < lo ==> is_space(s@[i]),
        decreases n - lo,
    {
        lo = lo + 1;
    }
    let mut hi: usize = n;
    while hi > lo && is_space_char(s.get_char(hi - 1))
        invariant
            n == s@.len(),
            0 <= lo <= hi <= n,
            forall|i: int| hi <= i < n ==> is_space(s@[i]),
        decreases hi,
    {
        hi = hi - 1;
    }
    let t = s.substring_char(lo, hi);
    proof {
        lemma_trim_front_at(s@, lo as int);
        let front = s@.subrange(lo as int, n as int);
        lemma_trim_back_at(front, hi - lo);
        assert(front.subrange(0, hi - lo) =~= s@.subrange(lo as int, hi as int));
    }
    t
}

/// Index of the last digit character, if any.
pub fn last_digit_index(s: &str) -> (r: Option<usize>)
    ensures
        match r {
            Some(i) => 0 <= i < s@.len() && last_digit_idx(s@) == i,
            None => last_digit_idx(s@) == -1,
        },
{
    let n = s.unicode_len();
    let mut j = n;
    while j > 0
        invariant
            n == s@.len(),
            0 <= j <= n,
            forall|i: int| j <= i < n ==> !is_digit(s@[i]),
        decreases j,
    {
        let c = s.get_char(j - 1);
        if is_digit_char(c) {
            proof {
                lemma_last_digit_subrange(s@, j as int);
                let p = s@.subrange(0, j as int);
                assert(p.last() == s@[j - 1]);
            }
            return Some(j - 1);
        }
        j = j - 1;
    }
    proof {
        lemma_last_digit_subrange(s@, 0);
        assert(s@.subrange(0, 0) =~= Seq::<char>::empty());
    }
    None
}

/// Reads the first `end` characters of `s` as a decimal numeral no larger
/// than `max`; `None` where a character is not a digit or the value is too
/// large.
pub fn parse_decimal(s: &str, end: usize, max: u128) -> (r: Option<u128>)
    requires
        end <= s@.len(),
        max >= 9,
    ensures
        ({
            let num = s@.subrange(0, end as int);
            match r {
                Some(v) => all_digits(num) && digits_val(num) == v && v <= max,
                None => !(all_digits(num) && digits_val(num) <= max),
            }
        }),
{
    let ghost num = s@.subrange(0, end as int);
    let mut acc: u128 = 0;
    let mut i: usize = 0;
    while i < end
        invariant
            end <= s@.len(),
            max >= 9,
            0 <= i <= end,
            num == s@.subrange(0, end as int),
            all_digits(s@.subrange(0, i as int)),
            acc == digits_val(s@.subrange(0, i as int)),
            acc <= max,
        decreases end - i,
    {
        let c = s.get_char(i);
        let ghost pre = s@.subrange(0, i as int);
        let ghost ext = s@.subrange(0, i + 1);
        proof {
            assert(ext.drop_last() =~= pre);
            assert(ext.last() == s@[i as int]);
        }
        if !is_digit_char(c) {
            proof {
                assert(!is_digit(num[i as int]));
            }
            return None;
        }
        let d = digit_of_char(c);
        if acc > (max - d as u128) / 10 {
            proof {
                let m = (max - d) as int;
                vstd::arithmetic::div_mod::lemma_fundamental_div_mod(m, 10);
                assert(acc * 10 + d > max);
                assert(digits_val(ext) > max);
                lemma_digits_val_prefix_le(num, i + 1);
                assert(num.subrange(0, i + 1) =~= ext);
            }
            return None;
        }
        proof {
            let m = (max - d) as int;
            vstd::arithmetic::div_mod::lemma_fundamental_div_mod(m, 10);
            assert(acc * 10 <= m);
        }
        acc = acc * 10 + d as u128;
        i = i + 1;
    }
    proof {
        assert(s@.subrange(0, i as int) =~= num);
    }
    Some(acc)
}

} // verus!
