//! Fixed-capacity byte buffer: append-only writes with a compile-time
//! capacity, byte-level truncation for string writes, and an
//! unsigned-integer decimal writer. Callers size the capacity so that a
//! whole rendering always fits.

use vstd::prelude::*;

use crate::text::lemma_pow10_pos;
use crate::text::pow10;
use vstd::slice::slice_index_get;
use vstd::string::StringSliceAdditionalSpecFns;

verus! {

/// Append-only byte buffer of static capacity `N`.
pub struct Buffer<const N: usize> {
    data: Vec<u8>,
}

/// Whether `p` is a power of ten.
pub open spec fn is_pow10(p: nat) -> bool {
    exists|k: nat| p == pow10(k)
}

/// ASCII decimal rendering of `n`, most significant digit first, no
/// leading zeros, at least one digit.
pub open spec fn dec_bytes(n: nat) -> Seq<u8>
    decreases n,
{
    if n < 10 {
        seq![(48 + n) as u8]
    } else {
        dec_bytes(n / 10) + seq![(48 + n % 10) as u8]
    }
}

/// Peeling the most significant digit off the quotient by `pow10(k)`.
proof fn lemma_dec_bytes_step(m: nat, k: nat)
    requires
        m >= pow10(k + 1),
    ensures
        dec_bytes(m / pow10(k)) == dec_bytes(m / pow10(k + 1)) + seq![
            (48 + (m / pow10(k)) % 10) as u8,
        ],
{
    lemma_pow10_pos(k);
    let p = pow10(k);
    let a = m / p;
    assert(pow10(k + 1) == 10 * p);
    assert(a >= 10) by {
        vstd::arithmetic::div_mod::lemma_div_is_ordered((10 * p) as int, m as int, p as int);
        vstd::arithmetic::div_mod::lemma_div_multiples_vanish(10, p as int);
    }
    assert(dec_bytes(a) == dec_bytes(a / 10) + seq![(48 + a % 10) as u8]);
    assert(a / 10 == m / pow10(k + 1)) by {
        vstd::arithmetic::div_mod::lemma_div_denominator(m as int, p as int, 10);
    }
}

/// A value below `pow10(j)` renders in at most `j` digits.
proof fn lemma_dec_bytes_len_le(m: nat, j: nat)
    requires
        j >= 1,
        m < pow10(j),
    ensures
        dec_bytes(m).len() <= j,
    decreases j,
{
    if m < 10 {
    } else {
        assert(j >= 2) by {
            reveal_with_fuel(pow10, 3);
        }
        lemma_pow10_pos((j - 1) as nat);
        assert(pow10(j) == 10 * pow10((j - 1) as nat));
        assert(m / 10 < pow10((j - 1) as nat)) by (nonlinear_arith)
            requires
                m < 10 * pow10((j - 1) as nat),
                m >= 10,
                m / 10 <= m,
                m == 10 * (m / 10) + m % 10,
                m % 10 >= 0,
        ;
        lemma_dec_bytes_len_le(m / 10, (j - 1) as nat);
    }
    if m >= 10 {
        assert(m == 10 * (m / 10) + m % 10) by {
            vstd::arithmetic::div_mod::lemma_fundamental_div_mod(m as int, 10);
        }
    }
}

/// A value of at least `pow10(j)` renders in exactly `j` digits more than
/// its quotient by `pow10(j)`.
proof fn lemma_dec_bytes_len_div(m: nat, j: nat)
    requires
        m >= pow10(j),
    ensures
        dec_bytes(m).len() == dec_bytes(m / pow10(j)).len() + j,
    decreases j,
{
    if j == 0 {
        assert(m / 1 == m) by (nonlinear_arith);
    } else {
        lemma_pow10_pos((j - 1) as nat);
        assert(pow10(j) == 10 * pow10((j - 1) as nat));
        assert(m >= pow10((j - 1) as nat)) by (nonlinear_arith)
            requires
                m >= 10 * pow10((j - 1) as nat),
                pow10((j - 1) as nat) >= 1,
        ;
        lemma_dec_bytes_len_div(m, (j - 1) as nat);
        lemma_dec_bytes_step(m, (j - 1) as nat);
        assert(((j - 1) as nat) + 1 == j);
    }
}

impl<const N: usize> View for Buffer<N> {
    type V = Seq<u8>;

    closed spec fn view(&self) -> Seq<u8> {
        self.data@
    }
}

impl<const N: usize> Buffer<N> {
    /// The write cursor never passes the capacity.
    pub open spec fn wf(self) -> bool {
        self@.len() <= N
    }

    /// An empty buffer.
    pub fn new() -> (r: Self)
        ensures
            r@ == Seq::<u8>::empty(),
            r.wf(),
    {
        Buffer { data: Vec::new() }
    }

    /// Appends one byte; the caller guarantees capacity remains.
    pub fn write_byte(&mut self, ch: u8)
        requires
            old(self)@.len() < N,
        ensures
            final(self)@ == old(self)@ + seq![ch],
            final(self).wf(),
    {
        self.data.push(ch);
        proof {
            assert(self@ =~= old(self)@ + seq![ch]);
        }
    }

    /// Appends the UTF-8 bytes of `s`, truncating at capacity.
    pub fn write_str(&mut self, s: &str)
        requires
            old(self).wf(),
        ensures
            final(self).wf(),
            ({
                let take = if s.spec_bytes().len() <= N - old(self)@.len() {
                    s.spec_bytes().len() as int
                } else {
                    N - old(self)@.len()
                };
                final(self)@ == old(self)@ + s.spec_bytes().subrange(0, take)
            }),
    {
        let bytes = s.as_bytes();
        let len = bytes.len();
        let room = N - self.data.len();
        let take = if len <= room {
            len
        } else {
            room
        };
        let mut i: usize = 0;
        while i < take
            invariant
                take <= bytes@.len(),
                old(self)@.len() + take <= N,
                0 <= i <= take,
                self@ == old(self)@ + bytes@.subrange(0, i as int),
            decreases take - i,
        {
            let b = *slice_index_get(bytes, i);
            self.data.push(b);
            proof {
                assert(self@ =~= old(self)@ + bytes@.subrange(0, i + 1));
            }
            i = i + 1;
        }
        proof {
            assert(self@.len() <= N);
        }
    }

    /// Appends the decimal rendering of `n`, most significant digit
    /// first, skipping leading zeros and writing at least one digit.
    /// `p10` is a power of ten at least as large as the highest decimal
    /// place of `n`; the caller guarantees the whole rendering fits.
    pub fn write_u64(&mut self, n: u64, p10: u64)
        requires
            old(self).wf(),
            is_pow10(p10 as nat),
            (n as nat) < (p10 as nat) * 10,
            old(self)@.len() + dec_bytes(n as nat).len() <= N,
        ensures
            final(self).wf(),
            final(self)@ == old(self)@ + dec_bytes(n as nat),
    {
        let ghost m = n as nat;
        let mut n = n;
        let mut p10 = p10;
        let ghost mut k: nat = choose|kk: nat| p10 as nat == pow10(kk);
        let mut written = false;
        while p10 != 0 && n < p10
            invariant
                n == m,
                p10 != 0 ==> p10 as nat == pow10(k),
                p10 != 0 ==> (m as nat) < (p10 as nat) * 10,
                p10 == 0 ==> m == 0,
            decreases p10,
        {
            proof {
                if k > 0 {
                    assert(pow10(k) == 10 * pow10((k - 1) as nat));
                    vstd::arithmetic::div_mod::lemma_div_multiples_vanish(
                        pow10((k - 1) as nat) as int,
                        10,
                    );
                    k = (k - 1) as nat;
                } else {
                    assert(p10 == 1);
                }
            }
            p10 = p10 / 10;
        }
        proof {
            if p10 != 0 {
                assert(pow10(k) <= m);
                assert(pow10(k + 1) == 10 * pow10(k));
                lemma_pow10_pos(k);
                vstd::arithmetic::div_mod::lemma_small_mod(m, pow10(k + 1));
                lemma_dec_bytes_len_div(m, k);
                assert(dec_bytes(m / pow10(k)).len() >= 1);
                assert(old(self)@ + Seq::<u8>::empty() =~= old(self)@);
            }
        }
        while p10 != 0
            invariant
                old(self).wf(),
                old(self)@.len() + dec_bytes(m).len() <= N,
                self.wf(),
                p10 != 0 ==> {
                    &&& p10 as nat == pow10(k)
                    &&& pow10(k) <= m
                    &&& n as nat == m % pow10(k + 1)
                    &&& (written <==> m >= pow10(k + 1))
                    &&& self@ == old(self)@ + (if m >= pow10(k + 1) {
                        dec_bytes(m / pow10(k + 1))
                    } else {
                        Seq::<u8>::empty()
                    })
                    &&& self@.len() + k + 1 <= old(self)@.len() + dec_bytes(m).len()
                },
                p10 == 0 ==> (m == 0 && !written && self@ == old(self)@) || (written && self@
                    == old(self)@ + dec_bytes(m)),
            decreases p10,
        {
            let ghost p = pow10(k);
            proof {
                lemma_pow10_pos(k);
                assert(pow10(k + 1) == 10 * p);
                vstd::arithmetic::div_mod::lemma_mod_breakdown(m as int, p as int, 10);
                vstd::arithmetic::div_mod::lemma_mod_division_less_than_divisor(
                    m as int,
                    p as int,
                );
                vstd::arithmetic::div_mod::lemma_mod_division_less_than_divisor(
                    (m / p) as int,
                    10,
                );
                // the next digit is the current quotient's lowest one
                vstd::arithmetic::div_mod::lemma_fundamental_div_mod_converse(
                    (m % pow10(k + 1)) as int,
                    p as int,
                    ((m / p) % 10) as int,
                    (m % p) as int,
                );
                assert((m % pow10(k + 1)) / p == (m / p) % 10);
                if m < pow10(k + 1) {
                    vstd::arithmetic::div_mod::lemma_small_mod(m, pow10(k + 1));
                    vstd::arithmetic::div_mod::lemma_fundamental_div_mod(m as int, p as int);
                }
            }
            let d = n / p10;
            proof {
                assert(d as nat == (m / p) % 10);
                assert(d < 10);
                if !written {
                    // before the first digit the whole quotient is one digit
                    assert(m / p < 10) by {
                        vstd::arithmetic::div_mod::lemma_fundamental_div_mod(m as int, p as int);
                        vstd::arithmetic::div_mod::lemma_mod_division_less_than_divisor(
                            m as int,
                            p as int,
                        );
                        assert((m / p) < 10) by (nonlinear_arith)
                            requires
                                m == p * (m / p) + m % p,
                                m % p >= 0,
                                m < 10 * p,
                                p >= 1,
                        ;
                    }
                    assert(d as nat == m / p) by {
                        vstd::arithmetic::div_mod::lemma_small_mod((m / p) as nat, 10);
                    }
                    assert(d >= 1) by {
                        vstd::arithmetic::div_mod::lemma_div_non_zero(m as int, p as int);
                    }
                }
                if written {
                    lemma_dec_bytes_step(m, k);
                    lemma_dec_bytes_len_div(m, k + 1);
                }
            }
            if written || d != 0 {
                proof {
                    if !written {
                        assert(dec_bytes(m / p) =~= seq![(48 + (m / p)) as u8]);
                        lemma_dec_bytes_len_div(m, k);
                    }
                }
                self.write_byte(48 + d as u8);
                written = true;
                proof {
                    assert(self@ =~= old(self)@ + dec_bytes(m / pow10(k)));
                }
            }
            n = n - d * p10;
            proof {
                assert(n as nat == m % p);
                if k > 0 {
                    assert(pow10(k) == 10 * pow10((k - 1) as nat));
                    vstd::arithmetic::div_mod::lemma_div_multiples_vanish(
                        pow10((k - 1) as nat) as int,
                        10,
                    );
                    assert(pow10((k - 1) as nat) <= pow10(k)) by (nonlinear_arith)
                        requires
                            pow10(k) == 10 * pow10((k - 1) as nat),
                            pow10((k - 1) as nat) >= 1,
                    ;
                    lemma_pow10_pos((k - 1) as nat);
                    if m / pow10(k) >= 1 {
                        lemma_dec_bytes_len_div(m, k);
                    }
                    k = (k - 1) as nat;
                } else {
                    assert(p10 == 1);
                    assert(m / pow10(0) == m) by (nonlinear_arith);
                }
            }
            p10 = p10 / 10;
        }
        if !written {
            self.write_byte(48);
            proof {
                assert(dec_bytes(0) =~= seq![48u8]);
                assert(self@ =~= old(self)@ + dec_bytes(m));
            }
        }
    }

    /// The bytes written so far.
    pub fn as_slice(&self) -> (r: &[u8])
        ensures
            r@ == self@,
    {
        self.data.as_slice()
    }
}

} // verus!
