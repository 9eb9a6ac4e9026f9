//! Exact decimal numbers.
//!
//! Profile files carry latencies as decimal literals such as `20232.7`. The
//! backend never does approximate arithmetic on them: it only rescales
//! between microseconds and seconds and takes linear combinations. `Dec`
//! keeps such a number exactly as written: a sign, a decimal mantissa, and a
//! power-of-ten scale, so `Dec { neg: false, mant: 202327, scale: -1 }`
//! stands for 20232.7. Parsing and formatting are verified against the
//! grammar `['+'|'-'] digits ['.' digits]`, and formatting a value with a
//! non-positive scale parses back to the identical value.

use crate::text::find_byte;
use crate::text::index_of;
use vstd::prelude::*;

verus! {

pub const PLUS: u8 = 43;
pub const MINUS: u8 = 45;
pub const DOT: u8 = 46;
pub const DIGIT0: u8 = 48;

/// A signed decimal number: (-1 if neg) * mant * 10^scale.
/// The representation is deliberately not normalized, so a parsed text such
/// as `1.20` keeps its trailing zero and formats back to the same text.
#[derive(Clone, Copy, Debug, Hash, PartialEq, Eq, Structural)]
pub struct Dec {
    pub neg: bool,
    pub mant: u64,
    pub scale: i32,
}

pub open spec fn is_digit(b: u8) -> bool {
    48 <= b <= 57
}

pub open spec fn digit_val(b: u8) -> nat {
    (b - 48) as nat
}

pub open spec fn all_digits(s: Seq<u8>) -> bool {
    forall|i: int| 0 <= i < s.len() ==> is_digit(#[trigger] s[i])
}

/// The number written by a sequence of digit bytes, most significant first.
pub open spec fn digits_val(s: Seq<u8>) -> nat
    decreases s.len(),
{
    if s.len() == 0 {
        0
    } else {
        digits_val(s.drop_last()) * 10 + digit_val(s.last())
    }
}

pub open spec fn pow10(e: nat) -> nat
    decreases e,
{
    if e == 0 {
        1
    } else {
        10 * pow10((e - 1) as nat)
    }
}

pub proof fn lemma_pow10_pos(e: nat)
    ensures
        pow10(e) >= 1,
    decreases e,
{
    if e > 0 {
        lemma_pow10_pos((e - 1) as nat);
    }
}

pub proof fn lemma_pow10_mono(a: nat, b: nat)
    requires
        a <= b,
    ensures
        pow10(a) <= pow10(b),
    decreases b,
{
    if a < b {
        lemma_pow10_mono(a, (b - 1) as nat);
        lemma_pow10_pos(a);
    }
}

/// Reading a concatenation of digit strings: the left part is shifted by
/// the length of the right part.
pub proof fn lemma_digits_val_concat(a: Seq<u8>, b: Seq<u8>)
    ensures
        digits_val(a + b) == digits_val(a) * pow10(b.len()) + digits_val(b),
    decreases b.len(),
{
    if b.len() == 0 {
        assert(a + b =~= a);
        assert(pow10(b.len()) == 1);
        assert(digits_val(b) == 0);
        assert(digits_val(a) * 1 == digits_val(a));
    } else {
        lemma_digits_val_concat(a, b.drop_last());
        assert((a + b).drop_last() =~= a + b.drop_last());
        assert((a + b).last() == b.last());
        let p = pow10((b.len() - 1) as nat);
        assert(pow10(b.len()) == 10 * p);
        assert(digits_val(a + b) == digits_val(a + b.drop_last()) * 10 + digit_val(b.last()));
        assert(digits_val(a + b.drop_last()) == digits_val(a) * p + digits_val(b.drop_last()));
        assert(digits_val(b) == digits_val(b.drop_last()) * 10 + digit_val(b.last()));
        assert(digits_val(a + b) == digits_val(a) * pow10(b.len()) + digits_val(b))
            by (nonlinear_arith)
            requires
                digits_val(a + b) == digits_val(a + b.drop_last()) * 10 + digit_val(b.last()),
                digits_val(a + b.drop_last()) == digits_val(a) * p + digits_val(b.drop_last()),
                digits_val(b) == digits_val(b.drop_last()) * 10 + digit_val(b.last()),
                pow10(b.len()) == 10 * p,
        ;
    }
}

/// A digit string is worth at least any of its prefixes.
pub proof fn lemma_digits_val_prefix(s: Seq<u8>, k: int)
    requires
        0 <= k <= s.len(),
    ensures
        digits_val(s.take(k)) <= digits_val(s),
{
    assert(s =~= s.take(k) + s.skip(k));
    lemma_digits_val_concat(s.take(k), s.skip(k));
    lemma_pow10_pos(s.skip(k).len() as nat);
    assert(digits_val(s.take(k)) * pow10(s.skip(k).len() as nat) >= digits_val(s.take(k)) * 1)
        by (nonlinear_arith)
        requires
            pow10(s.skip(k).len() as nat) >= 1,
    ;
}

/// A string of `0` digits is worth zero.
pub proof fn lemma_zeros_val(s: Seq<u8>)
    requires
        forall|i: int| 0 <= i < s.len() ==> s[i] == 48,
    ensures
        digits_val(s) == 0,
    decreases s.len(),
{
    if s.len() > 0 {
        lemma_zeros_val(s.drop_last());
    }
}

/// A digit string holds no byte other than digits, in particular no dot.
pub proof fn lemma_all_digits_no_byte(s: Seq<u8>, b: u8)
    requires
        all_digits(s),
        !is_digit(b),
    ensures
        find_byte(s, b) == s.len(),
    decreases s.len(),
{
    if s.len() > 0 {
        assert(all_digits(s.skip(1))) by {
            assert(forall|i: int| 0 <= i < s.skip(1).len() ==> s.skip(1)[i] == s[i + 1]);
        }
        lemma_all_digits_no_byte(s.skip(1), b);
    }
}

/// Reads an unsigned digit string. Returns the value exactly when the input
/// is one or more digits whose value fits in a `u64`.
pub fn parse_digits_u64(s: &[u8]) -> (r: Option<u64>)
    ensures
        r == (if s@.len() > 0 && all_digits(s@) && digits_val(s@) <= u64::MAX {
            Some(digits_val(s@) as u64)
        } else {
            None::<u64>
        }),
{
    let n: usize = s.len();
    if n == 0 {
        return None;
    }
    let mut acc: u64 = 0;
    let mut i: usize = 0;
    while i < n
        invariant
            0 <= i <= n,
            n == s@.len(),
            all_digits(s@.take(i as int)),
            acc == digits_val(s@.take(i as int)),
        decreases n - i,
    {
        let b = s[i];
        if !(48 <= b && b <= 57) {
            return None;
        }
        let d: u64 = (b - 48) as u64;
        let shifted = match acc.checked_mul(10) {
            Some(v) => v,
            None => {
                proof {
                    assert(s@.take(i + 1).drop_last() =~= s@.take(i as int));
                    assert(s@.take(i + 1).last() == s@[i as int]);
                    assert(digits_val(s@.take(i + 1)) > u64::MAX);
                    lemma_digits_val_prefix(s@, i + 1);
                }
                return None;
            },
        };
        let next = match shifted.checked_add(d) {
            Some(v) => v,
            None => {
                proof {
                    assert(s@.take(i + 1).drop_last() =~= s@.take(i as int));
                    assert(s@.take(i + 1).last() == s@[i as int]);
                    assert(digits_val(s@.take(i + 1)) > u64::MAX);
                    lemma_digits_val_prefix(s@, i + 1);
                }
                return None;
            },
        };
        proof {
            assert(s@.take(i + 1).drop_last() =~= s@.take(i as int));
            assert(s@.take(i + 1).last() == s@[i as int]);
        }
        acc = next;
        i = i + 1;
    }
    proof {
        assert(s@.take(n as int) =~= s@);
    }
    Some(acc)
}

/// The digit part of an unsigned integer literal: an optional leading `+`
/// is dropped.
pub open spec fn uint_body(s: Seq<u8>) -> Seq<u8> {
    if s.len() > 0 && s[0] == PLUS {
        s.skip(1)
    } else {
        s
    }
}

/// Whether `s` is an unsigned integer literal: an optional `+`, then one or
/// more digits.
pub open spec fn is_uint_text(s: Seq<u8>) -> bool {
    uint_body(s).len() > 0 && all_digits(uint_body(s))
}

/// The value of an unsigned integer literal.
pub open spec fn uint_val(s: Seq<u8>) -> nat {
    digits_val(uint_body(s))
}

/// Reads an unsigned integer literal into a `u64`.
pub fn parse_u64_text(s: &[u8]) -> (r: Option<u64>)
    ensures
        r == (if is_uint_text(s@) && uint_val(s@) <= u64::MAX {
            Some(uint_val(s@) as u64)
        } else {
            None::<u64>
        }),
{
    if s.len() > 0 && s[0] == PLUS {
        let body = vstd::slice::slice_subrange(s, 1, s.len());
        proof {
            assert(body@ =~= s@.skip(1));
        }
        parse_digits_u64(body)
    } else {
        parse_digits_u64(s)
    }
}

/// Reads an unsigned integer literal into a `u32`.
pub fn parse_u32_text(s: &[u8]) -> (r: Option<u32>)
    ensures
        r == (if is_uint_text(s@) && uint_val(s@) <= u32::MAX {
            Some(uint_val(s@) as u32)
        } else {
            None::<u32>
        }),
{
    match parse_u64_text(s) {
        Some(v) => {
            if v <= u32::MAX as u64 {
                Some(v as u32)
            } else {
                None
            }
        },
        None => None,
    }
}

/// Reads an unsigned integer literal into a `usize`.
pub fn parse_usize_text(s: &[u8]) -> (r: Option<usize>)
    ensures
        r == (if is_uint_text(s@) && uint_val(s@) <= usize::MAX {
            Some(uint_val(s@) as usize)
        } else {
            None::<usize>
        }),
{
    match parse_u64_text(s) {
        Some(v) => {
            if v <= usize::MAX as u64 {
                Some(v as usize)
            } else {
                None
            }
        },
        None => None,
    }
}

/// Whether a decimal literal starts with a minus sign.
pub open spec fn dec_neg(s: Seq<u8>) -> bool {
    s.len() > 0 && s[0] == MINUS
}

/// The literal without its optional sign byte.
pub open spec fn dec_sign_body(s: Seq<u8>) -> Seq<u8> {
    if s.len() > 0 && (s[0] == MINUS || s[0] == PLUS) {
        s.skip(1)
    } else {
        s
    }
}

/// The digits before the dot (the whole body when there is no dot).
pub open spec fn dec_int_part(s: Seq<u8>) -> Seq<u8> {
    let b = dec_sign_body(s);
    b.take(find_byte(b, DOT))
}

/// The digits after the dot; empty when there is no dot.
pub open spec fn dec_frac_part(s: Seq<u8>) -> Seq<u8> {
    let b = dec_sign_body(s);
    let d = find_byte(b, DOT);
    if d < b.len() {
        b.skip(d + 1)
    } else {
        Seq::empty()
    }
}

/// Whether `s` is a decimal literal: an optional sign, one or more integer
/// digits, then optionally a dot followed by one or more fraction digits.
pub open spec fn is_dec_text(s: Seq<u8>) -> bool {
    let b = dec_sign_body(s);
    let d = find_byte(b, DOT);
    &&& dec_int_part(s).len() > 0
    &&& all_digits(dec_int_part(s))
    &&& (d < b.len() ==> dec_frac_part(s).len() > 0 && all_digits(dec_frac_part(s)))
}

/// All mantissa digits of a decimal literal, the dot dropped.
pub open spec fn dec_digits(s: Seq<u8>) -> Seq<u8> {
    dec_int_part(s) + dec_frac_part(s)
}

/// Whether a decimal literal can be held by a `Dec`: its mantissa fits in a
/// `u64` and its fraction length fits in an `i32`.
pub open spec fn dec_parseable(s: Seq<u8>) -> bool {
    &&& is_dec_text(s)
    &&& digits_val(dec_digits(s)) <= u64::MAX
    &&& dec_frac_part(s).len() <= i32::MAX
}

/// The `Dec` written by a parseable decimal literal.
pub open spec fn dec_of_text(s: Seq<u8>) -> Dec {
    Dec {
        neg: dec_neg(s),
        mant: digits_val(dec_digits(s)) as u64,
        scale: (-(dec_frac_part(s).len() as int)) as i32,
    }
}

impl Dec {
    /// The number zero, written `0`.
    pub fn zero() -> (r: Dec)
        ensures
            r == (Dec { neg: false, mant: 0u64, scale: 0i32 }),
    {
        Dec { neg: false, mant: 0, scale: 0 }
    }

    /// Reads a decimal literal. Returns the parsed number exactly when the
    /// input matches the grammar and fits (`dec_parseable`).
    pub fn from_text(s: &[u8]) -> (r: Option<Dec>)
        ensures
            r == (if dec_parseable(s@) {
                Some(dec_of_text(s@))
            } else {
                None::<Dec>
            }),
    {
        let n: usize = s.len();
        let mut neg = false;
        let body: &[u8];
        if n > 0 && (s[0] == MINUS || s[0] == PLUS) {
            neg = s[0] == MINUS;
            body = vstd::slice::slice_subrange(s, 1, n);
            proof {
                assert(body@ =~= s@.skip(1));
            }
        } else {
            body = s;
        }
        let d = index_of(body, DOT);
        proof {
            crate::text::lemma_find_byte_props(body@, DOT);
        }
        if d == body.len() {
            // No dot: the whole body is the integer part.
            proof {
                assert(dec_int_part(s@) =~= body@.take(find_byte(body@, DOT)));
                assert(body@.take(body@.len() as int) =~= body@);
                assert(dec_frac_part(s@) =~= Seq::<u8>::empty());
                assert(dec_digits(s@) =~= body@);
            }
            match parse_digits_u64(body) {
                Some(m) => Some(Dec { neg, mant: m, scale: 0 }),
                None => None,
            }
        } else {
            let int_part = vstd::slice::slice_subrange(body, 0, d);
            let frac_part = vstd::slice::slice_subrange(body, d + 1, body.len());
            proof {
                assert(int_part@ =~= dec_int_part(s@));
                assert(frac_part@ =~= dec_frac_part(s@));
            }
            if int_part.len() == 0 || frac_part.len() == 0 {
                return None;
            }
            let mut digs = vstd::slice::slice_to_vec(int_part);
            digs.extend_from_slice(frac_part);
            proof {
                assert(digs@ =~= dec_digits(s@));
                // The concatenation is all digits exactly when both parts are.
                if all_digits(digs@) {
                    assert(forall|i: int|
                        0 <= i < int_part@.len() ==> int_part@[i] == digs@[i]);
                    assert(forall|i: int|
                        0 <= i < frac_part@.len() ==> frac_part@[i] == digs@[
                            int_part@.len() + i
                        ]);
                }
                if all_digits(int_part@) && all_digits(frac_part@) {
                    assert forall|i: int| 0 <= i < digs@.len() implies is_digit(
                        #[trigger] digs@[i],
                    ) by {
                        if i < int_part@.len() {
                            assert(digs@[i] == int_part@[i]);
                        } else {
                            assert(digs@[i] == frac_part@[i - int_part@.len()]);
                        }
                    }
                }
            }
            match parse_digits_u64(digs.as_slice()) {
                Some(m) => {
                    if frac_part.len() <= i32::MAX as usize {
                        Some(Dec { neg, mant: m, scale: -(frac_part.len() as i32) })
                    } else {
                        None
                    }
                },
                None => None,
            }
        }
    }
}

/// `k` zero-digit bytes.
pub open spec fn zero_digits(k: int) -> Seq<u8> {
    Seq::new(k as nat, |i: int| 48u8)
}

/// The canonical digits of `n`, most significant first, no leading zeros.
pub open spec fn nat_digits(n: nat) -> Seq<u8>
    decreases n,
{
    if n < 10 {
        seq![(48 + n) as u8]
    } else {
        nat_digits(n / 10) + seq![(48 + n % 10) as u8]
    }
}

pub proof fn lemma_nat_digits(n: nat)
    ensures
        nat_digits(n).len() >= 1,
        all_digits(nat_digits(n)),
        digits_val(nat_digits(n)) == n,
    decreases n,
{
    if n < 10 {
        let s0 = seq![(48 + n) as u8];
        assert(nat_digits(n) == s0);
        assert(s0.len() == 1);
        assert(s0.last() == (48 + n) as u8);
        assert(s0.drop_last() =~= Seq::<u8>::empty());
        assert(digits_val(Seq::<u8>::empty()) == 0);
        assert(digits_val(s0) == 0 * 10 + digit_val((48 + n) as u8));
        assert(digit_val((48 + n) as u8) == n);
    } else {
        lemma_nat_digits(n / 10);
        let digs = nat_digits(n / 10) + seq![(48 + n % 10) as u8];
        assert(digs.drop_last() =~= nat_digits(n / 10));
        assert(digs.last() == (48 + n % 10) as u8);
        assert(all_digits(digs)) by {
            assert(forall|i: int|
                0 <= i < nat_digits(n / 10).len() ==> digs[i] == nat_digits(n / 10)[i]);
        }
    }
}

/// Appends the canonical digits of `n` to `out`.
pub fn push_digits_u64(n: u64, out: &mut Vec<u8>)
    ensures
        final(out)@ == old(out)@ + nat_digits(n as nat),
    decreases n,
{
    if n < 10 {
        out.push(48 + (n as u8));
        proof {
            assert(final(out)@ =~= old(out)@ + nat_digits(n as nat));
        }
    } else {
        let ghost pre = out@;
        push_digits_u64(n / 10, out);
        out.push(48 + ((n % 10) as u8));
        proof {
            assert(final(out)@ =~= pre + nat_digits(n as nat));
        }
    }
}

/// The text of the magnitude of `d`: the mantissa digits, with either
/// appended zeros (scale above zero) or a dot placed `-scale` digits from
/// the right, zero-padded on the left when the mantissa is short.
pub open spec fn dec_abs_text(d: Dec) -> Seq<u8> {
    let digs = nat_digits(d.mant as nat);
    if d.scale >= 0 {
        digs + zero_digits(d.scale as int)
    } else {
        let k = -(d.scale as int);
        if digs.len() > k {
            digs.take(digs.len() - k) + seq![DOT] + digs.skip(digs.len() - k)
        } else {
            seq![DIGIT0, DOT] + zero_digits(k - digs.len()) + digs
        }
    }
}

/// The text of `d`: a minus sign when negative, then the magnitude.
pub open spec fn dec_text(d: Dec) -> Seq<u8> {
    if d.neg {
        seq![MINUS] + dec_abs_text(d)
    } else {
        dec_abs_text(d)
    }
}

impl Dec {
    /// Writes this number as a decimal literal.
    pub fn to_text(&self) -> (r: Vec<u8>)
        ensures
            r@ == dec_text(*self),
    {
        let mut out: Vec<u8> = Vec::new();
        if self.neg {
            out.push(MINUS);
        }
        let ghost head = out@;
        let mut digs: Vec<u8> = Vec::new();
        push_digits_u64(self.mant, &mut digs);
        proof {
            assert(digs@ =~= nat_digits(self.mant as nat));
        }
        if self.scale >= 0 {
            out.extend_from_slice(digs.as_slice());
            let mut z: u32 = 0;
            let limit: u32 = self.scale as u32;
            while z < limit
                invariant
                    0 <= z <= limit,
                    out@ == head + nat_digits(self.mant as nat) + zero_digits(z as int),
                decreases limit - z,
            {
                let ghost pre = out@;
                out.push(DIGIT0);
                proof {
                    assert(pre.push(DIGIT0) =~= head + nat_digits(self.mant as nat)
                        + zero_digits(z + 1));
                }
                z = z + 1;
            }
            proof {
                assert(out@ =~= dec_text(*self));
            }
        } else {
            let k_i64: i64 = -(self.scale as i64);
            let k: usize = k_i64 as usize;
            proof {
                assert(k == -(self.scale as int));
            }
            if digs.len() > k {
                let cut = digs.len() - k;
                let front = vstd::slice::slice_subrange(digs.as_slice(), 0, cut);
                out.extend_from_slice(front);
                out.push(DOT);
                let back = vstd::slice::slice_subrange(digs.as_slice(), cut, digs.len());
                out.extend_from_slice(back);
                proof {
                    assert(front@ =~= nat_digits(self.mant as nat).take(cut as int));
                    assert(back@ =~= nat_digits(self.mant as nat).skip(cut as int));
                    assert(out@ =~= dec_text(*self));
                }
            } else {
                out.push(DIGIT0);
                out.push(DOT);
                let pad = k - digs.len();
                let mut z: usize = 0;
                let ghost head2 = out@;
                while z < pad
                    invariant
                        0 <= z <= pad,
                        out@ == head2 + zero_digits(z as int),
                    decreases pad - z,
                {
                    let ghost pre = out@;
                    out.push(DIGIT0);
                    proof {
                        assert(pre.push(DIGIT0) =~= head2 + zero_digits(z + 1));
                    }
                    z = z + 1;
                }
                out.extend_from_slice(digs.as_slice());
                proof {
                    assert(head2 =~= head + seq![DIGIT0, DOT]);
                    assert(out@ =~= dec_text(*self));
                }
            }
        }
        out
    }
}

/// The product: mantissas multiply, scales add, signs combine.
pub open spec fn spec_dec_mul(a: Dec, b: Dec) -> Dec {
    Dec {
        neg: a.neg != b.neg,
        mant: (a.mant * b.mant) as u64,
        scale: (a.scale + b.scale) as i32,
    }
}

/// The sum: the operand with the larger scale is rescaled down to the
/// smaller one, then mantissas add or subtract by sign.
pub open spec fn spec_dec_add(a: Dec, b: Dec) -> Dec {
    let s = if a.scale <= b.scale {
        a.scale as int
    } else {
        b.scale as int
    };
    let ma = a.mant * pow10((a.scale - s) as nat);
    let mb = b.mant * pow10((b.scale - s) as nat);
    if a.neg == b.neg {
        Dec { neg: a.neg, mant: (ma + mb) as u64, scale: s as i32 }
    } else if ma >= mb {
        Dec { neg: a.neg, mant: (ma - mb) as u64, scale: s as i32 }
    } else {
        Dec { neg: b.neg, mant: (mb - ma) as u64, scale: s as i32 }
    }
}

/// `m * 10^e`, proved not to overflow from the caller's bound.
fn shift_mant(m: u64, e: usize) -> (r: u64)
    requires
        m * pow10(e as nat) <= u64::MAX,
    ensures
        r == m * pow10(e as nat),
{
    let mut cur: u64 = m;
    let mut i: usize = 0;
    proof {
        assert(pow10(0) == 1);
        assert(m * pow10(0) == m);
    }
    while i < e
        invariant
            0 <= i <= e,
            cur == m * pow10(i as nat),
            m * pow10(e as nat) <= u64::MAX,
        decreases e - i,
    {
        proof {
            lemma_pow10_mono((i + 1) as nat, e as nat);
            assert(m * pow10((i + 1) as nat) <= m * pow10(e as nat)) by (nonlinear_arith)
                requires
                    pow10((i + 1) as nat) <= pow10(e as nat),
            ;
            assert(cur * 10 == m * pow10((i + 1) as nat)) by (nonlinear_arith)
                requires
                    cur == m * pow10(i as nat),
                    pow10((i + 1) as nat) == 10 * pow10(i as nat),
            ;
        }
        cur = cur * 10;
        i = i + 1;
    }
    cur
}

impl Dec {
    /// The exact product of two decimals. The mantissa product must fit in
    /// a `u64` and the scale sum in an `i32`; both are machine limits of
    /// the representation, not rounding.
    pub fn mul(&self, other: &Dec) -> (r: Dec)
        requires
            self.mant * other.mant <= u64::MAX,
            i32::MIN <= self.scale + other.scale <= i32::MAX,
        ensures
            r == spec_dec_mul(*self, *other),
    {
        proof {
            assert(self.mant * other.mant >= 0) by (nonlinear_arith);
        }
        Dec {
            neg: self.neg != other.neg,
            mant: self.mant * other.mant,
            scale: self.scale + other.scale,
        }
    }

    /// The exact sum of two decimals. The rescaled mantissas and their sum
    /// must fit in a `u64`; again machine limits, not rounding.
    pub fn add(&self, other: &Dec) -> (r: Dec)
        requires
            ({
                let s = if self.scale <= other.scale {
                    self.scale as int
                } else {
                    other.scale as int
                };
                &&& self.mant * pow10((self.scale - s) as nat) + other.mant * pow10(
                    (other.scale - s) as nat,
                ) <= u64::MAX
            }),
        ensures
            r == spec_dec_add(*self, *other),
    {
        let ghost s_spec = if self.scale <= other.scale {
            self.scale as int
        } else {
            other.scale as int
        };
        let s: i32 = if self.scale <= other.scale {
            self.scale
        } else {
            other.scale
        };
        let ea: usize = (self.scale as i64 - s as i64) as usize;
        let eb: usize = (other.scale as i64 - s as i64) as usize;
        proof {
            assert(ea == self.scale - s_spec);
            assert(eb == other.scale - s_spec);
            lemma_pow10_pos((self.scale - s_spec) as nat);
            lemma_pow10_pos((other.scale - s_spec) as nat);
            assert(self.mant * pow10((self.scale - s_spec) as nat) >= 0) by (nonlinear_arith);
            assert(other.mant * pow10((other.scale - s_spec) as nat) >= 0) by (nonlinear_arith);
        }
        let ma = shift_mant(self.mant, ea);
        let mb = shift_mant(other.mant, eb);
        if self.neg == other.neg {
            Dec { neg: self.neg, mant: ma + mb, scale: s }
        } else if ma >= mb {
            Dec { neg: self.neg, mant: ma - mb, scale: s }
        } else {
            Dec { neg: other.neg, mant: mb - ma, scale: s }
        }
    }
}

/// Formatting, then parsing, is the identity on decimals whose scale is not
/// positive — every decimal that parsing itself can produce.
pub proof fn lemma_dec_text_round_trip(d: Dec)
    requires
        i32::MIN < d.scale <= 0,
    ensures
        dec_parseable(dec_text(d)),
        dec_of_text(dec_text(d)) == d,
{
    let digs = nat_digits(d.mant as nat);
    lemma_nat_digits(d.mant as nat);
    let t = dec_text(d);
    let body = dec_abs_text(d);
    // The sign strips back off.
    if d.neg {
        assert(t == seq![MINUS] + body);
        assert(t[0] == MINUS);
        assert(dec_sign_body(t) =~= body);
        assert(dec_neg(t) == true);
    } else {
        assert(t == body);
    }
    if d.scale == 0 {
        assert(body =~= digs + zero_digits(0));
        assert(body =~= digs);
        if !d.neg {
            assert(body[0] != MINUS && body[0] != PLUS);
            assert(dec_sign_body(t) =~= body);
        }
        lemma_all_digits_no_byte(body, DOT);
        assert(dec_int_part(t) =~= body);
        assert(dec_frac_part(t) =~= Seq::<u8>::empty());
        assert(dec_digits(t) =~= digs);
        assert(dec_of_text(t) == d);
    } else {
        let k = -(d.scale as int);
        if digs.len() > k {
            let cut = digs.len() - k;
            assert(body == digs.take(cut) + seq![DOT] + digs.skip(cut));
            assert(body.len() == digs.len() + 1);
            assert(forall|i: int| 0 <= i < cut ==> body[i] == digs.take(cut)[i]);
            assert(body[cut] == DOT);
            assert(forall|i: int|
                cut < i < body.len() ==> body[i] == digs.skip(cut)[i - cut - 1]);
            if !d.neg {
                assert(is_digit(body[0]));
                assert(body[0] != MINUS && body[0] != PLUS);
                assert(dec_sign_body(t) =~= body);
            }
            // The first dot is exactly at `cut`.
            assert(forall|i: int| 0 <= i < cut ==> is_digit(#[trigger] body[i]));
            assert(forall|i: int| 0 <= i < cut ==> body[i] != DOT);
            crate::text::lemma_find_byte_skip(body, DOT, cut);
            assert(body.skip(cut)[0] == DOT);
            assert(find_byte(body, DOT) == cut);
            assert(dec_int_part(t) =~= digs.take(cut));
            assert(dec_frac_part(t) =~= digs.skip(cut));
            assert(all_digits(dec_int_part(t)));
            assert(all_digits(dec_frac_part(t))) by {
                assert(forall|i: int|
                    0 <= i < digs.skip(cut).len() ==> digs.skip(cut)[i] == digs[i + cut]);
            }
            assert(dec_digits(t) =~= digs);
            assert(dec_frac_part(t).len() == k);
            assert(dec_of_text(t) == d);
        } else {
            let pad = k - digs.len();
            assert(body == seq![DIGIT0, DOT] + zero_digits(pad) + digs);
            assert(body[0] == DIGIT0);
            assert(body[1] == DOT);
            if !d.neg {
                assert(body[0] != MINUS && body[0] != PLUS);
                assert(dec_sign_body(t) =~= body);
            }
            assert(find_byte(body, DOT) == 1) by {
                assert(body[0] != DOT);
                assert(find_byte(body, DOT) == 1 + find_byte(body.skip(1), DOT));
                assert(body.skip(1)[0] == DOT);
            }
            assert(dec_int_part(t) =~= seq![DIGIT0]);
            assert(all_digits(dec_int_part(t)));
            let frac = zero_digits(pad) + digs;
            assert(dec_frac_part(t) =~= frac) by {
                assert(forall|i: int|
                    0 <= i < frac.len() ==> body.skip(2)[i] == frac[i]);
                assert(body.skip(2) =~= frac);
            }
            assert(frac.len() == k);
            assert(all_digits(frac)) by {
                assert(forall|i: int| 0 <= i < pad ==> frac[i] == 48);
                assert(forall|i: int|
                    pad <= i < frac.len() ==> frac[i] == digs[i - pad]);
            }
            assert(dec_digits(t) =~= seq![DIGIT0] + zero_digits(pad) + digs);
            let lead = seq![DIGIT0] + zero_digits(pad);
            assert(dec_digits(t) =~= lead + digs);
            lemma_digits_val_concat(lead, digs);
            lemma_zeros_val(lead);
            assert(digits_val(dec_digits(t)) == d.mant);
            assert(dec_of_text(t) == d);
        }
    }
}

} // verus!
