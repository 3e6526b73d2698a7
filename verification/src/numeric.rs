//! Decimal text and little-endian magnitude arithmetic: the mathematical
//! model behind every numeric leaf of the codec, with verified parsing
//! and printing.

use vstd::prelude::*;

verus! {

/// `c` is a decimal digit.
pub open spec fn is_digit(c: char) -> bool {
    '0' <= c && c <= '9'
}

/// Numeric value of a decimal digit.
pub open spec fn digit_val(c: char) -> int {
    c as int - '0' as int
}

/// Every character of `s` is a decimal digit.
pub open spec fn all_digits(s: Seq<char>) -> bool {
    forall|i: int| 0 <= i < s.len() ==> is_digit(#[trigger] s[i])
}

/// The number denoted by the digit string `s` (0 when `s` is empty).
pub open spec fn dec_value(s: Seq<char>) -> int
    decreases s.len(),
{
    if s.len() == 0 {
        0
    } else {
        dec_value(s.drop_last()) * 10 + digit_val(s.last())
    }
}

/// The digit character for a value in `0..10`.
pub open spec fn digit_char(d: int) -> char {
    if d == 0 { '0' } else if d == 1 { '1' } else if d == 2 { '2' } else if d == 3 { '3' }
    else if d == 4 { '4' } else if d == 5 { '5' } else if d == 6 { '6' } else if d == 7 { '7' }
    else if d == 8 { '8' } else { '9' }
}

/// The canonical decimal rendering of `n >= 0`: no leading zeros, and the
/// single digit `0` for zero.
pub open spec fn dec_digits_of(n: int) -> Seq<char>
    decreases n,
{
    if n < 10 {
        seq![digit_char(n)]
    } else {
        dec_digits_of(n / 10).push(digit_char(n % 10))
    }
}

/// The canonical rendering of an integer: a minus sign and the magnitude
/// for negative values.
pub open spec fn dec_int_digits(v: int) -> Seq<char> {
    if v < 0 {
        seq!['-'] + dec_digits_of(-v)
    } else {
        dec_digits_of(v)
    }
}

/// `s` is the canonical decimal rendering of some number: nonempty, all
/// digits, and no leading zero except in `0` itself.
pub open spec fn canonical_dec(s: Seq<char>) -> bool {
    &&& s.len() > 0
    &&& all_digits(s)
    &&& (s.len() > 1 ==> s[0] != '0')
}

/// Extending a digit string on the right never decreases its value.
pub proof fn lemma_dec_value_take_le(s: Seq<char>, i: int, j: int)
    requires
        all_digits(s),
        0 <= i <= j <= s.len(),
    ensures
        dec_value(s.take(i)) <= dec_value(s.take(j)),
        0 <= dec_value(s.take(i)),
    decreases j,
{
    if j == 0 {
        assert(s.take(0) =~= Seq::<char>::empty());
    } else if i == j {
        lemma_dec_value_take_le(s, i - 1, j - 1);
        assert(s.take(j).drop_last() =~= s.take(j - 1));
        assert(is_digit(s[j - 1]));
        assert(dec_value(s.take(j)) == dec_value(s.take(j - 1)) * 10 + digit_val(s[j - 1]));
    } else {
        lemma_dec_value_take_le(s, i, j - 1);
        assert(s.take(j).drop_last() =~= s.take(j - 1));
        assert(is_digit(s[j - 1]));
        assert(dec_value(s.take(j)) == dec_value(s.take(j - 1)) * 10 + digit_val(s[j - 1]));
    }
}

/// A digit string denotes a nonnegative number.
pub proof fn lemma_dec_value_nonneg(s: Seq<char>)
    requires
        all_digits(s),
    ensures
        0 <= dec_value(s),
{
    assert(s.take(s.len() as int) =~= s);
    lemma_dec_value_take_le(s, 0, s.len() as int);
}

/// The canonical rendering consists of digits, and never starts with `0`
/// unless it renders zero itself.
pub proof fn lemma_dec_digits_of_wf(n: int)
    requires
        0 <= n,
    ensures
        all_digits(dec_digits_of(n)),
        dec_digits_of(n).len() > 0,
        n > 0 ==> dec_digits_of(n)[0] != '0',
        n == 0 ==> dec_digits_of(n) =~= seq!['0'],
    decreases n,
{
    if n < 10 {
        assert(dec_digits_of(n) =~= seq![digit_char(n)]);
    } else {
        lemma_dec_digits_of_wf(n / 10);
    }
}

/// Printing then reading a number gives the number back.
pub proof fn lemma_dec_value_of_digits(n: int)
    requires
        0 <= n,
    ensures
        dec_value(dec_digits_of(n)) == n,
    decreases n,
{
    if n < 10 {
        assert(dec_digits_of(n) =~= seq![digit_char(n)]);
        assert(dec_digits_of(n).drop_last() =~= Seq::<char>::empty());
        assert(digit_val(digit_char(n)) == n);
        assert(dec_value(dec_digits_of(n)) == dec_value(dec_digits_of(n).drop_last()) * 10
            + digit_val(dec_digits_of(n).last()));
    } else {
        lemma_dec_value_of_digits(n / 10);
        assert(dec_digits_of(n).drop_last() =~= dec_digits_of(n / 10));
        assert(dec_digits_of(n).last() == digit_char(n % 10));
        assert(digit_val(digit_char(n % 10)) == n % 10);
        assert(dec_value(dec_digits_of(n)) == n / 10 * 10 + n % 10);
        assert(n / 10 * 10 + n % 10 == n) by {
            vstd::arithmetic::div_mod::lemma_fundamental_div_mod(n, 10);
        }
    }
}

/// Reading a canonical digit string then printing the value gives the
/// string back: the decimal codec is inverse on canonical text.
pub proof fn lemma_digits_of_dec_value(s: Seq<char>)
    requires
        canonical_dec(s),
    ensures
        dec_digits_of(dec_value(s)) =~= s,
    decreases s.len(),
{
    lemma_dec_value_nonneg(s);
    if s.len() == 1 {
        assert(s.drop_last() =~= Seq::<char>::empty());
        assert(s.last() == s[0]);
        assert(dec_value(s) == dec_value(s.drop_last()) * 10 + digit_val(s.last()));
        assert(is_digit(s[0]));
        assert(digit_char(digit_val(s[0])) == s[0]);
        assert(dec_digits_of(dec_value(s)) =~= seq![digit_char(dec_value(s))]);
        assert(dec_digits_of(dec_value(s)) =~= s);
    } else {
        let t = s.drop_last();
        assert(all_digits(t)) by {
            assert(forall|i: int| 0 <= i < t.len() ==> t[i] == s[i]);
        }
        assert(canonical_dec(t));
        lemma_digits_of_dec_value(t);
        lemma_dec_value_nonneg(t);
        let n = dec_value(s);
        assert(n == dec_value(t) * 10 + digit_val(s.last()));
        assert(dec_value(t) >= 1) by {
            if dec_value(t) == 0 {
                lemma_dec_value_zero_means_zeros(t);
            }
        }
        assert(n / 10 == dec_value(t) && n % 10 == digit_val(s.last())) by {
            assert(0 <= digit_val(s.last()) < 10);
            vstd::arithmetic::div_mod::lemma_fundamental_div_mod_converse(
                n,
                10,
                dec_value(t),
                digit_val(s.last()),
            );
        }
        assert(n >= 10) by {
            assert(dec_value(t) * 10 >= 10) by (nonlinear_arith)
                requires
                    dec_value(t) >= 1,
            ;
        }
        assert(digit_char(digit_val(s.last())) == s.last());
        assert(dec_digits_of(n) =~= dec_digits_of(dec_value(t)).push(s.last()));
        assert(t.push(s.last()) =~= s);
    }
}

/// A canonical digit string of value zero is the single digit `0`, so a
/// longer canonical string has a nonzero leading digit and a nonzero value.
proof fn lemma_dec_value_zero_means_zeros(s: Seq<char>)
    requires
        all_digits(s),
        dec_value(s) == 0,
    ensures
        forall|i: int| 0 <= i < s.len() ==> s[i] == '0',
    decreases s.len(),
{
    if s.len() > 0 {
        let t = s.drop_last();
        lemma_dec_value_nonneg(t);
        assert(dec_value(t) * 10 >= 0) by (nonlinear_arith)
            requires
                dec_value(t) >= 0,
        ;
        assert(digit_val(s.last()) == 0 && dec_value(t) * 10 == 0);
        assert(dec_value(t) == 0) by (nonlinear_arith)
            requires
                dec_value(t) * 10 == 0,
        ;
        lemma_dec_value_zero_means_zeros(t);
        assert(forall|i: int| 0 <= i < s.len() - 1 ==> s[i] == t[i] && t[i] == '0');
        assert(s.last() == '0');
    }
}

/// Parse a run of decimal digits.  Returns the denoted value exactly
/// when the text is nonempty, all digits, and fits in 64 bits.
fn parse_digits(s: &[char]) -> (r: Option<u64>)
    ensures
        r is Some <==> s@.len() > 0 && all_digits(s@) && dec_value(s@) <= u64::MAX,
        r is Some ==> r->0 == dec_value(s@),
{
    if s.len() == 0 {
        return None;
    }
    let mut v: u64 = 0;
    let mut i: usize = 0;
    while i < s.len()
        invariant
            0 <= i <= s@.len(),
            all_digits(s@.take(i as int)),
            v == dec_value(s@.take(i as int)),
        decreases s@.len() - i,
    {
        let c = s[i];
        if !('0' <= c && c <= '9') {
            assert(!all_digits(s@));
            return None;
        }
        let d: u64 = (c as u32 - '0' as u32) as u64;
        let wide: u128 = v as u128 * 10 + d as u128;
        proof {
            assert(s@.take(i + 1).drop_last() =~= s@.take(i as int));
            assert(dec_value(s@.take(i + 1)) == v * 10 + d);
        }
        if wide > u64::MAX as u128 {
            proof {
                if all_digits(s@) && dec_value(s@) <= u64::MAX {
                    lemma_dec_value_take_le(s@, i + 1, s@.len() as int);
                    assert(s@.take(s@.len() as int) =~= s@);
                }
            }
            return None;
        }
        v = wide as u64;
        i = i + 1;
    }
    proof {
        assert(s@.take(s@.len() as int) =~= s@);
    }
    Some(v)
}

/// Print `n` as canonical decimal text.
pub fn u64_to_dec_chars(n: u64) -> (r: Vec<char>)
    ensures
        r@ =~= dec_digits_of(n as int),
    decreases n,
{
    if n < 10 {
        let mut r: Vec<char> = Vec::new();
        r.push(digit_of(n));
        r
    } else {
        let mut r = u64_to_dec_chars(n / 10);
        r.push(digit_of(n % 10));
        r
    }
}

/// The value an integer leaf's text denotes: an optional sign followed by
/// at least one digit, as Rust's integer parsing accepts it.
pub open spec fn int_text_value(s: Seq<char>) -> Option<int> {
    if s.len() > 0 && (s[0] == '-' || s[0] == '+') {
        let rest = s.drop_first();
        if rest.len() > 0 && all_digits(rest) {
            if s[0] == '-' {
                Some(-dec_value(rest))
            } else {
                Some(dec_value(rest))
            }
        } else {
            None
        }
    } else if s.len() > 0 && all_digits(s) {
        Some(dec_value(s))
    } else {
        None
    }
}

/// Parse a signed decimal string whose magnitude fits in 64 bits.
pub fn parse_int_value(s: &[char]) -> (r: Option<(bool, u64)>)
    ensures
        r is Some <==> int_text_value(s@) is Some && -(u64::MAX as int) <= int_text_value(
            s@,
        )->0 <= u64::MAX as int,
        r matches Some((neg, mag)) ==> int_text_value(s@)->0 == (if neg {
            -(mag as int)
        } else {
            mag as int
        }),
{
    if s.len() > 0 && (s[0] == '-' || s[0] == '+') {
        let neg = s[0] == '-';
        let rest = vstd::slice::slice_subrange(s, 1, s.len());
        proof {
            assert(rest@ =~= s@.drop_first());
        }
        match parse_digits(rest) {
            Some(m) => {
                proof {
                    if neg {
                        lemma_dec_value_nonneg(rest@);
                    }
                }
                Some((neg, m))
            },
            None => None,
        }
    } else {
        match parse_digits(s) {
            Some(m) => Some((false, m)),
            None => None,
        }
    }
}

/// Print a signed value as canonical decimal text.
pub fn i64_to_dec_chars(v: i64) -> (r: Vec<char>)
    ensures
        r@ =~= dec_int_digits(v as int),
{
    if v >= 0 {
        u64_to_dec_chars(v as u64)
    } else {
        let mag: u64 = ((-(v + 1)) as u64) + 1;
        assert(mag == -(v as int));
        let mut r: Vec<char> = Vec::new();
        r.push('-');
        let mut digits = u64_to_dec_chars(mag);
        r.append(&mut digits);
        proof {
            assert(r@ =~= seq!['-'] + dec_digits_of(mag as int));
        }
        r
    }
}

/// The number denoted by a little-endian byte string.
pub open spec fn le_value(b: Seq<u8>) -> int
    decreases b.len(),
{
    if b.len() == 0 {
        0
    } else {
        b[0] + 256 * le_value(b.drop_first())
    }
}

/// The minimal little-endian rendering of `n >= 0`: no trailing zero
/// byte, and the empty string for zero.
pub open spec fn min_le_bytes(n: int) -> Seq<u8>
    decreases n,
{
    if n <= 0 {
        Seq::<u8>::empty()
    } else {
        seq![(n % 256) as u8] + min_le_bytes(n / 256)
    }
}

/// A little-endian byte string denotes a nonnegative number.
pub proof fn lemma_le_value_nonneg(b: Seq<u8>)
    ensures
        0 <= le_value(b),
    decreases b.len(),
{
    if b.len() > 0 {
        lemma_le_value_nonneg(b.drop_first());
        assert(256 * le_value(b.drop_first()) >= 0) by (nonlinear_arith)
            requires
                le_value(b.drop_first()) >= 0,
        ;
    }
}

/// Rendering then reading a number gives the number back.
pub proof fn lemma_le_value_of_min(n: int)
    requires
        0 <= n,
    ensures
        le_value(min_le_bytes(n)) == n,
    decreases n,
{
    if n > 0 {
        lemma_le_value_of_min(n / 256);
        let b = min_le_bytes(n);
        assert(b.drop_first() =~= min_le_bytes(n / 256));
        assert(le_value(b) == n % 256 + 256 * (n / 256));
        vstd::arithmetic::div_mod::lemma_fundamental_div_mod(n, 256);
    }
}

/// A number below `2^(8k)` renders into at most `k` bytes.
pub proof fn lemma_min_le_bytes_len(n: int, k: nat)
    requires
        0 <= n < vstd::arithmetic::power2::pow2(8 * k),
    ensures
        min_le_bytes(n).len() <= k,
    decreases k,
{
    if n > 0 {
        if k == 0 {
            assert(vstd::arithmetic::power2::pow2(0) == 1) by {
                vstd::arithmetic::power2::lemma2_to64();
            }
        } else {
            assert(vstd::arithmetic::power2::pow2(8 * k) == vstd::arithmetic::power2::pow2(
                8 * (k - 1) as nat,
            ) * 256) by {
                vstd::arithmetic::power2::lemma_pow2_adds(8 * (k - 1) as nat, 8);
                vstd::arithmetic::power2::lemma2_to64();
            }
            assert(n / 256 < vstd::arithmetic::power2::pow2(8 * (k - 1) as nat)) by (
            nonlinear_arith)
                requires
                    0 <= n,
                    n < vstd::arithmetic::power2::pow2(8 * (k - 1) as nat) * 256,
            ;
            lemma_min_le_bytes_len(n / 256, (k - 1) as nat);
        }
    }
}

/// The value an unsigned leaf's text denotes: an optional plus sign
/// followed by at least one digit, as Rust's unsigned parsing accepts it.
pub open spec fn uint_text_value(s: Seq<char>) -> Option<int> {
    if s.len() > 0 && s[0] == '+' {
        let rest = s.drop_first();
        if rest.len() > 0 && all_digits(rest) {
            Some(dec_value(rest))
        } else {
            None
        }
    } else if s.len() > 0 && all_digits(s) {
        Some(dec_value(s))
    } else {
        None
    }
}

/// Parse an unsigned decimal string, with the optional plus sign Rust's
/// unsigned parsing accepts.
pub fn parse_value(s: &[char]) -> (r: Option<u64>)
    ensures
        r is Some <==> (uint_text_value(s@) matches Some(v) && v <= u64::MAX),
        r matches Some(m) ==> uint_text_value(s@) == Some(m as int),
{
    if s.len() > 0 && s[0] == '+' {
        let rest = vstd::slice::slice_subrange(s, 1, s.len());
        proof {
            assert(rest@ =~= s@.drop_first());
        }
        parse_digits(rest)
    } else {
        parse_digits(s)
    }
}

/// The 32-bit two's-complement representation of a signed value.
pub open spec fn wrap32(v: int) -> int {
    if v < 0 {
        v + 0x100000000
    } else {
        v
    }
}

/// The signed value a 32-bit two's-complement representation denotes.
pub open spec fn unwrap32(u: int) -> int {
    if u >= 0x80000000 {
        u - 0x100000000
    } else {
        u
    }
}

/// The 64-bit two's-complement representation of a signed value.
pub open spec fn wrap64(v: int) -> int {
    if v < 0 {
        v + 0x10000000000000000
    } else {
        v
    }
}

/// The signed value a 64-bit two's-complement representation denotes.
pub open spec fn unwrap64(u: int) -> int {
    if u >= 0x8000000000000000 {
        u - 0x10000000000000000
    } else {
        u
    }
}

/// The four little-endian bytes of a 32-bit value.
pub open spec fn u32_le_bytes(n: int) -> Seq<u8> {
    seq![
        (n % 0x100) as u8,
        ((n / 0x100) % 0x100) as u8,
        ((n / 0x10000) % 0x100) as u8,
        ((n / 0x1000000) % 0x100) as u8,
    ]
}

/// The value of four little-endian bytes.
pub open spec fn u32_of_le(b: Seq<u8>) -> int
    recommends
        b.len() == 4,
{
    b[0] + 0x100 * (b[1] + 0x100 * (b[2] + 0x100 * b[3]))
}

/// The eight little-endian bytes of a 64-bit value.
pub open spec fn u64_le_bytes(n: int) -> Seq<u8> {
    seq![
        (n % 0x100) as u8,
        ((n / 0x100) % 0x100) as u8,
        ((n / 0x10000) % 0x100) as u8,
        ((n / 0x1000000) % 0x100) as u8,
        ((n / 0x100000000) % 0x100) as u8,
        ((n / 0x10000000000) % 0x100) as u8,
        ((n / 0x1000000000000) % 0x100) as u8,
        ((n / 0x100000000000000) % 0x100) as u8,
    ]
}

/// The value of eight little-endian bytes.
pub open spec fn u64_of_le(b: Seq<u8>) -> int
    recommends
        b.len() == 8,
{
    b[0] + 0x100 * (b[1] + 0x100 * (b[2] + 0x100 * (b[3] + 0x100 * (b[4] + 0x100 * (b[5] + 0x100
        * (b[6] + 0x100 * b[7]))))))
}

/// Append the four little-endian bytes of `x`.
pub fn push_u32_le(out: &mut Vec<u8>, x: u32)
    ensures
        final(out)@ =~= old(out)@ + u32_le_bytes(x as int),
{
    out.push((x % 0x100) as u8);
    out.push(((x / 0x100) % 0x100) as u8);
    out.push(((x / 0x10000) % 0x100) as u8);
    out.push(((x / 0x1000000) % 0x100) as u8);
}

/// Append the eight little-endian bytes of `x`.
pub fn push_u64_le(out: &mut Vec<u8>, x: u64)
    ensures
        final(out)@ =~= old(out)@ + u64_le_bytes(x as int),
{
    out.push((x % 0x100) as u8);
    out.push(((x / 0x100) % 0x100) as u8);
    out.push(((x / 0x10000) % 0x100) as u8);
    out.push(((x / 0x1000000) % 0x100) as u8);
    out.push(((x / 0x100000000) % 0x100) as u8);
    out.push(((x / 0x10000000000) % 0x100) as u8);
    out.push(((x / 0x1000000000000) % 0x100) as u8);
    out.push(((x / 0x100000000000000) % 0x100) as u8);
}

/// Read a 32-bit value from four little-endian bytes.
pub fn read_u32_le(b0: u8, b1: u8, b2: u8, b3: u8) -> (r: u32)
    ensures
        r == u32_of_le(seq![b0, b1, b2, b3]),
{
    b0 as u32 + 0x100 * (b1 as u32 + 0x100 * (b2 as u32 + 0x100 * b3 as u32))
}

/// Read a 64-bit value from eight little-endian bytes.
pub fn read_u64_le(b: &[u8]) -> (r: u64)
    requires
        b@.len() == 8,
    ensures
        r == u64_of_le(b@),
{
    b[0] as u64 + 0x100 * (b[1] as u64 + 0x100 * (b[2] as u64 + 0x100 * (b[3] as u64 + 0x100 * (
    b[4] as u64 + 0x100 * (b[5] as u64 + 0x100 * (b[6] as u64 + 0x100 * b[7] as u64))))))
}

/// Reading the rendered bytes of a 32-bit value gives the value back.
pub proof fn lemma_u32_le_roundtrip(n: int)
    requires
        0 <= n < 0x100000000,
    ensures
        u32_of_le(u32_le_bytes(n)) == n,
{
}

/// Reading the rendered bytes of a 64-bit value gives the value back.
pub proof fn lemma_u64_le_roundtrip(n: int)
    requires
        0 <= n < 0x10000000000000000,
    ensures
        u64_of_le(u64_le_bytes(n)) == n,
{
    let c = 0x100int;
    let q1 = n / 0x100;
    let q2 = n / 0x10000;
    let q3 = n / 0x1000000;
    let q4 = n / 0x100000000;
    let q5 = n / 0x10000000000;
    let q6 = n / 0x1000000000000;
    let q7 = n / 0x100000000000000;
    assert(q2 == q1 / c && q3 == q2 / c && q4 == q3 / c && q5 == q4 / c && q6 == q5 / c && q7 == q6
        / c) by {
        vstd::arithmetic::div_mod::lemma_div_denominator(n, 0x100, c);
        vstd::arithmetic::div_mod::lemma_div_denominator(n, 0x10000, c);
        vstd::arithmetic::div_mod::lemma_div_denominator(n, 0x1000000, c);
        vstd::arithmetic::div_mod::lemma_div_denominator(n, 0x100000000, c);
        vstd::arithmetic::div_mod::lemma_div_denominator(n, 0x10000000000, c);
        vstd::arithmetic::div_mod::lemma_div_denominator(n, 0x1000000000000, c);
    }
    assert(0 <= q7 < 0x100) by {
        vstd::arithmetic::div_mod::lemma_div_pos_is_pos(n, 0x100000000000000);
        vstd::arithmetic::div_mod::lemma_multiply_divide_lt(n, 0x100000000000000, 0x100);
    }
    assert(q7 % c == q7) by {
        vstd::arithmetic::div_mod::lemma_small_mod(q7 as nat, 0x100nat);
    }
    vstd::arithmetic::div_mod::lemma_fundamental_div_mod(n, c);
    vstd::arithmetic::div_mod::lemma_fundamental_div_mod(q1, c);
    vstd::arithmetic::div_mod::lemma_fundamental_div_mod(q2, c);
    vstd::arithmetic::div_mod::lemma_fundamental_div_mod(q3, c);
    vstd::arithmetic::div_mod::lemma_fundamental_div_mod(q4, c);
    vstd::arithmetic::div_mod::lemma_fundamental_div_mod(q5, c);
    vstd::arithmetic::div_mod::lemma_fundamental_div_mod(q6, c);
}

/// The digit character of a value below ten.
fn digit_of(d: u64) -> (c: char)
    requires
        d < 10,
    ensures
        c == digit_char(d as int),
        is_digit(c),
{
    if d == 0 { '0' } else if d == 1 { '1' } else if d == 2 { '2' } else if d == 3 { '3' }
    else if d == 4 { '4' } else if d == 5 { '5' } else if d == 6 { '6' } else if d == 7 { '7' }
    else if d == 8 { '8' } else { '9' }
}

} // verus!
