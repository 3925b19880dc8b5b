//! The numeric scanner: byte slices read as integers, or as integers with a
//! decimal fraction, with overflow detected.

use vstd::prelude::*;
use vstd::string::StringSliceAdditionalSpecFns;

verus! {

/// Whether `b` is an ASCII decimal digit.
pub open spec fn is_digit_byte(b: u8) -> bool {
    ('0' as u8) <= b && b <= ('9' as u8)
}

/// The numeric value of the ASCII digit `b`.
pub open spec fn digit_val(b: u8) -> int {
    b - ('0' as u8)
}

/// Whether every byte of `s` is an ASCII decimal digit.
pub open spec fn all_digits(s: Seq<u8>) -> bool {
    forall|i: int| 0 <= i < s.len() ==> is_digit_byte(s[i])
}

/// The value of `s` read as a decimal numeral, most significant digit first.
pub open spec fn digits_value(s: Seq<u8>) -> int
    decreases s.len(),
{
    if s.len() == 0 {
        0
    } else {
        digits_value(s.drop_last()) * 10 + digit_val(s.last())
    }
}

/// A digit string has a non-negative value.
pub proof fn lemma_digits_value_nonneg(s: Seq<u8>)
    requires
        all_digits(s),
    ensures
        digits_value(s) >= 0,
    decreases s.len(),
{
    if s.len() > 0 {
        assert(all_digits(s.drop_last()));
        lemma_digits_value_nonneg(s.drop_last());
    }
}

/// Extending a digit string to the right cannot shrink its value.
pub proof fn lemma_digits_value_prefix(s: Seq<u8>, i: int)
    requires
        all_digits(s),
        0 <= i <= s.len(),
    ensures
        digits_value(s.take(i)) <= digits_value(s),
    decreases s.len() - i,
{
    lemma_digits_value_nonneg(s.take(i));
    if i < s.len() {
        assert(s.take(i + 1).drop_last() =~= s.take(i));
        assert(digits_value(s.take(i + 1)) == digits_value(s.take(i)) * 10 + digit_val(
            s.take(i + 1).last(),
        ));
        lemma_digits_value_prefix(s, i + 1);
        assert(s.take(s.len() as int) =~= s);
    } else {
        assert(s.take(i) =~= s);
    }
}

/// The sign and digit body of a numeric string: a leading `-` makes it
/// negative, a leading `+` is skipped, anything else is part of the body.
pub open spec fn sign_split(s: Seq<u8>) -> (bool, Seq<u8>) {
    if s.len() >= 1 && s[0] == ('-' as u8) {
        (true, s.skip(1))
    } else if s.len() >= 1 && s[0] == ('+' as u8) {
        (false, s.skip(1))
    } else {
        (false, s)
    }
}

/// What [`int_parse_bytes`] returns: the value of an optionally signed
/// decimal numeral that fills the whole input and fits in an `i64`.
pub open spec fn int_parse_spec(s: Seq<u8>) -> Option<i64> {
    let (neg, body) = sign_split(s);
    if body.len() >= 1 && all_digits(body) && digits_value(body) <= i64::MAX {
        if neg {
            Some((-digits_value(body)) as i64)
        } else {
            Some(digits_value(body) as i64)
        }
    } else {
        None
    }
}

/// Parse bytes as an int.
///
/// Accepts an optional leading `+` or `-` followed by one or more ASCII
/// digits and nothing else; rejects values beyond `i64::MAX`.
#[verifier::loop_isolation(false)]
pub fn int_parse_bytes(s: &[u8]) -> (r: Option<i64>)
    ensures
        r == int_parse_spec(s@),
{
    let ghost body = sign_split(s@).1;
    let (neg, start): (bool, usize) = if s.len() >= 1 && s[0] == ('-' as u8) {
        (true, 1)
    } else if s.len() >= 1 && s[0] == ('+' as u8) {
        (false, 1)
    } else {
        (false, 0)
    };
    proof {
        assert(neg == sign_split(s@).0);
        assert(body =~= s@.skip(start as int));
    }
    if s.len() == start {
        return None;
    }
    let mut acc: u64 = 0;
    let mut i: usize = start;
    while i < s.len()
        invariant
            start <= i <= s.len(),
            s.len() > start,
            body == s@.skip(start as int),
            all_digits(body.take(i - start)),
            acc == digits_value(body.take(i - start)),
            acc <= i64::MAX as u64,
        decreases s.len() - i,
    {
        let b = s[i];
        proof {
            assert(body.take(i + 1 - start).drop_last() =~= body.take(i - start));
            assert(body.take(i + 1 - start).last() == body[i - start]);
            assert(body[i - start] == s@[i as int]);
        }
        if b < ('0' as u8) || b > ('9' as u8) {
            proof {
                assert(!is_digit_byte(body[i - start]));
            }
            return None;
        }
        let d = (b - ('0' as u8)) as u64;
        if acc > 922_337_203_685_477_580 || (acc == 922_337_203_685_477_580 && d > 7) {
            proof {
                if all_digits(body) {
                    lemma_digits_value_prefix(body, i + 1 - start);
                }
            }
            return None;
        }
        acc = acc * 10 + d;
        i += 1;
    }
    proof {
        assert(body.take(s@.len() - start) =~= body);
    }
    if neg {
        Some(-(acc as i64))
    } else {
        Some(acc as i64)
    }
}

/// Parse a string as an int; see [`int_parse_bytes`].
pub fn int_parse_str(s: &str) -> (r: Option<i64>)
    ensures
        r == int_parse_spec(s.spec_bytes()),
{
    int_parse_bytes(s.as_bytes())
}

/// Index of the first `.` in `s` at or after `i`, or `s.len()` if there is
/// none.
pub open spec fn first_dot_from(s: Seq<u8>, i: int) -> int
    decreases s.len() - i,
{
    if i < 0 || i >= s.len() {
        s.len() as int
    } else if s[i] == ('.' as u8) {
        i
    } else {
        first_dot_from(s, i + 1)
    }
}

/// What [`decimal_digits`] returns: the number of bytes after the first `.`.
pub open spec fn decimal_digits_spec(s: Seq<u8>) -> int {
    let dot = first_dot_from(s, 0);
    if dot == s.len() {
        0
    } else {
        s.len() - dot - 1
    }
}

/// Count the number of decimal places in a byte slice.
/// Caution: does not verify the integrity of the input,
/// so it may return incorrect results for invalid inputs.
#[verifier::loop_isolation(false)]
pub fn decimal_digits(bytes: &[u8]) -> (r: usize)
    ensures
        r == decimal_digits_spec(bytes@),
{
    let mut i: usize = 0;
    while i < bytes.len()
        invariant
            0 <= i <= bytes.len(),
            first_dot_from(bytes@, 0) == first_dot_from(bytes@, i as int),
        decreases bytes.len() - i,
    {
        if bytes[i] == ('.' as u8) {
            return bytes.len() - i - 1;
        }
        i += 1;
    }
    0
}

/// One step of decimal accumulation, wrapping at 2^64 as the hardware does.
pub open spec fn wrap_step(acc: u64, b: u8) -> u64 {
    ((acc * 10 + digit_val(b)) % 0x1_0000_0000_0000_0000) as u64
}

/// Decimal accumulation of a digit string, wrapping at 2^64.
pub open spec fn wrap_scan(s: Seq<u8>) -> u64
    decreases s.len(),
{
    if s.len() == 0 {
        0
    } else {
        wrap_step(wrap_scan(s.drop_last()), s.last())
    }
}

/// Whether wrapping accumulation of `s` passes through a state that reads as
/// negative in two's complement, which the scanner treats as overflow.
pub open spec fn wrap_overflows(s: Seq<u8>) -> bool {
    exists|i: int| 1 <= i <= s.len() && wrap_scan(#[trigger] s.take(i)) >= 0x8000_0000_0000_0000
}

/// An integer with an optional decimal fraction, held exactly.
///
/// The value is `int_part + frac_num / 10^frac_len`, negated when `negative`
/// is set. Only the first 18 fraction digits are held; `frac_len` is capped
/// accordingly, so the held value may fall short of the written one by less
/// than 10^-18.
#[derive(Debug, Clone, Copy, PartialEq, Eq, Structural)]
pub struct DecimalNumber {
    /// Whether the value is negated.
    pub negative: bool,
    /// The value before the `.`; always below 2^63.
    pub int_part: u64,
    /// The value of the first `frac_len` digits after the `.`.
    pub frac_num: u64,
    /// How many fraction digits `frac_num` holds, at most 18.
    pub frac_len: u8,
}

/// What the numeric scanner found: an integer, an integer with a decimal
/// fraction, or nothing numeric.
#[derive(Debug, Clone, Copy, PartialEq, Eq, Structural)]
pub enum IntDecimal {
    /// The input was an integer.
    Int(i64),
    /// The input had a decimal point.
    Dec(DecimalNumber),
    /// The input was not a number, or overflowed.
    Invalid,
}

/// How many fraction digits are held exactly.
pub open spec fn frac_cap() -> int {
    18
}

/// What [`decimal_parse_bytes`] returns.
///
/// After an optional sign the body must begin with a digit. The integer part
/// accumulates with wrap-then-check-negative semantics, so `i64::MIN` and
/// beyond read as overflow. A `.` may follow the integer digits; after it
/// only digits may stand, and an empty fraction is allowed.
pub open spec fn decimal_parse_spec(s: Seq<u8>) -> IntDecimal {
    let (neg, body) = sign_split(s);
    if body.len() == 0 || !is_digit_byte(body[0]) {
        IntDecimal::Invalid
    } else {
        let j = first_nondigit_from(body, 0);
        if wrap_overflows(body.take(j)) {
            IntDecimal::Invalid
        } else if j == body.len() {
            if neg {
                IntDecimal::Int((-(wrap_scan(body) as int)) as i64)
            } else {
                IntDecimal::Int(wrap_scan(body) as i64)
            }
        } else if body[j] != ('.' as u8) {
            IntDecimal::Invalid
        } else {
            let frac = body.skip(j + 1);
            if !all_digits(frac) {
                IntDecimal::Invalid
            } else {
                let kept = if frac.len() <= frac_cap() {
                    frac
                } else {
                    frac.take(frac_cap())
                };
                IntDecimal::Dec(
                    DecimalNumber {
                        negative: neg,
                        int_part: wrap_scan(body.take(j)),
                        frac_num: digits_value(kept) as u64,
                        frac_len: kept.len() as u8,
                    },
                )
            }
        }
    }
}

/// Index of the first byte of `s` at or after `i` that is not a digit, or
/// `s.len()` if all are digits.
pub open spec fn first_nondigit_from(s: Seq<u8>, i: int) -> int
    decreases s.len() - i,
{
    if i < 0 || i >= s.len() {
        s.len() as int
    } else if !is_digit_byte(s[i]) {
        i
    } else {
        first_nondigit_from(s, i + 1)
    }
}

/// Ten to the power `n`.
pub open spec fn ten_pow(n: nat) -> int
    decreases n,
{
    if n == 0 {
        1
    } else {
        10 * ten_pow((n - 1) as nat)
    }
}

/// A digit string of `n` digits has a value below 10^n.
pub proof fn lemma_digits_value_bound_n(s: Seq<u8>, n: int)
    requires
        all_digits(s),
        s.len() == n,
        0 <= n,
    ensures
        0 <= digits_value(s) < ten_pow(n as nat),
    decreases n,
{
    if n == 0 {
    } else {
        assert(all_digits(s.drop_last()));
        lemma_digits_value_bound_n(s.drop_last(), n - 1);
        assert(ten_pow(n as nat) == 10 * ten_pow((n - 1) as nat));
    }
}

/// A digit string of at most 18 digits has a value below 10^18.
pub proof fn lemma_digits_value_bound(s: Seq<u8>)
    requires
        all_digits(s),
        s.len() <= 18,
    ensures
        0 <= digits_value(s) < 0x0DE0_B6B3_A764_0000,  // 10^18
{
    lemma_digits_value_bound_n(s, s.len() as int);
    lemma_ten_pow_le(s.len() as nat, 18);
    assert(ten_pow(18) == 0x0DE0_B6B3_A764_0000) by {
        lemma_ten_pow_18();
    }
}

/// `ten_pow` grows with its argument.
proof fn lemma_ten_pow_le(a: nat, b: nat)
    requires
        a <= b,
    ensures
        ten_pow(a) <= ten_pow(b),
        ten_pow(a) >= 1,
    decreases b,
{
    if a == b {
        if a > 0 {
            lemma_ten_pow_le((a - 1) as nat, (a - 1) as nat);
        }
    } else {
        lemma_ten_pow_le(a, (b - 1) as nat);
    }
}

/// The values of `ten_pow` up to 18, written out.
pub proof fn lemma_ten_pow_18()
    ensures
        ten_pow(0) == 1,
        ten_pow(1) == 10,
        ten_pow(2) == 100,
        ten_pow(3) == 1000,
        ten_pow(4) == 10000,
        ten_pow(5) == 100000,
        ten_pow(6) == 1000000,
        ten_pow(7) == 10000000,
        ten_pow(8) == 100000000,
        ten_pow(9) == 1000000000,
        ten_pow(10) == 10000000000,
        ten_pow(11) == 100000000000,
        ten_pow(12) == 1000000000000,
        ten_pow(18) == 0x0DE0_B6B3_A764_0000,
{
    assert(ten_pow(0) == 1);
    assert(ten_pow(1) == 10);
    assert(ten_pow(2) == 100);
    assert(ten_pow(3) == 1000);
    assert(ten_pow(4) == 10000);
    assert(ten_pow(5) == 100000);
    assert(ten_pow(6) == 1000000);
    assert(ten_pow(7) == 10000000);
    assert(ten_pow(8) == 100000000);
    assert(ten_pow(9) == 1000000000);
    assert(ten_pow(10) == 10000000000);
    assert(ten_pow(11) == 100000000000);
    assert(ten_pow(12) == 1000000000000);
    assert(ten_pow(13) == 10000000000000);
    assert(ten_pow(14) == 100000000000000);
    assert(ten_pow(15) == 1000000000000000);
    assert(ten_pow(16) == 10000000000000000);
    assert(ten_pow(17) == 100000000000000000);
    assert(ten_pow(18) == 1000000000000000000);
}

/// Parse bytes as an integer or decimal number, exactly.
///
/// This is the scanner behind the permissive datetime forms: it tells an
/// integer from a fractional timestamp and holds both without rounding.
#[verifier::loop_isolation(false)]
#[verifier::rlimit(100)]
#[verifier::spinoff_prover]
pub fn decimal_parse_bytes(s: &[u8]) -> (r: IntDecimal)
    ensures
        r == decimal_parse_spec(s@),
        r matches IntDecimal::Dec(d) ==> (d.int_part < 0x8000_0000_0000_0000 && d.frac_len <= 18
            && d.frac_num < ten_pow(d.frac_len as nat)),
{
    let ghost body = sign_split(s@).1;
    let (neg, start): (bool, usize) = if s.len() >= 1 && s[0] == ('-' as u8) {
        (true, 1)
    } else if s.len() >= 1 && s[0] == ('+' as u8) {
        (false, 1)
    } else {
        (false, 0)
    };
    proof {
        assert(neg == sign_split(s@).0);
        assert(body =~= s@.skip(start as int));
    }
    if s.len() == start {
        return IntDecimal::Invalid;
    }
    let b0 = s[start];
    if b0 < ('0' as u8) || b0 > ('9' as u8) {
        return IntDecimal::Invalid;
    }
    let mut acc: u64 = 0;
    let mut i: usize = start;
    while i < s.len() && ('0' as u8) <= s[i] && s[i] <= ('9' as u8)
        invariant
            start <= i <= s.len(),
            s.len() > start,
            body == s@.skip(start as int),
            all_digits(body.take(i - start)),
            acc == wrap_scan(body.take(i - start)),
            acc < 0x8000_0000_0000_0000,
            !wrap_overflows(body.take(i - start)),
        decreases s.len() - i,
    {
        let b = s[i];
        proof {
            assert(body.take(i + 1 - start).drop_last() =~= body.take(i - start));
            assert(body.take(i + 1 - start).last() == body[i - start]);
            assert(body[i - start] == s@[i as int]);
        }
        let d = (b - ('0' as u8)) as u64;
        let wide: u128 = (acc as u128) * 10 + (d as u128);
        let wrapped: u128 = wide % 0x1_0000_0000_0000_0000u128;
        let next: u64 = wrapped as u64;
        proof {
            assert(next == wrap_step(acc, b));
            assert(forall|k: int|
                1 <= k <= i - start ==> wrap_scan(#[trigger] body.take(i + 1 - start).take(k))
                    == wrap_scan(body.take(i - start).take(k))) by {
                assert(forall|k: int|
                    1 <= k <= i - start ==> #[trigger] body.take(i + 1 - start).take(k) =~= body.take(
                        i - start,
                    ).take(k));
            }
            assert(body.take(i + 1 - start).take(i + 1 - start) =~= body.take(i + 1 - start));
        }
        if next >= 0x8000_0000_0000_0000 {
            proof {
                lemma_wrap_overflow_persists(body, i + 1 - start);
                lemma_first_nondigit_lb(body, i + 1 - start);
                lemma_first_nondigit_bounds(body, 0);
            }
            return IntDecimal::Invalid;
        }
        acc = next;
        i += 1;
    }
    proof {
        if i == s.len() {
            assert(body.take(i - start) =~= body);
            lemma_first_nondigit_all(body);
        } else {
            assert(body[i - start] == s@[i as int]);
            assert(!is_digit_byte(body[i - start]));
            lemma_first_nondigit_pin(body, i - start);
        }
    }
    if i == s.len() {
        if neg {
            return IntDecimal::Int(-(acc as i64));
        } else {
            return IntDecimal::Int(acc as i64);
        }
    }
    if s[i] != ('.' as u8) {
        return IntDecimal::Invalid;
    }
    let frac_start = i + 1;
    let ghost frac = body.skip(i + 1 - start);
    let mut frac_num: u64 = 0;
    let mut frac_len: u8 = 0;
    let mut k: usize = frac_start;
    while k < s.len()
        invariant
            frac_start <= k <= s.len(),
            frac_start == i + 1,
            start <= i < s.len(),
            body == s@.skip(start as int),
            frac == body.skip(i + 1 - start),
            all_digits(frac.take(k - frac_start)),
            frac_len == if k - frac_start <= 18 {
                k - frac_start
            } else {
                18int
            },
            frac_num == digits_value(frac.take(frac_len as int)),
            frac_num < 0x0DE0_B6B3_A764_0000,
        decreases s.len() - k,
    {
        let b = s[k];
        proof {
            assert(frac.take(k + 1 - frac_start).drop_last() =~= frac.take(k - frac_start));
            assert(frac.take(k + 1 - frac_start).last() == frac[k - frac_start]);
            assert(frac[k - frac_start] == s@[k as int]);
        }
        if b < ('0' as u8) || b > ('9' as u8) {
            proof {
                assert(!is_digit_byte(frac[k - frac_start]));
            }
            return IntDecimal::Invalid;
        }
        if frac_len < 18 {
            proof {
                assert(frac.take(frac_len + 1).drop_last() =~= frac.take(frac_len as int));
                lemma_digits_value_bound(frac.take(frac_len + 1));
            }
            frac_num = frac_num * 10 + ((b - ('0' as u8)) as u64);
            frac_len += 1;
        }
        k += 1;
    }
    proof {
        assert(frac.take(s@.len() - frac_start) =~= frac);
        assert(all_digits(frac));
        let kept = if frac.len() <= frac_cap() {
            frac
        } else {
            frac.take(frac_cap())
        };
        assert(kept =~= frac.take(frac_len as int));
        lemma_digits_value_bound_n(frac.take(frac_len as int), frac_len as int);
    }
    IntDecimal::Dec(DecimalNumber { negative: neg, int_part: acc, frac_num, frac_len })
}

/// If no digit boundary was seen before `j` and `s[j]` is not a digit, then
/// `j` is the first non-digit position.
proof fn lemma_first_nondigit_pin(s: Seq<u8>, j: int)
    requires
        0 <= j < s.len(),
        all_digits(s.take(j)),
        !is_digit_byte(s[j]),
    ensures
        first_nondigit_from(s, 0) == j,
{
    assert forall|m: int| 0 <= m < j implies is_digit_byte(s[m]) by {
        assert(is_digit_byte(s.take(j)[m]));
    }
    lemma_first_nondigit_step(s, 0, j);
}

pub(crate) proof fn lemma_first_nondigit_step(s: Seq<u8>, i: int, j: int)
    requires
        0 <= i <= j < s.len(),
        forall|m: int| i <= m < j ==> is_digit_byte(s[m]),
        !is_digit_byte(s[j]),
    ensures
        first_nondigit_from(s, i) == j,
    decreases j - i,
{
    if i < j {
        lemma_first_nondigit_step(s, i + 1, j);
    }
}

/// If every byte is a digit, the first non-digit position is the length.
proof fn lemma_first_nondigit_all(s: Seq<u8>)
    requires
        all_digits(s),
    ensures
        first_nondigit_from(s, 0) == s.len(),
{
    lemma_first_nondigit_all_from(s, 0);
}

/// If the first `m` bytes are digits, the first non-digit position is at
/// least `m`.
proof fn lemma_first_nondigit_lb(s: Seq<u8>, m: int)
    requires
        0 <= m <= s.len(),
        all_digits(s.take(m)),
    ensures
        first_nondigit_from(s, 0) >= m,
{
    lemma_first_nondigit_lb_from(s, 0, m);
}

pub(crate) proof fn lemma_first_nondigit_lb_from(s: Seq<u8>, i: int, m: int)
    requires
        0 <= i <= m <= s.len(),
        forall|j: int| 0 <= j < m ==> is_digit_byte(#[trigger] s.take(m)[j]),
    ensures
        first_nondigit_from(s, i) >= m,
    decreases m - i,
{
    if i < m {
        assert(is_digit_byte(s.take(m)[i]));
        assert(s.take(m)[i] == s[i]);
        lemma_first_nondigit_lb_from(s, i + 1, m);
    } else {
        lemma_first_nondigit_bounds(s, i);
    }
}

pub(crate) proof fn lemma_first_nondigit_all_from(s: Seq<u8>, i: int)
    requires
        all_digits(s),
        0 <= i <= s.len(),
    ensures
        first_nondigit_from(s, i) == s.len(),
    decreases s.len() - i,
{
    if i < s.len() {
        lemma_first_nondigit_all_from(s, i + 1);
    }
}

/// `first_nondigit_from(s, i)` lies between `i` and `s.len()`.
pub(crate) proof fn lemma_first_nondigit_bounds(s: Seq<u8>, i: int)
    requires
        0 <= i <= s.len(),
    ensures
        i <= first_nondigit_from(s, i) <= s.len(),
    decreases s.len() - i,
{
    if i < s.len() && is_digit_byte(s[i]) {
        lemma_first_nondigit_bounds(s, i + 1);
    }
}

/// An overflow at step `j` makes `wrap_overflows` hold for every extension.
proof fn lemma_wrap_overflow_persists(s: Seq<u8>, j: int)
    requires
        1 <= j <= s.len(),
        wrap_scan(s.take(j)) >= 0x8000_0000_0000_0000,
    ensures
        forall|n: int| j <= n <= s.len() ==> wrap_overflows(s.take(n)),
{
    assert forall|n: int| j <= n <= s.len() implies wrap_overflows(s.take(n)) by {
        assert(s.take(n).take(j) =~= s.take(j));
    }
}

} // verus!
