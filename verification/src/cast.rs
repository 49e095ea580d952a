//! Value coercion for the cast operator: string-to-integer parsing with the
//! host engine's exact semantics (truncating fractional parts, null on any
//! malformed input or overflow), and string-to-decimal parsing delegated to
//! an arbitrary-precision decimal library.

use vstd::prelude::*;

verus! {

// ---------------------------------------------------------------------------
// Specification of the string-to-integer grammar.
//
// A parseable value is  [ '+' | '-' ] digits [ '.' digits ] , where either
// digit run may be empty.  The fractional digits are validated but discarded;
// the value is the (signed) integer part.  Anything else is unparseable and
// becomes null, as does a value outside the target width's range.
// ---------------------------------------------------------------------------

pub open spec fn is_digit_byte(b: u8) -> bool {
    48 <= b && b <= 57
}

pub open spec fn digit_byte_val(b: u8) -> int {
    b - 48
}

pub open spec fn all_digit_bytes(s: Seq<u8>) -> bool {
    forall|j: int| 0 <= j < s.len() ==> is_digit_byte(s[j])
}

/// Base-10 value of a run of digit bytes, most significant first.
pub open spec fn digits_val(s: Seq<u8>) -> int
    decreases s.len(),
{
    if s.len() == 0 {
        0
    } else {
        digits_val(s.drop_last()) * 10 + digit_byte_val(s.last())
    }
}

/// Length of the leading run of digit bytes.
pub open spec fn int_part_len(s: Seq<u8>) -> int
    decreases s.len(),
{
    if s.len() == 0 || !is_digit_byte(s[0]) {
        0
    } else {
        1 + int_part_len(s.drop_first())
    }
}

/// The unsigned body (everything after an optional sign) is well formed:
/// a run of digits, then either the end or a dot followed only by digits.
pub open spec fn unsigned_ok(s: Seq<u8>) -> bool {
    let k = int_part_len(s);
    k == s.len() || (s[k] == 46 && all_digit_bytes(s.subrange(k + 1, s.len() as int)))
}

/// Integer value of a well-formed unsigned body (fraction truncated).
pub open spec fn unsigned_val(s: Seq<u8>) -> int {
    digits_val(s.subrange(0, int_part_len(s)))
}

pub open spec fn has_sign(s: Seq<u8>) -> bool {
    s.len() > 0 && (s[0] == 43 || s[0] == 45)
}

pub open spec fn is_negative(s: Seq<u8>) -> bool {
    s.len() > 0 && s[0] == 45
}

pub open spec fn sign_body(s: Seq<u8>) -> Seq<u8> {
    if has_sign(s) {
        s.drop_first()
    } else {
        s
    }
}

/// The host engine's string-to-integer semantics for a target range
/// `[min, max]`: `None` stands for the null result.
pub open spec fn parsed_int(s: Seq<u8>, min: int, max: int) -> Option<int> {
    if s.len() == 0 {
        None
    } else if has_sign(s) && s.len() == 1 {
        None
    } else if !unsigned_ok(sign_body(s)) {
        None
    } else {
        let v = if is_negative(s) {
            -unsigned_val(sign_body(s))
        } else {
            unsigned_val(sign_body(s))
        };
        if min <= v && v <= max {
            Some(v)
        } else {
            None
        }
    }
}

pub open spec fn spec_to_i8(s: Seq<u8>) -> Option<i8> {
    match parsed_int(s, i8::MIN as int, i8::MAX as int) {
        Some(v) => Some(v as i8),
        None => None,
    }
}

pub open spec fn spec_to_i16(s: Seq<u8>) -> Option<i16> {
    match parsed_int(s, i16::MIN as int, i16::MAX as int) {
        Some(v) => Some(v as i16),
        None => None,
    }
}

pub open spec fn spec_to_i32(s: Seq<u8>) -> Option<i32> {
    match parsed_int(s, i32::MIN as int, i32::MAX as int) {
        Some(v) => Some(v as i32),
        None => None,
    }
}

pub open spec fn spec_to_i64(s: Seq<u8>) -> Option<i64> {
    match parsed_int(s, i64::MIN as int, i64::MAX as int) {
        Some(v) => Some(v as i64),
        None => None,
    }
}

// ---------------------------------------------------------------------------
// Facts about the digit-run specs.
// ---------------------------------------------------------------------------

proof fn lemma_digits_val_nonneg(s: Seq<u8>)
    requires
        all_digit_bytes(s),
    ensures
        digits_val(s) >= 0,
    decreases s.len(),
{
    if s.len() > 0 {
        assert(all_digit_bytes(s.drop_last()));
        lemma_digits_val_nonneg(s.drop_last());
    }
}

/// The value of a digit run only grows as digits are appended.
proof fn lemma_digits_val_prefix(s: Seq<u8>, i: int)
    requires
        all_digit_bytes(s),
        0 <= i <= s.len(),
    ensures
        digits_val(s.subrange(0, i)) <= digits_val(s),
    decreases s.len(),
{
    if i == s.len() {
        assert(s.subrange(0, i) =~= s);
    } else {
        let t = s.drop_last();
        assert(all_digit_bytes(t));
        assert(s.subrange(0, i) =~= t.subrange(0, i));
        lemma_digits_val_prefix(t, i);
        lemma_digits_val_nonneg(t);
    }
}

/// A leading all-digit run of length `i` that ends at the end of the
/// sequence or at a non-digit is exactly the leading digit run.
proof fn lemma_int_part_len_eq(s: Seq<u8>, i: int)
    requires
        0 <= i <= s.len(),
        forall|j: int| 0 <= j < i ==> is_digit_byte(s[j]),
        i < s.len() ==> !is_digit_byte(s[i]),
    ensures
        int_part_len(s) == i,
    decreases s.len(),
{
    if i == 0 {
    } else {
        assert(is_digit_byte(s[0]));
        let t = s.drop_first();
        assert(forall|j: int| 0 <= j < i - 1 ==> is_digit_byte(#[trigger] t[j]));
        assert(i - 1 < t.len() ==> !is_digit_byte(t[i - 1]));
        lemma_int_part_len_eq(t, i - 1);
    }
}

// ---------------------------------------------------------------------------
// Scanning the unsigned body.
// ---------------------------------------------------------------------------

/// Scans `bytes[start..]` as the unsigned body of a numeric string.
/// Returns the length of the integer part when the body is well formed,
/// and `None` when it is not.
#[verifier::loop_isolation(false)]
fn scan_unsigned(bytes: &[u8], start: usize) -> (r: Option<usize>)
    requires
        start <= bytes@.len(),
    ensures
        match r {
            Some(k) => {
                &&& unsigned_ok(bytes@.skip(start as int))
                &&& k == int_part_len(bytes@.skip(start as int))
                &&& start + k <= bytes@.len()
                &&& forall|j: int| start <= j < start + k ==> is_digit_byte(bytes@[j])
            },
            None => !unsigned_ok(bytes@.skip(start as int)),
        },
{
    let ghost body = bytes@.skip(start as int);
    let n = bytes.len();
    let mut k: usize = 0;
    while start + k < n && 48 <= bytes[start + k] && bytes[start + k] <= 57
        invariant
            start + k <= n,
            n == bytes@.len(),
            forall|j: int| start <= j < start + k ==> is_digit_byte(bytes@[j]),
        decreases n - start - k,
    {
        k = k + 1;
    }
    proof {
        assert(forall|j: int| 0 <= j < k ==> body[j] == bytes@[start + j]);
        lemma_int_part_len_eq(body, k as int);
    }
    if start + k == n {
        return Some(k);
    }
    if bytes[start + k] != 46 {
        return None;
    }
    let mut m: usize = start + k + 1;
    while m < n
        invariant
            start + k + 1 <= m <= n,
            n == bytes@.len(),
            forall|j: int| start + k < j < m ==> is_digit_byte(bytes@[j]),
        decreases n - m,
    {
        if bytes[m] < 48 || bytes[m] > 57 {
            proof {
                let frac = body.subrange(k + 1, body.len() as int);
                assert(frac[m - (start + k + 1)] == bytes@[m as int]);
                assert(!all_digit_bytes(frac));
            }
            return None;
        }
        m = m + 1;
    }
    proof {
        let frac = body.subrange(k + 1, body.len() as int);
        assert(forall|j: int| 0 <= j < frac.len() ==> frac[j] == bytes@[start + k + 1 + j]);
    }
    Some(k)
}

// ---------------------------------------------------------------------------
// Width-specific parsers.
//
// Digits are accumulated into a *negative* accumulator, `acc = acc*10 - d`,
// so the minimum representable value is reachable without a wider
// intermediate type.  Overflow is detected before each step: the accumulator
// may not drop below `MIN/10`, and at exactly `MIN/10` the next digit may be
// at most 8 (every signed minimum ends in the digit 8).
// ---------------------------------------------------------------------------

/// Parses the byte sequence of one string value as an `i8`; `None` is the
/// null result for malformed input or overflow.
#[verifier::loop_isolation(false)]
pub fn to_int8(bytes: &[u8]) -> (r: Option<i8>)
    ensures
        r == spec_to_i8(bytes@),
{
    let n = bytes.len();
    if n == 0 {
        return None;
    }
    let negative = bytes[0] == 45;
    let signed = negative || bytes[0] == 43;
    let start: usize = if signed {
        1
    } else {
        0
    };
    if signed && n == 1 {
        return None;
    }
    proof {
        if signed {
            assert(bytes@.skip(1) =~= bytes@.drop_first());
        } else {
            assert(bytes@.skip(0) =~= bytes@);
        }
    }
    let k = match scan_unsigned(bytes, start) {
        Some(k) => k,
        None => {
            return None;
        },
    };
    let ghost body = bytes@.skip(start as int);
    let ghost ip = bytes@.subrange(start as int, (start + k) as int);
    proof {
        assert(ip =~= body.subrange(0, k as int));
        assert(forall|j: int| 0 <= j < ip.len() ==> ip[j] == bytes@[start + j]);
        assert(all_digit_bytes(ip));
        assert(unsigned_val(body) == digits_val(ip));
    }
    let mut result: i8 = 0;
    let mut i: usize = 0;
    while i < k
        invariant
            i <= k,
            result == -digits_val(bytes@.subrange(start as int, (start + i) as int)),
            i8::MIN <= result <= 0,
        decreases k - i,
    {
        let ghost pre = bytes@.subrange(start as int, (start + i) as int);
        let ghost pre1 = bytes@.subrange(start as int, (start + i + 1) as int);
        proof {
            assert(pre1.drop_last() =~= pre);
            assert(pre1 =~= ip.subrange(0, i + 1));
            assert(digits_val(pre1) == digits_val(pre) * 10 + digit_byte_val(bytes@[start + i]));
        }
        let b = bytes[start + i];
        let d = b - 48;
        if result < -12 || (result == -12 && d > 8) {
            proof {
                lemma_digits_val_prefix(ip, i + 1);
            }
            return None;
        }
        result = result * 10 - (d as i8);
        i = i + 1;
    }
    proof {
        lemma_digits_val_nonneg(ip);
    }
    if !negative {
        if result == i8::MIN {
            return None;
        }
        Some(0 - result)
    } else {
        Some(result)
    }
}

/// Parses the byte sequence of one string value as an `i16`; `None` is the
/// null result for malformed input or overflow.
#[verifier::loop_isolation(false)]
pub fn to_int16(bytes: &[u8]) -> (r: Option<i16>)
    ensures
        r == spec_to_i16(bytes@),
{
    let n = bytes.len();
    if n == 0 {
        return None;
    }
    let negative = bytes[0] == 45;
    let signed = negative || bytes[0] == 43;
    let start: usize = if signed {
        1
    } else {
        0
    };
    if signed && n == 1 {
        return None;
    }
    proof {
        if signed {
            assert(bytes@.skip(1) =~= bytes@.drop_first());
        } else {
            assert(bytes@.skip(0) =~= bytes@);
        }
    }
    let k = match scan_unsigned(bytes, start) {
        Some(k) => k,
        None => {
            return None;
        },
    };
    let ghost body = bytes@.skip(start as int);
    let ghost ip = bytes@.subrange(start as int, (start + k) as int);
    proof {
        assert(ip =~= body.subrange(0, k as int));
        assert(forall|j: int| 0 <= j < ip.len() ==> ip[j] == bytes@[start + j]);
        assert(all_digit_bytes(ip));
        assert(unsigned_val(body) == digits_val(ip));
    }
    let mut result: i16 = 0;
    let mut i: usize = 0;
    while i < k
        invariant
            i <= k,
            result == -digits_val(bytes@.subrange(start as int, (start + i) as int)),
            i16::MIN <= result <= 0,
        decreases k - i,
    {
        let ghost pre = bytes@.subrange(start as int, (start + i) as int);
        let ghost pre1 = bytes@.subrange(start as int, (start + i + 1) as int);
        proof {
            assert(pre1.drop_last() =~= pre);
            assert(pre1 =~= ip.subrange(0, i + 1));
            assert(digits_val(pre1) == digits_val(pre) * 10 + digit_byte_val(bytes@[start + i]));
        }
        let b = bytes[start + i];
        let d = b - 48;
        if result < -3276 || (result == -3276 && d > 8) {
            proof {
                lemma_digits_val_prefix(ip, i + 1);
            }
            return None;
        }
        result = result * 10 - (d as i16);
        i = i + 1;
    }
    proof {
        lemma_digits_val_nonneg(ip);
    }
    if !negative {
        if result == i16::MIN {
            return None;
        }
        Some(0 - result)
    } else {
        Some(result)
    }
}

/// Parses the byte sequence of one string value as an `i32`; `None` is the
/// null result for malformed input or overflow.
#[verifier::loop_isolation(false)]
pub fn to_int32(bytes: &[u8]) -> (r: Option<i32>)
    ensures
        r == spec_to_i32(bytes@),
{
    let n = bytes.len();
    if n == 0 {
        return None;
    }
    let negative = bytes[0] == 45;
    let signed = negative || bytes[0] == 43;
    let start: usize = if signed {
        1
    } else {
        0
    };
    if signed && n == 1 {
        return None;
    }
    proof {
        if signed {
            assert(bytes@.skip(1) =~= bytes@.drop_first());
        } else {
            assert(bytes@.skip(0) =~= bytes@);
        }
    }
    let k = match scan_unsigned(bytes, start) {
        Some(k) => k,
        None => {
            return None;
        },
    };
    let ghost body = bytes@.skip(start as int);
    let ghost ip = bytes@.subrange(start as int, (start + k) as int);
    proof {
        assert(ip =~= body.subrange(0, k as int));
        assert(forall|j: int| 0 <= j < ip.len() ==> ip[j] == bytes@[start + j]);
        assert(all_digit_bytes(ip));
        assert(unsigned_val(body) == digits_val(ip));
    }
    let mut result: i32 = 0;
    let mut i: usize = 0;
    while i < k
        invariant
            i <= k,
            result == -digits_val(bytes@.subrange(start as int, (start + i) as int)),
            i32::MIN <= result <= 0,
        decreases k - i,
    {
        let ghost pre = bytes@.subrange(start as int, (start + i) as int);
        let ghost pre1 = bytes@.subrange(start as int, (start + i + 1) as int);
        proof {
            assert(pre1.drop_last() =~= pre);
            assert(pre1 =~= ip.subrange(0, i + 1));
            assert(digits_val(pre1) == digits_val(pre) * 10 + digit_byte_val(bytes@[start + i]));
        }
        let b = bytes[start + i];
        let d = b - 48;
        if result < -214748364 || (result == -214748364 && d > 8) {
            proof {
                lemma_digits_val_prefix(ip, i + 1);
            }
            return None;
        }
        result = result * 10 - (d as i32);
        i = i + 1;
    }
    proof {
        lemma_digits_val_nonneg(ip);
    }
    if !negative {
        if result == i32::MIN {
            return None;
        }
        Some(0 - result)
    } else {
        Some(result)
    }
}

/// Parses the byte sequence of one string value as an `i64`; `None` is the
/// null result for malformed input or overflow.
#[verifier::loop_isolation(false)]
pub fn to_int64(bytes: &[u8]) -> (r: Option<i64>)
    ensures
        r == spec_to_i64(bytes@),
{
    let n = bytes.len();
    if n == 0 {
        return None;
    }
    let negative = bytes[0] == 45;
    let signed = negative || bytes[0] == 43;
    let start: usize = if signed {
        1
    } else {
        0
    };
    if signed && n == 1 {
        return None;
    }
    proof {
        if signed {
            assert(bytes@.skip(1) =~= bytes@.drop_first());
        } else {
            assert(bytes@.skip(0) =~= bytes@);
        }
    }
    let k = match scan_unsigned(bytes, start) {
        Some(k) => k,
        None => {
            return None;
        },
    };
    let ghost body = bytes@.skip(start as int);
    let ghost ip = bytes@.subrange(start as int, (start + k) as int);
    proof {
        assert(ip =~= body.subrange(0, k as int));
        assert(forall|j: int| 0 <= j < ip.len() ==> ip[j] == bytes@[start + j]);
        assert(all_digit_bytes(ip));
        assert(unsigned_val(body) == digits_val(ip));
    }
    let mut result: i64 = 0;
    let mut i: usize = 0;
    while i < k
        invariant
            i <= k,
            result == -digits_val(bytes@.subrange(start as int, (start + i) as int)),
            i64::MIN <= result <= 0,
        decreases k - i,
    {
        let ghost pre = bytes@.subrange(start as int, (start + i) as int);
        let ghost pre1 = bytes@.subrange(start as int, (start + i + 1) as int);
        proof {
            assert(pre1.drop_last() =~= pre);
            assert(pre1 =~= ip.subrange(0, i + 1));
            assert(digits_val(pre1) == digits_val(pre) * 10 + digit_byte_val(bytes@[start + i]));
        }
        let b = bytes[start + i];
        let d = b - 48;
        if result < -922337203685477580 || (result == -922337203685477580 && d > 8) {
            proof {
                lemma_digits_val_prefix(ip, i + 1);
            }
            return None;
        }
        result = result * 10 - (d as i64);
        i = i + 1;
    }
    proof {
        lemma_digits_val_nonneg(ip);
    }
    if !negative {
        if result == i64::MIN {
            return None;
        }
        Some(0 - result)
    } else {
        Some(result)
    }
}

// ---------------------------------------------------------------------------
// String-to-decimal parsing.
//
// The value of a decimal string at a given (precision, scale) is computed by
// the `bigdecimal` library: the string is parsed as an arbitrary-precision
// base-10 literal, rounded to `precision` significant digits, rescaled to
// `scale` fractional digits, and returned as the unscaled 128-bit integer;
// anything unparseable, and any unscaled value whose magnitude does not fit
// in 128 bits, is null.
//
// The library's internal scale is an i64 that its precision/scale
// adjustments move by up to (input length + precision) without an overflow
// check, so it must not be handed a parsed exponent near the i64 bounds.
// Verified code therefore clamps any well-formed exponent field beyond
// ±10^5 to ±10^5 before the call — at precision at most 38 and inputs of
// at most 2^16 mantissa digits the clamp cannot change the result: a
// nonzero mantissa is astronomically large (a null for 128-bit overflow)
// or astronomically small (truncated to zero) either way, and a zero
// mantissa stays zero — and treats absurdly long inputs as unparseable.
// ---------------------------------------------------------------------------

/// Longest byte string the decimal cast hands to the decimal library;
/// longer values are treated as unparseable and become null.
pub const DECIMAL_INPUT_LIMIT: usize = 65536;

/// Largest exponent-field magnitude handed to the decimal library.  It
/// exceeds the longest admitted input by far more than the largest
/// precision, which is what the clamp's equivalence rests on.
pub const DECIMAL_EXPONENT_LIMIT: u64 = 100000;

/// Index of the first exponent marker (`e` or `E`), or the length when
/// there is none.  Everything after the marker is the exponent field.
pub open spec fn first_exp_marker(s: Seq<u8>) -> int
    decreases s.len(),
{
    if s.len() == 0 || s[0] == 101 || s[0] == 69 {
        0
    } else {
        1 + first_exp_marker(s.drop_first())
    }
}

pub open spec fn exp_field_digits(t: Seq<u8>) -> Seq<u8> {
    if t.len() > 0 && (t[0] == 43 || t[0] == 45) {
        t.drop_first()
    } else {
        t
    }
}

/// The exponent field parses as an integer: an optional sign, then at
/// least one digit and nothing else.  A string whose exponent field does
/// not is unparseable as a whole, so the library never reaches its scale
/// arithmetic on it.
pub open spec fn exp_field_well_formed(t: Seq<u8>) -> bool {
    exp_field_digits(t).len() > 0 && all_digit_bytes(exp_field_digits(t))
}

pub open spec fn exp_field_value(t: Seq<u8>) -> int {
    if t.len() > 0 && t[0] == 45 {
        -digits_val(exp_field_digits(t))
    } else {
        digits_val(exp_field_digits(t))
    }
}

/// Inputs on which the decimal library's scale arithmetic stays far from
/// its i64 bounds: bounded length, and no well-formed exponent field of a
/// magnitude beyond the limit.
pub open spec fn decimal_input_tame(s: Seq<u8>) -> bool {
    &&& s.len() <= DECIMAL_INPUT_LIMIT + 64
    &&& {
        let t = s.subrange(first_exp_marker(s) + 1, s.len() as int);
        ||| first_exp_marker(s) == s.len()
        ||| !exp_field_well_formed(t)
        ||| -(DECIMAL_EXPONENT_LIMIT as int) <= exp_field_value(t) <= DECIMAL_EXPONENT_LIMIT as int
    }
}

/// The textual exponent the clamp substitutes: `100000`, signed.
pub open spec fn exp_limit_bytes(negative: bool) -> Seq<u8> {
    if negative {
        seq![45u8, 49u8, 48u8, 48u8, 48u8, 48u8, 48u8]
    } else {
        seq![49u8, 48u8, 48u8, 48u8, 48u8, 48u8]
    }
}

/// The input with an over-large exponent field clamped to the limit, and
/// anything else unchanged.
pub open spec fn clamp_exponent(s: Seq<u8>) -> Seq<u8> {
    let m = first_exp_marker(s);
    let t = s.subrange(m + 1, s.len() as int);
    if m < s.len() && exp_field_well_formed(t) && (exp_field_value(t) > DECIMAL_EXPONENT_LIMIT
        as int || exp_field_value(t) < -(DECIMAL_EXPONENT_LIMIT as int)) {
        s.subrange(0, m + 1) + exp_limit_bytes(exp_field_value(t) < 0)
    } else {
        s
    }
}

/// What the string-to-decimal cast yields for one string value: the
/// decimal library's result on the exponent-clamped input, and null for
/// over-long input.
pub open spec fn decimal_value_of(s: Seq<u8>, precision: u8, scale: u8) -> Option<i128> {
    if s.len() > DECIMAL_INPUT_LIMIT {
        None
    } else {
        decimal_cast_of(clamp_exponent(s), precision, scale)
    }
}

/// The unscaled 128-bit result of casting the given string bytes to a
/// decimal of the given precision and scale, or `None` for null.
pub uninterp spec fn decimal_cast_of(s: Seq<u8>, precision: u8, scale: u8) -> Option<i128>;

/// Relies on bigdecimal: `BigDecimal::parse_bytes(_, 10)` (UTF-8 check,
/// split at the first `e`/`E`, exponent via `i128::from_str`, scale checked
/// into i64), `with_prec`, `with_scale`, `as_bigint_and_exponent` and
/// `ToPrimitive::to_i128`.  The result depends on the input bytes, the
/// precision and the scale alone.  The `requires` keeps the library's
/// unchecked i64 scale adjustments, which move the parsed scale by at most
/// the input length plus the precision, far from overflow, and its
/// power-of-ten tables small.
#[verifier::external_body]
fn decimal_from_bytes(bytes: &[u8], precision: u8, scale: u8) -> (r: Option<i128>)
    requires
        decimal_input_tame(bytes@),
    ensures
        r == decimal_cast_of(bytes@, precision, scale),
{
    match bigdecimal::BigDecimal::parse_bytes(bytes, 10) {
        None => None,
        Some(parsed) => {
            let rescaled = parsed.with_prec(precision as u64).with_scale(scale as i64);
            let (unscaled, _exponent) = rescaled.as_bigint_and_exponent();
            bigdecimal::ToPrimitive::to_i128(&unscaled)
        },
    }
}

/// A leading marker-free run of length `i` that ends at the end of the
/// sequence or at a marker is exactly the prefix before the first marker.
proof fn lemma_first_exp_marker_eq(s: Seq<u8>, i: int)
    requires
        0 <= i <= s.len(),
        forall|j: int| 0 <= j < i ==> s[j] != 101 && s[j] != 69,
        i < s.len() ==> s[i] == 101 || s[i] == 69,
    ensures
        first_exp_marker(s) == i,
    decreases s.len(),
{
    if i > 0 {
        let t = s.drop_first();
        assert(forall|j: int| 0 <= j < i - 1 ==> #[trigger] t[j] != 101 && t[j] != 69);
        assert(i - 1 < t.len() ==> t[i - 1] == 101 || t[i - 1] == 69);
        lemma_first_exp_marker_eq(t, i - 1);
    }
}

/// Casts the byte sequence of one string value to the unscaled decimal at
/// `(precision, scale)`; `None` is the null result.  An exponent field
/// beyond the limit is clamped to it before the decimal library is called.
#[verifier::loop_isolation(false)]
pub fn to_decimal(bytes: &[u8], precision: u8, scale: u8) -> (r: Option<i128>)
    requires
        1 <= precision <= 38,
        scale <= precision,
    ensures
        r == decimal_value_of(bytes@, precision, scale),
{
    let n = bytes.len();
    if n > DECIMAL_INPUT_LIMIT {
        return None;
    }
    let mut m: usize = 0;
    while m < n && bytes[m] != 101 && bytes[m] != 69
        invariant
            m <= n,
            forall|j: int| 0 <= j < m ==> bytes@[j] != 101 && bytes@[j] != 69,
        decreases n - m,
    {
        m = m + 1;
    }
    proof {
        lemma_first_exp_marker_eq(bytes@, m as int);
    }
    let ghost tail = bytes@.subrange(m + 1, n as int);
    if m == n {
        return decimal_from_bytes(bytes, precision, scale);
    }
    let mut p: usize = m + 1;
    let mut negative = false;
    if p < n && (bytes[p] == 43 || bytes[p] == 45) {
        negative = bytes[p] == 45;
        p = p + 1;
    }
    proof {
        assert(exp_field_digits(tail) =~= bytes@.subrange(p as int, n as int));
    }
    if p == n {
        // Empty digit run: the exponent field is not an integer.
        return decimal_from_bytes(bytes, precision, scale);
    }
    let mut sat: u64 = 0;
    let mut q = p;
    while q < n
        invariant
            p <= q <= n,
            forall|j: int| p <= j < q ==> is_digit_byte(bytes@[j]),
            digits_val(bytes@.subrange(p as int, q as int)) <= DECIMAL_EXPONENT_LIMIT ==> sat
                == digits_val(bytes@.subrange(p as int, q as int)),
            digits_val(bytes@.subrange(p as int, q as int)) > DECIMAL_EXPONENT_LIMIT ==> sat
                > DECIMAL_EXPONENT_LIMIT,
            sat <= 10 * DECIMAL_EXPONENT_LIMIT + 9,
        decreases n - q,
    {
        let ghost pre = bytes@.subrange(p as int, q as int);
        let ghost pre1 = bytes@.subrange(p as int, q + 1);
        proof {
            assert(pre1.drop_last() =~= pre);
            assert(digits_val(pre1) == digits_val(pre) * 10 + digit_byte_val(bytes@[q as int]));
            assert(all_digit_bytes(pre));
            lemma_digits_val_nonneg(pre);
        }
        let b = bytes[q];
        if b < 48 || b > 57 {
            // A non-digit in the field: not an integer, unparseable whole.
            return decimal_from_bytes(bytes, precision, scale);
        }
        if sat <= DECIMAL_EXPONENT_LIMIT {
            sat = sat * 10 + ((b - 48) as u64);
        }
        q = q + 1;
    }
    proof {
        assert(exp_field_well_formed(tail));
    }
    if sat <= DECIMAL_EXPONENT_LIMIT {
        // |exponent| within the limit: hand the input over unchanged.
        return decimal_from_bytes(bytes, precision, scale);
    }
    // Clamp: the mantissa and marker, then the signed limit.
    let mut clamped: Vec<u8> = Vec::new();
    let mut i: usize = 0;
    while i < m + 1
        invariant
            i <= m + 1 <= n == bytes@.len(),
            clamped@ =~= bytes@.subrange(0, i as int),
        decreases m + 1 - i,
    {
        clamped.push(bytes[i]);
        proof {
            assert(clamped@ =~= bytes@.subrange(0, i + 1));
        }
        i = i + 1;
    }
    if negative {
        clamped.push(45);
    }
    clamped.push(49);
    let mut z: usize = 0;
    while z < 5
        invariant
            z <= 5,
            clamped@ =~= bytes@.subrange(0, m + 1) + exp_limit_bytes(negative).take(
                exp_limit_bytes(negative).len() - 5 + z,
            ),
        decreases 5 - z,
    {
        clamped.push(48);
        proof {
            assert(clamped@ =~= bytes@.subrange(0, m + 1) + exp_limit_bytes(negative).take(
                exp_limit_bytes(negative).len() - 5 + z + 1,
            ));
        }
        z = z + 1;
    }
    proof {
        assert(exp_limit_bytes(negative).take(exp_limit_bytes(negative).len() as int)
            =~= exp_limit_bytes(negative));
        assert(clamped@ == clamp_exponent(bytes@));
        assert(exp_field_digits(exp_limit_bytes(negative)) =~= seq![
            49u8, 48u8, 48u8, 48u8, 48u8, 48u8,
        ]);
        lemma_exp_limit_value();
        assert(clamped@.subrange(m + 1, clamped@.len() as int) =~= exp_limit_bytes(negative));
        lemma_first_exp_marker_eq(clamped@, m as int);
        assert(decimal_input_tame(clamped@));
    }
    decimal_from_bytes(clamped.as_slice(), precision, scale)
}

/// The substituted exponent text reads back as exactly the limit.
proof fn lemma_exp_limit_value()
    ensures
        digits_val(seq![49u8, 48u8, 48u8, 48u8, 48u8, 48u8]) == 100000,
{
    reveal_with_fuel(digits_val, 7);
    let d = seq![49u8, 48u8, 48u8, 48u8, 48u8, 48u8];
    assert(d.drop_last() =~= seq![49u8, 48u8, 48u8, 48u8, 48u8]);
    assert(d.drop_last().drop_last() =~= seq![49u8, 48u8, 48u8, 48u8]);
    assert(d.drop_last().drop_last().drop_last() =~= seq![49u8, 48u8, 48u8]);
    assert(d.drop_last().drop_last().drop_last().drop_last() =~= seq![49u8, 48u8]);
    assert(d.drop_last().drop_last().drop_last().drop_last().drop_last() =~= seq![49u8]);
    assert(seq![49u8].drop_last() =~= Seq::<u8>::empty());
}

// ---------------------------------------------------------------------------
// Array and scalar casts.
//
// A string column is a vector of nullable byte strings; a null input value
// stays null, and every non-null value goes through the parser above.  A
// scalar is cast by materializing a one-element column, casting it, and
// extracting the one result, so scalar and vector evaluation agree exactly.
// ---------------------------------------------------------------------------

pub open spec fn elem_to_i8(v: Option<Vec<u8>>) -> Option<i8> {
    match v {
        Some(s) => spec_to_i8(s@),
        None => None,
    }
}

pub open spec fn elem_to_i16(v: Option<Vec<u8>>) -> Option<i16> {
    match v {
        Some(s) => spec_to_i16(s@),
        None => None,
    }
}

pub open spec fn elem_to_i32(v: Option<Vec<u8>>) -> Option<i32> {
    match v {
        Some(s) => spec_to_i32(s@),
        None => None,
    }
}

pub open spec fn elem_to_i64(v: Option<Vec<u8>>) -> Option<i64> {
    match v {
        Some(s) => spec_to_i64(s@),
        None => None,
    }
}

pub open spec fn elem_to_decimal(v: Option<Vec<u8>>, precision: u8, scale: u8) -> Option<
    i128,
> {
    match v {
        Some(s) => decimal_value_of(s@, precision, scale),
        None => None,
    }
}

#[verifier::loop_isolation(false)]
pub fn cast_string_array_to_int8(values: &Vec<Option<Vec<u8>>>) -> (r: Vec<Option<i8>>)
    ensures
        r@.len() == values@.len(),
        forall|i: int| 0 <= i < values@.len() ==> r@[i] == elem_to_i8(values@[i]),
{
    let mut out: Vec<Option<i8>> = Vec::new();
    let mut idx: usize = 0;
    while idx < values.len()
        invariant
            idx <= values@.len(),
            out@.len() == idx,
            forall|i: int| 0 <= i < idx ==> out@[i] == elem_to_i8(values@[i]),
        decreases values@.len() - idx,
    {
        match &values[idx] {
            Some(s) => out.push(to_int8(s.as_slice())),
            None => out.push(None),
        }
        idx = idx + 1;
    }
    out
}

pub fn cast_string_scalar_to_int8(value: Option<Vec<u8>>) -> (r: Option<i8>)
    ensures
        r == elem_to_i8(value),
{
    let ghost gv = value;
    let mut column: Vec<Option<Vec<u8>>> = Vec::new();
    column.push(value);
    let mut cast = cast_string_array_to_int8(&column);
    let r = cast.remove(0);
    proof {
        assert(column@[0] == gv);
    }
    r
}

#[verifier::loop_isolation(false)]
pub fn cast_string_array_to_int16(values: &Vec<Option<Vec<u8>>>) -> (r: Vec<Option<i16>>)
    ensures
        r@.len() == values@.len(),
        forall|i: int| 0 <= i < values@.len() ==> r@[i] == elem_to_i16(values@[i]),
{
    let mut out: Vec<Option<i16>> = Vec::new();
    let mut idx: usize = 0;
    while idx < values.len()
        invariant
            idx <= values@.len(),
            out@.len() == idx,
            forall|i: int| 0 <= i < idx ==> out@[i] == elem_to_i16(values@[i]),
        decreases values@.len() - idx,
    {
        match &values[idx] {
            Some(s) => out.push(to_int16(s.as_slice())),
            None => out.push(None),
        }
        idx = idx + 1;
    }
    out
}

pub fn cast_string_scalar_to_int16(value: Option<Vec<u8>>) -> (r: Option<i16>)
    ensures
        r == elem_to_i16(value),
{
    let ghost gv = value;
    let mut column: Vec<Option<Vec<u8>>> = Vec::new();
    column.push(value);
    let mut cast = cast_string_array_to_int16(&column);
    let r = cast.remove(0);
    proof {
        assert(column@[0] == gv);
    }
    r
}

#[verifier::loop_isolation(false)]
pub fn cast_string_array_to_int32(values: &Vec<Option<Vec<u8>>>) -> (r: Vec<Option<i32>>)
    ensures
        r@.len() == values@.len(),
        forall|i: int| 0 <= i < values@.len() ==> r@[i] == elem_to_i32(values@[i]),
{
    let mut out: Vec<Option<i32>> = Vec::new();
    let mut idx: usize = 0;
    while idx < values.len()
        invariant
            idx <= values@.len(),
            out@.len() == idx,
            forall|i: int| 0 <= i < idx ==> out@[i] == elem_to_i32(values@[i]),
        decreases values@.len() - idx,
    {
        match &values[idx] {
            Some(s) => out.push(to_int32(s.as_slice())),
            None => out.push(None),
        }
        idx = idx + 1;
    }
    out
}

pub fn cast_string_scalar_to_int32(value: Option<Vec<u8>>) -> (r: Option<i32>)
    ensures
        r == elem_to_i32(value),
{
    let ghost gv = value;
    let mut column: Vec<Option<Vec<u8>>> = Vec::new();
    column.push(value);
    let mut cast = cast_string_array_to_int32(&column);
    let r = cast.remove(0);
    proof {
        assert(column@[0] == gv);
    }
    r
}

#[verifier::loop_isolation(false)]
pub fn cast_string_array_to_int64(values: &Vec<Option<Vec<u8>>>) -> (r: Vec<Option<i64>>)
    ensures
        r@.len() == values@.len(),
        forall|i: int| 0 <= i < values@.len() ==> r@[i] == elem_to_i64(values@[i]),
{
    let mut out: Vec<Option<i64>> = Vec::new();
    let mut idx: usize = 0;
    while idx < values.len()
        invariant
            idx <= values@.len(),
            out@.len() == idx,
            forall|i: int| 0 <= i < idx ==> out@[i] == elem_to_i64(values@[i]),
        decreases values@.len() - idx,
    {
        match &values[idx] {
            Some(s) => out.push(to_int64(s.as_slice())),
            None => out.push(None),
        }
        idx = idx + 1;
    }
    out
}

pub fn cast_string_scalar_to_int64(value: Option<Vec<u8>>) -> (r: Option<i64>)
    ensures
        r == elem_to_i64(value),
{
    let ghost gv = value;
    let mut column: Vec<Option<Vec<u8>>> = Vec::new();
    column.push(value);
    let mut cast = cast_string_array_to_int64(&column);
    let r = cast.remove(0);
    proof {
        assert(column@[0] == gv);
    }
    r
}

#[verifier::loop_isolation(false)]
pub fn cast_string_array_to_decimal(
    values: &Vec<Option<Vec<u8>>>,
    precision: u8,
    scale: u8,
) -> (r: Vec<Option<i128>>)
    requires
        1 <= precision <= 38,
        scale <= precision,
    ensures
        r@.len() == values@.len(),
        forall|i: int| 0 <= i < values@.len() ==> r@[i] == elem_to_decimal(
            values@[i],
            precision,
            scale,
        ),
{
    let mut out: Vec<Option<i128>> = Vec::new();
    let mut idx: usize = 0;
    while idx < values.len()
        invariant
            idx <= values@.len(),
            out@.len() == idx,
            forall|i: int| 0 <= i < idx ==> out@[i] == elem_to_decimal(
                values@[i],
                precision,
                scale,
            ),
        decreases values@.len() - idx,
    {
        match &values[idx] {
            Some(s) => out.push(to_decimal(s.as_slice(), precision, scale)),
            None => out.push(None),
        }
        idx = idx + 1;
    }
    out
}

pub fn cast_string_scalar_to_decimal(value: Option<Vec<u8>>, precision: u8, scale: u8) -> (r:
    Option<i128>)
    requires
        1 <= precision <= 38,
        scale <= precision,
    ensures
        r == elem_to_decimal(value, precision, scale),
{
    let ghost gv = value;
    let mut column: Vec<Option<Vec<u8>>> = Vec::new();
    column.push(value);
    let mut cast = cast_string_array_to_decimal(&column, precision, scale);
    let r = cast.remove(0);
    proof {
        assert(column@[0] == gv);
    }
    r
}

// ---------------------------------------------------------------------------
// Cast dispatch.
// ---------------------------------------------------------------------------

/// The logical column types the cast operator distinguishes; everything it
/// does not special-case is `Other` and goes to the generic cast kernel.
#[derive(Clone, Copy, Debug)]
pub enum LogicalType {
    Int8,
    Int16,
    Int32,
    Int64,
    Utf8,
    Decimal { precision: u8, scale: u8 },
    Other,
}

/// How one (input type, target type) pair is evaluated.
#[derive(Clone, Copy, Debug)]
pub enum CastRoute {
    ParseInt8,
    ParseInt16,
    ParseInt32,
    ParseInt64,
    ParseDecimal { precision: u8, scale: u8 },
    Generic,
}

/// String-to-integer and string-to-decimal casts are special-cased; every
/// other pair is delegated to the generic cast kernel.
pub open spec fn spec_cast_route(input: LogicalType, target: LogicalType) -> CastRoute {
    match (input, target) {
        (LogicalType::Utf8, LogicalType::Int8) => CastRoute::ParseInt8,
        (LogicalType::Utf8, LogicalType::Int16) => CastRoute::ParseInt16,
        (LogicalType::Utf8, LogicalType::Int32) => CastRoute::ParseInt32,
        (LogicalType::Utf8, LogicalType::Int64) => CastRoute::ParseInt64,
        (LogicalType::Utf8, LogicalType::Decimal { precision, scale }) => (
        CastRoute::ParseDecimal { precision, scale }),
        _ => CastRoute::Generic,
    }
}

pub fn cast_route(input: &LogicalType, target: &LogicalType) -> (r: CastRoute)
    ensures
        r == spec_cast_route(*input, *target),
{
    match (input, target) {
        (LogicalType::Utf8, LogicalType::Int8) => CastRoute::ParseInt8,
        (LogicalType::Utf8, LogicalType::Int16) => CastRoute::ParseInt16,
        (LogicalType::Utf8, LogicalType::Int32) => CastRoute::ParseInt32,
        (LogicalType::Utf8, LogicalType::Int64) => CastRoute::ParseInt64,
        (LogicalType::Utf8, LogicalType::Decimal { precision, scale }) => (
        CastRoute::ParseDecimal { precision: *precision, scale: *scale }),
        _ => CastRoute::Generic,
    }
}

} // verus!
