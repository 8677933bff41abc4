//! Decimal rendering and parsing of the numeric literals that appear in
//! gron lines. Unsigned and signed 64-bit integers are rendered and parsed
//! exactly; for other numeric literals only the acceptance grammar of
//! floating-point text matters, the literal itself is carried verbatim.

use vstd::prelude::*;

verus! {

pub open spec fn is_digit(b: u8) -> bool {
    0x30 <= b <= 0x39
}

/// Decimal digits of `n`, most significant first.
pub open spec fn dec_rep(n: nat) -> Seq<u8>
    decreases n,
{
    if n < 10 {
        seq![(0x30 + n) as u8]
    } else {
        dec_rep(n / 10).push((0x30 + n % 10) as u8)
    }
}

/// Decimal rendering of a signed value: a minus sign for negative values,
/// then the digits of the magnitude.
pub open spec fn int_rep(n: int) -> Seq<u8> {
    if n >= 0 {
        dec_rep(n as nat)
    } else {
        seq![0x2du8] + dec_rep((-n) as nat)
    }
}

/// Append the decimal digits of `n` to `out`.
pub fn write_u64(n: u64, out: &mut Vec<u8>)
    ensures
        final(out)@ == old(out)@ + dec_rep(n as nat),
    decreases n,
{
    if n < 10 {
        out.push(0x30 + n as u8);
        proof {
            assert(out@ =~= old(out)@ + dec_rep(n as nat));
        }
    } else {
        write_u64(n / 10, out);
        out.push(0x30 + (n % 10) as u8);
        proof {
            assert(out@ =~= old(out)@ + dec_rep(n as nat));
        }
    }
}

/// Append the decimal rendering of `n` to `out`.
pub fn write_i64(n: i64, out: &mut Vec<u8>)
    ensures
        final(out)@ == old(out)@ + int_rep(n as int),
{
    if n >= 0 {
        write_u64(n as u64, out);
    } else {
        out.push(0x2d);
        let m: u64 = if n == i64::MIN {
            9223372036854775808u64
        } else {
            (-n) as u64
        };
        write_u64(m, out);
        proof {
            assert(out@ =~= old(out)@ + int_rep(n as int));
        }
    }
}

/// Value of a run of decimal digits, most significant first.
pub open spec fn digits_value(s: Seq<u8>) -> int
    decreases s.len(),
{
    if s.len() == 0 {
        0
    } else {
        digits_value(s.subrange(0, s.len() - 1)) * 10 + (s[s.len() - 1] - 0x30)
    }
}

pub open spec fn all_digits(s: Seq<u8>) -> bool {
    forall|i: int| 0 <= i < s.len() ==> is_digit(#[trigger] s[i])
}

/// The digit part of an integer literal: everything after an optional
/// leading sign.
pub open spec fn sign_stripped(s: Seq<u8>) -> Seq<u8> {
    if s.len() > 0 && (s[0] == 0x2b || s[0] == 0x2d) {
        s.subrange(1, s.len() as int)
    } else {
        s
    }
}

/// Does `s` parse as a `u64` the way `u64::from_str` accepts it: an
/// optional `+`, then at least one digit, with a value that fits?
pub open spec fn is_u64_text(s: Seq<u8>) -> bool {
    &&& s.len() > 0
    &&& (s[0] == 0x2b ==> s.len() > 1)
    &&& s[0] != 0x2d
    &&& all_digits(sign_stripped(s))
    &&& digits_value(sign_stripped(s)) <= u64::MAX
}

pub open spec fn u64_text_value(s: Seq<u8>) -> int {
    digits_value(sign_stripped(s))
}

/// Does `s` parse as an `i64` the way `i64::from_str` accepts it: an
/// optional sign, then at least one digit, with a value in range?
pub open spec fn is_i64_text(s: Seq<u8>) -> bool {
    &&& s.len() > 0
    &&& ((s[0] == 0x2b || s[0] == 0x2d) ==> s.len() > 1)
    &&& all_digits(sign_stripped(s))
    &&& i64::MIN <= i64_text_value(s) <= i64::MAX
}

pub open spec fn i64_text_value(s: Seq<u8>) -> int {
    if s.len() > 0 && s[0] == 0x2d {
        -digits_value(sign_stripped(s))
    } else {
        digits_value(sign_stripped(s))
    }
}

/// Appending digits never shrinks the value.
proof fn lemma_digits_value_grows(s: Seq<u8>, n: int)
    requires
        0 <= n <= s.len(),
        all_digits(s),
    ensures
        digits_value(s.subrange(0, n)) <= digits_value(s),
        digits_value(s) >= 0,
    decreases s.len(),
{
    if s.len() == 0 {
        assert(s.subrange(0, n) =~= s);
    } else {
        let head = s.subrange(0, s.len() - 1);
        assert(all_digits(head)) by {
            assert(forall|i: int| 0 <= i < head.len() ==> head[i] == s[i]);
        }
        if n <= head.len() {
            lemma_digits_value_grows(head, n);
            assert(head.subrange(0, n) =~= s.subrange(0, n));
        } else {
            assert(s.subrange(0, n) =~= s);
            lemma_digits_value_grows(head, head.len() as int);
        }
        assert(is_digit(s[s.len() - 1]));
    }
}

/// Parse `s` as a run of decimal digits with optional leading sign, as the
/// integer `from_str` parsers do. Returns the sign (`true` for `-`) and the
/// magnitude, or `None` when a character is not a digit, a sign stands
/// alone, or the magnitude exceeds `u64::MAX`.
fn parse_decimal(s: &[u8]) -> (r: Option<(bool, u64)>)
    ensures
        match r {
            Some((neg, mag)) => {
                &&& s@.len() > 0
                &&& ((s@[0] == 0x2b || s@[0] == 0x2d) ==> s@.len() > 1)
                &&& neg == (s@[0] == 0x2d)
                &&& all_digits(sign_stripped(s@))
                &&& digits_value(sign_stripped(s@)) == mag
            },
            None => {
                ||| s@.len() == 0
                ||| ((s@[0] == 0x2b || s@[0] == 0x2d) && s@.len() == 1)
                ||| !all_digits(sign_stripped(s@))
                ||| digits_value(sign_stripped(s@)) > u64::MAX
            },
        },
{
    if s.len() == 0 {
        return None;
    }
    let neg = s[0] == 0x2d;
    let start: usize = if s[0] == 0x2b || s[0] == 0x2d {
        1
    } else {
        0
    };
    if s.len() == start {
        return None;
    }
    let ghost digits = sign_stripped(s@);
    proof {
        assert(digits =~= s@.subrange(start as int, s@.len() as int));
    }
    let mut acc: u64 = 0;
    let mut i: usize = start;
    while i < s.len()
        invariant
            start <= i <= s@.len(),
            digits == sign_stripped(s@),
            digits =~= s@.subrange(start as int, s@.len() as int),
            all_digits(digits.subrange(0, i - start)),
            acc == digits_value(digits.subrange(0, i - start)),
        decreases s@.len() - i,
    {
        let b = s[i];
        if b < 0x30 || b > 0x39 {
            proof {
                assert(digits[i - start] == b);
                assert(!all_digits(digits));
            }
            return None;
        }
        let d = (b - 0x30) as u64;
        let wide: u128 = acc as u128 * 10 + d as u128;
        proof {
            assert(digits.subrange(0, i - start + 1).subrange(0, i - start) =~= digits.subrange(
                0,
                i - start,
            ));
            assert(digits.subrange(0, i - start + 1)[i - start] == b);
        }
        if wide > u64::MAX as u128 {
            proof {
                assert(all_digits(digits.subrange(0, i - start + 1)));
                assert(digits_value(digits.subrange(0, i - start + 1)) > u64::MAX);
                if all_digits(digits) {
                    lemma_digits_value_grows(digits, i - start + 1);
                }
            }
            return None;
        }
        acc = wide as u64;
        i = i + 1;
    }
    proof {
        assert(digits.subrange(0, i - start) =~= digits);
    }
    Some((neg, acc))
}

/// ASCII lowercasing of a single byte.
pub open spec fn ascii_lower(b: u8) -> u8 {
    if 0x41 <= b <= 0x5a {
        (b + 0x20) as u8
    } else {
        b
    }
}

/// Is `t` (sign already stripped) one of the special floating-point words
/// `inf`, `infinity` or `nan`, compared case-insensitively?
pub open spec fn is_float_word(t: Seq<u8>) -> bool {
    ||| (t.len() == 3 && ascii_lower(t[0]) == 0x69 && ascii_lower(t[1]) == 0x6e && ascii_lower(
        t[2],
    ) == 0x66)
    ||| (t.len() == 3 && ascii_lower(t[0]) == 0x6e && ascii_lower(t[1]) == 0x61 && ascii_lower(
        t[2],
    ) == 0x6e)
    ||| (t.len() == 8 && ascii_lower(t[0]) == 0x69 && ascii_lower(t[1]) == 0x6e && ascii_lower(
        t[2],
    ) == 0x66 && ascii_lower(t[3]) == 0x69 && ascii_lower(t[4]) == 0x6e && ascii_lower(t[5])
        == 0x69 && ascii_lower(t[6]) == 0x74 && ascii_lower(t[7]) == 0x79)
}

pub open spec fn is_exp_marker(b: u8) -> bool {
    b == 0x65 || b == 0x45
}

/// Index of the first `e` or `E` in `t`, or `t.len()` when there is none.
pub open spec fn first_exp_marker(t: Seq<u8>) -> int
    decreases t.len(),
{
    if t.len() == 0 {
        0
    } else if is_exp_marker(t[0]) {
        0
    } else {
        1 + first_exp_marker(t.subrange(1, t.len() as int))
    }
}

/// A mantissa: at least one digit, and otherwise only digits and at most
/// one decimal point.
pub open spec fn mantissa_ok(m: Seq<u8>) -> bool {
    &&& (forall|i: int| 0 <= i < m.len() ==> is_digit(#[trigger] m[i]) || m[i] == 0x2e)
    &&& (forall|i: int, j: int|
        0 <= i < m.len() && 0 <= j < m.len() && #[trigger] (m[i]) == 0x2e && #[trigger] (m[j])
            == 0x2e ==> i == j)
    &&& (exists|i: int| 0 <= i < m.len() && is_digit(#[trigger] m[i]))
}

/// An exponent: an optional sign, then at least one digit.
pub open spec fn exp_ok(x: Seq<u8>) -> bool {
    &&& sign_stripped(x).len() > 0
    &&& all_digits(sign_stripped(x))
}

/// Does `s` parse as an `f64` the way `f64::from_str` accepts it: an
/// optional sign, then one of the special words or a number with an
/// optional exponent part introduced by the first `e` or `E`?
pub open spec fn is_f64_text(s: Seq<u8>) -> bool {
    let t = sign_stripped(s);
    &&& t.len() > 0
    &&& {
        ||| is_float_word(t)
        ||| {
            let e = first_exp_marker(t);
            &&& mantissa_ok(t.subrange(0, e))
            &&& (e < t.len() ==> exp_ok(t.subrange(e + 1, t.len() as int)))
        }
    }
}

/// The first exponent marker is characterised by what stands before it.
proof fn lemma_first_exp_marker(t: Seq<u8>, i: int)
    requires
        0 <= i <= t.len(),
        forall|j: int| 0 <= j < i ==> !is_exp_marker(#[trigger] t[j]),
        i < t.len() ==> is_exp_marker(t[i]),
    ensures
        first_exp_marker(t) == i,
    decreases t.len(),
{
    if t.len() == 0 {
    } else if is_exp_marker(t[0]) {
        assert(i == 0);
    } else {
        let rest = t.subrange(1, t.len() as int);
        assert(i >= 1);
        assert(forall|j: int| 0 <= j < i - 1 ==> !is_exp_marker(#[trigger] rest[j]));
        assert(i - 1 < rest.len() ==> is_exp_marker(rest[i - 1]));
        lemma_first_exp_marker(rest, i - 1);
    }
}

/// Exec ASCII lowercasing.
fn lower_byte(b: u8) -> (r: u8)
    ensures
        r == ascii_lower(b),
{
    if 0x41 <= b && b <= 0x5a {
        b + 0x20
    } else {
        b
    }
}

/// Find the first `e` or `E` at or after `start`.
fn find_exp_marker(s: &[u8], start: usize) -> (e: usize)
    requires
        start <= s@.len(),
    ensures
        start <= e <= s@.len(),
        e - start == first_exp_marker(s@.subrange(start as int, s@.len() as int)),
{
    let ghost t = s@.subrange(start as int, s@.len() as int);
    let n = s.len();
    let mut e: usize = start;
    while e < n && !(s[e] == 0x65 || s[e] == 0x45)
        invariant
            start <= e <= n,
            n == s@.len(),
            t == s@.subrange(start as int, s@.len() as int),
            forall|j: int| 0 <= j < e - start ==> !is_exp_marker(#[trigger] t[j]),
        decreases n - e,
    {
        proof {
            assert(t[e - start] == s@[e as int]);
        }
        e = e + 1;
    }
    proof {
        if e < n {
            assert(t[e - start] == s@[e as int]);
        }
        lemma_first_exp_marker(t, e - start);
    }
    e
}

/// Decide whether the bytes of `s` from `start` to `end` form a mantissa.
fn check_mantissa(s: &[u8], start: usize, end: usize) -> (r: bool)
    requires
        start <= end <= s@.len(),
    ensures
        r == mantissa_ok(s@.subrange(start as int, end as int)),
{
    let ghost m = s@.subrange(start as int, end as int);
    let mut digit_seen = false;
    let mut dot_seen = false;
    let mut k: usize = start;
    while k < end
        invariant
            start <= k <= end <= s@.len(),
            m == s@.subrange(start as int, end as int),
            forall|i: int| 0 <= i < k - start ==> is_digit(#[trigger] m[i]) || m[i] == 0x2e,
            digit_seen <==> exists|i: int| 0 <= i < k - start && is_digit(#[trigger] m[i]),
            dot_seen <==> exists|i: int| 0 <= i < k - start && #[trigger] (m[i]) == 0x2e,
            forall|i: int, j: int|
                0 <= i < k - start && 0 <= j < k - start && #[trigger] (m[i]) == 0x2e
                    && #[trigger] (m[j]) == 0x2e ==> i == j,
        decreases end - k,
    {
        let b = s[k];
        proof {
            assert(m[k - start] == b);
        }
        if 0x30 <= b && b <= 0x39 {
            digit_seen = true;
        } else if b == 0x2e {
            if dot_seen {
                proof {
                    let i = choose|i: int| 0 <= i < k - start && #[trigger] (m[i]) == 0x2e;
                    assert(m[k - start] == 0x2e && m[i] == 0x2e && i != k - start);
                }
                return false;
            }
            dot_seen = true;
        } else {
            return false;
        }
        k = k + 1;
    }
    digit_seen
}

/// Decide whether the bytes of `s` from `from` on form an exponent part:
/// an optional sign, then at least one digit.
fn check_exp(s: &[u8], from: usize) -> (r: bool)
    requires
        from <= s@.len(),
    ensures
        r == exp_ok(s@.subrange(from as int, s@.len() as int)),
{
    let ghost x = s@.subrange(from as int, s@.len() as int);
    let n = s.len();
    let ds: usize = if from < n && (s[from] == 0x2b || s[from] == 0x2d) {
        from + 1
    } else {
        from
    };
    proof {
        assert(sign_stripped(x) =~= s@.subrange(ds as int, s@.len() as int));
    }
    if ds == n {
        return false;
    }
    let mut k: usize = ds;
    while k < n
        invariant
            ds <= k <= n,
            n == s@.len(),
            x == s@.subrange(from as int, s@.len() as int),
            sign_stripped(x) =~= s@.subrange(ds as int, s@.len() as int),
            forall|i: int| 0 <= i < k - ds ==> is_digit(#[trigger] (sign_stripped(x)[i])),
        decreases n - k,
    {
        let b = s[k];
        proof {
            assert(sign_stripped(x)[k - ds] == b);
        }
        if b < 0x30 || b > 0x39 {
            proof {
                assert(!is_digit(sign_stripped(x)[k - ds]));
            }
            return false;
        }
        k = k + 1;
    }
    true
}

/// Decide whether `s` is floating-point literal text, exactly as
/// `f64::from_str` would accept it.
pub fn is_float_literal(s: &[u8]) -> (r: bool)
    ensures
        r == is_f64_text(s@),
{
    let n = s.len();
    if n == 0 {
        return false;
    }
    let start: usize = if s[0] == 0x2b || s[0] == 0x2d {
        1
    } else {
        0
    };
    let ghost t = sign_stripped(s@);
    proof {
        assert(t =~= s@.subrange(start as int, s@.len() as int));
    }
    if n == start {
        return false;
    }
    let tlen = n - start;
    // the special words
    if tlen == 3 {
        let a0 = lower_byte(s[start]);
        let a1 = lower_byte(s[start + 1]);
        let a2 = lower_byte(s[start + 2]);
        if (a0 == 0x69 && a1 == 0x6e && a2 == 0x66) || (a0 == 0x6e && a1 == 0x61 && a2 == 0x6e) {
            return true;
        }
    }
    if tlen == 8 {
        let a0 = lower_byte(s[start]);
        let a1 = lower_byte(s[start + 1]);
        let a2 = lower_byte(s[start + 2]);
        let a3 = lower_byte(s[start + 3]);
        let a4 = lower_byte(s[start + 4]);
        let a5 = lower_byte(s[start + 5]);
        let a6 = lower_byte(s[start + 6]);
        let a7 = lower_byte(s[start + 7]);
        if a0 == 0x69 && a1 == 0x6e && a2 == 0x66 && a3 == 0x69 && a4 == 0x6e && a5 == 0x69 && a6
            == 0x74 && a7 == 0x79 {
            return true;
        }
    }
    proof {
        assert(!is_float_word(t));
    }
    let e = find_exp_marker(s, start);
    let ghost em = e - start;
    proof {
        assert(t.subrange(0, em as int) =~= s@.subrange(start as int, e as int));
    }
    if !check_mantissa(s, start, e) {
        return false;
    }
    if e == n {
        return true;
    }
    proof {
        assert(t.subrange(em + 1, t.len() as int) =~= s@.subrange(e + 1, s@.len() as int));
    }
    check_exp(s, e + 1)
}


/// Parse `s` exactly as `u64::from_str` does.
pub fn parse_u64(s: &[u8]) -> (r: Option<u64>)
    ensures
        is_u64_text(s@) ==> r == Some(u64_text_value(s@) as u64),
        !is_u64_text(s@) ==> r is None,
{
    match parse_decimal(s) {
        Some((neg, mag)) => {
            if neg {
                None
            } else {
                Some(mag)
            }
        },
        None => None,
    }
}

/// Parse `s` exactly as `i64::from_str` does.
pub fn parse_i64(s: &[u8]) -> (r: Option<i64>)
    ensures
        is_i64_text(s@) ==> r == Some(i64_text_value(s@) as i64),
        !is_i64_text(s@) ==> r is None,
{
    match parse_decimal(s) {
        Some((neg, mag)) => {
            if neg {
                if mag <= 9223372036854775808u64 {
                    if mag == 9223372036854775808u64 {
                        Some(i64::MIN)
                    } else {
                        Some(-(mag as i64))
                    }
                } else {
                    None
                }
            } else {
                if mag <= i64::MAX as u64 {
                    Some(mag as i64)
                } else {
                    None
                }
            }
        },
        None => None,
    }
}

} // verus!
