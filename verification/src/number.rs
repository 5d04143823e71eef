//! The exact value of JSON number text, as far as integer fields read it.
//!
//! A number is its digits with the decimal point shifted by the exponent:
//! `-12.5e1` is the digits `125` with the point after the third of them.
//! An integer field accepts a number only when no nonzero digit follows the
//! point and the value fits its type; an enum takes the integer part,
//! saturated to `0..=65535`.
use vstd::prelude::*;
use crate::error::{Error, ErrorModel, ErrorOf, IntKind};
use crate::grammar::{digits_end, is_digit, lemma_digits_end, number_end, number_text_valid};
use crate::strbuf::chars_of;
use crate::writer::{decimal, decimal_digits, digit_char};

verus! {

/// The value of a decimal digit.
pub open spec fn digit_val(c: char) -> nat {
    (c as int - 48) as nat
}

/// The value of a string of decimal digits.
pub open spec fn digits_value(ds: Seq<char>) -> nat
    decreases ds.len(),
{
    if ds.len() == 0 {
        0
    } else {
        digits_value(ds.drop_last()) * 10 + digit_val(ds.last())
    }
}

/// Ten to the power `k`.
pub open spec fn pow10(k: nat) -> nat
    decreases k,
{
    if k == 0 {
        1
    } else {
        10 * pow10((k - 1) as nat)
    }
}

/// `x`, or `m` where `x` exceeds it.
pub open spec fn sat(x: nat, m: nat) -> nat {
    if x > m {
        m
    } else {
        x
    }
}

/// A number read as its sign, its digits (before and after the point, in
/// order) and the position of the point among them once the exponent has
/// moved it.
pub struct NumberParts {
    pub negative: bool,
    pub digits: Seq<char>,
    pub point: int,
}

/// The exponent written after `e` or `E` at `c`, zero where there is none.
pub open spec fn exponent_at(t: Seq<char>, c: int) -> int {
    if c < t.len() && (t[c] == 'e' || t[c] == 'E') {
        let signed = c + 1 < t.len() && (t[c + 1] == '+' || t[c + 1] == '-');
        let d = if signed {
            c + 2
        } else {
            c + 1
        };
        let v = digits_value(t.subrange(d, digits_end(t, d)));
        if c + 1 < t.len() && t[c + 1] == '-' {
            -v
        } else {
            v as int
        }
    } else {
        0
    }
}

/// The parts of number text.
pub open spec fn number_parts(t: Seq<char>) -> NumberParts {
    let a = if 0 < t.len() && t[0] == '-' {
        1int
    } else {
        0int
    };
    let b = digits_end(t, a);
    let has_point = b < t.len() && t[b] == '.';
    let c = if has_point {
        digits_end(t, b + 1)
    } else {
        b
    };
    let frac = if has_point {
        t.subrange(b + 1, c)
    } else {
        Seq::empty()
    };
    NumberParts { negative: a == 1, digits: t.subrange(a, b) + frac, point: (b - a) + exponent_at(t, c) }
}

/// Whether `t`, as a whole, is the text of a JSON number.
pub open spec fn is_number_text(t: Seq<char>) -> bool {
    number_text_valid(t) && number_end(t, 0) == t.len()
}

/// Where the point falls, kept within the digits.
pub open spec fn point_index(np: NumberParts) -> int {
    if np.point < 0 {
        0
    } else if np.point > np.digits.len() {
        np.digits.len() as int
    } else {
        np.point
    }
}

/// The magnitude of the number's integer part.
pub open spec fn int_part(np: NumberParts) -> nat {
    digits_value(np.digits.take(point_index(np))) * pow10(
        if np.point > np.digits.len() {
            (np.point - np.digits.len()) as nat
        } else {
            0
        },
    )
}

/// Whether the number is an integer: every digit after the point is zero.
pub open spec fn is_integral(np: NumberParts) -> bool {
    forall|j: int| point_index(np) <= j < np.digits.len() ==> #[trigger] np.digits[j] == '0'
}

/// The number's integer part, with its sign.
pub open spec fn integer_value(np: NumberParts) -> int {
    if np.negative {
        -(int_part(np) as int)
    } else {
        int_part(np) as int
    }
}

/// The least and greatest values of an integer kind.
pub open spec fn kind_bounds(kind: IntKind) -> (int, int) {
    match kind {
        IntKind::Int8 => (-128, 127),
        IntKind::Int16 => (-32768, 32767),
        IntKind::Int32 => (-2147483648, 2147483647),
        IntKind::Int64 => (-9223372036854775808, 9223372036854775807),
        IntKind::UInt8 => (0, 255),
        IntKind::UInt16 => (0, 65535),
        IntKind::UInt32 => (0, 4294967295),
        IntKind::UInt64 => (0, 18446744073709551615),
        IntKind::DataByte => (0, 255),
    }
}

/// The least and greatest values of the machine integer type that a field
/// of each kind holds (a data byte is a `u8`).
pub open spec fn machine_bounds(kind: IntKind) -> (int, int) {
    match kind {
        IntKind::Int8 => (i8::MIN as int, i8::MAX as int),
        IntKind::Int16 => (i16::MIN as int, i16::MAX as int),
        IntKind::Int32 => (i32::MIN as int, i32::MAX as int),
        IntKind::Int64 => (i64::MIN as int, i64::MAX as int),
        IntKind::UInt8 => (u8::MIN as int, u8::MAX as int),
        IntKind::UInt16 => (u16::MIN as int, u16::MAX as int),
        IntKind::UInt32 => (u32::MIN as int, u32::MAX as int),
        IntKind::UInt64 => (u64::MIN as int, u64::MAX as int),
        IntKind::DataByte => (u8::MIN as int, u8::MAX as int),
    }
}

/// A field of each kind accepts exactly the integers of its machine type:
/// the kind's bounds are that type's least and greatest values.
pub proof fn kind_bounds_are_machine_bounds(kind: IntKind)
    ensures
        kind_bounds(kind) == machine_bounds(kind),
{
}

/// The integer that number text `t` gives a field of kind `kind` (named
/// `field`): an error where it is not a number, not an integer, or out of
/// the kind's range.
pub open spec fn checked_integer(t: Seq<char>, kind: IntKind, field: Seq<char>) -> Result<int, ErrorModel> {
    if !is_number_text(t) {
        Err(ErrorOf::InvalidNumber(t))
    } else {
        let np = number_parts(t);
        let (lo, hi) = kind_bounds(kind);
        if !is_integral(np) {
            Err(ErrorOf::NotAnInteger(kind, field, t))
        } else if lo <= integer_value(np) <= hi {
            Ok(integer_value(np))
        } else {
            Err(ErrorOf::OutOfRange(kind, field, t))
        }
    }
}

/// The enum ordinal that number text `t` gives: its integer part,
/// saturated to `0..=65535`.
pub open spec fn enum_ordinal(t: Seq<char>) -> Result<u16, ErrorModel> {
    if !is_number_text(t) {
        Err(ErrorOf::InvalidNumber(t))
    } else {
        let np = number_parts(t);
        if np.negative {
            Ok(0u16)
        } else if int_part(np) > 65535 {
            Ok(65535u16)
        } else {
            Ok(int_part(np) as u16)
        }
    }
}

proof fn lemma_sat_step(x: nat, d: nat, m: nat)
    ensures
        sat(sat(x, m) * 10 + d, m) == sat(x * 10 + d, m),
{
}

proof fn lemma_pow10_positive(k: nat)
    ensures
        pow10(k) >= 1,
    decreases k,
{
    if k > 0 {
        lemma_pow10_positive((k - 1) as nat);
    }
}

proof fn lemma_pow10_monotone(j: nat, k: nat)
    requires
        j <= k,
    ensures
        pow10(j) <= pow10(k),
    decreases k,
{
    if j < k {
        lemma_pow10_monotone(j, (k - 1) as nat);
        lemma_pow10_positive((k - 1) as nat);
    }
}

proof fn lemma_pow10_big(k: nat)
    requires
        k >= 20,
    ensures
        pow10(k) > 18446744073709551616,
{
    lemma_pow10_monotone(20, k);
    reveal_with_fuel(pow10, 21);
}

/// A positive multiple of `pow10(k)` for some `k >= 20` exceeds every `u64`.
proof fn lemma_big_product(d: nat, k: nat)
    requires
        d >= 1,
        k >= 20,
    ensures
        d * pow10(k) > 18446744073709551616,
{
    lemma_pow10_big(k);
    vstd::arithmetic::mul::lemma_mul_inequality(1, d as int, pow10(k) as int);
}

/// The first digit position at or after `i`, as `digits_end` computes it.
fn scan_digits(cs: &Vec<char>, i: usize) -> (r: usize)
    requires
        i <= cs.len(),
    ensures
        r == digits_end(cs@, i as int),
        i <= r <= cs.len(),
{
    proof {
        lemma_digits_end(cs@, i as int);
    }
    let mut j = i;
    while j < cs.len() && '0' <= cs[j] && cs[j] <= '9'
        invariant
            i <= j <= cs.len(),
            digits_end(cs@, j as int) == digits_end(cs@, i as int),
        decreases cs.len() - j,
    {
        j = j + 1;
    }
    j
}

/// The value of the digits `cs[d..f]`, saturated at 2^100.
fn exponent_value(cs: &Vec<char>, d: usize, f: usize) -> (e: u128)
    requires
        d <= f <= cs.len(),
        forall|i: int| d <= i < f ==> is_digit(#[trigger] cs@[i]),
    ensures
        e == sat(digits_value(cs@.subrange(d as int, f as int)), 1267650600228229401496703205376),
{
    let sat_e: u128 = 1267650600228229401496703205376;
    let mut e: u128 = 0;
    let mut k = d;
    assert(cs@.subrange(d as int, k as int) =~= Seq::<char>::empty());
    while k < f
        invariant
            d <= k <= f,
            f <= cs.len(),
            forall|i: int| d <= i < f ==> is_digit(#[trigger] cs@[i]),
            e == sat(digits_value(cs@.subrange(d as int, k as int)), sat_e as nat),
            sat_e == 1267650600228229401496703205376,
        decreases f - k,
    {
        assert(cs@.subrange(d as int, k + 1).drop_last() =~= cs@.subrange(d as int, k as int));
        assert(is_digit(cs@[k as int]));
        let dv = (cs[k] as u32 - 48) as u128;
        proof {
            lemma_sat_step(digits_value(cs@.subrange(d as int, k as int)), dv as nat, sat_e as nat);
        }
        let next = e * 10 + dv;
        e = if next > sat_e {
            sat_e
        } else {
            next
        };
        k = k + 1;
    }
    e
}

/// The digits `cs[a..b]` followed by `cs[b+1..c]` when there is a point.
fn mantissa_digits(cs: &Vec<char>, a: usize, b: usize, has_point: bool, c: usize) -> (ms: Vec<char>)
    requires
        a <= b <= cs.len(),
        has_point ==> b + 1 <= c <= cs.len(),
    ensures
        ms@ == cs@.subrange(a as int, b as int) + if has_point {
            cs@.subrange(b + 1, c as int)
        } else {
            Seq::empty()
        },
{
    let mut ms: Vec<char> = Vec::new();
    let mut i = a;
    while i < b
        invariant
            a <= i <= b,
            b <= cs.len(),
            ms@ == cs@.subrange(a as int, i as int),
        decreases b - i,
    {
        ms.push(cs[i]);
        assert(cs@.subrange(a as int, i + 1) =~= cs@.subrange(a as int, i as int).push(cs@[i as int]));
        i = i + 1;
    }
    if has_point {
        let mut i = b + 1;
        assert(cs@.subrange(b + 1, i as int) =~= Seq::<char>::empty());
        assert(ms@ =~= cs@.subrange(a as int, b as int) + cs@.subrange(b + 1, i as int));
        while i < c
            invariant
                b + 1 <= i <= c,
                c <= cs.len(),
                ms@ == cs@.subrange(a as int, b as int) + cs@.subrange(b + 1, i as int),
            decreases c - i,
        {
            ms.push(cs[i]);
            assert(cs@.subrange(b + 1, i + 1) =~= cs@.subrange(b + 1, i as int).push(cs@[i as int]));
            assert(ms@ =~= cs@.subrange(a as int, b as int) + cs@.subrange(b + 1, i + 1));
            i = i + 1;
        }
    } else {
        assert(ms@ =~= cs@.subrange(a as int, b as int) + Seq::<char>::empty());
    }
    ms
}

/// Whether every digit from `q` on is zero.
fn zeros_from(ms: &Vec<char>, q: usize) -> (r: bool)
    requires
        q <= ms.len(),
    ensures
        r == forall|k: int| q <= k < ms.len() ==> #[trigger] ms@[k] == '0',
{
    let mut j = q;
    while j < ms.len()
        invariant
            q <= j <= ms.len(),
            forall|k: int| q <= k < j ==> #[trigger] ms@[k] == '0',
        decreases ms.len() - j,
    {
        if ms[j] != '0' {
            return false;
        }
        j = j + 1;
    }
    true
}

/// The value of the first `q` digits, saturated at 2^64.
fn prefix_value(ms: &Vec<char>, q: usize) -> (v: u128)
    requires
        q <= ms.len(),
        forall|k: int| 0 <= k < ms.len() ==> is_digit(#[trigger] ms@[k]),
    ensures
        v == sat(digits_value(ms@.take(q as int)), 18446744073709551616),
{
    let cap: u128 = 18446744073709551616;
    let mut v: u128 = 0;
    let mut j: usize = 0;
    assert(ms@.take(0) =~= Seq::<char>::empty());
    while j < q
        invariant
            j <= q <= ms.len(),
            forall|k: int| 0 <= k < ms.len() ==> is_digit(#[trigger] ms@[k]),
            v == sat(digits_value(ms@.take(j as int)), cap as nat),
            cap == 18446744073709551616,
        decreases q - j,
    {
        assert(ms@.take(j + 1).drop_last() =~= ms@.take(j as int));
        assert(is_digit(ms@[j as int]));
        let dv = (ms[j] as u32 - 48) as u128;
        proof {
            lemma_sat_step(digits_value(ms@.take(j as int)), dv as nat, cap as nat);
        }
        let next = v * 10 + dv;
        v = if next > cap {
            cap
        } else {
            next
        };
        j = j + 1;
    }
    v
}

/// `head * 10^extra`, saturated at 2^64, from `head` saturated at 2^64.
fn shift_value(v0: u128, Ghost(head): Ghost<nat>, extra: i128) -> (v: u128)
    requires
        v0 == sat(head, 18446744073709551616),
        extra >= 0,
    ensures
        v == sat(head * pow10(extra as nat), 18446744073709551616),
{
    let cap: u128 = 18446744073709551616;
    let mut v = v0;
    let mut k: i128 = 0;
    assert(pow10(0) == 1);
    assert(head * pow10(0) == head);
    while k < extra && v != 0 && v < cap
        invariant
            0 <= k <= extra,
            v == sat(head * pow10(k as nat), cap as nat),
            cap == 18446744073709551616,
        decreases extra - k,
    {
        proof {
            assert(pow10((k + 1) as nat) == 10 * pow10(k as nat));
            assert(head * pow10((k + 1) as nat) == (head * pow10(k as nat)) * 10) by (nonlinear_arith)
                requires
                    pow10((k + 1) as nat) == 10 * pow10(k as nat),
            ;
            lemma_sat_step(head * pow10(k as nat), 0, cap as nat);
        }
        v = v * 10;
        if v > cap {
            v = cap;
        }
        k = k + 1;
    }
    proof {
        if k < extra {
            lemma_pow10_positive(k as nat);
            if v == 0 {
                assert(head == 0) by (nonlinear_arith)
                    requires
                        head * pow10(k as nat) == 0,
                        pow10(k as nat) >= 1,
                ;
                assert(head * pow10(extra as nat) == 0) by (nonlinear_arith)
                    requires
                        head == 0,
                ;
            } else {
                lemma_pow10_monotone(k as nat, extra as nat);
                assert(head * pow10(k as nat) <= head * pow10(extra as nat)) by (nonlinear_arith)
                    requires
                        pow10(k as nat) <= pow10(extra as nat),
                ;
            }
        }
    }
    v
}

/// The exact facts about number text that integer fields need: its sign,
/// whether it is an integer, and its integer part's magnitude, saturated at
/// 2^64; `None` where it is not number text.
#[verifier::spinoff_prover]
#[verifier::rlimit(80)]
pub fn analyze_number(t: &str) -> (r: Option<(bool, bool, u128)>)
    ensures
        match r {
            None => !is_number_text(t@),
            Some((negative, integral, magnitude)) => {
                &&& is_number_text(t@)
                &&& negative == number_parts(t@).negative
                &&& integral == is_integral(number_parts(t@))
                &&& magnitude == sat(int_part(number_parts(t@)), 18446744073709551616)
            },
        },
{
    let cs = chars_of(t);
    let ghost s = cs@;
    let n = cs.len();
    let a: usize = if n > 0 && cs[0] == '-' {
        1
    } else {
        0
    };
    let b = scan_digits(&cs, a);
    let has_point = b < n && cs[b] == '.';
    let c = if has_point {
        scan_digits(&cs, b + 1)
    } else {
        b
    };
    let mantissa_ok = b > a || (has_point && c > b + 1);
    let sat_e: u128 = 1267650600228229401496703205376;
    let mut e: u128 = 0;
    let mut e_negative = false;
    let mut end = c;
    let mut valid = mantissa_ok;
    let ghost mut e_exact: nat = 0;
    if c < n && (cs[c] == 'e' || cs[c] == 'E') {
        let signed = c + 1 < n && (cs[c + 1] == '+' || cs[c + 1] == '-');
        e_negative = c + 1 < n && cs[c + 1] == '-';
        let d = if signed {
            c + 2
        } else {
            c + 1
        };
        let f = scan_digits(&cs, d);
        proof {
            lemma_digits_end(s, d as int);
        }
        valid = mantissa_ok && f > d;
        end = f;
        e = exponent_value(&cs, d, f);
        proof {
            e_exact = digits_value(s.subrange(d as int, f as int));
        }
    }
    assert(e == sat(e_exact, sat_e as nat));
    assert(exponent_at(s, c as int) == if e_negative { -e_exact } else { e_exact as int });
    proof {
        lemma_number_end_matches(s);
    }
    if !valid || end != n {
        return None;
    }
    let ms = mantissa_digits(&cs, a, b, has_point, c);
    let ghost np = number_parts(s);
    assert(ms@ == np.digits);
    let len = ms.len();
    let int_len: i128 = (b - a) as i128;
    let point: i128 = if e_negative {
        int_len - e as i128
    } else {
        int_len + e as i128
    };
    let q: usize = if point < 0 {
        0
    } else if point > len as i128 {
        len
    } else {
        point as usize
    };
    proof {
        if e < sat_e {
            assert(point == np.point);
        } else {
            if e_negative {
                assert(np.point <= point && point < 0);
            } else {
                assert(np.point >= point && point > len);
            }
        }
        assert(q == point_index(np));
        lemma_digits_end(s, a as int);
        if has_point {
            lemma_digits_end(s, b + 1);
        }
        assert forall|k: int| 0 <= k < len implies is_digit(#[trigger] ms@[k]) by {
            if k < b - a {
                assert(ms@[k] == s[a + k]);
            } else {
                assert(ms@[k] == s[b + 1 + (k - (b - a))]);
            }
        }
    }
    let integral = zeros_from(&ms, q);
    let v0 = prefix_value(&ms, q);
    let ghost head = digits_value(ms@.take(q as int));
    let v = if point > len as i128 {
        let extra: i128 = point - len as i128;
        let v = shift_value(v0, Ghost(head), extra);
        proof {
            if e >= sat_e {
                if head >= 1 {
                    lemma_big_product(head, extra as nat);
                    lemma_big_product(head, (np.point - len) as nat);
                } else {
                    assert(head * pow10((np.point - len) as nat) == 0) by (nonlinear_arith)
                        requires
                            head == 0,
                    ;
                    assert(head * pow10(extra as nat) == 0) by (nonlinear_arith)
                        requires
                            head == 0,
                    ;
                }
            }
        }
        v
    } else {
        assert(pow10(0) == 1);
        assert(head * pow10(0) == head);
        v0
    };
    Some((a == 1, integral, v))
}

/// The scan in `analyze_number` decides validity as `number_text_valid` and
/// `number_end` do.
proof fn lemma_number_end_matches(s: Seq<char>)
    ensures
        number_end(s, 0) == ({
            let a = if 0 < s.len() && s[0] == '-' {
                1int
            } else {
                0int
            };
            let b = digits_end(s, a);
            let c = if b < s.len() && s[b] == '.' {
                digits_end(s, b + 1)
            } else {
                b
            };
            if c < s.len() && (s[c] == 'e' || s[c] == 'E') {
                let d = if c + 1 < s.len() && (s[c + 1] == '+' || s[c + 1] == '-') {
                    c + 2
                } else {
                    c + 1
                };
                digits_end(s, d)
            } else {
                c
            }
        }),
{
}

/// The least and greatest values of an integer kind.
pub fn kind_range(kind: IntKind) -> (r: (i128, i128))
    ensures
        r.0 as int == kind_bounds(kind).0,
        r.1 as int == kind_bounds(kind).1,
{
    match kind {
        IntKind::Int8 => (-128, 127),
        IntKind::Int16 => (-32768, 32767),
        IntKind::Int32 => (-2147483648, 2147483647),
        IntKind::Int64 => (-9223372036854775808, 9223372036854775807),
        IntKind::UInt8 => (0, 255),
        IntKind::UInt16 => (0, 65535),
        IntKind::UInt32 => (0, 4294967295),
        IntKind::UInt64 => (0, 18446744073709551615),
        IntKind::DataByte => (0, 255),
    }
}

/// The integer that number text gives a field of kind `kind` named `field`:
/// refused where the text is not an integer, or where the integer does not
/// fit the kind. Exact, whatever the number of digits.
pub fn check_integer(t: &str, kind: IntKind, field: &str) -> (r: Result<i128, Error>)
    ensures
        match (r, checked_integer(t@, kind, field@)) {
            (Ok(v), Ok(n)) => v as int == n,
            (Err(e), Err(m)) => e@ == m,
            _ => false,
        },
{
    match analyze_number(t) {
        None => Err(ErrorOf::InvalidNumber(t.to_owned())),
        Some((negative, integral, magnitude)) => {
            if !integral {
                return Err(ErrorOf::NotAnInteger(kind, field.to_owned(), t.to_owned()));
            }
            let (lo, hi) = kind_range(kind);
            let v: i128 = if negative {
                -(magnitude as i128)
            } else {
                magnitude as i128
            };
            let ghost np = number_parts(t@);
            assert(v == integer_value(np) || (int_part(np) > 18446744073709551616 && magnitude
                == 18446744073709551616));
            if lo <= v && v <= hi {
                Ok(v)
            } else {
                Err(ErrorOf::OutOfRange(kind, field.to_owned(), t.to_owned()))
            }
        },
    }
}

/// The enum ordinal that number text gives: its integer part, saturated to
/// `0..=65535`.
pub fn number_to_ordinal(t: &str) -> (r: Result<u16, Error>)
    ensures
        match (r, enum_ordinal(t@)) {
            (Ok(v), Ok(n)) => v == n,
            (Err(e), Err(m)) => e@ == m,
            _ => false,
        },
{
    match analyze_number(t) {
        None => Err(ErrorOf::InvalidNumber(t.to_owned())),
        Some((negative, _, magnitude)) => {
            if negative {
                Ok(0)
            } else if magnitude > 65535 {
                Ok(65535)
            } else {
                Ok(magnitude as u16)
            }
        },
    }
}

/// What the double that a JSON number's text denotes (the double nearest
/// it) gives an integer field: its truncation toward zero, saturated to the
/// range of `i128`, and whether it has no fractional part.
#[derive(Debug, Clone)]
pub struct NumberDouble {
    pub text: String,
    pub trunc: i128,
    pub integral: bool,
}

/// The doubles held for number texts, as `(text, truncation, integral)`.
pub open spec fn doubles_view(ns: Seq<NumberDouble>) -> Seq<(Seq<char>, int, bool)> {
    ns.map_values(|n: NumberDouble| (n.text@, n.trunc as int, n.integral))
}

/// The index of the first double held for text `t`, or -1.
pub open spec fn double_index(ns: Seq<(Seq<char>, int, bool)>, t: Seq<char>) -> int
    decreases ns.len(),
{
    if ns.len() == 0 {
        -1
    } else if ns[0].0 == t {
        0
    } else {
        let r = double_index(ns.drop_first(), t);
        if r < 0 {
            -1
        } else {
            r + 1
        }
    }
}

/// The double found for a text is held for that text.
pub proof fn lemma_double_index(ns: Seq<(Seq<char>, int, bool)>, t: Seq<char>)
    ensures
        -1 <= double_index(ns, t) < ns.len(),
        double_index(ns, t) >= 0 ==> ns[double_index(ns, t)].0 == t,
    decreases ns.len(),
{
    if ns.len() > 0 && ns[0].0 != t {
        lemma_double_index(ns.drop_first(), t);
    }
}

/// Whether each double held for the decimal text of an integer `n` with
/// `|n| <= 2^53` is `n` itself: a double holds every such integer exactly.
pub open spec fn numbers_sound(ns: Seq<(Seq<char>, int, bool)>) -> bool {
    forall|q: int, n: int|
        #![trigger ns[q], decimal(n)]
        0 <= q < ns.len() && -9007199254740992 <= n <= 9007199254740992 && ns[q].0 == decimal(n) ==> ns[q].1 == n
            && ns[q].2
}

/// The integer that number text `t` gives a field of kind `kind` (named
/// `field`), read as the double it denotes where `ns` holds that double: an
/// error where the double has a fractional part, and else where its value
/// is out of the kind's range. Where `ns` holds no double for `t`, the
/// number is read exactly ([`checked_integer`]).
pub open spec fn number_integer(
    ns: Seq<(Seq<char>, int, bool)>,
    t: Seq<char>,
    kind: IntKind,
    field: Seq<char>,
) -> Result<int, ErrorModel> {
    let q = double_index(ns, t);
    if !is_number_text(t) {
        Err(ErrorOf::InvalidNumber(t))
    } else if q < 0 {
        checked_integer(t, kind, field)
    } else {
        let (lo, hi) = kind_bounds(kind);
        if !ns[q].2 {
            Err(ErrorOf::NotAnInteger(kind, field, t))
        } else if lo <= ns[q].1 <= hi {
            Ok(ns[q].1)
        } else {
            Err(ErrorOf::OutOfRange(kind, field, t))
        }
    }
}

/// The enum ordinal that number text `t` gives: the truncation of the
/// double it denotes, saturated to `0..=65535`, where `ns` holds that
/// double; else [`enum_ordinal`].
pub open spec fn number_ordinal(ns: Seq<(Seq<char>, int, bool)>, t: Seq<char>) -> Result<u16, ErrorModel> {
    let q = double_index(ns, t);
    if !is_number_text(t) {
        Err(ErrorOf::InvalidNumber(t))
    } else if q < 0 {
        enum_ordinal(t)
    } else if ns[q].1 < 0 {
        Ok(0u16)
    } else if ns[q].1 > 65535 {
        Ok(65535u16)
    } else {
        Ok(ns[q].1 as u16)
    }
}

/// The index of the first double held for `t`.
fn find_double(ns: &Vec<NumberDouble>, t: &str) -> (r: Option<usize>)
    ensures
        match r {
            Some(i) => double_index(doubles_view(ns@), t@) == i as int,
            None => double_index(doubles_view(ns@), t@) == -1,
        },
{
    let ghost v = doubles_view(ns@);
    let mut i: usize = 0;
    assert(v.skip(0) =~= v);
    while i < ns.len()
        invariant
            i <= ns.len(),
            v == doubles_view(ns@),
            double_index(v, t@) == {
                let r = double_index(v.skip(i as int), t@);
                if r < 0 {
                    -1
                } else {
                    r + i
                }
            },
        decreases ns.len() - i,
    {
        assert(v.skip(i as int)[0] == v[i as int]);
        assert(v.skip(i as int).drop_first() =~= v.skip(i + 1));
        let t2 = t.to_owned();
        if ns[i].text == t2 {
            return Some(i);
        }
        i = i + 1;
    }
    assert(v.skip(i as int).len() == 0);
    None
}

/// The integer that number text gives a field of kind `kind` named
/// `field`, read as the double it denotes where `ns` holds that double.
pub fn number_to_integer(ns: &Vec<NumberDouble>, t: &str, kind: IntKind, field: &str) -> (r: Result<i128, Error>)
    ensures
        match (r, number_integer(doubles_view(ns@), t@, kind, field@)) {
            (Ok(v), Ok(n)) => v as int == n,
            (Err(e), Err(m)) => e@ == m,
            _ => false,
        },
{
    match find_double(ns, t) {
        None => check_integer(t, kind, field),
        Some(q) => {
            proof {
                lemma_double_index(doubles_view(ns@), t@);
                assert(doubles_view(ns@)[q as int] == (ns@[q as int].text@, ns@[q as int].trunc as int, ns@[q as int].integral));
            }
            if analyze_number(t).is_none() {
                return Err(ErrorOf::InvalidNumber(t.to_owned()));
            }
            let (lo, hi) = kind_range(kind);
            let d = &ns[q];
            if !d.integral {
                Err(ErrorOf::NotAnInteger(kind, field.to_owned(), t.to_owned()))
            } else if lo <= d.trunc && d.trunc <= hi {
                Ok(d.trunc)
            } else {
                Err(ErrorOf::OutOfRange(kind, field.to_owned(), t.to_owned()))
            }
        },
    }
}

/// The enum ordinal that number text gives, read as the double it denotes
/// where `ns` holds that double.
pub fn number_to_enum_ordinal(ns: &Vec<NumberDouble>, t: &str) -> (r: Result<u16, Error>)
    ensures
        match (r, number_ordinal(doubles_view(ns@), t@)) {
            (Ok(v), Ok(n)) => v == n,
            (Err(e), Err(m)) => e@ == m,
            _ => false,
        },
{
    match find_double(ns, t) {
        None => number_to_ordinal(t),
        Some(q) => {
            proof {
                lemma_double_index(doubles_view(ns@), t@);
                assert(doubles_view(ns@)[q as int] == (ns@[q as int].text@, ns@[q as int].trunc as int, ns@[q as int].integral));
            }
            if analyze_number(t).is_none() {
                return Err(ErrorOf::InvalidNumber(t.to_owned()));
            }
            let tr = ns[q].trunc;
            if tr < 0 {
                Ok(0)
            } else if tr > 65535 {
                Ok(65535)
            } else {
                Ok(tr as u16)
            }
        },
    }
}

/// Whether an integer kind takes a sign.
pub open spec fn kind_signed(kind: IntKind) -> bool {
    match kind {
        IntKind::Int8 | IntKind::Int16 | IntKind::Int32 | IntKind::Int64 => true,
        _ => false,
    }
}

/// Whether integer text for a kind starts with a minus sign that it takes.
pub open spec fn text_negative(t: Seq<char>, kind: IntKind) -> bool {
    t.len() > 0 && t[0] == '-' && kind_signed(kind)
}

/// The digits of integer text for a kind: what follows a sign it takes.
pub open spec fn text_digits(t: Seq<char>, kind: IntKind) -> Seq<char> {
    if t.len() > 0 && (t[0] == '+' || text_negative(t, kind)) {
        t.drop_first()
    } else {
        t
    }
}

/// Whether every character of `ds` is a decimal digit.
pub open spec fn all_digits(ds: Seq<char>) -> bool {
    forall|i: int| 0 <= i < ds.len() ==> is_digit(#[trigger] ds[i])
}

/// The integer that `str::parse` reads from `t` for a kind: an optional
/// `+` (or `-`, for a signed kind) and one or more digits, whose value fits.
pub open spec fn parsed_integer(t: Seq<char>, kind: IntKind) -> Option<int> {
    let ds = text_digits(t, kind);
    let v = if text_negative(t, kind) {
        -(digits_value(ds) as int)
    } else {
        digits_value(ds) as int
    };
    if ds.len() > 0 && all_digits(ds) && kind_bounds(kind).0 <= v && v <= kind_bounds(kind).1 {
        Some(v)
    } else {
        None
    }
}

/// Reads an integer written as decimal text, as `str::parse` does.
pub fn parse_integer_text(t: &str, kind: IntKind) -> (r: Option<i128>)
    ensures
        match r {
            Some(v) => parsed_integer(t@, kind) == Some(v as int),
            None => parsed_integer(t@, kind) is None,
        },
{
    let cs = chars_of(t);
    let negative = cs.len() > 0 && cs[0] == '-' && match kind {
        IntKind::Int8 | IntKind::Int16 | IntKind::Int32 | IntKind::Int64 => true,
        _ => false,
    };
    let start: usize = if cs.len() > 0 && (cs[0] == '+' || negative) {
        1
    } else {
        0
    };
    let ghost ds = if start == 1 {
        cs@.drop_first()
    } else {
        cs@
    };
    assert(negative == text_negative(t@, kind));
    assert(ds =~= cs@.subrange(start as int, cs.len() as int));
    let mut ms: Vec<char> = Vec::new();
    let mut i = start;
    while i < cs.len()
        invariant
            start <= i <= cs.len(),
            cs@ == t@,
            negative == text_negative(t@, kind),
            ds == text_digits(t@, kind),
            ds == cs@.subrange(start as int, cs.len() as int),
            ms@ == cs@.subrange(start as int, i as int),
            forall|k: int| 0 <= k < ms.len() ==> is_digit(#[trigger] ms@[k]),
        decreases cs.len() - i,
    {
        if !('0' <= cs[i] && cs[i] <= '9') {
            proof {
                assert(ds[i - start] == cs@[i as int]);
                assert(!is_digit(ds[i - start]));
                assert(!all_digits(ds));
            }
            return None;
        }
        ms.push(cs[i]);
        assert(cs@.subrange(start as int, i + 1) =~= cs@.subrange(start as int, i as int).push(cs@[i as int]));
        i = i + 1;
    }
    assert(ms@ =~= ds);
    if ms.len() == 0 {
        return None;
    }
    let magnitude = prefix_value(&ms, ms.len());
    assert(ms@.take(ms.len() as int) =~= ms@);
    let (lo, hi) = kind_range(kind);
    let v: i128 = if negative {
        -(magnitude as i128)
    } else {
        magnitude as i128
    };
    if lo <= v && v <= hi {
        Some(v)
    } else {
        None
    }
}

// ---------------------------------------------------------------------------
// Integers written and read back
// ---------------------------------------------------------------------------

pub(crate) proof fn lemma_decimal_digits(m: nat)
    ensures
        decimal_digits(m).len() > 0,
        all_digits(decimal_digits(m)),
        digits_value(decimal_digits(m)) == m,
    decreases m,
{
    if m >= 10 {
        lemma_decimal_digits(m / 10);
        let ds = decimal_digits(m / 10);
        let c = digit_char((m % 10) as int);
        assert(decimal_digits(m) == ds.push(c));
        assert(decimal_digits(m).drop_last() =~= ds);
        assert(decimal_digits(m).last() == c);
        assert(c as int == 48 + m % 10);
        assert(digit_val(c) == m % 10);
        assert(digits_value(decimal_digits(m)) == digits_value(ds) * 10 + digit_val(c));
        assert forall|i: int| 0 <= i < decimal_digits(m).len() implies is_digit(#[trigger] decimal_digits(m)[i]) by {
            if i < ds.len() {
                assert(decimal_digits(m)[i] == ds[i]);
            }
        }
    } else {
        assert(decimal_digits(m).drop_last() =~= Seq::<char>::empty());
        assert(digit_char(m as int) as int == 48 + m);
        assert(digits_value(decimal_digits(m)) == digits_value(Seq::<char>::empty()) * 10 + digit_val(digit_char(m as int)));
    }
}

proof fn lemma_digits_to_end(t: Seq<char>, a: int)
    requires
        0 <= a <= t.len(),
        forall|i: int| a <= i < t.len() ==> is_digit(#[trigger] t[i]),
    ensures
        digits_end(t, a) == t.len(),
{
    lemma_digits_end(t, a);
    if digits_end(t, a) < t.len() {
        assert(is_digit(t[digits_end(t, a)]));
    }
}

/// The parts of the decimal text of `n`: its sign, its digits, and the
/// point after the last of them.
pub(crate) proof fn lemma_decimal_parts(n: int)
    ensures
        is_number_text(decimal(n)),
        number_parts(decimal(n)).negative == (n < 0),
        digits_value(number_parts(decimal(n)).digits) == if n < 0 { -n } else { n },
        number_parts(decimal(n)).point == number_parts(decimal(n)).digits.len(),
{
    let m: nat = if n < 0 { (-n) as nat } else { n as nat };
    lemma_decimal_digits(m);
    let ds = decimal_digits(m);
    let t = decimal(n);
    let a: int = if n < 0 { 1 } else { 0 };
    assert(t.subrange(a, t.len() as int) =~= ds);
    assert forall|i: int| a <= i < t.len() implies is_digit(#[trigger] t[i]) by {
        assert(t[i] == ds[i - a]);
    }
    assert(0 < t.len() && t[0] == '-' <==> n < 0) by {
        if n >= 0 {
            assert(t[0] == ds[0]);
            assert(is_digit(ds[0]));
        }
    }
    lemma_digits_to_end(t, a);
    assert(number_parts(t).digits =~= ds);
}

/// Reading back an integer: the decimal text of an integer that a kind
/// holds gives that integer to a field of the kind.
pub proof fn integer_round_trip(n: int, kind: IntKind, field: Seq<char>)
    requires
        kind_bounds(kind).0 <= n <= kind_bounds(kind).1,
    ensures
        checked_integer(decimal(n), kind, field) == Ok::<int, ErrorModel>(n),
{
    lemma_decimal_parts(n);
    let np = number_parts(decimal(n));
    assert(point_index(np) == np.digits.len());
    assert(np.digits.take(np.digits.len() as int) =~= np.digits);
    assert(pow10(0) == 1);
    assert(int_part(np) == digits_value(np.digits));
}

/// The decimal text of any integer `n` gives `n` to a field of a kind whose
/// machine type holds `n`, and is refused as out of range by every other:
/// reading an integer never wraps, saturates or widens the field's type.
pub proof fn integer_fits_exactly(n: int, kind: IntKind, field: Seq<char>)
    ensures
        checked_integer(decimal(n), kind, field) == if machine_bounds(kind).0 <= n <= machine_bounds(kind).1 {
            Ok::<int, ErrorModel>(n)
        } else {
            Err::<int, ErrorModel>(ErrorOf::OutOfRange(kind, field, decimal(n)))
        },
{
    lemma_decimal_parts(n);
    let np = number_parts(decimal(n));
    assert(point_index(np) == np.digits.len());
    assert(np.digits.take(np.digits.len() as int) =~= np.digits);
    assert(pow10(0) == 1);
    assert(int_part(np) == digits_value(np.digits));
    if machine_bounds(kind).0 <= n <= machine_bounds(kind).1 {
        integer_round_trip(n, kind, field);
    }
}

/// Reading back a 64-bit integer from its string form: the decimal text of
/// an integer that the kind holds parses to that integer.
pub proof fn integer_text_round_trip(n: int, kind: IntKind)
    requires
        kind_bounds(kind).0 <= n <= kind_bounds(kind).1,
        kind != IntKind::DataByte,
    ensures
        parsed_integer(decimal(n), kind) == Some(n),
{
    lemma_decimal_parts(n);
    let m: nat = if n < 0 { (-n) as nat } else { n as nat };
    lemma_decimal_digits(m);
    let t = decimal(n);
    if n < 0 {
        assert(kind_signed(kind));
        assert(text_digits(t, kind) =~= decimal_digits(m));
    } else {
        assert(t[0] == decimal_digits(m)[0]);
        assert(is_digit(decimal_digits(m)[0]));
        assert(text_digits(t, kind) == t);
    }
}

/// Reading back an enum ordinal: the decimal text of an ordinal gives that
/// ordinal.
pub proof fn ordinal_round_trip(o: u16)
    ensures
        enum_ordinal(decimal(o as int)) == Ok::<u16, ErrorModel>(o),
{
    lemma_decimal_parts(o as int);
    let np = number_parts(decimal(o as int));
    assert(point_index(np) == np.digits.len());
    assert(np.digits.take(np.digits.len() as int) =~= np.digits);
    assert(pow10(0) == 1);
    assert(int_part(np) == o);
}

} // verus!
