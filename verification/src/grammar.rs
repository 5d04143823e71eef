//! The JSON grammar that the parser accepts, as specification functions over
//! the input's characters and a position in it.
//!
//! Each function says what reading a piece of JSON starting at a position
//! gives: the value read and the position just after it, or the error that
//! stops the reading. The executable parser in `parser.rs` is proved to give
//! exactly these results.
use vstd::prelude::*;
use crate::error::{ErrorOf, ErrorModel};
use crate::json::Json;

verus! {

/// The characters `char::is_whitespace` accepts: those with the Unicode
/// `White_Space` property.
pub open spec fn is_whitespace(c: char) -> bool {
    let v = c as u32;
    (9 <= v && v <= 13) || v == 32 || v == 0x85 || v == 0xa0 || v == 0x1680 || (0x2000 <= v
        && v <= 0x200a) || v == 0x2028 || v == 0x2029 || v == 0x202f || v == 0x205f || v == 0x3000
}

/// An ASCII decimal digit.
pub open spec fn is_digit(c: char) -> bool {
    '0' <= c && c <= '9'
}

/// The position of the first non-whitespace character at or after `p`.
pub open spec fn skip_ws(s: Seq<char>, p: int) -> int
    decreases s.len() - p,
{
    if 0 <= p < s.len() && is_whitespace(s[p]) {
        skip_ws(s, p + 1)
    } else {
        p
    }
}

/// The position of the first non-digit character at or after `p`.
pub open spec fn digits_end(s: Seq<char>, p: int) -> int
    decreases s.len() - p,
{
    if 0 <= p < s.len() && is_digit(s[p]) {
        digits_end(s, p + 1)
    } else {
        p
    }
}

/// Reading the characters `lit` one by one from `p`: the position after them.
pub open spec fn match_rest(s: Seq<char>, p: int, lit: Seq<char>) -> Result<int, ErrorModel>
    decreases lit.len(),
{
    if lit.len() == 0 {
        Ok(p)
    } else if p < 0 || p >= s.len() {
        Err(ErrorOf::UnexpectedEndOfInput)
    } else if s[p] != lit[0] {
        Err(ErrorOf::InvalidToken(s[p]))
    } else {
        match_rest(s, p + 1, lit.drop_first())
    }
}

/// The value of a hexadecimal digit of either case.
pub open spec fn hex_value(c: char) -> Option<int> {
    if '0' <= c && c <= '9' {
        Some(c as int - 48)
    } else if 'a' <= c && c <= 'f' {
        Some(c as int - 97 + 10)
    } else if 'A' <= c && c <= 'F' {
        Some(c as int - 65 + 10)
    } else {
        None
    }
}

/// The number that `u16::from_str_radix(h, 16)` reads from four characters:
/// an optional `+` followed by hexadecimal digits only.
pub open spec fn hex4_value(h: Seq<char>) -> Option<int> {
    if h[0] == '+' {
        if hex_value(h[1]) is Some && hex_value(h[2]) is Some && hex_value(h[3]) is Some {
            Some(
                hex_value(h[1]).unwrap() * 256 + hex_value(h[2]).unwrap() * 16 + hex_value(
                    h[3],
                ).unwrap(),
            )
        } else {
            None
        }
    } else if hex_value(h[0]) is Some && hex_value(h[1]) is Some && hex_value(h[2]) is Some
        && hex_value(h[3]) is Some {
        Some(
            hex_value(h[0]).unwrap() * 4096 + hex_value(h[1]).unwrap() * 256 + hex_value(
                h[2],
            ).unwrap() * 16 + hex_value(h[3]).unwrap(),
        )
    } else {
        None
    }
}

/// A UTF-16 leading (high) surrogate.
pub open spec fn is_leading_surrogate(u: int) -> bool {
    0xd800 <= u && u <= 0xdbff
}

/// A UTF-16 trailing (low) surrogate.
pub open spec fn is_trailing_surrogate(u: int) -> bool {
    0xdc00 <= u && u <= 0xdfff
}

/// The code point a surrogate pair stands for.
pub open spec fn surrogate_pair_value(high: int, low: int) -> int {
    0x10000 + (high - 0xd800) * 1024 + (low - 0xdc00)
}

/// Reading a `\uXXXX` escape whose `\u` ends just before `p`: the character
/// it stands for, combining a surrogate pair, and the position after it.
pub open spec fn unicode_escape(s: Seq<char>, p: int) -> Result<(char, int), ErrorModel> {
    if p < 0 || p + 4 > s.len() {
        Err(ErrorOf::UnexpectedEndOfInput)
    } else {
        match hex4_value(s.subrange(p, p + 4)) {
            None => Err(ErrorOf::InvalidUnicodeEscape(s.subrange(p, p + 4))),
            Some(u) => if is_trailing_surrogate(u) {
                Err(ErrorOf::UnpairedTrailingSurrogate(u as u16))
            } else if is_leading_surrogate(u) {
                if p + 4 >= s.len() || s[p + 4] != '\\' {
                    Err(ErrorOf::UnpairedLeadingSurrogate(u as u16))
                } else if p + 5 >= s.len() {
                    Err(ErrorOf::UnexpectedEndOfInput)
                } else if s[p + 5] != 'u' {
                    Err(ErrorOf::InvalidToken(s[p + 5]))
                } else if p + 10 > s.len() {
                    Err(ErrorOf::UnexpectedEndOfInput)
                } else {
                    match hex4_value(s.subrange(p + 6, p + 10)) {
                        None => Err(ErrorOf::InvalidUnicodeEscape(s.subrange(p + 6, p + 10))),
                        Some(l) => if !is_trailing_surrogate(l) {
                            Err(ErrorOf::InvalidSurrogatePair(u as u16, l as u16))
                        } else {
                            Ok((surrogate_pair_value(u, l) as char, p + 10))
                        },
                    }
                }
            } else {
                Ok((u as char, p + 4))
            },
        }
    }
}

/// The character a one-character escape `\e` stands for.
pub open spec fn simple_escape(e: char) -> Option<char> {
    if e == '"' {
        Some('"')
    } else if e == '\\' {
        Some('\\')
    } else if e == '/' {
        Some('/')
    } else if e == 'b' {
        Some('\u{8}')
    } else if e == 'f' {
        Some('\u{c}')
    } else if e == 'n' {
        Some('\n')
    } else if e == 'r' {
        Some('\r')
    } else if e == 't' {
        Some('\t')
    } else {
        None
    }
}

/// Reading the rest of a string literal whose opening quote ends before `p`,
/// `acc` holding what has been read so far: the string and the position
/// after the closing quote.
pub open spec fn string_body(s: Seq<char>, p: int, acc: Seq<char>) -> Result<(Seq<char>, int), ErrorModel>
    decreases s.len() - p,
{
    if p < 0 || p >= s.len() {
        Err(ErrorOf::UnexpectedEndOfInput)
    } else if s[p] == '"' {
        Ok((acc, p + 1))
    } else if s[p] == '\\' {
        if p + 1 >= s.len() {
            Err(ErrorOf::UnexpectedEndOfInput)
        } else if s[p + 1] == 'u' {
            match unicode_escape(s, p + 2) {
                Err(e) => Err(e),
                Ok((c, q)) => if q <= p || q > s.len() {
                    Err(ErrorOf::UnexpectedEndOfInput)
                } else {
                    string_body(s, q, acc.push(c))
                },
            }
        } else {
            match simple_escape(s[p + 1]) {
                Some(c) => string_body(s, p + 2, acc.push(c)),
                None => Err(ErrorOf::InvalidEscape(s[p + 1])),
            }
        }
    } else {
        string_body(s, p + 1, acc.push(s[p]))
    }
}

/// Reading a string literal, after any whitespace, from `p`.
pub open spec fn string_at(s: Seq<char>, p: int) -> Result<(Seq<char>, int), ErrorModel> {
    let q = skip_ws(s, p);
    if q < 0 || q >= s.len() {
        Err(ErrorOf::UnexpectedEndOfInput)
    } else if s[q] != '"' {
        Err(ErrorOf::InvalidToken(s[q]))
    } else {
        string_body(s, q + 1, seq![])
    }
}

/// Where the number text starting at `q` ends: an optional `-`, digits, an
/// optional `.` and digits, an optional `e` or `E` with an optional sign and
/// digits.
pub open spec fn number_end(s: Seq<char>, q: int) -> int {
    let a = if q < s.len() && s[q] == '-' { q + 1 } else { q };
    let b = digits_end(s, a);
    let c = if b < s.len() && s[b] == '.' { digits_end(s, b + 1) } else { b };
    if c < s.len() && (s[c] == 'e' || s[c] == 'E') {
        let d = if c + 1 < s.len() && (s[c + 1] == '+' || s[c + 1] == '-') { c + 2 } else { c + 1 };
        digits_end(s, d)
    } else {
        c
    }
}

/// Whether number text, read as `number_end` reads it, is a decimal number
/// that `f64::from_str` accepts: at least one digit before or after the
/// point, and at least one exponent digit when there is an exponent.
pub open spec fn number_text_valid(t: Seq<char>) -> bool {
    let a = if 0 < t.len() && t[0] == '-' { 1int } else { 0int };
    let b = digits_end(t, a);
    let has_point = b < t.len() && t[b] == '.';
    let c = if has_point { digits_end(t, b + 1) } else { b };
    let mantissa_ok = b > a || (has_point && c > b + 1);
    if c < t.len() && (t[c] == 'e' || t[c] == 'E') {
        let d = if c + 1 < t.len() && (t[c + 1] == '+' || t[c + 1] == '-') { c + 2 } else { c + 1 };
        mantissa_ok && digits_end(t, d) > d
    } else {
        mantissa_ok
    }
}

/// Reading a number whose first character is at `q`.
pub open spec fn number_at(s: Seq<char>, q: int) -> Result<(Json, int), ErrorModel> {
    let t = s.subrange(q, number_end(s, q));
    if number_text_valid(t) {
        Ok((Json::Number(t), number_end(s, q)))
    } else {
        Err(ErrorOf::InvalidNumber(t))
    }
}

/// Whether an object's members so far already name `key`.
pub open spec fn has_key(members: Seq<(Seq<char>, Json)>, key: Seq<char>) -> bool {
    exists|i: int| 0 <= i < members.len() && #[trigger] members[i].0 == key
}

/// Reading a JSON value, after any whitespace, from `p`, inside `level`
/// enclosing arrays and objects, with at most `limit` of them allowed.
pub open spec fn value_at(s: Seq<char>, p: int, level: nat, limit: nat) -> Result<(Json, int), ErrorModel>
    decreases s.len() - p, 0int,
{
    if p < 0 || p > s.len() {
        Err(ErrorOf::UnexpectedEndOfInput)
    } else {
        let q = skip_ws(s, p);
        proof {
            lemma_skip_ws(s, p);
        }
        if q >= s.len() {
            Err(ErrorOf::UnexpectedEndOfInput)
        } else {
            let c = s[q];
            if c == 'n' {
                match match_rest(s, q + 1, seq!['u', 'l', 'l']) {
                    Ok(e) => Ok((Json::Null, e)),
                    Err(e) => Err(e),
                }
            } else if c == 't' {
                match match_rest(s, q + 1, seq!['r', 'u', 'e']) {
                    Ok(e) => Ok((Json::Boolean(true), e)),
                    Err(e) => Err(e),
                }
            } else if c == 'f' {
                match match_rest(s, q + 1, seq!['a', 'l', 's', 'e']) {
                    Ok(e) => Ok((Json::Boolean(false), e)),
                    Err(e) => Err(e),
                }
            } else if c == '"' {
                match string_body(s, q + 1, seq![]) {
                    Ok((t, e)) => Ok((Json::String(t), e)),
                    Err(e) => Err(e),
                }
            } else if is_digit(c) || c == '-' {
                number_at(s, q)
            } else if c == '[' {
                if level >= limit {
                    Err(ErrorOf::RecursionLimitParsing)
                } else {
                    elements_at(s, q + 1, level, limit, seq![], false)
                }
            } else if c == '{' {
                if level >= limit {
                    Err(ErrorOf::RecursionLimitParsing)
                } else {
                    members_at(s, q + 1, level, limit, seq![], false)
                }
            } else {
                Err(ErrorOf::InvalidToken(c))
            }
        }
    }
}

/// Reading the rest of an array from `p`, `acc` holding the elements read so
/// far and `require_comma` saying whether one has been read.
pub open spec fn elements_at(
    s: Seq<char>,
    p: int,
    level: nat,
    limit: nat,
    acc: Seq<Json>,
    require_comma: bool,
) -> Result<(Json, int), ErrorModel>
    decreases s.len() - p, 1int,
{
    if p < 0 || p > s.len() {
        Err(ErrorOf::UnexpectedEndOfInput)
    } else {
        let q = skip_ws(s, p);
        proof {
            lemma_skip_ws(s, p);
        }
        if q >= s.len() {
            Err(ErrorOf::UnexpectedEndOfInput)
        } else if s[q] == ']' {
            Ok((Json::Array(acc), q + 1))
        } else if require_comma && s[q] != ',' {
            Err(ErrorOf::InvalidToken(s[q]))
        } else {
            let r = if require_comma { q + 1 } else { q };
            match value_at(s, r, level + 1, limit) {
                Err(e) => Err(e),
                Ok((v, e)) => if e <= p || e > s.len() {
                    Err(ErrorOf::UnexpectedEndOfInput)
                } else {
                    elements_at(s, e, level, limit, acc.push(v), true)
                },
            }
        }
    }
}

/// Reading the rest of an object from `p`, `acc` holding the members read so
/// far and `require_comma` saying whether one has been read.
pub open spec fn members_at(
    s: Seq<char>,
    p: int,
    level: nat,
    limit: nat,
    acc: Seq<(Seq<char>, Json)>,
    require_comma: bool,
) -> Result<(Json, int), ErrorModel>
    decreases s.len() - p, 1int,
{
    if p < 0 || p > s.len() {
        Err(ErrorOf::UnexpectedEndOfInput)
    } else {
        let q = skip_ws(s, p);
        proof {
            lemma_skip_ws(s, p);
        }
        if q >= s.len() {
            Err(ErrorOf::UnexpectedEndOfInput)
        } else if s[q] == '}' {
            Ok((Json::Object(acc), q + 1))
        } else if require_comma && s[q] != ',' {
            Err(ErrorOf::InvalidToken(s[q]))
        } else {
            let r = if require_comma { q + 1 } else { q };
            match string_at(s, r) {
                Err(e) => Err(e),
                Ok((key, ke)) => {
                    let c = skip_ws(s, ke);
                    if ke < p || c < 0 || c >= s.len() {
                        Err(ErrorOf::UnexpectedEndOfInput)
                    } else if s[c] != ':' {
                        Err(ErrorOf::InvalidToken(s[c]))
                    } else {
                        proof {
                            lemma_skip_ws(s, ke);
                        }
                        match value_at(s, c + 1, level + 1, limit) {
                            Err(e) => Err(e),
                            Ok((v, e)) => if has_key(acc, key) {
                                Err(ErrorOf::DuplicateKey(key))
                            } else if e <= p || e > s.len() {
                                Err(ErrorOf::UnexpectedEndOfInput)
                            } else {
                                members_at(s, e, level, limit, acc.push((key, v)), true)
                            },
                        }
                    }
                },
            }
        }
    }
}

/// Reading a whole JSON document: one value, then nothing but whitespace.
pub open spec fn document(s: Seq<char>, limit: nat) -> Result<Json, ErrorModel> {
    match value_at(s, 0, 0, limit) {
        Err(e) => Err(e),
        Ok((v, e)) => if skip_ws(s, e) < s.len() {
            Err(ErrorOf::TrailingCharacters)
        } else {
            Ok(v)
        },
    }
}

// ---------------------------------------------------------------------------
// Laws of escapes
// ---------------------------------------------------------------------------

/// Every escape JSON defines reads as its character, wherever it stands in a
/// string: `\"`, `\\`, `\/`, `\b`, `\f`, `\n`, `\r` and `\t` add `"`,
/// `\`, `/`, backspace, form feed, line feed, carriage return and tab, and
/// reading goes on after the escape.
pub proof fn simple_escapes_read_as_their_characters(s: Seq<char>, p: int, acc: Seq<char>)
    requires
        0 <= p,
        p + 1 < s.len(),
        s[p] == '\\',
    ensures
        s[p + 1] == '"' ==> string_body(s, p, acc) == string_body(s, p + 2, acc.push('"')),
        s[p + 1] == '\\' ==> string_body(s, p, acc) == string_body(s, p + 2, acc.push('\\')),
        s[p + 1] == '/' ==> string_body(s, p, acc) == string_body(s, p + 2, acc.push('/')),
        s[p + 1] == 'b' ==> string_body(s, p, acc) == string_body(s, p + 2, acc.push('\u{8}')),
        s[p + 1] == 'f' ==> string_body(s, p, acc) == string_body(s, p + 2, acc.push('\u{c}')),
        s[p + 1] == 'n' ==> string_body(s, p, acc) == string_body(s, p + 2, acc.push('\u{a}')),
        s[p + 1] == 'r' ==> string_body(s, p, acc) == string_body(s, p + 2, acc.push('\u{d}')),
        s[p + 1] == 't' ==> string_body(s, p, acc) == string_body(s, p + 2, acc.push('\u{9}')),
{
}

/// The lower-case form of a hexadecimal letter; any other character is
/// unchanged.
pub open spec fn hex_lower(c: char) -> char {
    if 'A' <= c && c <= 'F' {
        ((c as int) + 32) as char
    } else {
        c
    }
}

/// Hexadecimal digits denote their values, letters of either case alike:
/// `0`..`9` are 0..9, and `a`..`f` and `A`..`F` are 10..15.
pub proof fn hex_digit_values(i: int)
    ensures
        0 <= i < 10 ==> hex_value((48 + i) as char) == Some(i),
        0 <= i < 6 ==> hex_value((97 + i) as char) == Some(10 + i),
        0 <= i < 6 ==> hex_value((65 + i) as char) == Some(10 + i),
{
}

/// A character reads as the same hex digit, or as none, in either case.
proof fn lemma_hex_lower(c: char)
    ensures
        hex_value(hex_lower(c)) == hex_value(c),
        (hex_lower(c) == '+') == (c == '+'),
{
}

/// Four hexadecimal digits denote the same number whatever the case of
/// their letters.
pub proof fn hex4_case_insensitive(h: Seq<char>)
    requires
        h.len() == 4,
    ensures
        hex4_value(h.map_values(|c: char| hex_lower(c))) == hex4_value(h),
{
    let l = h.map_values(|c: char| hex_lower(c));
    lemma_hex_lower(h[0]);
    lemma_hex_lower(h[1]);
    lemma_hex_lower(h[2]);
    lemma_hex_lower(h[3]);
    assert(l[0] == hex_lower(h[0]) && l[1] == hex_lower(h[1]) && l[2] == hex_lower(h[2]) && l[3] == hex_lower(h[3]));
}

/// A `\uXXXX` escape reads as the same character whatever the case of the
/// letters among its four digits.
pub proof fn unicode_escape_case_insensitive(s: Seq<char>, p: int)
    requires
        0 <= p,
        p + 4 <= s.len(),
    ensures
        ({
            let s2 = s.subrange(0, p) + s.subrange(p, p + 4).map_values(|c: char| hex_lower(c)) + s.subrange(
                p + 4,
                s.len() as int,
            );
            unicode_escape(s, p) is Ok ==> unicode_escape(s2, p) == unicode_escape(s, p)
        }),
{
    let h = s.subrange(p, p + 4);
    let s2 = s.subrange(0, p) + h.map_values(|c: char| hex_lower(c)) + s.subrange(p + 4, s.len() as int);
    hex4_case_insensitive(h);
    assert(s2.len() == s.len());
    assert(s2.subrange(p, p + 4) =~= h.map_values(|c: char| hex_lower(c)));
    assert forall|i: int| p + 4 <= i < s.len() implies s2[i] == s[i] by {}
    if p + 10 <= s.len() {
        assert(s2.subrange(p + 6, p + 10) =~= s.subrange(p + 6, p + 10));
    }
}

// ---------------------------------------------------------------------------
// Facts about positions
// ---------------------------------------------------------------------------

/// Skipping whitespace moves forward, stays within the input, stops at a
/// non-whitespace character and is idempotent.
pub proof fn lemma_skip_ws(s: Seq<char>, p: int)
    requires
        0 <= p <= s.len(),
    ensures
        p <= skip_ws(s, p) <= s.len(),
        skip_ws(s, p) < s.len() ==> !is_whitespace(s[skip_ws(s, p)]),
        skip_ws(s, skip_ws(s, p)) == skip_ws(s, p),
        forall|i: int| p <= i < skip_ws(s, p) ==> is_whitespace(#[trigger] s[i]),
    decreases s.len() - p,
{
    if 0 <= p < s.len() && is_whitespace(s[p]) {
        lemma_skip_ws(s, p + 1);
    }
}

/// Reading digits moves forward, stays within the input and stops at a
/// non-digit.
pub proof fn lemma_digits_end(s: Seq<char>, p: int)
    requires
        0 <= p <= s.len(),
    ensures
        p <= digits_end(s, p) <= s.len(),
        digits_end(s, p) < s.len() ==> !is_digit(s[digits_end(s, p)]),
        forall|i: int| p <= i < digits_end(s, p) ==> is_digit(#[trigger] s[i]),
    decreases s.len() - p,
{
    if 0 <= p < s.len() && is_digit(s[p]) {
        lemma_digits_end(s, p + 1);
    }
}

/// A literal that matches ends exactly after it.
pub proof fn lemma_match_rest(s: Seq<char>, p: int, lit: Seq<char>)
    requires
        0 <= p <= s.len(),
    ensures
        match_rest(s, p, lit) matches Ok(e) ==> e == p + lit.len() && e <= s.len(),
    decreases lit.len(),
{
    if lit.len() > 0 && 0 <= p < s.len() && s[p] == lit[0] {
        lemma_match_rest(s, p + 1, lit.drop_first());
    }
}

/// A string body that is read ends after where it started.
pub proof fn lemma_string_body(s: Seq<char>, p: int, acc: Seq<char>)
    ensures
        string_body(s, p, acc) matches Ok((t, e)) ==> p < e <= s.len(),
    decreases s.len() - p,
{
    if 0 <= p < s.len() && s[p] != '"' {
        if s[p] == '\\' {
            if p + 1 < s.len() {
                if s[p + 1] == 'u' {
                    if let Ok((c, q)) = unicode_escape(s, p + 2) {
                        if p < q <= s.len() {
                            lemma_string_body(s, q, acc.push(c));
                        }
                    }
                } else if let Some(c) = simple_escape(s[p + 1]) {
                    lemma_string_body(s, p + 2, acc.push(c));
                }
            }
        } else {
            lemma_string_body(s, p + 1, acc.push(s[p]));
        }
    }
}

/// A `\u` escape that is read ends after where it started.
pub proof fn lemma_unicode_escape(s: Seq<char>, p: int)
    ensures
        unicode_escape(s, p) matches Ok((c, e)) ==> p < e <= s.len(),
{
}

/// A string literal that is read ends after where it started.
pub proof fn lemma_string_at(s: Seq<char>, p: int)
    requires
        0 <= p <= s.len(),
    ensures
        string_at(s, p) matches Ok((t, e)) ==> p < e <= s.len(),
{
    lemma_skip_ws(s, p);
    lemma_string_body(s, skip_ws(s, p) + 1, seq![]);
}

/// A value that is read ends after where it started and within the input.
pub proof fn lemma_value_at(s: Seq<char>, p: int, level: nat, limit: nat)
    ensures
        value_at(s, p, level, limit) matches Ok((v, e)) ==> p < e <= s.len(),
    decreases s.len() - p, 0int,
{
    if 0 <= p <= s.len() {
        lemma_skip_ws(s, p);
        let q = skip_ws(s, p);
        if q < s.len() {
            let c = s[q];
            if c == 'n' {
                lemma_match_rest(s, q + 1, seq!['u', 'l', 'l']);
            } else if c == 't' {
                lemma_match_rest(s, q + 1, seq!['r', 'u', 'e']);
            } else if c == 'f' {
                lemma_match_rest(s, q + 1, seq!['a', 'l', 's', 'e']);
            } else if c == '"' {
                lemma_string_body(s, q + 1, seq![]);
            } else if is_digit(c) || c == '-' {
                lemma_number_end(s, q);
            } else if c == '[' {
                if level < limit {
                    lemma_elements_at(s, q + 1, level, limit, seq![], false);
                }
            } else if c == '{' {
                if level < limit {
                    lemma_members_at(s, q + 1, level, limit, seq![], false);
                }
            }
        }
    }
}

/// The rest of an array that is read ends after where it started.
pub proof fn lemma_elements_at(
    s: Seq<char>,
    p: int,
    level: nat,
    limit: nat,
    acc: Seq<Json>,
    require_comma: bool,
)
    ensures
        elements_at(s, p, level, limit, acc, require_comma) matches Ok((v, e)) ==> p < e <= s.len(),
    decreases s.len() - p, 1int,
{
    if 0 <= p <= s.len() {
        lemma_skip_ws(s, p);
        let q = skip_ws(s, p);
        if q < s.len() && s[q] != ']' && !(require_comma && s[q] != ',') {
            let r = if require_comma { q + 1 } else { q };
            if let Ok((v, e)) = value_at(s, r, level + 1, limit) {
                if p < e <= s.len() {
                    lemma_elements_at(s, e, level, limit, acc.push(v), true);
                }
            }
        }
    }
}

/// The rest of an object that is read ends after where it started.
pub proof fn lemma_members_at(
    s: Seq<char>,
    p: int,
    level: nat,
    limit: nat,
    acc: Seq<(Seq<char>, Json)>,
    require_comma: bool,
)
    ensures
        members_at(s, p, level, limit, acc, require_comma) matches Ok((v, e)) ==> p < e <= s.len(),
    decreases s.len() - p, 1int,
{
    if 0 <= p <= s.len() {
        lemma_skip_ws(s, p);
        let q = skip_ws(s, p);
        if q < s.len() && s[q] != '}' && !(require_comma && s[q] != ',') {
            let r = if require_comma { q + 1 } else { q };
            if let Ok((key, ke)) = string_at(s, r) {
                let c = skip_ws(s, ke);
                if ke >= p && 0 <= c < s.len() && s[c] == ':' {
                    if let Ok((v, e)) = value_at(s, c + 1, level + 1, limit) {
                        if !has_key(acc, key) && p < e <= s.len() {
                            lemma_members_at(s, e, level, limit, acc.push((key, v)), true);
                        }
                    }
                }
            }
        }
    }
}

/// Number text that starts with a digit or `-` is not empty and stays
/// within the input.
pub proof fn lemma_number_end(s: Seq<char>, q: int)
    requires
        0 <= q < s.len(),
        is_digit(s[q]) || s[q] == '-',
    ensures
        q < number_end(s, q) <= s.len(),
{
    let a = if q < s.len() && s[q] == '-' { q + 1 } else { q };
    lemma_digits_end(s, a);
    let b = digits_end(s, a);
    if b < s.len() && s[b] == '.' {
        lemma_digits_end(s, b + 1);
    }
    let c = if b < s.len() && s[b] == '.' { digits_end(s, b + 1) } else { b };
    if c < s.len() && (s[c] == 'e' || s[c] == 'E') {
        let d = if c + 1 < s.len() && (s[c + 1] == '+' || s[c + 1] == '-') { c + 2 } else { c + 1 };
        lemma_digits_end(s, d);
    }
}

} // verus!
