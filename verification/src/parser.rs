//! The JSON parser.
use vstd::prelude::*;
use crate::error::{Error, ErrorOf};
use crate::grammar::{
    is_whitespace, skip_ws, digits_end, hex_value, hex4_value, unicode_escape, string_at,
    string_body, number_end, match_rest, document, number_text_valid, value_at, elements_at, members_at, has_key,
    lemma_skip_ws, lemma_digits_end, lemma_unicode_escape, lemma_string_at, lemma_value_at,
};
use crate::json::{Json, JsonValue, items_view, members_view, lemma_items_view, lemma_members_view};
use crate::options::CodecOptions;
use crate::strbuf::{chars_of, push_char};

verus! {

/// Converts a `u32` to the `char` with that value through `char::from_u32`,
/// which the standard library documents as returning `None` exactly for
/// surrogates and values above `0x10FFFF`.
#[verifier::external_body]
fn char_from_u32(v: u32) -> (r: Option<char>)
    ensures
        r == (if v <= 0x10ffff && !(0xd800 <= v && v <= 0xdfff) {
            Some(v as char)
        } else {
            None
        }),
{
    char::from_u32(v)
}

/// Whether `c` is whitespace, as `char::is_whitespace` decides it.
pub fn is_whitespace_char(c: char) -> (r: bool)
    ensures
        r == is_whitespace(c),
{
    let v = c as u32;
    (9 <= v && v <= 13) || v == 32 || v == 0x85 || v == 0xa0 || v == 0x1680 || (0x2000 <= v && v
        <= 0x200a) || v == 0x2028 || v == 0x2029 || v == 0x202f || v == 0x205f || v == 0x3000
}

fn hex_value_exec(c: char) -> (r: Option<u32>)
    ensures
        match hex_value(c) {
            Some(v) => r == Some(v as u32),
            None => r is None,
        },
{
    let v = c as u32;
    if '0' <= c && c <= '9' {
        Some(v - 48)
    } else if 'a' <= c && c <= 'f' {
        Some(v - 97 + 10)
    } else if 'A' <= c && c <= 'F' {
        Some(v - 65 + 10)
    } else {
        None
    }
}

fn digits_end_exec(cs: &Vec<char>, p: usize) -> (r: usize)
    requires
        p <= cs.len(),
    ensures
        r == digits_end(cs@, p as int),
{
    let mut i = p;
    proof {
        lemma_digits_end(cs@, p as int);
    }
    while i < cs.len() && '0' <= cs[i] && cs[i] <= '9'
        invariant
            p <= i <= cs.len(),
            digits_end(cs@, i as int) == digits_end(cs@, p as int),
        decreases cs.len() - i,
    {
        i = i + 1;
    }
    i
}

/// Whether number text is a decimal number that `f64::from_str` accepts.
pub fn is_valid_number(text: &str) -> (r: bool)
    ensures
        r == number_text_valid(text@),
{
    let t = chars_of(text);
    let a: usize = if 0 < t.len() && t[0] == '-' { 1 } else { 0 };
    let b = digits_end_exec(&t, a);
    proof {
        lemma_digits_end(t@, a as int);
    }
    let has_point = b < t.len() && t[b] == '.';
    let c = if has_point { digits_end_exec(&t, b + 1) } else { b };
    proof {
        if has_point {
            lemma_digits_end(t@, b + 1);
        }
    }
    let mantissa_ok = b > a || (has_point && c > b + 1);
    if c < t.len() && (t[c] == 'e' || t[c] == 'E') {
        let d: usize = if c + 1 < t.len() && (t[c + 1] == '+' || t[c + 1] == '-') {
            c + 2
        } else {
            c + 1
        };
        mantissa_ok && digits_end_exec(&t, d) > d
    } else {
        mantissa_ok
    }
}

/// A JSON parser over the characters of its input.
pub struct Parser {
    input: Vec<char>,
    pos: usize,
}

impl Parser {
    /// The characters being parsed.
    pub closed spec fn text(&self) -> Seq<char> {
        self.input@
    }

    /// How many characters have been consumed.
    pub closed spec fn position(&self) -> int {
        self.pos as int
    }

    /// The position is within the input.
    pub closed spec fn wf(&self) -> bool {
        self.pos <= self.input.len()
    }

    /// A parser is well-formed exactly when its position is within its
    /// text.
    pub proof fn lemma_wf(&self)
        ensures
            self.wf() <==> 0 <= self.position() <= self.text().len(),
    {
    }

    /// A parser at the start of `input`.
    pub fn new(input: &str) -> (r: Parser)
        ensures
            r.wf(),
            r.text() == input@,
            r.position() == 0,
    {
        Parser { input: chars_of(input), pos: 0 }
    }

    /// The next character, if any, without consuming it.
    pub fn peek(&self) -> (r: Option<char>)
        requires
            self.wf(),
        ensures
            r == (if self.position() < self.text().len() {
                Some(self.text()[self.position()])
            } else {
                None
            }),
    {
        if self.pos < self.input.len() {
            Some(self.input[self.pos])
        } else {
            None
        }
    }

    /// Consumes the next character.
    pub fn advance(&mut self) -> (r: Result<char, Error>)
        requires
            old(self).wf(),
        ensures
            final(self).wf(),
            final(self).text() == old(self).text(),
            old(self).position() < old(self).text().len() ==> r == Ok::<char, Error>(
                old(self).text()[old(self).position()],
            ) && final(self).position() == old(self).position() + 1,
            old(self).position() >= old(self).text().len() ==> r == Err::<char, Error>(
                ErrorOf::UnexpectedEndOfInput,
            ) && final(self).position() == old(self).position(),
    {
        if self.pos < self.input.len() {
            let c = self.input[self.pos];
            self.pos = self.pos + 1;
            Ok(c)
        } else {
            Err(ErrorOf::UnexpectedEndOfInput)
        }
    }

    /// Consumes the next character if it is `c`; otherwise an error.
    pub fn consume(&mut self, c: char) -> (r: Result<char, Error>)
        requires
            old(self).wf(),
        ensures
            final(self).wf(),
            final(self).text() == old(self).text(),
            ({
                let s = old(self).text();
                let p = old(self).position();
                if p >= s.len() {
                    r == Err::<char, Error>(ErrorOf::UnexpectedEndOfInput)
                } else if s[p] == c {
                    r == Ok::<char, Error>(c) && final(self).position() == p + 1
                } else {
                    r == Err::<char, Error>(ErrorOf::InvalidToken(s[p]))
                }
            }),
    {
        match self.advance() {
            Ok(p) => if p == c {
                Ok(p)
            } else {
                Err(ErrorOf::InvalidToken(p))
            },
            Err(e) => Err(e),
        }
    }

    /// Consumes any whitespace.
    pub fn discard_whitespace(&mut self)
        requires
            old(self).wf(),
        ensures
            final(self).wf(),
            final(self).text() == old(self).text(),
            final(self).position() == skip_ws(old(self).text(), old(self).position()),
    {
        proof {
            lemma_skip_ws(self.input@, self.pos as int);
        }
        while self.pos < self.input.len() && is_whitespace_char(self.input[self.pos])
            invariant
                self.wf(),
                self.text() == old(self).text(),
                skip_ws(self.text(), self.position()) == skip_ws(
                    old(self).text(),
                    old(self).position(),
                ),
            decreases self.input.len() - self.pos,
        {
            self.pos = self.pos + 1;
        }
    }

    /// Consumes any whitespace and returns the next character, if any,
    /// without consuming it.
    pub fn peek_next(&mut self) -> (r: Option<char>)
        requires
            old(self).wf(),
        ensures
            final(self).wf(),
            final(self).text() == old(self).text(),
            final(self).position() == skip_ws(old(self).text(), old(self).position()),
            r == (if final(self).position() < final(self).text().len() {
                Some(final(self).text()[final(self).position()])
            } else {
                None
            }),
    {
        self.discard_whitespace();
        self.peek()
    }

    /// Consumes any whitespace, then the next character if it is `c`;
    /// otherwise an error.
    pub fn consume_next(&mut self, c: char) -> (r: Result<char, Error>)
        requires
            old(self).wf(),
        ensures
            final(self).wf(),
            final(self).text() == old(self).text(),
            ({
                let s = old(self).text();
                let p = skip_ws(s, old(self).position());
                if p >= s.len() {
                    r == Err::<char, Error>(ErrorOf::UnexpectedEndOfInput)
                } else if s[p] == c {
                    r == Ok::<char, Error>(c) && final(self).position() == p + 1
                } else {
                    r == Err::<char, Error>(ErrorOf::InvalidToken(s[p]))
                }
            }),
    {
        self.discard_whitespace();
        self.consume(c)
    }

    /// Reads the four hexadecimal digits of a `\uXXXX` escape, the `\u`
    /// itself having already been consumed.
    fn parse_hex4(&mut self) -> (r: Result<u16, Error>)
        requires
            old(self).wf(),
        ensures
            final(self).wf(),
            final(self).text() == old(self).text(),
            ({
                let s = old(self).text();
                let p = old(self).position();
                if p + 4 > s.len() {
                    r == Err::<u16, Error>(ErrorOf::UnexpectedEndOfInput)
                } else {
                    match hex4_value(s.subrange(p, p + 4)) {
                        None => r matches Err(e) && e@ == ErrorOf::<Seq<char>>::InvalidUnicodeEscape(
                            s.subrange(p, p + 4),
                        ),
                        Some(v) => r == Ok::<u16, Error>(v as u16) && final(self).position() == p + 4,
                    }
                }
            }),
    {
        let ghost s = self.text();
        let ghost p = self.position();
        let c0 = match self.advance() {
            Ok(c) => c,
            Err(e) => return Err(e),
        };
        let c1 = match self.advance() {
            Ok(c) => c,
            Err(e) => return Err(e),
        };
        let c2 = match self.advance() {
            Ok(c) => c,
            Err(e) => return Err(e),
        };
        let c3 = match self.advance() {
            Ok(c) => c,
            Err(e) => return Err(e),
        };
        let ghost h = s.subrange(p, p + 4);
        assert(h[0] == c0 && h[1] == c1 && h[2] == c2 && h[3] == c3);
        let value: Option<u32> = if c0 == '+' {
            match (hex_value_exec(c1), hex_value_exec(c2), hex_value_exec(c3)) {
                (Some(d1), Some(d2), Some(d3)) => Some(d1 * 256 + d2 * 16 + d3),
                _ => None,
            }
        } else {
            match (hex_value_exec(c0), hex_value_exec(c1), hex_value_exec(c2), hex_value_exec(c3)) {
                (Some(d0), Some(d1), Some(d2), Some(d3)) => Some(d0 * 4096 + d1 * 256 + d2 * 16 + d3),
                _ => None,
            }
        };
        match value {
            Some(v) => Ok(v as u16),
            None => {
                let mut hex = String::new();
                push_char(&mut hex, c0);
                push_char(&mut hex, c1);
                push_char(&mut hex, c2);
                push_char(&mut hex, c3);
                assert(hex@ =~= h);
                Err(ErrorOf::InvalidUnicodeEscape(hex))
            },
        }
    }

    /// Decodes a `\uXXXX` escape, the `\u` having been consumed, combining a
    /// surrogate pair into the single character it stands for and rejecting
    /// an unpaired surrogate.
    fn parse_unicode_escape(&mut self) -> (r: Result<char, Error>)
        requires
            old(self).wf(),
        ensures
            final(self).wf(),
            final(self).text() == old(self).text(),
            match unicode_escape(old(self).text(), old(self).position()) {
                Ok((c, e)) => r == Ok::<char, Error>(c) && final(self).position() == e,
                Err(err) => r matches Err(x) && x@ == err,
            },
    {
        let ghost s = self.text();
        let ghost p = self.position();
        let unit = match self.parse_hex4() {
            Ok(u) => u,
            Err(e) => return Err(e),
        };
        if 0xdc00 <= unit && unit <= 0xdfff {
            return Err(ErrorOf::UnpairedTrailingSurrogate(unit));
        }
        if 0xd800 <= unit && unit <= 0xdbff {
            // A leading surrogate is only half a character; the other half
            // must be the very next escape.
            match self.peek() {
                Some(c) => if c != '\\' {
                    return Err(ErrorOf::UnpairedLeadingSurrogate(unit));
                },
                None => return Err(ErrorOf::UnpairedLeadingSurrogate(unit)),
            }
            match self.advance() {
                Ok(_) => {},
                Err(e) => return Err(e),
            }
            match self.consume('u') {
                Ok(_) => {},
                Err(e) => return Err(e),
            }
            let low = match self.parse_hex4() {
                Ok(l) => l,
                Err(e) => return Err(e),
            };
            if !(0xdc00 <= low && low <= 0xdfff) {
                return Err(ErrorOf::InvalidSurrogatePair(unit, low));
            }
            let code_point: u32 = 0x10000 + (unit as u32 - 0xd800) * 1024 + (low as u32 - 0xdc00);
            return Ok(char_from_u32(code_point).unwrap());
        }
        // Not a surrogate, so it is a scalar value and the conversion cannot fail.
        Ok(char_from_u32(unit as u32).unwrap())
    }

    /// Reads a string literal, after any whitespace, unescaping it.
    pub fn parse_string(&mut self) -> (r: Result<String, Error>)
        requires
            old(self).wf(),
        ensures
            final(self).wf(),
            final(self).text() == old(self).text(),
            match string_at(old(self).text(), old(self).position()) {
                Ok((t, e)) => r matches Ok(x) && x@ == t && final(self).position() == e,
                Err(err) => r matches Err(x) && x@ == err,
            },
    {
        let ghost s = self.text();
        let ghost p0 = self.position();
        proof {
            lemma_skip_ws(s, p0);
        }
        match self.consume_next('"') {
            Ok(_) => {},
            Err(e) => return Err(e),
        }
        let mut result = String::new();
        loop
            invariant
                self.wf(),
                self.text() == s,
                s == old(self).text(),
                p0 == old(self).position(),
                string_at(s, p0) == string_body(s, self.position(), result@),
            decreases self.input.len() - self.pos,
        {
            let ghost p = self.position();
            let c = match self.advance() {
                Ok(c) => c,
                Err(e) => return Err(e),
            };
            if c == '"' {
                return Ok(result);
            } else if c == '\\' {
                let escaped = match self.advance() {
                    Ok(e) => e,
                    Err(e) => return Err(e),
                };
                if escaped == '"' {
                    push_char(&mut result, '"');
                } else if escaped == '\\' {
                    push_char(&mut result, '\\');
                } else if escaped == '/' {
                    push_char(&mut result, '/');
                } else if escaped == 'b' {
                    push_char(&mut result, '\u{8}');
                } else if escaped == 'f' {
                    push_char(&mut result, '\u{c}');
                } else if escaped == 'n' {
                    push_char(&mut result, '\n');
                } else if escaped == 'r' {
                    push_char(&mut result, '\r');
                } else if escaped == 't' {
                    push_char(&mut result, '\t');
                } else if escaped == 'u' {
                    proof {
                        lemma_unicode_escape(s, p + 2);
                    }
                    let ch = match self.parse_unicode_escape() {
                        Ok(ch) => ch,
                        Err(e) => return Err(e),
                    };
                    push_char(&mut result, ch);
                } else {
                    return Err(ErrorOf::InvalidEscape(escaped));
                }
            } else {
                push_char(&mut result, c);
            }
        }
    }

    /// Reads the text of a number: an optional `-`, digits, an optional
    /// fraction and an optional exponent.
    fn parse_number(&mut self) -> (r: Result<String, Error>)
        requires
            old(self).wf(),
        ensures
            final(self).wf(),
            final(self).text() == old(self).text(),
            ({
                let s = old(self).text();
                let q = skip_ws(s, old(self).position());
                r matches Ok(t) && t@ == s.subrange(q, number_end(s, q)) && final(self).position()
                    == number_end(s, q)
            }),
    {
        let ghost s = self.text();
        proof {
            lemma_skip_ws(s, self.position());
        }
        let ghost q = skip_ws(s, self.position());
        let mut num_str = String::new();
        match self.peek_next() {
            Some(c) => if c == '-' {
                let m = self.advance().unwrap();
                push_char(&mut num_str, m);
            },
            None => {},
        }
        assert(num_str@ =~= s.subrange(q, self.position()));
        let ghost a = self.position();
        proof {
            lemma_digits_end(s, a);
        }
        self.read_digits(&mut num_str, Ghost(q));
        let ghost b = self.position();
        assert(b == digits_end(s, a));
        let mut has_point = false;
        match self.peek() {
            Some(c) => if c == '.' {
                has_point = true;
                let d = self.advance().unwrap();
                push_char(&mut num_str, d);
                assert(num_str@ =~= s.subrange(q, self.position()));
                self.read_digits(&mut num_str, Ghost(q));
            },
            None => {},
        }
        match self.peek() {
            Some(c) => if c == 'e' || c == 'E' {
                let e = self.advance().unwrap();
                push_char(&mut num_str, e);
                assert(num_str@ =~= s.subrange(q, self.position()));
                match self.peek() {
                    Some(c2) => if c2 == '+' || c2 == '-' {
                        let sign = self.advance().unwrap();
                        push_char(&mut num_str, sign);
                        assert(num_str@ =~= s.subrange(q, self.position()));
                    },
                    None => {},
                }
                self.read_digits(&mut num_str, Ghost(q));
            },
            None => {},
        }
        Ok(num_str)
    }

    /// Appends the run of digits at the current position to `text`, which
    /// holds the input from `start` to the current position.
    fn read_digits(&mut self, text: &mut String, Ghost(start): Ghost<int>)
        requires
            old(self).wf(),
            0 <= start <= old(self).position(),
            old(text)@ == old(self).text().subrange(start, old(self).position()),
        ensures
            final(self).wf(),
            final(self).text() == old(self).text(),
            final(self).position() == digits_end(old(self).text(), old(self).position()),
            old(self).position() <= final(self).position() <= final(self).text().len(),
            final(text)@ == final(self).text().subrange(start, final(self).position()),
    {
        let ghost s = self.text();
        proof {
            lemma_digits_end(s, self.position());
        }
        while self.pos < self.input.len() && '0' <= self.input[self.pos] && self.input[self.pos] <= '9'
            invariant
                self.wf(),
                self.text() == s,
                0 <= start <= old(self).position() <= self.position(),
                text@ == s.subrange(start, self.position()),
                digits_end(s, self.position()) == digits_end(s, old(self).position()),
            decreases self.input.len() - self.pos,
        {
            let d = self.input[self.pos];
            let ghost p = self.pos as int;
            assert(d == s[p]);
            assert(p + 1 <= s.len());
            assert(s.subrange(start, p + 1) =~= s.subrange(start, p).push(d));
            push_char(text, d);
            self.pos = self.pos + 1;
        }
    }

    /// Consumes the characters of `rest` one by one, each of which must be
    /// the next input character.
    fn consume_rest(&mut self, rest: &Vec<char>) -> (r: Result<(), Error>)
        requires
            old(self).wf(),
        ensures
            final(self).wf(),
            final(self).text() == old(self).text(),
            match match_rest(old(self).text(), old(self).position(), rest@) {
                Ok(e) => r is Ok && final(self).position() == e,
                Err(err) => r matches Err(x) && x@ == err,
            },
    {
        let ghost s = self.text();
        let mut i: usize = 0;
        assert(rest@.skip(0) =~= rest@);
        while i < rest.len()
            invariant
                self.wf(),
                self.text() == s,
                s == old(self).text(),
                i <= rest.len(),
                match_rest(s, old(self).position(), rest@) == match_rest(s, self.position(), rest@.skip(i as int)),
            decreases rest.len() - i,
        {
            assert(rest@.skip(i as int).drop_first() =~= rest@.skip(i + 1));
            match self.consume(rest[i]) {
                Ok(_) => {},
                Err(e) => return Err(e),
            }
            i = i + 1;
        }
        Ok(())
    }

    /// Reads one JSON value, after any whitespace.
    ///
    /// `recursion_level` counts the arrays and objects already entered, not
    /// the values read, so that a scalar does not cost a level of its own:
    /// a limit of `N` admits `N` nested arrays or objects.
    pub fn parse_value(&mut self, options: &CodecOptions, recursion_level: usize) -> (r: Result<JsonValue, Error>)
        requires
            old(self).wf(),
        ensures
            final(self).wf(),
            final(self).text() == old(self).text(),
            match value_at(
                old(self).text(),
                old(self).position(),
                recursion_level as nat,
                options.recursion_limit as nat,
            ) {
                Ok((v, e)) => r matches Ok(x) && x@ == v && final(self).position() == e,
                Err(err) => r matches Err(x) && x@ == err,
            },
        decreases old(self).text().len() - old(self).position(), 0int,
    {
        let ghost s = self.text();
        let ghost p0 = self.position();
        proof {
            lemma_skip_ws(s, p0);
        }
        let next = self.peek_next();
        let ghost q = self.position();
        let c = match next {
            None => return Err(ErrorOf::UnexpectedEndOfInput),
            Some(c) => c,
        };
        if c == 'n' {
            self.advance().unwrap();
            let rest = vec!['u', 'l', 'l'];
            assert(rest@ =~= seq!['u', 'l', 'l']);
            match self.consume_rest(&rest) { Ok(_) => {}, Err(e) => return Err(e) }
            Ok(JsonValue::Null)
        } else if c == 't' {
            self.advance().unwrap();
            let rest = vec!['r', 'u', 'e'];
            assert(rest@ =~= seq!['r', 'u', 'e']);
            match self.consume_rest(&rest) { Ok(_) => {}, Err(e) => return Err(e) }
            Ok(JsonValue::Boolean(true))
        } else if c == 'f' {
            self.advance().unwrap();
            let rest = vec!['a', 'l', 's', 'e'];
            assert(rest@ =~= seq!['a', 'l', 's', 'e']);
            match self.consume_rest(&rest) { Ok(_) => {}, Err(e) => return Err(e) }
            Ok(JsonValue::Boolean(false))
        } else if c == '"' {
            match self.parse_string() {
                Ok(t) => Ok(JsonValue::String(t)),
                Err(e) => Err(e),
            }
        } else if ('0' <= c && c <= '9') || c == '-' {
            let num_str = self.parse_number().unwrap();
            if is_valid_number(num_str.as_str()) {
                Ok(JsonValue::Number(num_str))
            } else {
                Err(ErrorOf::InvalidNumber(num_str))
            }
        } else if c == '[' {
            // Entering a container takes the depth to `recursion_level + 1`,
            // so the limit is reached when `recursion_level` has caught up with it.
            if recursion_level >= options.recursion_limit {
                return Err(ErrorOf::RecursionLimitParsing);
            }
            self.advance().unwrap();
            self.parse_elements(options, recursion_level)
        } else if c == '{' {
            if recursion_level >= options.recursion_limit {
                return Err(ErrorOf::RecursionLimitParsing);
            }
            self.advance().unwrap();
            self.parse_members(options, recursion_level)
        } else {
            Err(ErrorOf::InvalidToken(c))
        }
    }
    /// Reads the rest of an array whose opening bracket has been consumed.
    fn parse_elements(&mut self, options: &CodecOptions, recursion_level: usize) -> (r: Result<JsonValue, Error>)
        requires
            old(self).wf(),
            recursion_level < options.recursion_limit,
        ensures
            final(self).wf(),
            final(self).text() == old(self).text(),
            match elements_at(
                old(self).text(),
                old(self).position(),
                recursion_level as nat,
                options.recursion_limit as nat,
                Seq::empty(),
                false,
            ) {
                Ok((v, e)) => r matches Ok(x) && x@ == v && final(self).position() == e,
                Err(err) => r matches Err(x) && x@ == err,
            },
        decreases old(self).text().len() - old(self).position(), 1int,
    {
        let ghost s = self.text();
        let ghost p0 = self.position();
        let mut items: Vec<JsonValue> = Vec::new();
        let mut require_comma = false;
        loop
            invariant
                self.wf(),
                self.text() == s,
                s == old(self).text(),
                p0 == old(self).position(),
                p0 <= self.position(),
                recursion_level < options.recursion_limit,
                elements_at(s, p0, recursion_level as nat, options.recursion_limit as nat, Seq::empty(), false) == elements_at(
                    s,
                    self.position(),
                    recursion_level as nat,
                    options.recursion_limit as nat,
                    items_view(items@),
                    require_comma,
                ),
            ensures
                self.wf(),
                self.text() == s,
                s == old(self).text(),
                elements_at(s, p0, recursion_level as nat, options.recursion_limit as nat, Seq::empty(), false) == elements_at(
                    s,
                    self.position(),
                    recursion_level as nat,
                    options.recursion_limit as nat,
                    items_view(items@),
                    require_comma,
                ),
                self.position() == skip_ws(s, self.position()),
                self.position() >= s.len() || s[self.position()] == ']',
            decreases self.input.len() - self.pos,
        {
            let ghost p = self.position();
            proof {
                lemma_skip_ws(s, p);
            }
            let next = self.peek_next();
            match next {
                None => break,
                Some(c) => if c == ']' {
                    break;
                },
            }
            if require_comma {
                match self.consume(',') { Ok(_) => {}, Err(e) => return Err(e) }
            }
            require_comma = true;
            proof {
                lemma_value_at(s, self.position(), recursion_level as nat + 1, options.recursion_limit as nat);
            }
            let item = match self.parse_value(options, recursion_level + 1) {
                Ok(v) => v,
                Err(e) => return Err(e),
            };
            let ghost before = items@;
            items.push(item);
            assert(items@.drop_last() =~= before);
        }
        match self.consume_next(']') {
            Ok(_) => {},
            Err(e) => return Err(e),
        }
        Ok(JsonValue::Array(items))
    }

    /// Reads the rest of an object whose opening bracket has been consumed.
    fn parse_members(&mut self, options: &CodecOptions, recursion_level: usize) -> (r: Result<JsonValue, Error>)
        requires
            old(self).wf(),
            recursion_level < options.recursion_limit,
        ensures
            final(self).wf(),
            final(self).text() == old(self).text(),
            match members_at(
                old(self).text(),
                old(self).position(),
                recursion_level as nat,
                options.recursion_limit as nat,
                Seq::empty(),
                false,
            ) {
                Ok((v, e)) => r matches Ok(x) && x@ == v && final(self).position() == e,
                Err(err) => r matches Err(x) && x@ == err,
            },
        decreases old(self).text().len() - old(self).position(), 1int,
    {
        let ghost s = self.text();
        let ghost p0 = self.position();
        let mut members: Vec<(String, JsonValue)> = Vec::new();
        let mut require_comma = false;
        loop
            invariant
                self.wf(),
                self.text() == s,
                s == old(self).text(),
                p0 == old(self).position(),
                p0 <= self.position(),
                recursion_level < options.recursion_limit,
                members_at(s, p0, recursion_level as nat, options.recursion_limit as nat, Seq::empty(), false) == members_at(
                    s,
                    self.position(),
                    recursion_level as nat,
                    options.recursion_limit as nat,
                    members_view(members@),
                    require_comma,
                ),
            ensures
                self.wf(),
                self.text() == s,
                s == old(self).text(),
                members_at(s, p0, recursion_level as nat, options.recursion_limit as nat, Seq::empty(), false) == members_at(
                    s,
                    self.position(),
                    recursion_level as nat,
                    options.recursion_limit as nat,
                    members_view(members@),
                    require_comma,
                ),
                self.position() == skip_ws(s, self.position()),
                self.position() >= s.len() || s[self.position()] == '}',
            decreases self.input.len() - self.pos,
        {
            let ghost p = self.position();
            proof {
                lemma_skip_ws(s, p);
            }
            let next = self.peek_next();
            match next {
                None => break,
                Some(c) => if c == '}' {
                    break;
                },
            }
            if require_comma {
                match self.consume(',') { Ok(_) => {}, Err(e) => return Err(e) }
            }
            require_comma = true;
            let ghost r = self.position();
            proof {
                lemma_string_at(s, r);
            }
            let key = match self.parse_string() {
                Ok(k) => k,
                Err(e) => return Err(e),
            };
            let ghost ke = self.position();
            proof {
                lemma_skip_ws(s, ke);
            }
            match self.consume_next(':') { Ok(_) => {}, Err(e) => return Err(e) }
            proof {
                lemma_value_at(s, self.position(), recursion_level as nat + 1, options.recursion_limit as nat);
            }
            let value = match self.parse_value(options, recursion_level + 1) {
                Ok(v) => v,
                Err(e) => return Err(e),
            };
            proof {
                lemma_members_view(members@);
            }
            if has_key_exec(&members, &key) {
                return Err(ErrorOf::DuplicateKey(key));
            }
            let ghost before = members@;
            members.push((key, value));
            assert(members@.drop_last() =~= before);
        }
        match self.consume_next('}') {
            Ok(_) => {},
            Err(e) => return Err(e),
        }
        Ok(JsonValue::Object(members))
    }
}

/// Parses a whole JSON document: one value, then nothing but whitespace.
pub fn parse_document(json: &str, options: &CodecOptions) -> (r: Result<JsonValue, Error>)
    ensures
        match document(json@, options.recursion_limit as nat) {
            Ok(v) => r matches Ok(x) && x@ == v,
            Err(err) => r matches Err(x) && x@ == err,
        },
{
    let mut parser = Parser::new(json);
    let value = match parser.parse_value(options, 0) {
        Ok(v) => v,
        Err(e) => return Err(e),
    };
    parser.discard_whitespace();
    if parser.peek().is_some() {
        return Err(ErrorOf::TrailingCharacters);
    }
    Ok(value)
}

/// Whether one of `members` has the key `key`.
fn has_key_exec(members: &Vec<(String, JsonValue)>, key: &String) -> (r: bool)
    ensures
        r == has_key(members_view(members@), key@),
{
    proof {
        lemma_members_view(members@);
    }
    let mut i: usize = 0;
    while i < members.len()
        invariant
            i <= members.len(),
            members_view(members@).len() == members.len(),
            forall|j: int| 0 <= j < members.len() ==> #[trigger] members_view(members@)[j] == (members@[j].0@, members@[j].1@),
            forall|j: int| 0 <= j < i ==> members_view(members@)[j].0 != key@,
        decreases members.len() - i,
    {
        if members[i].0.eq(key) {
            assert(members_view(members@)[i as int].0 == key@);
            return true;
        }
        i = i + 1;
    }
    false
}

} // verus!