//! Base64 and hex codecs for `Data` fields annotated `$Json.base64` or
//! `$Json.hex`.
use vstd::prelude::*;
use crate::strbuf::push_char;
use vstd::string::StringSliceAdditionalSpecFns;
use vstd::utf8::{encode_utf8, is_ascii_chars, is_ascii_chars_encode_utf8};

verus! {

/// Why decoding a Base64 or hex string failed.
#[derive(Debug, Clone, Copy, PartialEq, Eq)]
pub enum DataError {
    /// The Base64 text is not a whole number of four-character groups.
    Base64Length,
    /// A byte that is neither in the Base64 alphabet nor `=`.
    Base64InvalidChar(u8),
    /// The hex text has an odd number of bytes.
    HexOddLength,
    /// A byte that is not a hex digit.
    HexInvalidChar(u8),
}

// ---------------------------------------------------------------------------
// Base64
// ---------------------------------------------------------------------------

/// The character standing for the six-bit value `v` in the standard Base64
/// alphabet `A-Z a-z 0-9 + /`.
pub open spec fn base64_symbol(v: int) -> char {
    if v < 26 {
        (65 + v) as char
    } else if v < 52 {
        (97 + (v - 26)) as char
    } else if v < 62 {
        (48 + (v - 52)) as char
    } else if v == 62 {
        '+'
    } else {
        '/'
    }
}

/// The four characters encoding the group `b0 b1 b2`, of which only the first
/// `n` bytes (1 to 3) are data; missing bytes are written as `=`.
pub open spec fn base64_group(b0: u8, b1: u8, b2: u8, n: int) -> Seq<char> {
    seq![
        base64_symbol((b0 / 4) as int),
        base64_symbol((b0 % 4) * 16 + b1 / 16),
        if n > 1 { base64_symbol((b1 % 16) * 4 + b2 / 64) } else { '=' },
        if n > 2 { base64_symbol((b2 % 64) as int) } else { '=' },
    ]
}

/// The padded Base64 encoding of `d`.
pub open spec fn base64_encoded(d: Seq<u8>) -> Seq<char>
    decreases d.len(),
{
    if d.len() == 0 {
        seq![]
    } else if d.len() == 1 {
        base64_group(d[0], 0, 0, 1)
    } else if d.len() == 2 {
        base64_group(d[0], d[1], 0, 2)
    } else {
        base64_group(d[0], d[1], d[2], 3) + base64_encoded(d.skip(3))
    }
}

fn base64_symbol_exec(v: u8) -> (c: char)
    requires
        v < 64,
    ensures
        c == base64_symbol(v as int),
{
    if v < 26 {
        (65u8 + v) as char
    } else if v < 52 {
        (97u8 + (v - 26)) as char
    } else if v < 62 {
        (48u8 + (v - 52)) as char
    } else if v == 62 {
        '+'
    } else {
        '/'
    }
}

/// Appends the padded Base64 encoding of `data` to `out`.
pub fn base64_encode_to(out: &mut String, data: &[u8])
    ensures
        final(out)@ == old(out)@ + base64_encoded(data@),
{
    let mut i: usize = 0;
    assert(data@.skip(0) =~= data@);
    while i < data.len()
        invariant
            i <= data.len(),
            out@ + base64_encoded(data@.skip(i as int)) == old(out)@ + base64_encoded(data@),
        decreases data.len() - i,
    {
        let rest = data.len() - i;
        let b0 = data[i];
        let b1 = if rest > 1 { data[i + 1] } else { 0u8 };
        let b2 = if rest > 2 { data[i + 2] } else { 0u8 };
        let ghost tail = data@.skip(i as int);
        assert(tail[0] == b0);
        assert(rest > 1 ==> tail[1] == b1);
        assert(rest > 2 ==> tail[2] == b2);
        let ghost before = out@;
        push_char(out, base64_symbol_exec(b0 / 4));
        push_char(out, base64_symbol_exec((b0 % 4) * 16 + b1 / 16));
        if rest > 1 {
            push_char(out, base64_symbol_exec((b1 % 16) * 4 + b2 / 64));
        } else {
            push_char(out, '=');
        }
        if rest > 2 {
            push_char(out, base64_symbol_exec(b2 % 64));
        } else {
            push_char(out, '=');
        }
        let n: usize = if rest > 3 { 3 } else { rest };
        assert(out@ == before + base64_group(b0, b1, b2, n as int));
        if rest > 3 {
            assert(tail.skip(3) =~= data@.skip(i + 3));
            assert(base64_encoded(tail) == base64_group(b0, b1, b2, 3) + base64_encoded(tail.skip(3)));
            assert(out@ + base64_encoded(data@.skip(i + 3)) =~= before + base64_encoded(tail));
        } else {
            assert(data@.skip(i + n) =~= Seq::<u8>::empty());
            if rest == 3 {
                assert(tail.skip(3) =~= Seq::<u8>::empty());
                assert(base64_encoded(tail.skip(3)) == Seq::<char>::empty());
                assert(base64_group(b0, b1, b2, 3) + Seq::<char>::empty() =~= base64_group(b0, b1, b2, 3));
            }
            assert(base64_encoded(tail) == base64_group(b0, b1, b2, n as int));
            assert(out@ + base64_encoded(data@.skip(i + n)) =~= before + base64_encoded(tail));
        }
        i = i + n;
    }
    assert(data@.skip(i as int) =~= Seq::<u8>::empty());
}

/// The six-bit value of a Base64 character; `=` counts as zero.
pub open spec fn base64_value(c: u8) -> Option<int> {
    if 65 <= c && c <= 90 {
        Some(c - 65)
    } else if 97 <= c && c <= 122 {
        Some(c - 97 + 26)
    } else if 48 <= c && c <= 57 {
        Some(c - 48 + 52)
    } else if c == 43 {
        Some(62)
    } else if c == 47 {
        Some(63)
    } else if c == 61 {
        Some(0)
    } else {
        None
    }
}

/// The number of `=` among the four characters of a group.
pub open spec fn padding_count(g: Seq<u8>) -> int {
    (if g[0] == 61 { 1int } else { 0 }) + (if g[1] == 61 { 1int } else { 0 }) + (if g[2] == 61 {
        1int
    } else {
        0
    }) + (if g[3] == 61 { 1int } else { 0 })
}

/// Decoding one group of four Base64 characters: three bytes, less one for
/// each `=` up to two; or the first character that is not Base64.
#[verifier::opaque]
pub open spec fn base64_group_decoded(g: Seq<u8>) -> Result<Seq<u8>, DataError> {
    if base64_value(g[0]) is None {
        Err(DataError::Base64InvalidChar(g[0]))
    } else if base64_value(g[1]) is None {
        Err(DataError::Base64InvalidChar(g[1]))
    } else if base64_value(g[2]) is None {
        Err(DataError::Base64InvalidChar(g[2]))
    } else if base64_value(g[3]) is None {
        Err(DataError::Base64InvalidChar(g[3]))
    } else {
        let n = base64_value(g[0]).unwrap() * 262144 + base64_value(g[1]).unwrap() * 4096
            + base64_value(g[2]).unwrap() * 64 + base64_value(g[3]).unwrap();
        let pad = padding_count(g);
        Ok(
            seq![(n / 65536) as u8] + (if pad < 2 {
                seq![((n / 256) % 256) as u8]
            } else {
                seq![]
            }) + (if pad < 1 {
                seq![(n % 256) as u8]
            } else {
                seq![]
            }),
        )
    }
}

/// Decoding consecutive groups of four Base64 characters.
pub open spec fn base64_groups_decoded(b: Seq<u8>) -> Result<Seq<u8>, DataError>
    decreases b.len(),
{
    if b.len() < 4 {
        Ok(seq![])
    } else {
        match base64_group_decoded(b.take(4)) {
            Err(e) => Err(e),
            Ok(x) => match base64_groups_decoded(b.skip(4)) {
                Err(e) => Err(e),
                Ok(y) => Ok(x + y),
            },
        }
    }
}

/// Prepending bytes to a successful decoding.
pub open spec fn prepend(x: Seq<u8>, r: Result<Seq<u8>, DataError>) -> Result<Seq<u8>, DataError> {
    match r {
        Ok(y) => Ok(x + y),
        Err(e) => Err(e),
    }
}

proof fn lemma_prepend_prepend(a: Seq<u8>, b: Seq<u8>, r: Result<Seq<u8>, DataError>)
    ensures
        prepend(a, prepend(b, r)) == prepend(a + b, r),
{
    if let Ok(y) = r {
        assert(a + (b + y) =~= (a + b) + y);
    }
}

/// Decoding Base64 text given as its bytes.
pub open spec fn base64_decoded(b: Seq<u8>) -> Result<Seq<u8>, DataError> {
    if b.len() % 4 != 0 {
        Err(DataError::Base64Length)
    } else {
        base64_groups_decoded(b)
    }
}

fn base64_value_exec(c: u8) -> (r: Option<u32>)
    ensures
        match base64_value(c) {
            Some(v) => r == Some(v as u32),
            None => r is None,
        },
{
    if 65 <= c && c <= 90 {
        Some((c - 65) as u32)
    } else if 97 <= c && c <= 122 {
        Some((c - 97 + 26) as u32)
    } else if 48 <= c && c <= 57 {
        Some((c - 48 + 52) as u32)
    } else if c == 43 {
        Some(62)
    } else if c == 47 {
        Some(63)
    } else if c == 61 {
        Some(0)
    } else {
        None
    }
}

/// Decodes one group of four Base64 characters, appending its bytes.
fn decode_group(decoded: &mut Vec<u8>, c0: u8, c1: u8, c2: u8, c3: u8) -> (r: Result<(), DataError>)
    ensures
        match base64_group_decoded(seq![c0, c1, c2, c3]) {
            Ok(x) => r is Ok && final(decoded)@ == old(decoded)@ + x,
            Err(e) => r == Err::<(), DataError>(e),
        },
{
    proof {
        reveal(base64_group_decoded);
    }
    let v0 = match base64_value_exec(c0) {
        Some(v) => v,
        None => return Err(DataError::Base64InvalidChar(c0)),
    };
    let v1 = match base64_value_exec(c1) {
        Some(v) => v,
        None => return Err(DataError::Base64InvalidChar(c1)),
    };
    let v2 = match base64_value_exec(c2) {
        Some(v) => v,
        None => return Err(DataError::Base64InvalidChar(c2)),
    };
    let v3 = match base64_value_exec(c3) {
        Some(v) => v,
        None => return Err(DataError::Base64InvalidChar(c3)),
    };
    let padding: u32 = (if c0 == 61 { 1u32 } else { 0 }) + (if c1 == 61 { 1u32 } else { 0 }) + (if c2
        == 61 { 1u32 } else { 0 }) + (if c3 == 61 { 1u32 } else { 0 });
    let n: u32 = v0 * 262144 + v1 * 4096 + v2 * 64 + v3;
    decoded.push((n / 65536) as u8);
    if padding < 2 {
        decoded.push(((n / 256) % 256) as u8);
    }
    if padding < 1 {
        decoded.push((n % 256) as u8);
    }
    let ghost g = seq![c0, c1, c2, c3];
    proof {
        reveal(base64_group_decoded);
    }
    assert(g[0] == c0 && g[1] == c1 && g[2] == c2 && g[3] == c3);
    assert(base64_group_decoded(g) matches Ok(x) && final(decoded)@ =~= old(decoded)@ + x);
    Ok(())
}

/// Decodes padded Base64 text.
#[verifier::rlimit(60)]
pub fn base64_decode(data: &str) -> (r: Result<Vec<u8>, DataError>)
    ensures
        match base64_decoded(data.spec_bytes()) {
            Ok(d) => r matches Ok(v) && v@ == d,
            Err(e) => r == Err::<Vec<u8>, DataError>(e),
        },
{
    let bytes = data.as_bytes();
    if bytes.len() % 4 != 0 {
        return Err(DataError::Base64Length);
    }
    let mut decoded: Vec<u8> = Vec::new();
    let mut i: usize = 0;
    assert(bytes@.skip(0) =~= bytes@);
    assert(Seq::<u8>::empty() + bytes@ =~= bytes@);
    proof {
        match base64_groups_decoded(bytes@) {
            Ok(y) => assert(Seq::<u8>::empty() + y =~= y),
            Err(e) => {},
        }
    }
    while i < bytes.len()
        invariant
            i <= bytes.len(),
            bytes@ == data.spec_bytes(),
            bytes.len() % 4 == 0,
            i % 4 == 0,
            base64_decoded(bytes@) == prepend(decoded@, base64_groups_decoded(bytes@.skip(i as int))),
        decreases bytes.len() - i,
    {
        let ghost tail = bytes@.skip(i as int);
        let ghost g = tail.take(4);
        let ghost before = decoded@;
        assert(g =~= seq![bytes[i as int], bytes[i + 1], bytes[i + 2], bytes[i + 3]]);
        assert(tail.skip(4) =~= bytes@.skip(i + 4));
        assert(base64_groups_decoded(tail) == match base64_group_decoded(g) {
            Err(e) => Err(e),
            Ok(x) => prepend(x, base64_groups_decoded(bytes@.skip(i + 4))),
        });
        match decode_group(&mut decoded, bytes[i], bytes[i + 1], bytes[i + 2], bytes[i + 3]) {
            Ok(()) => {},
            Err(e) => {
                return Err(e);
            },
        }
        proof {
            let x = base64_group_decoded(g).unwrap();
            lemma_prepend_prepend(before, x, base64_groups_decoded(bytes@.skip(i + 4)));
        }
        i = i + 4;
    }
    assert(bytes@.skip(i as int) =~= Seq::<u8>::empty());
    assert(decoded@ + Seq::<u8>::empty() =~= decoded@);
    Ok(decoded)
}

// ---------------------------------------------------------------------------
// Hex
// ---------------------------------------------------------------------------

/// The lowercase hex digit for `d` (0 to 15).
pub open spec fn hex_symbol(d: int) -> char {
    if d < 10 {
        (48 + d) as char
    } else {
        (97 + (d - 10)) as char
    }
}

/// The lowercase hex encoding of `d`, two digits per byte.
pub open spec fn hex_encoded(d: Seq<u8>) -> Seq<char>
    decreases d.len(),
{
    if d.len() == 0 {
        seq![]
    } else {
        seq![hex_symbol((d[0] / 16) as int), hex_symbol((d[0] % 16) as int)] + hex_encoded(
            d.drop_first(),
        )
    }
}

/// The value of a hex digit of either case.
pub open spec fn hex_nibble(c: u8) -> Option<int> {
    if 48 <= c && c <= 57 {
        Some(c - 48)
    } else if 97 <= c && c <= 102 {
        Some(c - 97 + 10)
    } else if 65 <= c && c <= 70 {
        Some(c - 65 + 10)
    } else {
        None
    }
}

/// Decoding consecutive pairs of hex digits.
pub open spec fn hex_pairs_decoded(b: Seq<u8>) -> Result<Seq<u8>, DataError>
    decreases b.len(),
{
    if b.len() < 2 {
        Ok(seq![])
    } else if hex_nibble(b[0]) is None {
        Err(DataError::HexInvalidChar(b[0]))
    } else if hex_nibble(b[1]) is None {
        Err(DataError::HexInvalidChar(b[1]))
    } else {
        match hex_pairs_decoded(b.skip(2)) {
            Err(e) => Err(e),
            Ok(y) => Ok(seq![(hex_nibble(b[0]).unwrap() * 16 + hex_nibble(b[1]).unwrap()) as u8] + y),
        }
    }
}

/// Decoding hex text given as its bytes.
pub open spec fn hex_decoded(b: Seq<u8>) -> Result<Seq<u8>, DataError> {
    if b.len() % 2 != 0 {
        Err(DataError::HexOddLength)
    } else {
        hex_pairs_decoded(b)
    }
}

/// The value of a hex digit of either case, or an error naming the byte.
pub fn hex_char_to_value(c: u8) -> (r: Result<u8, DataError>)
    ensures
        match hex_nibble(c) {
            Some(v) => r == Ok::<u8, DataError>(v as u8),
            None => r == Err::<u8, DataError>(DataError::HexInvalidChar(c)),
        },
{
    if 48 <= c && c <= 57 {
        Ok(c - 48)
    } else if 97 <= c && c <= 102 {
        Ok(c - 97 + 10)
    } else if 65 <= c && c <= 70 {
        Ok(c - 65 + 10)
    } else {
        Err(DataError::HexInvalidChar(c))
    }
}

fn hex_symbol_exec(d: u8) -> (c: char)
    requires
        d < 16,
    ensures
        c == hex_symbol(d as int),
{
    if d < 10 {
        (48u8 + d) as char
    } else {
        (97u8 + (d - 10)) as char
    }
}

/// Appends the lowercase hex encoding of `data` to `out`.
pub fn hex_encode_to(out: &mut String, data: &[u8])
    ensures
        final(out)@ == old(out)@ + hex_encoded(data@),
{
    let mut i: usize = 0;
    assert(data@.skip(0) =~= data@);
    while i < data.len()
        invariant
            i <= data.len(),
            out@ + hex_encoded(data@.skip(i as int)) == old(out)@ + hex_encoded(data@),
        decreases data.len() - i,
    {
        let byte = data[i];
        let ghost tail = data@.skip(i as int);
        let ghost before = out@;
        push_char(out, hex_symbol_exec(byte / 16));
        push_char(out, hex_symbol_exec(byte % 16));
        assert(tail[0] == byte);
        assert(tail.drop_first() =~= data@.skip(i + 1));
        assert(out@ + hex_encoded(data@.skip(i + 1)) =~= before + hex_encoded(tail));
        i = i + 1;
    }
    assert(data@.skip(i as int) =~= Seq::<u8>::empty());
}

/// Decodes hex text of either case.
pub fn hex_decode(data: &str) -> (r: Result<Vec<u8>, DataError>)
    ensures
        match hex_decoded(data.spec_bytes()) {
            Ok(d) => r matches Ok(v) && v@ == d,
            Err(e) => r == Err::<Vec<u8>, DataError>(e),
        },
{
    let bytes = data.as_bytes();
    if bytes.len() % 2 != 0 {
        return Err(DataError::HexOddLength);
    }
    let mut decoded: Vec<u8> = Vec::new();
    let mut i: usize = 0;
    assert(bytes@.skip(0) =~= bytes@);
    while i < bytes.len()
        invariant
            i <= bytes.len(),
            bytes@ == data.spec_bytes(),
            bytes.len() % 2 == 0,
            i % 2 == 0,
            hex_decoded(bytes@) == (match hex_pairs_decoded(bytes@.skip(i as int)) {
                Err(e) => Err(e),
                Ok(y) => Ok(decoded@ + y),
            }),
        decreases bytes.len() - i,
    {
        let ghost tail = bytes@.skip(i as int);
        let ghost before = decoded@;
        assert(tail[0] == bytes[i as int] && tail[1] == bytes[i + 1]);
        let high = match hex_char_to_value(bytes[i]) {
            Ok(h) => h,
            Err(e) => return Err(e),
        };
        let low = match hex_char_to_value(bytes[i + 1]) {
            Ok(l) => l,
            Err(e) => return Err(e),
        };
        decoded.push(high * 16 + low);
        assert(tail.skip(2) =~= bytes@.skip(i + 2));
        assert(hex_pairs_decoded(tail) == (match hex_pairs_decoded(bytes@.skip(i + 2)) {
            Err(e) => Err(e),
            Ok(y) => Ok(seq![(high * 16 + low) as u8] + y),
        }));
        proof {
            match hex_pairs_decoded(bytes@.skip(i + 2)) {
                Err(e) => {},
                Ok(y) => {
                    assert(decoded@ + y =~= before + (seq![(high * 16 + low) as u8] + y));
                },
            }
        }
        i = i + 2;
    }
    assert(bytes@.skip(i as int) =~= Seq::<u8>::empty());
    Ok(decoded)
}

// ---------------------------------------------------------------------------
// Round trips
// ---------------------------------------------------------------------------

/// The bytes of ASCII characters.
pub open spec fn ascii_bytes(cs: Seq<char>) -> Seq<u8> {
    Seq::new(cs.len(), |i: int| cs[i] as u8)
}

/// The UTF-8 encoding of ASCII characters is their bytes.
proof fn lemma_ascii_utf8(cs: Seq<char>)
    requires
        is_ascii_chars(cs),
    ensures
        encode_utf8(cs) == ascii_bytes(cs),
{
    is_ascii_chars_encode_utf8(cs);
    assert(encode_utf8(cs) =~= ascii_bytes(cs));
}

proof fn lemma_ascii_bytes_concat(a: Seq<char>, b: Seq<char>)
    ensures
        ascii_bytes(a + b) == ascii_bytes(a) + ascii_bytes(b),
{
    assert(ascii_bytes(a + b) =~= ascii_bytes(a) + ascii_bytes(b));
}

proof fn lemma_base64_symbol(v: int)
    requires
        0 <= v < 64,
    ensures
        base64_value(base64_symbol(v) as u8) == Some(v),
        base64_symbol(v) as u8 != 61,
        (base64_symbol(v) as u32) < 128,
{
}

proof fn lemma_group_arith(b0: u8, b1: u8, b2: u8, n: int)
    requires
        1 <= n <= 3,
        n < 2 ==> b1 == 0,
        n < 3 ==> b2 == 0,
    ensures
        ({
            let nn = (b0 / 4) as int * 262144 + ((b0 % 4) * 16 + b1 / 16) * 4096 + (if n > 1 {
                (b1 % 16) * 4 + b2 / 64
            } else {
                0
            }) * 64 + (if n > 2 { (b2 % 64) as int } else { 0 });
            &&& nn / 65536 == b0
            &&& (nn / 256) % 256 == b1
            &&& nn % 256 == b2
        }),
{
    let nn = (b0 / 4) as int * 262144 + ((b0 % 4) * 16 + b1 / 16) * 4096 + (if n > 1 {
        (b1 % 16) * 4 + b2 / 64
    } else {
        0
    }) * 64 + (if n > 2 { (b2 % 64) as int } else { 0 });
    let x = b0 * 65536 + b1 * 256 + b2;
    assert(nn == x) by (nonlinear_arith)
        requires
            nn == (b0 / 4) as int * 262144 + ((b0 % 4) * 16 + b1 / 16) * 4096 + (if n > 1 {
                (b1 % 16) * 4 + b2 / 64
            } else {
                0
            }) * 64 + (if n > 2 { (b2 % 64) as int } else { 0 }),
            x == b0 * 65536 + b1 * 256 + b2,
            n < 2 ==> b1 == 0,
            n < 3 ==> b2 == 0,
    ;
    assert(x / 65536 == b0 && (x / 256) % 256 == b1 && x % 256 == b2) by (nonlinear_arith)
        requires
            x == b0 * 65536 + b1 * 256 + b2,
            0 <= b0 < 256,
            0 <= b1 < 256,
            0 <= b2 < 256,
    ;
}

#[verifier::rlimit(60)]
proof fn lemma_base64_group(b0: u8, b1: u8, b2: u8, n: int)
    requires
        1 <= n <= 3,
        n < 2 ==> b1 == 0,
        n < 3 ==> b2 == 0,
    ensures
        is_ascii_chars(base64_group(b0, b1, b2, n)),
        base64_group_decoded(ascii_bytes(base64_group(b0, b1, b2, n))) == Ok::<Seq<u8>, DataError>(
            if n == 1 {
                seq![b0]
            } else if n == 2 {
                seq![b0, b1]
            } else {
                seq![b0, b1, b2]
            },
        ),
{
    let v0 = (b0 / 4) as int;
    let v1 = (b0 % 4) * 16 + b1 / 16;
    let v2 = (b1 % 16) * 4 + b2 / 64;
    let v3 = (b2 % 64) as int;
    lemma_base64_symbol(v0);
    lemma_base64_symbol(v1);
    lemma_base64_symbol(v2);
    lemma_base64_symbol(v3);
    reveal(base64_group_decoded);
    let g = ascii_bytes(base64_group(b0, b1, b2, n));
    assert(g.len() == 4);
    assert(g[0] == base64_symbol(v0) as u8);
    assert(g[1] == base64_symbol(v1) as u8);
    let nn = v0 * 262144 + v1 * 4096 + (if n > 1 { v2 } else { 0 }) * 64 + (if n > 2 { v3 } else { 0 });
    lemma_group_arith(b0, b1, b2, n);
    assert(g[2] == (if n > 1 { base64_symbol(v2) as u8 } else { 61u8 }));
    assert(g[3] == (if n > 2 { base64_symbol(v3) as u8 } else { 61u8 }));
    assert(padding_count(g) == 3 - n);
    let expected = if n == 1 {
        seq![b0]
    } else if n == 2 {
        seq![b0, b1]
    } else {
        seq![b0, b1, b2]
    };
    let x = base64_group_decoded(g).unwrap();
    assert(base64_group_decoded(g) is Ok);
    assert(x =~= expected);
}

/// The Base64 encoding is ASCII, its length a multiple of four, and its
/// bytes decode groupwise to the bytes encoded.
proof fn lemma_base64_encoded(d: Seq<u8>)
    ensures
        is_ascii_chars(base64_encoded(d)),
        ascii_bytes(base64_encoded(d)).len() % 4 == 0,
        base64_groups_decoded(ascii_bytes(base64_encoded(d))) == Ok::<Seq<u8>, DataError>(d),
    decreases d.len(),
{
    if d.len() == 0 {
        assert(ascii_bytes(base64_encoded(d)) =~= Seq::<u8>::empty());
        assert(d =~= Seq::<u8>::empty());
    } else {
        let n: int = if d.len() >= 3 { 3 } else { d.len() as int };
        let b1: u8 = if n > 1 { d[1] } else { 0 };
        let b2: u8 = if n > 2 { d[2] } else { 0 };
        let grp = base64_group(d[0], b1, b2, n);
        lemma_base64_group(d[0], b1, b2, n);
        let rest = if d.len() > 3 { d.skip(3) } else { Seq::<u8>::empty() };
        if d.len() > 3 {
            lemma_base64_encoded(d.skip(3));
            assert(base64_encoded(d) == grp + base64_encoded(rest));
        } else {
            if d.len() == 3 {
                assert(d.skip(3) =~= Seq::<u8>::empty());
                assert(base64_encoded(d) =~= grp + base64_encoded(rest));
            } else {
                assert(base64_encoded(d) =~= grp + base64_encoded(rest));
            }
        }
        let enc = base64_encoded(d);
        lemma_ascii_bytes_concat(grp, base64_encoded(rest));
        let bs = ascii_bytes(enc);
        assert(bs.take(4) =~= ascii_bytes(grp));
        assert(bs.skip(4) =~= ascii_bytes(base64_encoded(rest)));
        assert forall|i: int| 0 <= i < enc.len() implies '\0' <= #[trigger] enc[i] <= '\u{7f}' by {
            if i >= 4 {
                assert(enc[i] == base64_encoded(rest)[i - 4]);
            }
        }
        if d.len() <= 3 {
            assert(ascii_bytes(base64_encoded(rest)) =~= Seq::<u8>::empty());
            assert(d =~= (if n == 1 { seq![d[0]] } else if n == 2 { seq![d[0], d[1]] } else { seq![d[0], d[1], d[2]] }));
        } else {
            assert(d =~= seq![d[0], d[1], d[2]] + d.skip(3));
        }
        assert(bs.len() >= 4);
        let x = base64_group_decoded(bs.take(4)).unwrap();
        assert(base64_groups_decoded(bs) == Ok::<Seq<u8>, DataError>(x + base64_groups_decoded(bs.skip(4)).unwrap()));
        if d.len() <= 3 {
            assert(base64_groups_decoded(bs.skip(4)) == Ok::<Seq<u8>, DataError>(Seq::<u8>::empty()));
        }
        assert(x + base64_groups_decoded(bs.skip(4)).unwrap() =~= d);
    }
}

/// Decoding the Base64 text of any bytes gives those bytes back.
pub proof fn base64_round_trip(d: Seq<u8>)
    ensures
        base64_decoded(encode_utf8(base64_encoded(d))) == Ok::<Seq<u8>, DataError>(d),
{
    lemma_base64_encoded(d);
    lemma_ascii_utf8(base64_encoded(d));
}

/// The hex encoding is ASCII and its bytes decode pairwise to the bytes
/// encoded.
proof fn lemma_hex_encoded(d: Seq<u8>)
    ensures
        is_ascii_chars(hex_encoded(d)),
        ascii_bytes(hex_encoded(d)).len() == 2 * d.len(),
        hex_pairs_decoded(ascii_bytes(hex_encoded(d))) == Ok::<Seq<u8>, DataError>(d),
    decreases d.len(),
{
    if d.len() == 0 {
        assert(ascii_bytes(hex_encoded(d)) =~= Seq::<u8>::empty());
        assert(d =~= Seq::<u8>::empty());
    } else {
        lemma_hex_encoded(d.drop_first());
        let pair = seq![hex_symbol((d[0] / 16) as int), hex_symbol((d[0] % 16) as int)];
        let enc = hex_encoded(d);
        assert(enc == pair + hex_encoded(d.drop_first()));
        lemma_ascii_bytes_concat(pair, hex_encoded(d.drop_first()));
        let bs = ascii_bytes(enc);
        assert(bs.skip(2) =~= ascii_bytes(hex_encoded(d.drop_first())));
        assert(hex_nibble(bs[0]) == Some((d[0] / 16) as int));
        assert(hex_nibble(bs[1]) == Some((d[0] % 16) as int));
        assert(((d[0] / 16) * 16 + d[0] % 16) as u8 == d[0]);
        assert forall|i: int| 0 <= i < enc.len() implies '\0' <= #[trigger] enc[i] <= '\u{7f}' by {
            if i >= 2 {
                assert(enc[i] == hex_encoded(d.drop_first())[i - 2]);
            }
        }
        assert(d =~= seq![d[0]] + d.drop_first());
        assert(hex_pairs_decoded(bs) =~= Ok::<Seq<u8>, DataError>(d));
    }
}

/// Decoding the hex text of any bytes gives those bytes back.
pub proof fn hex_round_trip(d: Seq<u8>)
    ensures
        hex_decoded(encode_utf8(hex_encoded(d))) == Ok::<Seq<u8>, DataError>(d),
{
    lemma_hex_encoded(d);
    lemma_ascii_utf8(hex_encoded(d));
}

} // verus!
