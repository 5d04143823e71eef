//! Writing JSON text: string escaping, integers, and whole JSON values.
use vstd::prelude::*;
use crate::strbuf::{push_char, chars_of};
use crate::json::{Json, JsonValue, items_view, members_view, lemma_items_view, lemma_members_view};

verus! {

// ---------------------------------------------------------------------------
// Strings
// ---------------------------------------------------------------------------

/// The lowercase hexadecimal digit for `d` (0 to 15).
pub open spec fn hex_digit_lower(d: int) -> char {
    if d < 10 {
        (48 + d) as char
    } else {
        (97 + (d - 10)) as char
    }
}

/// `\u` followed by the four lowercase hexadecimal digits of `v`.
pub open spec fn unicode_escape_text(v: int) -> Seq<char> {
    seq![
        '\\',
        'u',
        hex_digit_lower((v / 4096) % 16),
        hex_digit_lower((v / 256) % 16),
        hex_digit_lower((v / 16) % 16),
        hex_digit_lower(v % 16),
    ]
}

/// The characters written as a `\u` escape: the C0 controls without a short
/// escape, DEL, and the C1 controls U+0080 to U+009F.
pub open spec fn needs_unicode_escape(c: char) -> bool {
    (c as u32) < 0x20 || c as u32 == 0x7f || (0x80 <= (c as u32) && (c as u32) <= 0x9f)
}

/// How one character of a string is written between the quotes.
pub open spec fn escape_char(c: char) -> Seq<char> {
    if c == '"' {
        seq!['\\', '"']
    } else if c == '\\' {
        seq!['\\', '\\']
    } else if c == '\n' {
        seq!['\\', 'n']
    } else if c == '\r' {
        seq!['\\', 'r']
    } else if c == '\t' {
        seq!['\\', 't']
    } else if c == '\u{8}' {
        seq!['\\', 'b']
    } else if c == '\u{c}' {
        seq!['\\', 'f']
    } else if needs_unicode_escape(c) {
        unicode_escape_text(c as int)
    } else {
        seq![c]
    }
}

/// A string's contents, escaped, without the surrounding quotes.
pub open spec fn escaped(cs: Seq<char>) -> Seq<char>
    decreases cs.len(),
{
    if cs.len() == 0 {
        seq![]
    } else {
        escape_char(cs[0]) + escaped(cs.drop_first())
    }
}

/// A string as a JSON string literal.
pub open spec fn quoted(cs: Seq<char>) -> Seq<char> {
    seq!['"'] + escaped(cs) + seq!['"']
}

/// Escaping a sequence with one more character appends that character's escape.
pub proof fn lemma_escaped_push(cs: Seq<char>, c: char)
    ensures
        escaped(cs.push(c)) == escaped(cs) + escape_char(c),
    decreases cs.len(),
{
    if cs.len() == 0 {
        assert(cs.push(c).drop_first() =~= Seq::<char>::empty());
        assert(escaped(cs.push(c)) == escape_char(c) + escaped(Seq::<char>::empty()));
        assert(escape_char(c) + Seq::<char>::empty() =~= escape_char(c));
    } else {
        lemma_escaped_push(cs.drop_first(), c);
        assert(cs.push(c).drop_first() =~= cs.drop_first().push(c));
        assert(escaped(cs.push(c)) == escape_char(cs[0]) + escaped(cs.drop_first().push(c)));
        assert(escape_char(cs[0]) + (escaped(cs.drop_first()) + escape_char(c))
            =~= (escape_char(cs[0]) + escaped(cs.drop_first())) + escape_char(c));
    }
}

/// Escaping a concatenation escapes each part.
pub proof fn lemma_escaped_concat(a: Seq<char>, b: Seq<char>)
    ensures
        escaped(a + b) == escaped(a) + escaped(b),
    decreases a.len(),
{
    if a.len() == 0 {
        assert(a + b =~= b);
        assert(escaped(a) + escaped(b) =~= escaped(b));
    } else {
        lemma_escaped_concat(a.drop_first(), b);
        assert((a + b).drop_first() =~= a.drop_first() + b);
        assert(escaped(a + b) == escape_char(a[0]) + escaped(a.drop_first() + b));
        assert(escape_char(a[0]) + (escaped(a.drop_first()) + escaped(b))
            =~= (escape_char(a[0]) + escaped(a.drop_first())) + escaped(b));
    }
}

fn hex_digit_lower_exec(d: u32) -> (c: char)
    requires
        d < 16,
    ensures
        c == hex_digit_lower(d as int),
{
    if d < 10 {
        ((48 + d) as u8) as char
    } else {
        ((97 + (d - 10)) as u8) as char
    }
}

fn write_char_escaped(out: &mut String, c: char)
    ensures
        final(out)@ == old(out)@ + escape_char(c),
{
    let v = c as u32;
    if c == '"' {
        push_char(out, '\\');
        push_char(out, '"');
    } else if c == '\\' {
        push_char(out, '\\');
        push_char(out, '\\');
    } else if c == '\n' {
        push_char(out, '\\');
        push_char(out, 'n');
    } else if c == '\r' {
        push_char(out, '\\');
        push_char(out, 'r');
    } else if c == '\t' {
        push_char(out, '\\');
        push_char(out, 't');
    } else if v == 8 {
        push_char(out, '\\');
        push_char(out, 'b');
    } else if v == 12 {
        push_char(out, '\\');
        push_char(out, 'f');
    } else if v < 0x20 || v == 0x7f || (0x80 <= v && v <= 0x9f) {
        push_char(out, '\\');
        push_char(out, 'u');
        push_char(out, hex_digit_lower_exec((v / 4096) % 16));
        push_char(out, hex_digit_lower_exec((v / 256) % 16));
        push_char(out, hex_digit_lower_exec((v / 16) % 16));
        push_char(out, hex_digit_lower_exec(v % 16));
    } else {
        push_char(out, c);
    }
    assert(final(out)@ =~= old(out)@ + escape_char(c));
}

/// Writes a string's contents, escaped, without the surrounding quotes.
pub fn write_escaped(out: &mut String, value: &str)
    ensures
        final(out)@ == old(out)@ + escaped(value@),
{
    let cs = chars_of(value);
    let mut i: usize = 0;
    assert(cs@.take(0) =~= Seq::<char>::empty());
    while i < cs.len()
        invariant
            i <= cs.len(),
            cs@ == value@,
            out@ == old(out)@ + escaped(cs@.take(i as int)),
        decreases cs.len() - i,
    {
        let ghost before = out@;
        write_char_escaped(out, cs[i]);
        proof {
            lemma_escaped_push(cs@.take(i as int), cs@[i as int]);
            assert(cs@.take(i as int).push(cs@[i as int]) =~= cs@.take(i + 1));
        }
        i = i + 1;
    }
    assert(cs@.take(i as int) =~= cs@);
}

/// Writes a string as a JSON string literal.
pub fn write_string(out: &mut String, value: &str)
    ensures
        final(out)@ == old(out)@ + quoted(value@),
{
    push_char(out, '"');
    write_escaped(out, value);
    push_char(out, '"');
    assert(final(out)@ =~= old(out)@ + quoted(value@));
}

/// The text of an object key `"<prefix><name>":`.
pub open spec fn key_text(prefix: Seq<char>, name: Seq<char>) -> Seq<char> {
    quoted(prefix + name) + seq![':']
}

/// Writes `"<prefix><name>":`, the two halves of the key going into the same
/// pair of quotes.
pub fn write_key(out: &mut String, prefix: &str, name: &str)
    ensures
        final(out)@ == old(out)@ + key_text(prefix@, name@),
{
    push_char(out, '"');
    write_escaped(out, prefix);
    write_escaped(out, name);
    push_char(out, '"');
    push_char(out, ':');
    proof {
        lemma_escaped_concat(prefix@, name@);
    }
    assert(final(out)@ =~= old(out)@ + key_text(prefix@, name@));
}

// ---------------------------------------------------------------------------
// Integers
// ---------------------------------------------------------------------------

/// The decimal digit for `d` (0 to 9).
pub open spec fn digit_char(d: int) -> char {
    (48 + d) as char
}

/// The decimal digits of `n`, most significant first, without leading zeros.
pub open spec fn decimal_digits(n: nat) -> Seq<char>
    decreases n,
{
    if n < 10 {
        seq![digit_char(n as int)]
    } else {
        decimal_digits(n / 10).push(digit_char((n % 10) as int))
    }
}

/// The decimal text of `n`, with a `-` sign when it is negative.
pub open spec fn decimal(n: int) -> Seq<char> {
    if n < 0 {
        seq!['-'] + decimal_digits((-n) as nat)
    } else {
        decimal_digits(n as nat)
    }
}

/// Writes the decimal digits of `n`.
pub fn write_uint(out: &mut String, n: u64)
    ensures
        final(out)@ == old(out)@ + decimal_digits(n as nat),
    decreases n,
{
    if n >= 10 {
        write_uint(out, n / 10);
    }
    push_char(out, ((48 + n % 10) as u8) as char);
    assert(final(out)@ =~= old(out)@ + decimal_digits(n as nat));
}

/// Writes the decimal text of `n`.
pub fn write_int(out: &mut String, n: i64)
    ensures
        final(out)@ == old(out)@ + decimal(n as int),
{
    if n < 0 {
        push_char(out, '-');
        let magnitude: u64 = ((-(n + 1)) as u64) + 1;
        write_uint(out, magnitude);
        assert(final(out)@ =~= old(out)@ + decimal(n as int));
    } else {
        write_uint(out, n as u64);
    }
}

// ---------------------------------------------------------------------------
// JSON values
// ---------------------------------------------------------------------------

/// The compact JSON text of a value.
pub open spec fn json_text(v: Json) -> Seq<char>
    decreases v,
{
    match v {
        Json::Null => seq!['n', 'u', 'l', 'l'],
        Json::Boolean(b) => if b {
            seq!['t', 'r', 'u', 'e']
        } else {
            seq!['f', 'a', 'l', 's', 'e']
        },
        Json::Number(t) => t,
        Json::String(s) => quoted(s),
        Json::Array(items) => seq!['['] + elements_text(items, true) + seq![']'],
        Json::Object(members) => seq!['{'] + members_text(members, seq![], true) + seq!['}'],
    }
}

/// The separator written before an element or member: nothing before the
/// first one, a comma before the others.
pub open spec fn separator(first: bool) -> Seq<char> {
    if first {
        seq![]
    } else {
        seq![',']
    }
}

/// Array elements separated by commas; `first` says whether nothing has been
/// written before them.
pub open spec fn elements_text(items: Seq<Json>, first: bool) -> Seq<char>
    decreases items,
{
    if items.len() == 0 {
        seq![]
    } else {
        separator(first) + json_text(items[0]) + elements_text(items.drop_first(), false)
    }
}

/// Object members `"<prefix><key>":<value>` separated by commas; `first` says
/// whether nothing has been written before them in the enclosing object.
pub open spec fn members_text(members: Seq<(Seq<char>, Json)>, prefix: Seq<char>, first: bool) -> Seq<char>
    decreases members,
{
    if members.len() == 0 {
        seq![]
    } else {
        separator(first) + key_text(prefix, members[0].0) + json_text(members[0].1) + members_text(
            members.drop_first(),
            prefix,
            false,
        )
    }
}

/// One more element appends a separator and its text.
pub proof fn lemma_elements_push(items: Seq<Json>, first: bool, v: Json)
    ensures
        elements_text(items.push(v), first) == elements_text(items, first) + separator(
            first && items.len() == 0,
        ) + json_text(v),
    decreases items.len(),
{
    if items.len() == 0 {
        assert(items.push(v).drop_first() =~= Seq::<Json>::empty());
        assert(elements_text(items.push(v), first) == separator(first) + json_text(v)
            + elements_text(Seq::<Json>::empty(), false));
        assert(elements_text(items.push(v), first) =~= elements_text(items, first) + separator(first)
            + json_text(v));
    } else {
        lemma_elements_push(items.drop_first(), false, v);
        assert(items.push(v).drop_first() =~= items.drop_first().push(v));
        assert(items.push(v)[0] == items[0]);
        assert(elements_text(items.push(v), first) =~= elements_text(items, first) + separator(false)
            + json_text(v));
    }
}

/// One more member appends a separator and its text.
pub proof fn lemma_members_push(
    members: Seq<(Seq<char>, Json)>,
    prefix: Seq<char>,
    first: bool,
    m: (Seq<char>, Json),
)
    ensures
        members_text(members.push(m), prefix, first) == members_text(members, prefix, first)
            + separator(first && members.len() == 0) + key_text(prefix, m.0) + json_text(m.1),
    decreases members.len(),
{
    if members.len() == 0 {
        assert(members.push(m).drop_first() =~= Seq::<(Seq<char>, Json)>::empty());
        assert(members_text(members.push(m), prefix, first) == separator(first) + key_text(prefix, m.0)
            + json_text(m.1) + members_text(Seq::<(Seq<char>, Json)>::empty(), prefix, false));
        assert(members_text(members.push(m), prefix, first) =~= members_text(members, prefix, first)
            + separator(first) + key_text(prefix, m.0) + json_text(m.1));
    } else {
        lemma_members_push(members.drop_first(), prefix, false, m);
        assert(members.push(m).drop_first() =~= members.drop_first().push(m));
        assert(members.push(m)[0] == members[0]);
        assert(members_text(members.push(m), prefix, first) =~= members_text(members, prefix, first)
            + separator(false) + key_text(prefix, m.0) + json_text(m.1));
    }
}

pub fn write_separator(out: &mut String, first: &mut bool)
    ensures
        final(out)@ == old(out)@ + separator(*old(first)),
        *final(first) == false,
{
    if !*first {
        push_char(out, ',');
    }
    *first = false;
    assert(final(out)@ =~= old(out)@ + separator(*old(first)));
}

pub fn write_literal(out: &mut String, text: &str)
    ensures
        final(out)@ == old(out)@ + text@,
{
    let cs = chars_of(text);
    let mut i: usize = 0;
    while i < cs.len()
        invariant
            i <= cs.len(),
            cs@ == text@,
            out@ == old(out)@ + cs@.take(i as int),
        decreases cs.len() - i,
    {
        push_char(out, cs[i]);
        assert(cs@.take(i + 1) =~= cs@.take(i as int).push(cs@[i as int]));
        i = i + 1;
    }
    assert(cs@.take(i as int) =~= cs@);
}

/// Writes members `"<prefix><key>":<value>`, continuing an object in which
/// `first` says whether nothing has been written yet.
pub fn write_members(out: &mut String, members: &Vec<(String, JsonValue)>, prefix: &str, first: &mut bool)
    ensures
        final(out)@ == old(out)@ + members_text(members_view(members@), prefix@, *old(first)),
        *final(first) == (*old(first) && members.len() == 0),
    decreases members@, 0int,
{
    let ghost first0 = *first;
    let ghost ms = members_view(members@);
    proof {
        lemma_members_view(members@);
        assert(ms.take(0) =~= Seq::<(Seq<char>, Json)>::empty());
    }
    let mut i: usize = 0;
    while i < members.len()
        invariant
            i <= members.len(),
            ms == members_view(members@),
            ms.len() == members.len(),
            forall|j: int| 0 <= j < members.len() ==> #[trigger] ms[j] == (members@[j].0@, members@[j].1@),
            out@ == old(out)@ + members_text(ms.take(i as int), prefix@, first0),
            *first == (first0 && i == 0),
        decreases members.len() - i,
    {
        let ghost before = out@;
        let ghost was_first = *first;
        write_separator(out, first);
        write_key(out, prefix, members[i].0.as_str());
        write_value(out, &members[i].1);
        proof {
            lemma_members_push(ms.take(i as int), prefix@, first0, ms[i as int]);
            assert(ms.take(i as int).push(ms[i as int]) =~= ms.take(i + 1));
        }
        assert(out@ =~= old(out)@ + members_text(ms.take(i + 1), prefix@, first0));
        i = i + 1;
    }
    assert(ms.take(i as int) =~= ms);
}

/// Writes array elements separated by commas.
fn write_elements(out: &mut String, items: &Vec<JsonValue>)
    ensures
        final(out)@ == old(out)@ + elements_text(items_view(items@), true),
    decreases items@, 0int,
{
    let ghost xs = items_view(items@);
    proof {
        lemma_items_view(items@);
        assert(xs.take(0) =~= Seq::<Json>::empty());
    }
    let mut i: usize = 0;
    while i < items.len()
        invariant
            i <= items.len(),
            xs == items_view(items@),
            xs.len() == items.len(),
            forall|j: int| 0 <= j < items.len() ==> #[trigger] xs[j] == items@[j]@,
            out@ == old(out)@ + elements_text(xs.take(i as int), true),
        decreases items.len() - i,
    {
        if i > 0 {
            push_char(out, ',');
        }
        write_value(out, &items[i]);
        proof {
            lemma_elements_push(xs.take(i as int), true, xs[i as int]);
            assert(xs.take(i as int).push(xs[i as int]) =~= xs.take(i + 1));
        }
        assert(out@ =~= old(out)@ + elements_text(xs.take(i + 1), true));
        i = i + 1;
    }
    assert(xs.take(i as int) =~= xs);
}

/// Writes a value as compact JSON text.
pub fn write_value(out: &mut String, value: &JsonValue)
    ensures
        final(out)@ == old(out)@ + json_text(value@),
    decreases value, 1int,
{
    match value {
        JsonValue::Null => {
            write_literal(out, "null");
            proof { reveal_strlit("null"); }
            assert(final(out)@ =~= old(out)@ + json_text(value@));
        },
        JsonValue::Boolean(b) => {
            if *b {
                write_literal(out, "true");
                proof { reveal_strlit("true"); }
            } else {
                write_literal(out, "false");
                proof { reveal_strlit("false"); }
            }
            assert(final(out)@ =~= old(out)@ + json_text(value@));
        },
        JsonValue::Number(t) => {
            write_literal(out, t.as_str());
        },
        JsonValue::String(s) => {
            write_string(out, s.as_str());
        },
        JsonValue::Array(items) => {
            push_char(out, '[');
            write_elements(out, items);
            push_char(out, ']');
            assert(final(out)@ =~= old(out)@ + json_text(value@));
        },
        JsonValue::Object(members) => {
            push_char(out, '{');
            let mut first = true;
            write_members(out, members, "", &mut first);
            push_char(out, '}');
            proof {
                reveal_strlit("");
                assert(""@ =~= Seq::<char>::empty());
            }
            assert(final(out)@ =~= old(out)@ + json_text(value@));
        },
    }
}

} // verus!
