//! The round trip between the writer and the parser: reading the text the
//! writer produces for a well-formed value gives that value back.
use vstd::prelude::*;
use crate::error::ErrorModel;
use crate::grammar::{
    is_whitespace, is_digit, skip_ws, digits_end, match_rest, hex_value, hex4_value, unicode_escape,
    simple_escape, string_body, string_at, number_end, number_text_valid, number_at, has_key,
    value_at, elements_at, members_at, document, lemma_skip_ws,
};
use crate::json::Json;
use crate::writer::{
    escape_char, escaped, quoted, unicode_escape_text, hex_digit_lower, needs_unicode_escape,
    json_text, elements_text, members_text, separator, key_text,
};

verus! {

// ---------------------------------------------------------------------------
// Well-formed values
// ---------------------------------------------------------------------------

/// Number text as the parser reads it: it starts with a digit or `-`, the
/// reading of a number covers all of it, and it is a valid decimal number.
pub open spec fn number_text_wf(t: Seq<char>) -> bool {
    &&& t.len() > 0
    &&& (is_digit(t[0]) || t[0] == '-')
    &&& number_end(t, 0) == t.len()
    &&& number_text_valid(t)
}

/// No key occurs twice among an object's members.
pub open spec fn keys_distinct(members: Seq<(Seq<char>, Json)>) -> bool {
    forall|i: int, j: int|
        0 <= i < j < members.len() ==> #[trigger] members[i].0 != #[trigger] members[j].0
}

/// A value the parser can read back: numbers are well-formed number text and
/// objects name each key once, at every depth.
pub open spec fn json_wf(v: Json) -> bool
    decreases v,
{
    match v {
        Json::Number(t) => number_text_wf(t),
        Json::Array(items) => items_wf(items),
        Json::Object(members) => keys_distinct(members) && members_wf(members),
        _ => true,
    }
}

/// Every element is well-formed.
pub open spec fn items_wf(items: Seq<Json>) -> bool
    decreases items,
{
    if items.len() == 0 {
        true
    } else {
        json_wf(items[0]) && items_wf(items.drop_first())
    }
}

/// Every member's value is well-formed.
pub open spec fn members_wf(members: Seq<(Seq<char>, Json)>) -> bool
    decreases members,
{
    if members.len() == 0 {
        true
    } else {
        json_wf(members[0].1) && members_wf(members.drop_first())
    }
}

/// How many arrays and objects nest in a value.
pub open spec fn json_depth(v: Json) -> nat
    decreases v,
{
    match v {
        Json::Array(items) => 1 + items_depth(items),
        Json::Object(members) => 1 + members_depth(members),
        _ => 0,
    }
}

/// The greatest depth among elements.
pub open spec fn items_depth(items: Seq<Json>) -> nat
    decreases items,
{
    if items.len() == 0 {
        0
    } else {
        let a = json_depth(items[0]);
        let b = items_depth(items.drop_first());
        if a >= b {
            a
        } else {
            b
        }
    }
}

/// The greatest depth among members' values.
pub open spec fn members_depth(members: Seq<(Seq<char>, Json)>) -> nat
    decreases members,
{
    if members.len() == 0 {
        0
    } else {
        let a = json_depth(members[0].1);
        let b = members_depth(members.drop_first());
        if a >= b {
            a
        } else {
            b
        }
    }
}

// ---------------------------------------------------------------------------
// Positions in the input
// ---------------------------------------------------------------------------

/// `t` occurs in `s` at position `p`.
#[verifier::opaque]
pub open spec fn embeds(s: Seq<char>, p: int, t: Seq<char>) -> bool {
    0 <= p && p + t.len() <= s.len() && s.subrange(p, p + t.len()) == t
}

/// What may follow a value in the writer's output: the end of the text, or
/// the comma or bracket of an enclosing array or object.
pub open spec fn terminator(s: Seq<char>, e: int) -> bool {
    e == s.len() || (0 <= e < s.len() && (s[e] == ',' || s[e] == ']' || s[e] == '}'))
}

proof fn lemma_embeds_at(s: Seq<char>, p: int, t: Seq<char>, i: int)
    requires
        embeds(s, p, t),
        0 <= i < t.len(),
    ensures
        s[p + i] == t[i],
        0 <= p,
        p + t.len() <= s.len(),
{
    reveal(embeds);
    assert(s.subrange(p, p + t.len())[i] == s[p + i]);
}

proof fn lemma_embeds_split(s: Seq<char>, p: int, a: Seq<char>, b: Seq<char>)
    requires
        embeds(s, p, a + b),
    ensures
        embeds(s, p, a),
        embeds(s, p + a.len(), b),
        p + (a + b).len() <= s.len(),
{
    reveal(embeds);
    assert(s.subrange(p, p + a.len()) =~= (a + b).subrange(0, a.len() as int));
    assert((a + b).subrange(0, a.len() as int) =~= a);
    assert(s.subrange(p + a.len(), p + a.len() + b.len()) =~= (a + b).subrange(
        a.len() as int,
        (a + b).len() as int,
    ));
    assert((a + b).subrange(a.len() as int, (a + b).len() as int) =~= b);
}

/// Text that occurs at `p` matches character by character.
proof fn lemma_match_lit(s: Seq<char>, p: int, lit: Seq<char>)
    requires
        embeds(s, p, lit),
    ensures
        match_rest(s, p, lit) == Ok::<int, ErrorModel>(p + lit.len()),
    decreases lit.len(),
{
    if lit.len() > 0 {
        lemma_embeds_at(s, p, lit, 0);
        assert(lit =~= seq![lit[0]] + lit.drop_first());
        lemma_embeds_split(s, p, seq![lit[0]], lit.drop_first());
        lemma_match_lit(s, p + 1, lit.drop_first());
    }
}

/// Whitespace skipping stops at once at a non-whitespace character.
proof fn lemma_skip_ws_at(s: Seq<char>, p: int)
    requires
        0 <= p < s.len(),
        !is_whitespace(s[p]),
    ensures
        skip_ws(s, p) == p,
{
}

// ---------------------------------------------------------------------------
// Strings
// ---------------------------------------------------------------------------

proof fn lemma_hex_digit(d: int)
    requires
        0 <= d < 16,
    ensures
        hex_value(hex_digit_lower(d)) == Some(d),
        hex_digit_lower(d) != '+',
{
}

proof fn lemma_four_digits(v: int)
    requires
        0 <= v < 65536,
    ensures
        ((v / 4096) % 16) * 4096 + ((v / 256) % 16) * 256 + ((v / 16) % 16) * 16 + v % 16 == v,
{
    assert(((v / 4096) % 16) * 4096 + ((v / 256) % 16) * 256 + ((v / 16) % 16) * 16 + v % 16 == v)
        by (nonlinear_arith)
        requires
            0 <= v < 65536,
    ;
}

/// A `\u` escape the writer produces reads back as the escaped character.
proof fn lemma_unicode_escape_rt(c: char, s: Seq<char>, p: int)
    requires
        needs_unicode_escape(c),
        embeds(s, p, unicode_escape_text(c as int)),
    ensures
        unicode_escape(s, p + 2) == Ok::<(char, int), ErrorModel>((c, p + 6)),
{
    reveal(embeds);
    let v = c as int;
    let t = unicode_escape_text(v);
    assert(v < 0xa0);
    lemma_hex_digit((v / 4096) % 16);
    lemma_hex_digit((v / 256) % 16);
    lemma_hex_digit((v / 16) % 16);
    lemma_hex_digit(v % 16);
    lemma_four_digits(v);
    let h = s.subrange(p + 2, p + 6);
    assert(h =~= t.subrange(2, 6));
    assert(hex4_value(h) == Some(v));
}

/// The escaped contents of a string, followed by the closing quote, read
/// back as the string.
proof fn lemma_string_rt(cs: Seq<char>, s: Seq<char>, p: int, acc: Seq<char>)
    requires
        embeds(s, p, escaped(cs) + seq!['"']),
    ensures
        string_body(s, p, acc) == Ok::<(Seq<char>, int), ErrorModel>(
            (acc + cs, p + escaped(cs).len() + 1),
        ),
    decreases cs.len(),
{
    if cs.len() == 0 {
        assert(escaped(cs) + seq!['"'] =~= seq!['"']);
        lemma_embeds_at(s, p, escaped(cs) + seq!['"'], 0);
        assert(acc + cs =~= acc);
    } else {
        let c = cs[0];
        let e = escape_char(c);
        let rest = cs.drop_first();
        assert(escaped(cs) == e + escaped(rest));
        assert(escaped(cs) + seq!['"'] =~= e + (escaped(rest) + seq!['"']));
        lemma_embeds_split(s, p, e, escaped(rest) + seq!['"']);
        lemma_string_rt(rest, s, p + e.len(), acc.push(c));
        assert(acc.push(c) + rest =~= acc + cs);
        lemma_escape_step(c, s, p, acc);
    }
}

/// Reading one character's escape gives that character.
proof fn lemma_escape_step(c: char, s: Seq<char>, p: int, acc: Seq<char>)
    requires
        embeds(s, p, escape_char(c)),
    ensures
        string_body(s, p, acc) == string_body(s, p + escape_char(c).len(), acc.push(c)),
{
    let e = escape_char(c);
    lemma_embeds_at(s, p, e, 0);
    if c == '"' || c == '\\' || c == '\n' || c == '\r' || c == '\t' || c == '\u{8}' || c == '\u{c}' {
        lemma_embeds_at(s, p, e, 1);
        assert(s[p] == '\\');
        assert(simple_escape(s[p + 1]) == Some(c));
    } else if needs_unicode_escape(c) {
        lemma_embeds_at(s, p, e, 1);
        lemma_unicode_escape_rt(c, s, p);
    } else {
        assert(s[p] == c);
    }
}

// ---------------------------------------------------------------------------
// Numbers
// ---------------------------------------------------------------------------

/// Reading digits inside embedded text matches reading them in the text
/// alone, when what follows the text is a terminator.
proof fn lemma_digits_shift(s: Seq<char>, t: Seq<char>, p: int, i: int)
    requires
        embeds(s, p, t),
        0 <= i <= t.len(),
        terminator(s, p + t.len()),
    ensures
        digits_end(s, p + i) == p + digits_end(t, i),
    decreases t.len() - i,
{
    if i < t.len() {
        lemma_embeds_at(s, p, t, i);
        if is_digit(t[i]) {
            lemma_digits_shift(s, t, p, i + 1);
        }
    }
}

/// Whether the character at `e` of `s` is `c`, reading past the end as no
/// character.
pub open spec fn char_at_is(s: Seq<char>, e: int, c: char) -> bool {
    0 <= e < s.len() && s[e] == c
}

proof fn lemma_char_shift(s: Seq<char>, t: Seq<char>, p: int, i: int, c: char)
    requires
        embeds(s, p, t),
        0 <= i <= t.len(),
        terminator(s, p + t.len()),
        c != ',' && c != ']' && c != '}',
    ensures
        char_at_is(s, p + i, c) == char_at_is(t, i, c),
{
    if i < t.len() {
        lemma_embeds_at(s, p, t, i);
    }
}

/// Well-formed number text, followed by a terminator, reads back as itself.
proof fn lemma_number_rt(t: Seq<char>, s: Seq<char>, p: int)
    requires
        number_text_wf(t),
        embeds(s, p, t),
        terminator(s, p + t.len()),
    ensures
        number_at(s, p) == Ok::<(Json, int), ErrorModel>((Json::Number(t), p + t.len())),
{
    lemma_embeds_at(s, p, t, 0);
    let a = if t[0] == '-' { 1int } else { 0int };
    assert(a == (if p < s.len() && s[p] == '-' { p + 1 } else { p }) - p);
    lemma_digits_shift(s, t, p, a);
    let b = digits_end(t, a);
    crate::grammar::lemma_digits_end(t, a);
    lemma_char_shift(s, t, p, b, '.');
    let c = if b < t.len() && t[b] == '.' { digits_end(t, b + 1) } else { b };
    if b < t.len() && t[b] == '.' {
        lemma_digits_shift(s, t, p, b + 1);
        crate::grammar::lemma_digits_end(t, b + 1);
    }
    lemma_char_shift(s, t, p, c, 'e');
    lemma_char_shift(s, t, p, c, 'E');
    if c < t.len() && (t[c] == 'e' || t[c] == 'E') {
        lemma_char_shift(s, t, p, c + 1, '+');
        lemma_char_shift(s, t, p, c + 1, '-');
        let d = if c + 1 < t.len() && (t[c + 1] == '+' || t[c + 1] == '-') { c + 2 } else { c + 1 };
        lemma_digits_shift(s, t, p, d);
    }
    assert(number_end(s, p) == p + number_end(t, 0));
    reveal(embeds);
    assert(s.subrange(p, number_end(s, p)) == t);
}

// ---------------------------------------------------------------------------
// Values
// ---------------------------------------------------------------------------

/// The text of a well-formed value is not empty, and starts with a character
/// that is not whitespace, a comma or a closing bracket.
proof fn lemma_text_start(v: Json)
    requires
        json_wf(v),
    ensures
        json_text(v).len() >= 1,
        !is_whitespace(json_text(v)[0]),
        json_text(v)[0] != ',' && json_text(v)[0] != ']' && json_text(v)[0] != '}',
{
    match v {
        Json::String(cs) => {
            assert(quoted(cs)[0] == '"');
        },
        Json::Array(items) => {},
        Json::Object(members) => {},
        _ => {},
    }
}

proof fn lemma_elements_start(items: Seq<Json>, first: bool)
    requires
        items_wf(items),
    ensures
        (elements_text(items, first) + seq![']'])[0] == (if items.len() == 0 {
            ']'
        } else if !first {
            ','
        } else {
            json_text(items[0])[0]
        }),
{
    if items.len() > 0 {
        lemma_text_start(items[0]);
    }
}

/// A well-formed value whose text occurs at `p`, followed by a terminator,
/// reads back as itself, as long as its nesting stays within the limit.
#[verifier::spinoff_prover]
#[verifier::rlimit(100)]
proof fn lemma_value_rt(v: Json, s: Seq<char>, p: int, level: nat, limit: nat)
    requires
        json_wf(v),
        level + json_depth(v) <= limit,
        embeds(s, p, json_text(v)),
        terminator(s, p + json_text(v).len()),
    ensures
        value_at(s, p, level, limit) == Ok::<(Json, int), ErrorModel>((v, p + json_text(v).len())),
    decreases v, 0int,
{
    let t = json_text(v);
    lemma_text_start(v);
    lemma_embeds_at(s, p, t, 0);
    lemma_skip_ws_at(s, p);
    match v {
        Json::Null => {
            assert(t =~= seq!['n'] + seq!['u', 'l', 'l']);
            lemma_embeds_split(s, p, seq!['n'], seq!['u', 'l', 'l']);
            lemma_match_lit(s, p + 1, seq!['u', 'l', 'l']);
        },
        Json::Boolean(b) => {
            if b {
                assert(t =~= seq!['t'] + seq!['r', 'u', 'e']);
                lemma_embeds_split(s, p, seq!['t'], seq!['r', 'u', 'e']);
                lemma_match_lit(s, p + 1, seq!['r', 'u', 'e']);
            } else {
                assert(t =~= seq!['f'] + seq!['a', 'l', 's', 'e']);
                lemma_embeds_split(s, p, seq!['f'], seq!['a', 'l', 's', 'e']);
                lemma_match_lit(s, p + 1, seq!['a', 'l', 's', 'e']);
            }
        },
        Json::Number(nt) => {
            lemma_number_rt(nt, s, p);
        },
        Json::String(cs) => {
            assert(t =~= seq!['"'] + (escaped(cs) + seq!['"']));
            lemma_embeds_split(s, p, seq!['"'], escaped(cs) + seq!['"']);
            lemma_string_rt(cs, s, p + 1, Seq::empty());
            assert(Seq::<char>::empty() + cs =~= cs);
        },
        Json::Array(items) => {
            assert(t =~= seq!['['] + (elements_text(items, true) + seq![']']));
            lemma_embeds_split(s, p, seq!['['], elements_text(items, true) + seq![']']);
            lemma_elements_rt(items, s, p + 1, level, limit, Seq::empty(), true);
            assert(Seq::<Json>::empty() + items =~= items);
        },
        Json::Object(members) => {
            assert(t =~= seq!['{'] + (members_text(members, seq![], true) + seq!['}']));
            lemma_embeds_split(s, p, seq!['{'], members_text(members, seq![], true) + seq!['}']);
            assert(Seq::<(Seq<char>, Json)>::empty() + members =~= members);
            lemma_members_rt(members, s, p + 1, level, limit, Seq::empty(), true);
        },
    }
}

/// Array elements written by the writer, followed by the closing bracket,
/// read back as those elements.
proof fn lemma_elements_rt(
    items: Seq<Json>,
    s: Seq<char>,
    p: int,
    level: nat,
    limit: nat,
    acc: Seq<Json>,
    first: bool,
)
    requires
        items_wf(items),
        level + 1 + items_depth(items) <= limit,
        embeds(s, p, elements_text(items, first) + seq![']']),
    ensures
        elements_at(s, p, level, limit, acc, !first) == Ok::<(Json, int), ErrorModel>(
            (Json::Array(acc + items), p + elements_text(items, first).len() + 1),
        ),
    decreases items, 1int,
{
    let t = elements_text(items, first) + seq![']'];
    lemma_elements_start(items, first);
    if items.len() > 0 {
        lemma_text_start(items[0]);
    }
    lemma_embeds_at(s, p, t, 0);
    lemma_skip_ws_at(s, p);
    if items.len() == 0 {
        assert(acc + items =~= acc);
    } else {
        let x = items[0];
        let rest = items.drop_first();
        let sep = separator(first);
        let tx = json_text(x);
        assert(t =~= sep + (tx + (elements_text(rest, false) + seq![']'])));
        lemma_embeds_split(s, p, sep, tx + (elements_text(rest, false) + seq![']']));
        lemma_embeds_split(s, p + sep.len(), tx, elements_text(rest, false) + seq![']']);
        let r = p + sep.len();
        let e = r + tx.len();
        lemma_elements_start(rest, false);
        lemma_embeds_at(s, e, elements_text(rest, false) + seq![']'], 0);
        lemma_value_rt(x, s, r, level + 1, limit);
        lemma_elements_rt(rest, s, e, level, limit, acc.push(x), false);
        assert(acc.push(x) + rest =~= acc + items);
    }
}

/// Where the parts of the first member's text lie: its value's text right
/// after its key, followed by a terminator and the rest of the members.
proof fn lemma_member_layout(members: Seq<(Seq<char>, Json)>, s: Seq<char>, p: int, first: bool)
    requires
        members.len() > 0,
        embeds(s, p, members_text(members, seq![], first) + seq!['}']),
    ensures
        ({
            let v0 = p + separator(first).len() + key_text(seq![], members[0].0).len();
            let e = v0 + json_text(members[0].1).len();
            &&& embeds(s, v0, json_text(members[0].1))
            &&& terminator(s, e)
            &&& embeds(s, e, members_text(members.drop_first(), seq![], false) + seq!['}'])
            &&& e + members_text(members.drop_first(), seq![], false).len() == p + members_text(members, seq![], first).len()
        }),
{
    let t = members_text(members, seq![], first) + seq!['}'];
    let k = members[0].0;
    let x = members[0].1;
    let rest = members.drop_first();
    let sep = separator(first);
    let kt = key_text(seq![], k);
    let tx = json_text(x);
    let tail = members_text(rest, seq![], false) + seq!['}'];
    assert(t =~= sep + (kt + (tx + tail)));
    lemma_embeds_split(s, p, sep, kt + (tx + tail));
    let r = p + sep.len();
    lemma_embeds_split(s, r, kt, tx + tail);
    let ke = r + kt.len() - 1;
    let e = ke + 1 + tx.len();
    lemma_embeds_split(s, ke + 1, tx, tail);
    lemma_embeds_at(s, e, tail, 0);
    assert(tail[0] == (if rest.len() == 0 { '}' } else { ',' }));
}

/// Reading the first member, once its value reads back, leaves the reader
/// at the rest of the members with that member taken.
#[verifier::spinoff_prover]
#[verifier::rlimit(50)]
proof fn lemma_member_step(
    members: Seq<(Seq<char>, Json)>,
    s: Seq<char>,
    p: int,
    level: nat,
    limit: nat,
    acc: Seq<(Seq<char>, Json)>,
    first: bool,
)
    requires
        members.len() > 0,
        keys_distinct(acc + members),
        embeds(s, p, members_text(members, seq![], first) + seq!['}']),
        ({
            let v0 = p + separator(first).len() + key_text(seq![], members[0].0).len();
            value_at(s, v0, level + 1, limit) == Ok::<(Json, int), ErrorModel>(
                (members[0].1, v0 + json_text(members[0].1).len()),
            )
        }),
    ensures
        ({
            let v0 = p + separator(first).len() + key_text(seq![], members[0].0).len();
            let e = v0 + json_text(members[0].1).len();
            members_at(s, p, level, limit, acc, !first) == members_at(s, e, level, limit, acc.push(members[0]), true)
        }),
{
    let t = members_text(members, seq![], first) + seq!['}'];
    let k = members[0].0;
    let x = members[0].1;
    let rest = members.drop_first();
    let sep = separator(first);
    let kt = key_text(seq![], k);
    let tx = json_text(x);
    let tail = members_text(rest, seq![], false) + seq!['}'];
    lemma_embeds_at(s, p, t, 0);
    assert(t =~= sep + (kt + (tx + tail)));
    lemma_embeds_split(s, p, sep, kt + (tx + tail));
    let r = p + sep.len();
    lemma_embeds_split(s, r, kt, tx + tail);
    lemma_key_rt(k, s, r);
    lemma_embeds_at(s, r, kt, 0);
    assert(sep.len() == 0 ==> s[p] == '"');
    lemma_skip_ws_at(s, p);
    assert(!has_key(acc, k)) by {
        assert forall|i: int| 0 <= i < acc.len() implies #[trigger] acc[i].0 != k by {
            assert((acc + members)[i] == acc[i]);
            assert((acc + members)[acc.len() as int] == members[0]);
        }
    }
    assert(members[0] == (k, x));
}

/// Object members written by the writer, followed by the closing brace,
/// read back as those members when no key repeats one before it.
#[verifier::spinoff_prover]
#[verifier::rlimit(50)]
proof fn lemma_members_rt(
    members: Seq<(Seq<char>, Json)>,
    s: Seq<char>,
    p: int,
    level: nat,
    limit: nat,
    acc: Seq<(Seq<char>, Json)>,
    first: bool,
)
    requires
        members_wf(members),
        keys_distinct(acc + members),
        level + 1 + members_depth(members) <= limit,
        embeds(s, p, members_text(members, seq![], first) + seq!['}']),
    ensures
        members_at(s, p, level, limit, acc, !first) == Ok::<(Json, int), ErrorModel>(
            (Json::Object(acc + members), p + members_text(members, seq![], first).len() + 1),
        ),
    decreases members, 1int,
{
    let t = members_text(members, seq![], first) + seq!['}'];
    lemma_embeds_at(s, p, t, 0);
    if members.len() == 0 {
        lemma_skip_ws_at(s, p);
        assert(acc + members =~= acc);
    } else {
        let x = members[0].1;
        let rest = members.drop_first();
        let v0 = p + separator(first).len() + key_text(seq![], members[0].0).len();
        let e = v0 + json_text(x).len();
        lemma_member_layout(members, s, p, first);
        lemma_value_rt(x, s, v0, level + 1, limit);
        lemma_member_step(members, s, p, level, limit, acc, first);
        assert(acc.push(members[0]) + rest =~= acc + members);
        lemma_members_rt(rest, s, e, level, limit, acc.push(members[0]), false);
    }
}

/// A key written by the writer reads back as itself, followed by its colon.
proof fn lemma_key_rt(k: Seq<char>, s: Seq<char>, r: int)
    requires
        embeds(s, r, key_text(seq![], k)),
    ensures
        string_at(s, r) == Ok::<(Seq<char>, int), ErrorModel>((k, r + key_text(seq![], k).len() - 1)),
        skip_ws(s, r + key_text(seq![], k).len() - 1) == r + key_text(seq![], k).len() - 1,
        s[r + key_text(seq![], k).len() - 1] == ':',
{
    let kt = key_text(seq![], k);
    assert(seq![] + k =~= k);
    assert(kt =~= seq!['"'] + ((escaped(k) + seq!['"']) + seq![':']));
    lemma_embeds_at(s, r, kt, 0);
    lemma_embeds_at(s, r, kt, kt.len() - 1);
    lemma_skip_ws_at(s, r);
    lemma_skip_ws_at(s, r + kt.len() - 1);
    lemma_embeds_split(s, r, seq!['"'], (escaped(k) + seq!['"']) + seq![':']);
    lemma_embeds_split(s, r + 1, escaped(k) + seq!['"'], seq![':']);
    lemma_string_rt(k, s, r + 1, Seq::empty());
    assert(Seq::<char>::empty() + k =~= k);
}

/// Reading the text the writer produces for a well-formed value gives that
/// value back, when its arrays and objects nest no deeper than the limit.
pub proof fn json_round_trip(v: Json, limit: nat)
    requires
        json_wf(v),
        json_depth(v) <= limit,
    ensures
        document(json_text(v), limit) == Ok::<Json, ErrorModel>(v),
{
    let s = json_text(v);
    assert(s.subrange(0, s.len() as int) =~= s);
    reveal(embeds);
    lemma_value_rt(v, s, 0, 0, limit);
    lemma_skip_ws(s, s.len() as int);
}

} // verus!
