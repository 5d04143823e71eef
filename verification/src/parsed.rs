//! What every value the parser returns satisfies, whatever the input: it
//! nests no deeper than the recursion limit, and no object in it names a key
//! twice.
use vstd::prelude::*;
use crate::grammar::{document, elements_at, has_key, lemma_skip_ws, members_at, skip_ws, value_at};
use crate::json::Json;
use crate::roundtrip::{items_depth, json_depth, keys_distinct, members_depth};

verus! {

/// Whether no object in `v`, at any depth, names a key twice.
pub open spec fn unique_keys(v: Json) -> bool
    decreases v,
{
    match v {
        Json::Array(items) => items_unique(items),
        Json::Object(members) => keys_distinct(members) && members_unique(members),
        _ => true,
    }
}

/// Whether no object in any element names a key twice.
pub open spec fn items_unique(items: Seq<Json>) -> bool
    decreases items,
{
    if items.len() == 0 {
        true
    } else {
        unique_keys(items[0]) && items_unique(items.drop_first())
    }
}

/// Whether no object in any member's value names a key twice.
pub open spec fn members_unique(members: Seq<(Seq<char>, Json)>) -> bool
    decreases members,
{
    if members.len() == 0 {
        true
    } else {
        unique_keys(members[0].1) && members_unique(members.drop_first())
    }
}

/// Elements none of which names a key twice.
proof fn lemma_items_unique(items: Seq<Json>)
    requires
        forall|i: int| 0 <= i < items.len() ==> unique_keys(#[trigger] items[i]),
    ensures
        items_unique(items),
    decreases items.len(),
{
    if items.len() > 0 {
        assert forall|i: int| 0 <= i < items.drop_first().len() implies unique_keys(#[trigger] items.drop_first()[i]) by {
            assert(items.drop_first()[i] == items[i + 1]);
        }
        lemma_items_unique(items.drop_first());
        assert(unique_keys(items[0]));
    }
}

/// Members none of whose values names a key twice.
proof fn lemma_members_unique(ms: Seq<(Seq<char>, Json)>)
    requires
        forall|i: int| 0 <= i < ms.len() ==> unique_keys(#[trigger] ms[i].1),
    ensures
        members_unique(ms),
    decreases ms.len(),
{
    if ms.len() > 0 {
        assert forall|i: int| 0 <= i < ms.drop_first().len() implies unique_keys(#[trigger] ms.drop_first()[i].1) by {
            assert(ms.drop_first()[i] == ms[i + 1]);
        }
        lemma_members_unique(ms.drop_first());
        assert(unique_keys(ms[0].1));
    }
}

/// Elements that each nest at most `bound` deep nest at most that deep.
proof fn lemma_items_bound(items: Seq<Json>, bound: nat)
    requires
        forall|i: int| 0 <= i < items.len() ==> json_depth(#[trigger] items[i]) <= bound,
    ensures
        items_depth(items) <= bound,
    decreases items.len(),
{
    if items.len() > 0 {
        assert forall|i: int| 0 <= i < items.drop_first().len() implies json_depth(
            #[trigger] items.drop_first()[i],
        ) <= bound by {
            assert(items.drop_first()[i] == items[i + 1]);
        }
        lemma_items_bound(items.drop_first(), bound);
        assert(json_depth(items[0]) <= bound);
    }
}

/// Members whose values each nest at most `bound` deep nest at most that
/// deep.
proof fn lemma_members_bound(ms: Seq<(Seq<char>, Json)>, bound: nat)
    requires
        forall|i: int| 0 <= i < ms.len() ==> json_depth(#[trigger] ms[i].1) <= bound,
    ensures
        members_depth(ms) <= bound,
    decreases ms.len(),
{
    if ms.len() > 0 {
        assert forall|i: int| 0 <= i < ms.drop_first().len() implies json_depth(#[trigger] ms.drop_first()[i].1)
            <= bound by {
            assert(ms.drop_first()[i] == ms[i + 1]);
        }
        lemma_members_bound(ms.drop_first(), bound);
        assert(json_depth(ms[0].1) <= bound);
    }
}

/// A value read at depth `level` nests at most `limit - level` deep.
proof fn lemma_value_depth(s: Seq<char>, p: int, level: nat, limit: nat)
    requires
        level <= limit,
    ensures
        value_at(s, p, level, limit) matches Ok((v, _)) ==> level + json_depth(v) <= limit && unique_keys(v),
    decreases s.len() - p, 0int,
{
    if 0 <= p <= s.len() {
        lemma_skip_ws(s, p);
        let q = skip_ws(s, p);
        if q < s.len() && level < limit {
            if s[q] == '[' {
                lemma_elements_depth(s, q + 1, level, limit, seq![], false);
            } else if s[q] == '{' {
                lemma_members_depth_at(s, q + 1, level, limit, seq![], false);
            }
        }
    }
}

/// The rest of an array read at depth `level` nests at most
/// `limit - level` deep, when the elements read so far do.
proof fn lemma_elements_depth(s: Seq<char>, p: int, level: nat, limit: nat, acc: Seq<Json>, require_comma: bool)
    requires
        level < limit,
        forall|i: int| 0 <= i < acc.len() ==> level + 1 + json_depth(#[trigger] acc[i]) <= limit && unique_keys(acc[i]),
    ensures
        elements_at(s, p, level, limit, acc, require_comma) matches Ok((v, _)) ==> level + json_depth(v) <= limit
            && unique_keys(v),
    decreases s.len() - p, 1int,
{
    if 0 <= p <= s.len() {
        lemma_skip_ws(s, p);
        let q = skip_ws(s, p);
        if q < s.len() {
            if s[q] == ']' {
                lemma_items_bound(acc, (limit - level - 1) as nat);
                lemma_items_unique(acc);
            } else if !(require_comma && s[q] != ',') {
                let r = if require_comma { q + 1 } else { q };
                lemma_value_depth(s, r, level + 1, limit);
                if let Ok((v, e)) = value_at(s, r, level + 1, limit) {
                    if p < e <= s.len() {
                        assert forall|i: int| 0 <= i < acc.push(v).len() implies level + 1 + json_depth(
                            #[trigger] acc.push(v)[i],
                        ) <= limit && unique_keys(acc.push(v)[i]) by {
                            if i < acc.len() {
                                assert(acc.push(v)[i] == acc[i]);
                            }
                        }
                        lemma_elements_depth(s, e, level, limit, acc.push(v), true);
                    }
                }
            }
        }
    }
}

/// The rest of an object read at depth `level` nests at most
/// `limit - level` deep, when the members read so far do.
proof fn lemma_members_depth_at(
    s: Seq<char>,
    p: int,
    level: nat,
    limit: nat,
    acc: Seq<(Seq<char>, Json)>,
    require_comma: bool,
)
    requires
        level < limit,
        forall|i: int| 0 <= i < acc.len() ==> level + 1 + json_depth(#[trigger] acc[i].1) <= limit && unique_keys(acc[i].1),
        keys_distinct(acc),
    ensures
        members_at(s, p, level, limit, acc, require_comma) matches Ok((v, _)) ==> level + json_depth(v) <= limit
            && unique_keys(v),
    decreases s.len() - p, 1int,
{
    if 0 <= p <= s.len() {
        lemma_skip_ws(s, p);
        let q = skip_ws(s, p);
        if q < s.len() {
            if s[q] == '}' {
                lemma_members_bound(acc, (limit - level - 1) as nat);
                lemma_members_unique(acc);
            } else if !(require_comma && s[q] != ',') {
                let r = if require_comma { q + 1 } else { q };
                if let Ok((key, ke)) = crate::grammar::string_at(s, r) {
                    if p <= ke <= s.len() {
                        lemma_skip_ws(s, ke);
                        let c = skip_ws(s, ke);
                        if c < s.len() && s[c] == ':' {
                            lemma_value_depth(s, c + 1, level + 1, limit);
                            if let Ok((v, e)) = value_at(s, c + 1, level + 1, limit) {
                                if p < e <= s.len() && !has_key(acc, key) {
                                    let next = acc.push((key, v));
                                    assert forall|i: int| 0 <= i < next.len() implies level + 1 + json_depth(
                                        #[trigger] next[i].1,
                                    ) <= limit && unique_keys(next[i].1) by {
                                        if i < acc.len() {
                                            assert(next[i] == acc[i]);
                                        }
                                    }
                                    assert forall|a: int, b: int| 0 <= a < b < next.len() implies #[trigger] next[a].0
                                        != #[trigger] next[b].0 by {
                                        if b == acc.len() {
                                            assert(next[a] == acc[a]);
                                            if acc[a].0 == key {
                                                assert(has_key(acc, key));
                                            }
                                        } else {
                                            assert(next[a] == acc[a] && next[b] == acc[b]);
                                        }
                                    }
                                    lemma_members_depth_at(s, e, level, limit, next, true);
                                }
                            }
                        }
                    }
                }
            }
        }
    }
}

/// Whatever the text, a value the parser reads from it nests no deeper
/// than the recursion limit, and no object in it names a key twice: text
/// that nests deeper, or repeats a key in an object, is rejected.
pub proof fn parsed_value_bounds(s: Seq<char>, limit: nat)
    ensures
        document(s, limit) matches Ok(v) ==> json_depth(v) <= limit && unique_keys(v),
{
    lemma_value_depth(s, 0, 0, limit);
}

} // verus!
