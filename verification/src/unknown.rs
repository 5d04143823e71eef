//! Members the decoder does not look for are ignored.
//!
//! Decoding an object reads a struct's members under the keys its schema
//! gives them (with the prefixes of flattened fields, the discriminator's
//! key and the union's keys). A member under any other key, inserted
//! anywhere in any object, changes nothing: the plan, or the error, is the
//! same with it as without it. The exception is a struct whose type names a
//! registered codec, which is handed the whole remaining object.
use vstd::prelude::*;
use crate::decode::{
    decoded_plan, discriminant_of, field_codec, fields_plan, find_member, lemma_member_index, limit_of, member_index,
    member_plan, member_prefix, options_of, struct_discriminator, struct_plan, union_plan, union_search, Decoder,
    FieldRef, FieldSchema, FieldType, StructPlanModel, WriteModel,
};
use crate::error::ErrorModel;
use crate::json::Json;
use crate::options::{default_options, names_view, CodecChoice, OptionsModel};
use crate::roundtrip::{json_depth, json_round_trip, json_wf};
use crate::writer::json_text;

verus! {

/// The key under which the value of union member `fo` is looked for, with
/// discriminator `disc`: its value name, else the member's own name.
pub open spec fn union_value_key_of(
    disc: Option<(Option<Seq<char>>, Option<Seq<char>>)>,
    fo: OptionsModel,
) -> Seq<char> {
    match disc {
        Some((_, Some(vn))) => vn,
        _ => fo.name,
    }
}

/// Whether decoding field `f` (options `fo`) at `level` never looks `k` up
/// inside a flattened struct: a flattened struct field without a codec
/// reads the same object, one level deeper.
pub open spec fn member_free(d: Decoder, level: int, f: FieldSchema, fo: OptionsModel, k: Seq<char>) -> bool
    decreases limit_of(d) + 1 - level, 0int,
{
    if level >= limit_of(d) {
        true
    } else {
        match f.ty {
            FieldType::Struct(si) => (field_codec(d, f, fo) == CodecChoice::Default && fo.flatten is Some) ==> (si
                < d.structs.len() && key_free(d, level + 1, si as int, fo, k)),
            _ => true,
        }
    }
}

/// Whether decoding struct `si` with options `meta` at `level` never looks
/// key `k` up in the object it reads: `k` is none of the keys of its fields
/// (after the prefix of the flattened fields it is in), of its
/// discriminator, of its union members or of their values, at any depth of
/// flattening; and no struct read from that object names a registered
/// codec.
pub open spec fn key_free(d: Decoder, level: int, si: int, meta: OptionsModel, k: Seq<char>) -> bool
    decreases limit_of(d) + 1 - level, 1int,
{
    if level > limit_of(d) || si < 0 || si >= d.structs.len() {
        true
    } else {
        let st = d.structs@[si];
        let fp = member_prefix(meta);
        &&& !(st.codec matches Some(n) && names_view(d.named_codecs@).contains(n@))
        &&& forall|i: int|
            0 <= i < st.fields.len() ==> match #[trigger] options_of(st.fields@[i], fp) {
                Ok(fo) => k != fp + fo.name && member_free(d, level, st.fields@[i], fo, k),
                Err(_) => true,
            }
        &&& match struct_discriminator(meta, st) {
            Some((n, _)) => k != fp + match n {
                Some(x) => x,
                None => meta.name,
            },
            None => true,
        }
        &&& forall|i: int|
            0 <= i < st.union_fields.len() ==> match #[trigger] options_of(st.union_fields@[i], meta.prefix) {
                Ok(fo) => k != fp + fo.name && k != union_value_key_of(struct_discriminator(meta, st), fo) && member_free(
                    d,
                    level,
                    st.union_fields@[i],
                    fo,
                    k,
                ),
                Err(_) => true,
            }
    }
}

/// Inserting a member under another key changes neither whether `key` is
/// found nor the value found under it.
proof fn lemma_insert_index(ms: Seq<(Seq<char>, Json)>, j: int, x: (Seq<char>, Json), key: Seq<char>)
    requires
        0 <= j <= ms.len(),
        x.0 != key,
    ensures
        (member_index(ms.insert(j, x), key) >= 0) == (member_index(ms, key) >= 0),
        member_index(ms, key) >= 0 ==> ms.insert(j, x)[member_index(ms.insert(j, x), key)] == ms[member_index(
            ms,
            key,
        )],
    decreases ms.len(),
{
    let ms2 = ms.insert(j, x);
    lemma_member_index(ms, key);
    if j == 0 {
        assert(ms2.drop_first() =~= ms);
        let r = member_index(ms, key);
        if r >= 0 {
            assert(ms2.drop_first()[r] == ms2[r + 1]);
        }
    } else if ms[0].0 != key {
        let t = ms.drop_first();
        assert(ms2[0] == ms[0]);
        assert(ms2.drop_first() =~= t.insert(j - 1, x));
        lemma_insert_index(t, j - 1, x, key);
        lemma_member_index(t, key);
        lemma_member_index(t.insert(j - 1, x), key);
        let r = member_index(t, key);
        if r >= 0 {
            let r2 = member_index(t.insert(j - 1, x), key);
            assert(t[r] == ms[r + 1]);
            assert(t.insert(j - 1, x)[r2] == ms2[r2 + 1]);
        }
    } else {
        assert(ms2[0] == ms[0]);
    }
}

/// Taking `key`, other than the inserted member's, finds the same value.
proof fn lemma_insert_find(
    ms: Seq<(Seq<char>, Json)>,
    j: int,
    x: (Seq<char>, Json),
    taken: Seq<Seq<char>>,
    key: Seq<char>,
)
    requires
        0 <= j <= ms.len(),
        x.0 != key,
    ensures
        (find_member(ms.insert(j, x), taken, key) >= 0) == (find_member(ms, taken, key) >= 0),
        find_member(ms, taken, key) >= 0 ==> ms.insert(j, x)[find_member(ms.insert(j, x), taken, key)] == ms[find_member(
            ms,
            taken,
            key,
        )],
{
    lemma_insert_index(ms, j, x, key);
}

/// A field reads the same with the member inserted.
#[verifier::spinoff_prover]
#[verifier::rlimit(40)]
proof fn lemma_member_insert(
    d: Decoder,
    level: int,
    f: FieldSchema,
    fref: FieldRef,
    fo: OptionsModel,
    ms: Seq<(Seq<char>, Json)>,
    j: int,
    x: (Seq<char>, Json),
    taken: Seq<Seq<char>>,
    key: Seq<char>,
)
    requires
        0 <= j <= ms.len(),
        x.0 != key,
        member_free(d, level, f, fo, x.0),
    ensures
        member_plan(d, level, f, fref, fo, Json::Object(ms.insert(j, x)), taken, key) == member_plan(
            d,
            level,
            f,
            fref,
            fo,
            Json::Object(ms),
            taken,
            key,
        ),
    decreases limit_of(d) + 1 - level, 0int, 0int,
{
    lemma_insert_find(ms, j, x, taken, key);
    lemma_member_index(ms, key);
    lemma_member_index(ms.insert(j, x), key);
    if let FieldType::Struct(si) = f.ty {
        if field_codec(d, f, fo) == CodecChoice::Default && fo.flatten is Some && level + 1 <= limit_of(d) {
            lemma_struct_insert(d, level + 1, si as int, fo, ms, j, x, taken);
        }
    }
}

/// The first `n` fields read the same with the member inserted.
proof fn lemma_fields_insert(
    d: Decoder,
    level: int,
    fs: Seq<FieldSchema>,
    n: int,
    fp: Seq<char>,
    ms: Seq<(Seq<char>, Json)>,
    j: int,
    x: (Seq<char>, Json),
    taken: Seq<Seq<char>>,
)
    requires
        0 <= j <= ms.len(),
        forall|i: int|
            0 <= i < fs.len() ==> match #[trigger] options_of(fs[i], fp) {
                Ok(fo) => x.0 != fp + fo.name && member_free(d, level, fs[i], fo, x.0),
                Err(_) => true,
            },
    ensures
        fields_plan(d, level, Json::Object(ms.insert(j, x)), fs, n, fp, taken) == fields_plan(
            d,
            level,
            Json::Object(ms),
            fs,
            n,
            fp,
            taken,
        ),
    decreases limit_of(d) + 1 - level, 1int, n,
{
    if 0 < n <= fs.len() {
        lemma_fields_insert(d, level, fs, n - 1, fp, ms, j, x, taken);
        match fields_plan(d, level, Json::Object(ms), fs, n - 1, fp, taken) {
            Ok((_, t1)) => {
                if let Ok(fo) = options_of(fs[n - 1], fp) {
                    lemma_member_insert(d, level, fs[n - 1], FieldRef::Plain((n - 1) as usize), fo, ms, j, x, t1, fp + fo.name);
                }
            },
            Err(_) => {},
        }
    }
}

/// The union's members are searched for alike with the member inserted.
proof fn lemma_search_insert(
    fs: Seq<FieldSchema>,
    prefix: Seq<char>,
    fp: Seq<char>,
    ms: Seq<(Seq<char>, Json)>,
    j: int,
    x: (Seq<char>, Json),
    taken: Seq<Seq<char>>,
)
    requires
        0 <= j <= ms.len(),
        forall|i: int|
            0 <= i < fs.len() ==> match #[trigger] options_of(fs[i], prefix) {
                Ok(fo) => x.0 != fp + fo.name,
                Err(_) => true,
            },
    ensures
        union_search(fs, prefix, fp, ms.insert(j, x), taken) == union_search(fs, prefix, fp, ms, taken),
    decreases fs.len(),
{
    if fs.len() > 0 {
        if let Ok(fo) = options_of(fs[0], prefix) {
            lemma_insert_find(ms, j, x, taken, fp + fo.name);
        }
        assert forall|i: int| 0 <= i < fs.drop_first().len() implies match #[trigger] options_of(
            fs.drop_first()[i],
            prefix,
        ) {
            Ok(fo) => x.0 != fp + fo.name,
            Err(_) => true,
        } by {
            assert(fs.drop_first()[i] == fs[i + 1]);
        }
        lemma_search_insert(fs.drop_first(), prefix, fp, ms, j, x, taken);
    }
}

/// The active union member, from the `i`th on, reads the same with the
/// member inserted.
proof fn lemma_union_insert(
    d: Decoder,
    level: int,
    fs: Seq<FieldSchema>,
    i: int,
    name: Seq<char>,
    disc: Option<(Option<Seq<char>>, Option<Seq<char>>)>,
    prefix: Seq<char>,
    ms: Seq<(Seq<char>, Json)>,
    j: int,
    x: (Seq<char>, Json),
    taken: Seq<Seq<char>>,
)
    requires
        0 <= j <= ms.len(),
        forall|a: int|
            0 <= a < fs.len() ==> match #[trigger] options_of(fs[a], prefix) {
                Ok(fo) => x.0 != union_value_key_of(disc, fo) && member_free(d, level, fs[a], fo, x.0),
                Err(_) => true,
            },
    ensures
        union_plan(d, level, Json::Object(ms.insert(j, x)), fs, i, name, disc, prefix, taken) == union_plan(
            d,
            level,
            Json::Object(ms),
            fs,
            i,
            name,
            disc,
            prefix,
            taken,
        ),
    decreases limit_of(d) + 1 - level, 1int, fs.len() - i,
{
    if 0 <= i < fs.len() {
        if let Ok(fo) = options_of(fs[i], prefix) {
            if fo.name != name {
                lemma_union_insert(d, level, fs, i + 1, name, disc, prefix, ms, j, x, taken);
            } else if !(fs[i].ty is Void) {
                let vn = union_value_key_of(disc, fo);
                lemma_member_insert(d, level, fs[i], FieldRef::Union(i as usize), fo, ms, j, x, taken, vn);
            }
        }
    }
}

/// A struct reads the same from an object with a member inserted under a
/// key it never looks up.
#[verifier::spinoff_prover]
#[verifier::rlimit(60)]
proof fn lemma_struct_insert(
    d: Decoder,
    level: int,
    si: int,
    meta: OptionsModel,
    ms: Seq<(Seq<char>, Json)>,
    j: int,
    x: (Seq<char>, Json),
    taken: Seq<Seq<char>>,
)
    requires
        0 <= j <= ms.len(),
        0 <= si < d.structs.len(),
        key_free(d, level, si, meta, x.0),
    ensures
        struct_plan(d, level, Json::Object(ms.insert(j, x)), si, meta, taken) == struct_plan(
            d,
            level,
            Json::Object(ms),
            si,
            meta,
            taken,
        ),
    decreases limit_of(d) + 1 - level, 2int, 0int,
{
    if level <= limit_of(d) {
        let st = d.structs@[si];
        let fp = member_prefix(meta);
        let ms2 = ms.insert(j, x);
        lemma_fields_insert(d, level, st.fields@, st.fields.len() as int, fp, ms, j, x, taken);
        match fields_plan(d, level, Json::Object(ms), st.fields@, st.fields.len() as int, fp, taken) {
            Ok((ws, t1)) => {
                let disc = struct_discriminator(meta, st);
                if let Some((n, _)) = disc {
                    let k = fp + match n {
                        Some(y) => y,
                        None => meta.name,
                    };
                    lemma_insert_find(ms, j, x, t1, k);
                }
                assert(discriminant_of(ms2, t1, disc, fp, meta.name) == discriminant_of(ms, t1, disc, fp, meta.name));
                let t2 = discriminant_of(ms, t1, disc, fp, meta.name).1;
                assert forall|i: int| 0 <= i < st.union_fields.len() implies match #[trigger] options_of(
                    st.union_fields@[i],
                    meta.prefix,
                ) {
                    Ok(fo) => x.0 != fp + fo.name,
                    Err(_) => true,
                } by {}
                lemma_search_insert(st.union_fields@, meta.prefix, fp, ms, j, x, t2);
                assert forall|a: int| 0 <= a < st.union_fields.len() implies match #[trigger] options_of(
                    st.union_fields@[a],
                    meta.prefix,
                ) {
                    Ok(fo) => x.0 != union_value_key_of(disc, fo) && member_free(d, level, st.union_fields@[a], fo, x.0),
                    Err(_) => true,
                } by {}
                let dv = discriminant_of(ms, t1, disc, fp, meta.name).0;
                let found = match dv {
                    Some(y) => Ok::<Option<Seq<char>>, ErrorModel>(Some(y)),
                    None => union_search(st.union_fields@, meta.prefix, fp, ms, t2),
                };
                if let Ok(Some(name)) = found {
                    lemma_union_insert(d, level, st.union_fields@, 0, name, disc, meta.prefix, ms, j, x, t2);
                }
            },
            Err(_) => {},
        }
    }
}

/// Members the decoder does not look for are ignored: inserting, anywhere
/// in any object, a member under a key that decoding the root struct never
/// looks up (no field's key, with its flattened prefixes, no discriminator's
/// key, no union member's key or value key; no struct read from the object
/// naming a registered codec) plans the same writes, or fails with the same
/// error, as the object without it.
pub proof fn unknown_member_ignored(d: Decoder, root: int, ms: Seq<(Seq<char>, Json)>, j: int, x: (Seq<char>, Json))
    requires
        0 <= root < d.structs.len(),
        0 <= j <= ms.len(),
        key_free(d, 0, root, default_options(), x.0),
    ensures
        struct_plan(d, 0, Json::Object(ms.insert(j, x)), root, default_options(), seq![]) == struct_plan(
            d,
            0,
            Json::Object(ms),
            root,
            default_options(),
            seq![],
        ),
{
    lemma_struct_insert(d, 0, root, default_options(), ms, j, x, seq![]);
}

/// The same, for JSON text: the text of an object with such a member
/// inserted decodes as the text of the object without it, wherever both
/// texts parse back to their objects (numbers well-formed, each key once,
/// nesting within the recursion limit).
pub proof fn unknown_member_text_ignored(
    d: Decoder,
    root: int,
    ms: Seq<(Seq<char>, Json)>,
    j: int,
    x: (Seq<char>, Json),
)
    requires
        0 <= root < d.structs.len(),
        0 <= j <= ms.len(),
        key_free(d, 0, root, default_options(), x.0),
        json_wf(Json::Object(ms)),
        json_wf(Json::Object(ms.insert(j, x))),
        json_depth(Json::Object(ms)) <= d.options.recursion_limit,
        json_depth(Json::Object(ms.insert(j, x))) <= d.options.recursion_limit,
    ensures
        decoded_plan(d, root, json_text(Json::Object(ms.insert(j, x)))) == decoded_plan(
            d,
            root,
            json_text(Json::Object(ms)),
        ),
{
    json_round_trip(Json::Object(ms), d.options.recursion_limit as nat);
    json_round_trip(Json::Object(ms.insert(j, x)), d.options.recursion_limit as nat);
    unknown_member_ignored(d, root, ms, j, x);
}

} // verus!
