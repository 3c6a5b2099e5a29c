//! Translation files: a JSON document whose string leaves are translations,
//! named by the path of object keys that leads to them, joined with `.`.

use vstd::prelude::*;
use crate::text::push_char;

verus! {

/// A JSON value. An object's members are in the order given (the parser
/// gives them sorted by key); a number is kept without its value, which
/// translation files never read.
#[derive(Debug, PartialEq, Eq)]
pub enum Json {
    Null,
    Bool(bool),
    Number,
    Str(String),
    Array(Vec<Json>),
    Object(Vec<(String, Json)>),
}

/// serde_json's JSON value, as the parser returns it.
#[verifier::external_type_specification]
#[verifier::external_body]
pub struct ExJsonValue(serde_json::Value);

/// The JSON document that `text` holds, or `None` when it is not JSON.
pub uninterp spec fn spec_parse_json(text: Seq<char>) -> Option<Json>;

/// `serde_json::from_str::<serde_json::Value>`: parses `text` as JSON.
///
/// Claimed: the result is a function of the text alone (`spec_parse_json`);
/// what that function is, serde_json decides and nothing here states.
#[verifier::external_body]
fn parse_json(text: &str) -> (res: Option<Json>)
    ensures
        res == spec_parse_json(text@),
{
    serde_json::from_str::<serde_json::Value>(text).ok().map(json_from_value)
}

/// The library's copy of a serde_json value, variant by variant (a number's
/// value is dropped).
#[verifier::external_body]
fn json_from_value(value: serde_json::Value) -> Json {
    match value {
        serde_json::Value::Null => Json::Null,
        serde_json::Value::Bool(b) => Json::Bool(b),
        serde_json::Value::Number(_) => Json::Number,
        serde_json::Value::String(s) => Json::Str(s),
        serde_json::Value::Array(a) => Json::Array(a.into_iter().map(json_from_value).collect()),
        serde_json::Value::Object(m) => Json::Object(m.into_iter().map(|(k, v)| (k, json_from_value(v))).collect()),
    }
}

/// `prefix.key`, or `key` at the top level.
pub open spec fn qualified(prefix: Option<Seq<char>>, key: Seq<char>) -> Seq<char> {
    match prefix {
        Some(p) => p + seq!['.'] + key,
        None => key,
    }
}

/// The translations of an object's members, in order: a string member gives
/// one, an object member gives those of its own members under the longer
/// name, any other member gives none.
pub open spec fn flatten(members: Seq<(String, Json)>, prefix: Option<Seq<char>>) -> Seq<(Seq<char>, Seq<char>)>
    decreases members,
{
    if members.len() == 0 {
        Seq::empty()
    } else {
        let key = qualified(prefix, members[0].0@);
        let head = match members[0].1 {
            Json::Str(s) => seq![(key, s@)],
            Json::Object(m) => {
                proof {
                    assert(decreases_to!(members => members[0]));
                }
                flatten(m@, Some(key))
            },
            _ => Seq::empty(),
        };
        head + flatten(members.drop_first(), prefix)
    }
}

/// Pairs of strings, as values.
pub open spec fn pairs_view(v: Seq<(String, String)>) -> Seq<(Seq<char>, Seq<char>)> {
    v.map_values(|p: (String, String)| (p.0@, p.1@))
}

/// An optional string, as a value.
pub open spec fn opt_view(o: Option<String>) -> Option<Seq<char>> {
    match o {
        Some(s) => Some(s@),
        None => None,
    }
}

/// `prefix.key`, or `key` at the top level.
fn qualify(prefix: &Option<String>, key: &String) -> (res: String)
    ensures
        res@ == qualified(opt_view(*prefix), key@),
{
    match prefix {
        Some(p) => {
            let mut k = p.clone();
            push_char(&mut k, '.');
            k.append(key.as_str());
            k
        },
        None => key.clone(),
    }
}

/// Appends to `out` the translations of `members` (see `flatten`).
pub fn visit_json_kv_obj(members: &Vec<(String, Json)>, prefix: &Option<String>, out: &mut Vec<(String, String)>)
    ensures
        pairs_view(final(out)@) == pairs_view(old(out)@) + flatten(members@, opt_view(*prefix)),
    decreases members@,
{
    let ghost p = opt_view(*prefix);
    let ghost start = pairs_view(out@);
    let mut i: usize = 0;
    proof {
        assert(members@.subrange(0, members@.len() as int) =~= members@);
        assert(start + Seq::<(Seq<char>, Seq<char>)>::empty() =~= start);
    }
    while i < members.len()
        invariant
            i <= members@.len(),
            p == opt_view(*prefix),
            start + flatten(members@, p) == pairs_view(out@) + flatten(members@.subrange(i as int, members@.len() as int), p),
        decreases members.len() - i,
    {
        let ghost rest = members@.subrange(i as int, members@.len() as int);
        proof {
            assert(rest[0] == members@[i as int]);
            assert(rest.drop_first() =~= members@.subrange(i + 1, members@.len() as int));
        }
        let key = qualify(prefix, &members[i].0);
        let ghost before = pairs_view(out@);
        match &members[i].1 {
            Json::Str(s) => {
                out.push((key, s.clone()));
                proof {
                    assert(pairs_view(out@) =~= before + seq![(qualified(p, members@[i as int].0@), s@)]);
                }
            },
            Json::Object(m) => {
                proof {
                    assert(decreases_to!(members@ => members@[i as int]));
                }
                let next = Some(key);
                visit_json_kv_obj(m, &next, out);
            },
            _ => {
                proof {
                    assert(pairs_view(out@) =~= before + Seq::<(Seq<char>, Seq<char>)>::empty());
                }
            },
        }
        i = i + 1;
    }
    proof {
        assert(members@.subrange(members@.len() as int, members@.len() as int) =~= Seq::<(String, Json)>::empty());
        assert(pairs_view(out@) + Seq::<(Seq<char>, Seq<char>)>::empty() =~= pairs_view(out@));
    }
}

/// The translations of a document: those of its members when it is an
/// object, none otherwise.
pub open spec fn document_pairs(d: Json) -> Seq<(Seq<char>, Seq<char>)> {
    match d {
        Json::Object(m) => flatten(m@, None),
        _ => Seq::empty(),
    }
}

/// The translations of a document (see `document_pairs`).
pub fn json_pairs(document: &Json) -> (res: Vec<(String, String)>)
    ensures
        pairs_view(res@) == document_pairs(*document),
{
    let mut out: Vec<(String, String)> = Vec::new();
    if let Json::Object(m) = document {
        visit_json_kv_obj(m, &None, &mut out);
        proof {
            assert(pairs_view(Seq::<(String, String)>::empty()) =~= Seq::<(Seq<char>, Seq<char>)>::empty());
        }
    }
    out
}

/// The translations of a translation file's text, or `None` when the text
/// is not JSON.
pub fn visit_json_kv(text: &str) -> (res: Option<Vec<(String, String)>>)
    ensures
        match spec_parse_json(text@) {
            None => res is None,
            Some(d) => res matches Some(v) && pairs_view(v@) == document_pairs(d),
        },
{
    match parse_json(text) {
        Some(document) => Some(json_pairs(&document)),
        None => None,
    }
}

/// Each name with `p.` in front.
pub open spec fn prefix_pairs(p: Seq<char>, pairs: Seq<(Seq<char>, Seq<char>)>) -> Seq<(Seq<char>, Seq<char>)> {
    pairs.map_values(|x: (Seq<char>, Seq<char>)| (p + seq!['.'] + x.0, x.1))
}

proof fn lemma_prefix_pairs_append(p: Seq<char>, a: Seq<(Seq<char>, Seq<char>)>, b: Seq<(Seq<char>, Seq<char>)>)
    ensures
        prefix_pairs(p, a + b) == prefix_pairs(p, a) + prefix_pairs(p, b),
{
    assert(prefix_pairs(p, a + b) =~= prefix_pairs(p, a) + prefix_pairs(p, b));
}

proof fn lemma_prefix_pairs_twice(p: Seq<char>, k: Seq<char>, x: Seq<(Seq<char>, Seq<char>)>)
    ensures
        prefix_pairs(p, prefix_pairs(k, x)) == prefix_pairs(p + seq!['.'] + k, x),
{
    assert forall|i: int| 0 <= i < x.len() implies prefix_pairs(p, prefix_pairs(k, x))[i] == prefix_pairs(p + seq!['.'] + k, x)[i] by {
        assert(p + seq!['.'] + (k + seq!['.'] + x[i].0) =~= p + seq!['.'] + k + seq!['.'] + x[i].0);
    }
    assert(prefix_pairs(p, prefix_pairs(k, x)) =~= prefix_pairs(p + seq!['.'] + k, x));
}

/// Under a prefix `p`, an object's translations are those it has at the top
/// level, each name with `p.` in front, in the same order and with the same
/// texts.
pub proof fn law_flatten_prefix(members: Seq<(String, Json)>, p: Seq<char>)
    ensures
        flatten(members, Some(p)) == prefix_pairs(p, flatten(members, None)),
    decreases members,
{
    if members.len() == 0 {
        assert(prefix_pairs(p, Seq::empty()) =~= Seq::<(Seq<char>, Seq<char>)>::empty());
    } else {
        let k = members[0].0@;
        law_flatten_prefix(members.drop_first(), p);
        let rest_none = flatten(members.drop_first(), None);
        match members[0].1 {
            Json::Str(v) => {
                let head_none = seq![(k, v@)];
                assert(prefix_pairs(p, head_none) =~= seq![(p + seq!['.'] + k, v@)]);
                lemma_prefix_pairs_append(p, head_none, rest_none);
            },
            Json::Object(m) => {
                assert(decreases_to!(members => members[0]));
                law_flatten_prefix(m@, p + seq!['.'] + k);
                law_flatten_prefix(m@, k);
                lemma_prefix_pairs_twice(p, k, flatten(m@, None));
                lemma_prefix_pairs_append(p, flatten(m@, Some(k)), rest_none);
            },
            _ => {
                assert(Seq::<(Seq<char>, Seq<char>)>::empty() + rest_none =~= rest_none);
                assert(Seq::<(Seq<char>, Seq<char>)>::empty() + flatten(members.drop_first(), Some(p)) =~= flatten(members.drop_first(), Some(p)));
            },
        }
    }
}

/// The translations of two runs of members, one after the other, are those
/// of the first run followed by those of the second.
pub proof fn law_flatten_append(a: Seq<(String, Json)>, b: Seq<(String, Json)>, p: Option<Seq<char>>)
    ensures
        flatten(a + b, p) == flatten(a, p) + flatten(b, p),
    decreases a.len(),
{
    if a.len() == 0 {
        assert(a + b =~= b);
        assert(Seq::<(Seq<char>, Seq<char>)>::empty() + flatten(b, p) =~= flatten(b, p));
    } else {
        assert((a + b)[0] == a[0]);
        assert((a + b).drop_first() =~= a.drop_first() + b);
        law_flatten_append(a.drop_first(), b, p);
        let key = qualified(p, a[0].0@);
        let head = match a[0].1 {
            Json::Str(s) => seq![(key, s@)],
            Json::Object(m) => flatten(m@, Some(key)),
            _ => Seq::empty(),
        };
        assert(head + (flatten(a.drop_first(), p) + flatten(b, p)) =~= (head + flatten(a.drop_first(), p)) + flatten(b, p));
    }
}

/// A string member gives exactly one translation, whatever its text: its
/// qualified key and its text, ahead of those of the members after it.
pub proof fn law_flatten_string_member(k: String, s: String, rest: Seq<(String, Json)>, p: Option<Seq<char>>)
    ensures
        flatten(seq![(k, Json::Str(s))] + rest, p) == seq![(qualified(p, k@), s@)] + flatten(rest, p),
{
    let m = seq![(k, Json::Str(s))] + rest;
    assert(m[0] == (k, Json::Str(s)));
    assert(m.drop_first() =~= rest);
}

/// An object member gives the translations of its own members, their names
/// under the member's qualified key, ahead of those of the members after it.
pub proof fn law_flatten_object_member(k: String, o: Vec<(String, Json)>, rest: Seq<(String, Json)>, p: Option<Seq<char>>)
    ensures
        flatten(seq![(k, Json::Object(o))] + rest, p) == flatten(o@, Some(qualified(p, k@))) + flatten(rest, p),
{
    let m = seq![(k, Json::Object(o))] + rest;
    assert(m[0] == (k, Json::Object(o)));
    assert(m.drop_first() =~= rest);
}

/// A member that is neither a string nor an object gives no translation.
pub proof fn law_flatten_other_member(k: String, v: Json, rest: Seq<(String, Json)>, p: Option<Seq<char>>)
    requires
        !(v is Str),
        !(v is Object),
    ensures
        flatten(seq![(k, v)] + rest, p) == flatten(rest, p),
{
    let m = seq![(k, v)] + rest;
    assert(m[0] == (k, v));
    assert(m.drop_first() =~= rest);
    assert(Seq::<(Seq<char>, Seq<char>)>::empty() + flatten(rest, p) =~= flatten(rest, p));
}

/// Every string member of an object is among its translations, under its
/// qualified key and with its text.
pub proof fn law_string_member_is_translated(members: Seq<(String, Json)>, p: Option<Seq<char>>, i: int)
    requires
        0 <= i < members.len(),
        members[i].1 is Str,
    ensures
        flatten(members, p).contains((qualified(p, members[i].0@), members[i].1->Str_0@)),
{
    let k = members[i].0;
    let s = members[i].1->Str_0;
    let before = members.subrange(0, i);
    let after = members.subrange(i + 1, members.len() as int);
    assert(members =~= before + (seq![(k, Json::Str(s))] + after));
    law_flatten_append(before, seq![(k, Json::Str(s))] + after, p);
    law_flatten_string_member(k, s, after, p);
    let f = flatten(members, p);
    let n: int = flatten(before, p).len() as int;
    assert(f[n] == (qualified(p, k@), s@));
}

/// Every string member at the top level of a translation file's document is
/// a translation of the file, under its own key and with its text.
pub proof fn law_document_string_member_is_translated(members: Vec<(String, Json)>, i: int)
    requires
        0 <= i < members@.len(),
        members@[i].1 is Str,
    ensures
        document_pairs(Json::Object(members)).contains((members@[i].0@, members@[i].1->Str_0@)),
{
    law_string_member_is_translated(members@, None, i);
}

} // verus!
