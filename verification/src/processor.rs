//! Extraction of fragments from a raw JSON document and deduplication
//! of a fragment list. Parsing the text into a generic structured value
//! is delegated to serde_json behind a trusted boundary; everything the
//! extraction decides about the parsed value is verified here.
use vstd::prelude::*;

use crate::error::CodegenError;
use crate::fragment::Fragment;
use crate::fragment::FragmentInput;
use crate::fragment::FragmentOutput;
use crate::fragment::FragmentView;
use crate::fragment::InputView;
use crate::fragment::OutputView;
use crate::fragment::unique_key_of;
use crate::fragment::views_of_fragments;
use crate::generator::contains_key;
use crate::generator::dedup_rec;
use crate::text::str_eq;
use crate::value::JsonVal;
use crate::value::JsonValue;
use crate::value::Member;
use crate::value::MemberVal;
use crate::value::lemma_view_of_list_props;
use crate::value::lemma_view_of_members_props;
use crate::value::member_val_of;
use crate::value::view_of;
use crate::value::view_of_list;
use crate::value::view_of_members;

verus! {

/// What parsing this text as JSON yields: the document's structural
/// value, or nothing for malformed text. The outcome depends on the
/// text alone.
pub uninterp spec fn parsed_doc(text: Seq<char>) -> Option<JsonVal>;

#[verifier::external_type_specification]
#[verifier::external_body]
pub struct ExSerdeJsonValue(serde_json::Value);

/// Converts a parsed serde_json value into the library's structured
/// form, variant by variant; a number becomes the decimal text that
/// serde_json prints for it. Relies on serde_json::Value's variants
/// and on serde_json::Number::to_string.
#[verifier::external_body]
fn value_to_model(v: &serde_json::Value) -> JsonValue {
    match v {
        serde_json::Value::Null => JsonValue::Null,
        serde_json::Value::Bool(b) => JsonValue::Bool(*b),
        serde_json::Value::Number(n) => JsonValue::Number(n.to_string()),
        serde_json::Value::String(s) => JsonValue::Text(s.clone()),
        serde_json::Value::Array(a) => JsonValue::List(a.iter().map(value_to_model).collect()),
        serde_json::Value::Object(o) => JsonValue::Object(
            o.iter().map(|(k, x)| Member { key: k.clone(), value: value_to_model(x) }).collect(),
        ),
    }
}

/// Relies on serde_json::from_str: succeeds exactly on well-formed JSON
/// text, and its result depends on the text alone (named `parsed_doc`).
#[verifier::external_body]
fn parse_json_text(text: &str) -> (r: Option<JsonValue>)
    ensures
        (match (r, parsed_doc(text@)) {
            (Some(v), Some(m)) => v@ == m,
            (None, None) => true,
            _ => false,
        }),
{
    match serde_json::from_str::<serde_json::Value>(text) {
        Ok(v) => Some(value_to_model(&v)),
        Err(_) => None,
    }
}

/// The value under the first member with this key, if any.
pub open spec fn lookup_member(ms: Seq<MemberVal>, key: Seq<char>) -> Option<JsonVal>
    decreases ms.len(),
{
    if ms.len() == 0 {
        None
    } else if ms[0].key == key {
        Some(ms[0].value)
    } else {
        lookup_member(ms.drop_first(), key)
    }
}

/// An optional string field: absent or null is none, a string is some,
/// any other shape fails the whole entry.
pub open spec fn opt_text_field(ms: Seq<MemberVal>, key: Seq<char>) -> Option<
    Option<Seq<char>>,
> {
    match lookup_member(ms, key) {
        None => Some(None),
        Some(JsonVal::Null) => Some(None),
        Some(JsonVal::Text(s)) => Some(Some(s)),
        Some(_) => None,
    }
}

/// An optional boolean field, with the same shape rules.
pub open spec fn opt_bool_field(ms: Seq<MemberVal>, key: Seq<char>) -> Option<Option<bool>> {
    match lookup_member(ms, key) {
        None => Some(None),
        Some(JsonVal::Null) => Some(None),
        Some(JsonVal::Bool(b)) => Some(Some(b)),
        Some(_) => None,
    }
}

/// A required string field: present and a string, or the entry fails.
pub open spec fn req_text_field(ms: Seq<MemberVal>, key: Seq<char>) -> Option<Seq<char>> {
    match lookup_member(ms, key) {
        Some(JsonVal::Text(s)) => Some(s),
        _ => None,
    }
}

/// The shape an input slot must have, mirrored from the fragment model:
/// an object with a required string `type`, optional string `name` and
/// `internal_type`, and an optional boolean `indexed`; unknown keys are
/// ignored.
pub open spec fn input_view_of_val(v: JsonVal) -> Option<InputView> {
    match v {
        JsonVal::Object(ms) => {
            match (
                opt_text_field(ms, "name"@),
                req_text_field(ms, "type"@),
                opt_bool_field(ms, "indexed"@),
                opt_text_field(ms, "internal_type"@),
            ) {
                (Some(name), Some(ty), Some(indexed), Some(internal_type)) => Some(
                    (InputView { name, ty, indexed, internal_type }),
                ),
                _ => None,
            }
        },
        _ => None,
    }
}

/// The shape an output slot must have; outputs carry no `indexed` flag.
pub open spec fn output_view_of_val(v: JsonVal) -> Option<OutputView> {
    match v {
        JsonVal::Object(ms) => {
            match (
                opt_text_field(ms, "name"@),
                req_text_field(ms, "type"@),
                opt_text_field(ms, "internal_type"@),
            ) {
                (Some(name), Some(ty), Some(internal_type)) => Some(
                    (OutputView { name, ty, internal_type }),
                ),
                _ => None,
            }
        },
        _ => None,
    }
}

/// Every element must be a valid input slot, or the list fails.
pub open spec fn input_views_of_list(xs: Seq<JsonVal>) -> Option<Seq<InputView>>
    decreases xs.len(),
{
    if xs.len() == 0 {
        Some(Seq::empty())
    } else {
        match (input_view_of_val(xs[0]), input_views_of_list(xs.drop_first())) {
            (Some(h), Some(t)) => Some(seq![h] + t),
            _ => None,
        }
    }
}

/// Every element must be a valid output slot, or the list fails.
pub open spec fn output_views_of_list(xs: Seq<JsonVal>) -> Option<Seq<OutputView>>
    decreases xs.len(),
{
    if xs.len() == 0 {
        Some(Seq::empty())
    } else {
        match (output_view_of_val(xs[0]), output_views_of_list(xs.drop_first())) {
            (Some(h), Some(t)) => Some(seq![h] + t),
            _ => None,
        }
    }
}

/// The shape a whole fragment must have: an object with a required
/// string `type`, a required array `inputs` of valid input slots,
/// optional `name` and `state_mutability` strings, an optional
/// `outputs` array of valid output slots and an optional boolean
/// `anonymous`; unknown keys are ignored.
pub open spec fn fragment_view_of_val(v: JsonVal) -> Option<FragmentView> {
    match v {
        JsonVal::Object(ms) => {
            let inputs = match lookup_member(ms, "inputs"@) {
                Some(JsonVal::List(xs)) => input_views_of_list(xs),
                _ => None,
            };
            let outputs = match lookup_member(ms, "outputs"@) {
                None => Some(None),
                Some(JsonVal::Null) => Some(None),
                Some(JsonVal::List(xs)) => match output_views_of_list(xs) {
                    Some(t) => Some(Some(t)),
                    None => None,
                },
                Some(_) => None,
            };
            match (
                opt_text_field(ms, "name"@),
                req_text_field(ms, "type"@),
                inputs,
                outputs,
                opt_text_field(ms, "state_mutability"@),
                opt_bool_field(ms, "anonymous"@),
            ) {
                (
                    Some(name),
                    Some(kind),
                    Some(ins),
                    Some(outs),
                    Some(state_mutability),
                    Some(anonymous),
                ) => Some(
                    (FragmentView {
                        name,
                        kind,
                        inputs: ins,
                        outputs: outs,
                        state_mutability,
                        anonymous,
                    }),
                ),
                _ => None,
            }
        },
        _ => None,
    }
}

/// The entries under the top-level `abi` key; anything else yields no
/// entries (and no error).
pub open spec fn abi_entries_of(doc: JsonVal) -> Seq<JsonVal> {
    match doc {
        JsonVal::Object(ms) => match lookup_member(ms, "abi"@) {
            Some(JsonVal::List(xs)) => xs,
            _ => Seq::empty(),
        },
        _ => Seq::empty(),
    }
}

/// The fragments the entries yield, entries that fail to parse being
/// silently skipped.
pub open spec fn fragments_of_entries(xs: Seq<JsonVal>) -> Seq<FragmentView>
    decreases xs.len(),
{
    if xs.len() == 0 {
        Seq::empty()
    } else {
        (match fragment_view_of_val(xs[0]) {
            Some(fv) => seq![fv],
            None => Seq::empty(),
        }) + fragments_of_entries(xs.drop_first())
    }
}

/// All fragments a parsed document yields.
pub open spec fn fragments_of_doc(doc: JsonVal) -> Seq<FragmentView> {
    fragments_of_entries(abi_entries_of(doc))
}

/// The first member with this key, by reference.
fn find_member<'a>(ms: &'a Vec<Member>, key: &str) -> (r: Option<&'a JsonValue>)
    ensures
        (match r {
            Some(v) => lookup_member(view_of_members(*ms, 0), key@) == Some(v@),
            None => lookup_member(view_of_members(*ms, 0), key@) is None,
        }),
{
    let ghost msv: Seq<MemberVal> = view_of_members(*ms, 0);
    let mut i: usize = 0;
    proof {
        lemma_view_of_members_props(*ms, 0);
        assert(msv.skip(0) =~= msv);
    }
    while i < ms.len()
        invariant
            i <= ms@.len(),
            msv == view_of_members(*ms, 0),
            msv.len() == ms@.len(),
            forall|k: int| 0 <= k < msv.len() ==> #[trigger] msv[k] == member_val_of(ms@[k]),
            lookup_member(msv, key@) == lookup_member(msv.skip(i as int), key@),
        decreases ms@.len() - i,
    {
        proof {
            assert(msv.skip(i as int)[0] == msv[i as int]);
            assert(msv.skip(i as int).drop_first() =~= msv.skip(i + 1));
        }
        if str_eq(ms[i].key.as_str(), key) {
            proof {
                assert(msv[i as int].key == key@);
            }
            return Some(&ms[i].value);
        }
        i = i + 1;
    }
    proof {
        assert(msv.skip(msv.len() as int).len() == 0);
    }
    None
}

/// Parses one input slot from its structural form; exactly
/// `input_view_of_val`.
fn input_from_value(v: &JsonValue) -> (r: Option<FragmentInput>)
    ensures
        (match (r, input_view_of_val(v@)) {
            (Some(p), Some(pv)) => p@ == pv,
            (None, None) => true,
            _ => false,
        }),
{
    let ms: &Vec<Member> = match v {
        JsonValue::Object(ms) => ms,
        _ => {
            return None;
        },
    };
    let name: Option<String> = match find_member(ms, "name") {
        None => None,
        Some(JsonValue::Null) => None,
        Some(JsonValue::Text(s)) => Some(s.clone()),
        Some(_) => {
            return None;
        },
    };
    let ty: String = match find_member(ms, "type") {
        Some(JsonValue::Text(s)) => s.clone(),
        _ => {
            return None;
        },
    };
    let indexed: Option<bool> = match find_member(ms, "indexed") {
        None => None,
        Some(JsonValue::Null) => None,
        Some(JsonValue::Bool(b)) => Some(*b),
        Some(_) => {
            return None;
        },
    };
    let internal_type: Option<String> = match find_member(ms, "internal_type") {
        None => None,
        Some(JsonValue::Null) => None,
        Some(JsonValue::Text(s)) => Some(s.clone()),
        Some(_) => {
            return None;
        },
    };
    Some(FragmentInput { name, ty, indexed, internal_type })
}

/// Parses one output slot from its structural form; exactly
/// `output_view_of_val`.
fn output_from_value(v: &JsonValue) -> (r: Option<FragmentOutput>)
    ensures
        (match (r, output_view_of_val(v@)) {
            (Some(p), Some(pv)) => p@ == pv,
            (None, None) => true,
            _ => false,
        }),
{
    let ms: &Vec<Member> = match v {
        JsonValue::Object(ms) => ms,
        _ => {
            return None;
        },
    };
    let name: Option<String> = match find_member(ms, "name") {
        None => None,
        Some(JsonValue::Null) => None,
        Some(JsonValue::Text(s)) => Some(s.clone()),
        Some(_) => {
            return None;
        },
    };
    let ty: String = match find_member(ms, "type") {
        Some(JsonValue::Text(s)) => s.clone(),
        _ => {
            return None;
        },
    };
    let internal_type: Option<String> = match find_member(ms, "internal_type") {
        None => None,
        Some(JsonValue::Null) => None,
        Some(JsonValue::Text(s)) => Some(s.clone()),
        Some(_) => {
            return None;
        },
    };
    Some(FragmentOutput { name, ty, internal_type })
}

proof fn lemma_input_views_all(xsv: Seq<JsonVal>, views: Seq<InputView>)
    requires
        xsv.len() == views.len(),
        forall|k: int|
            0 <= k < xsv.len() ==> input_view_of_val(#[trigger] xsv[k]) == Some(views[k]),
    ensures
        input_views_of_list(xsv) == Some(views),
    decreases xsv.len(),
{
    if xsv.len() == 0 {
        assert(views =~= Seq::<InputView>::empty());
    } else {
        lemma_input_views_all(xsv.drop_first(), views.drop_first());
        assert(seq![views[0]] + views.drop_first() =~= views);
    }
}

proof fn lemma_input_views_fail(xsv: Seq<JsonVal>, j: int)
    requires
        0 <= j < xsv.len(),
        input_view_of_val(xsv[j]) is None,
    ensures
        input_views_of_list(xsv) is None,
    decreases xsv.len(),
{
    if j > 0 {
        lemma_input_views_fail(xsv.drop_first(), j - 1);
    }
}

proof fn lemma_output_views_all(xsv: Seq<JsonVal>, views: Seq<OutputView>)
    requires
        xsv.len() == views.len(),
        forall|k: int|
            0 <= k < xsv.len() ==> output_view_of_val(#[trigger] xsv[k]) == Some(views[k]),
    ensures
        output_views_of_list(xsv) == Some(views),
    decreases xsv.len(),
{
    if xsv.len() == 0 {
        assert(views =~= Seq::<OutputView>::empty());
    } else {
        lemma_output_views_all(xsv.drop_first(), views.drop_first());
        assert(seq![views[0]] + views.drop_first() =~= views);
    }
}

proof fn lemma_output_views_fail(xsv: Seq<JsonVal>, j: int)
    requires
        0 <= j < xsv.len(),
        output_view_of_val(xsv[j]) is None,
    ensures
        output_views_of_list(xsv) is None,
    decreases xsv.len(),
{
    if j > 0 {
        lemma_output_views_fail(xsv.drop_first(), j - 1);
    }
}

/// Parses one ABI entry from its structural form; exactly
/// `fragment_view_of_val`.
pub fn fragment_from_value(v: &JsonValue) -> (r: Option<Fragment>)
    ensures
        (match (r, fragment_view_of_val(v@)) {
            (Some(f), Some(fv)) => f@ == fv,
            (None, None) => true,
            _ => false,
        }),
{
    let ms: &Vec<Member> = match v {
        JsonValue::Object(ms) => ms,
        _ => {
            return None;
        },
    };
    let name: Option<String> = match find_member(ms, "name") {
        None => None,
        Some(JsonValue::Null) => None,
        Some(JsonValue::Text(s)) => Some(s.clone()),
        Some(_) => {
            return None;
        },
    };
    let kind: String = match find_member(ms, "type") {
        Some(JsonValue::Text(s)) => s.clone(),
        _ => {
            return None;
        },
    };
    let inputs: Vec<FragmentInput> = match find_member(ms, "inputs") {
        Some(JsonValue::List(xs)) => {
            let ghost xsv: Seq<JsonVal> = view_of_list(*xs, 0);
            proof {
                lemma_view_of_list_props(*xs, 0);
            }
            let mut parsed: Vec<FragmentInput> = Vec::new();
            let mut i: usize = 0;
            while i < xs.len()
                invariant
                    i <= xs@.len(),
                    v@ == JsonVal::Object(view_of_members(*ms, 0)),
                    lookup_member(view_of_members(*ms, 0), "inputs"@) == Some(
                        JsonVal::List(xsv),
                    ),
                    xsv == view_of_list(*xs, 0),
                    xsv.len() == xs@.len(),
                    forall|k: int| 0 <= k < xsv.len() ==> #[trigger] xsv[k] == view_of(xs@[k]),
                    parsed@.len() == i,
                    forall|k: int|
                        0 <= k < i ==> input_view_of_val(#[trigger] xsv[k]) == Some(
                            parsed@[k]@,
                        ),
                decreases xs@.len() - i,
            {
                match input_from_value(&xs[i]) {
                    Some(p) => {
                        parsed.push(p);
                    },
                    None => {
                        proof {
                            lemma_input_views_fail(xsv, i as int);
                        }
                        return None;
                    },
                }
                i = i + 1;
            }
            proof {
                lemma_input_views_all(xsv, parsed@.map_values(|p: FragmentInput| p@));
            }
            parsed
        },
        _ => {
            return None;
        },
    };
    let outputs: Option<Vec<FragmentOutput>> = match find_member(ms, "outputs") {
        None => None,
        Some(JsonValue::Null) => None,
        Some(JsonValue::List(xs)) => {
            let ghost xsv: Seq<JsonVal> = view_of_list(*xs, 0);
            proof {
                lemma_view_of_list_props(*xs, 0);
            }
            let mut parsed: Vec<FragmentOutput> = Vec::new();
            let mut i: usize = 0;
            while i < xs.len()
                invariant
                    i <= xs@.len(),
                    v@ == JsonVal::Object(view_of_members(*ms, 0)),
                    lookup_member(view_of_members(*ms, 0), "outputs"@) == Some(
                        JsonVal::List(xsv),
                    ),
                    xsv == view_of_list(*xs, 0),
                    xsv.len() == xs@.len(),
                    forall|k: int| 0 <= k < xsv.len() ==> #[trigger] xsv[k] == view_of(xs@[k]),
                    parsed@.len() == i,
                    forall|k: int|
                        0 <= k < i ==> output_view_of_val(#[trigger] xsv[k]) == Some(
                            parsed@[k]@,
                        ),
                decreases xs@.len() - i,
            {
                match output_from_value(&xs[i]) {
                    Some(p) => {
                        parsed.push(p);
                    },
                    None => {
                        proof {
                            lemma_output_views_fail(xsv, i as int);
                        }
                        return None;
                    },
                }
                i = i + 1;
            }
            proof {
                lemma_output_views_all(xsv, parsed@.map_values(|p: FragmentOutput| p@));
            }
            Some(parsed)
        },
        Some(_) => {
            return None;
        },
    };
    let state_mutability: Option<String> = match find_member(ms, "state_mutability") {
        None => None,
        Some(JsonValue::Null) => None,
        Some(JsonValue::Text(s)) => Some(s.clone()),
        Some(_) => {
            return None;
        },
    };
    let anonymous: Option<bool> = match find_member(ms, "anonymous") {
        None => None,
        Some(JsonValue::Null) => None,
        Some(JsonValue::Bool(b)) => Some(*b),
        Some(_) => {
            return None;
        },
    };
    let f = Fragment { name, kind, inputs, outputs, state_mutability, anonymous };
    proof {
        assert(f@.inputs =~= (match fragment_view_of_val(v@) {
            Some(fv) => fv.inputs,
            None => Seq::empty(),
        }));
        if f@.outputs is Some {
            assert(f@.outputs->0 =~= (match fragment_view_of_val(v@) {
                Some(fv) => fv.outputs->0,
                None => Seq::empty(),
            }));
        }
    }
    Some(f)
}

/// Reads the fragments of one parsed document: the entries under the
/// top-level `abi` key, each parsed as a fragment, entries of the wrong
/// shape silently skipped; exactly `fragments_of_doc`.
pub fn extract_fragments(doc: &JsonValue) -> (r: Vec<Fragment>)
    ensures
        views_of_fragments(r@) == fragments_of_doc(doc@),
{
    let mut out: Vec<Fragment> = Vec::new();
    match doc {
        JsonValue::Object(ms) => {
            match find_member(ms, "abi") {
                Some(found) => {
                    match found {
                        JsonValue::List(xs) => {
                            let ghost xsv: Seq<JsonVal> = view_of_list(*xs, 0);
                            proof {
                                lemma_view_of_list_props(*xs, 0);
                                assert(abi_entries_of(doc@) == xsv);
                                assert(xsv.skip(0) =~= xsv);
                                assert(views_of_fragments(out@) + fragments_of_entries(
                                    xsv.skip(0),
                                ) =~= fragments_of_entries(xsv));
                            }
                            let mut i: usize = 0;
                            while i < xs.len()
                                invariant
                                    i <= xs@.len(),
                                    xsv == view_of_list(*xs, 0),
                                    xsv.len() == xs@.len(),
                                    forall|k: int|
                                        0 <= k < xsv.len() ==> #[trigger] xsv[k] == view_of(
                                            xs@[k],
                                        ),
                                    views_of_fragments(out@) + fragments_of_entries(
                                        xsv.skip(i as int),
                                    ) == fragments_of_entries(xsv),
                                decreases xs@.len() - i,
                            {
                                let ghost out_before: Seq<Fragment> = out@;
                                proof {
                                    assert(xsv.skip(i as int)[0] == xsv[i as int]);
                                    assert(xsv.skip(i as int).drop_first() =~= xsv.skip(i + 1));
                                }
                                match fragment_from_value(&xs[i]) {
                                    Some(f) => {
                                        out.push(f);
                                        proof {
                                            assert(views_of_fragments(out@) =~= views_of_fragments(
                                                out_before,
                                            ).push(fragment_view_of_val(xsv[i as int])->0));
                                            assert(views_of_fragments(out@)
                                                + fragments_of_entries(xsv.skip(i + 1))
                                                =~= views_of_fragments(out_before)
                                                + fragments_of_entries(xsv.skip(i as int)));
                                        }
                                    },
                                    None => {
                                        proof {
                                            assert(fragments_of_entries(xsv.skip(i as int))
                                                == fragments_of_entries(xsv.skip(i + 1)));
                                        }
                                    },
                                }
                                i = i + 1;
                            }
                            proof {
                                assert(xsv.skip(xsv.len() as int).len() == 0);
                                assert(views_of_fragments(out@) =~= fragments_of_entries(xsv));
                            }
                        },
                        _ => {
                            proof {
                                assert(views_of_fragments(out@) =~= fragments_of_doc(doc@));
                            }
                        },
                    }
                },
                None => {
                    proof {
                        assert(views_of_fragments(out@) =~= fragments_of_doc(doc@));
                    }
                },
            }
        },
        _ => {
            proof {
                assert(views_of_fragments(out@) =~= fragments_of_doc(doc@));
            }
        },
    }
    out
}

/// Parses the raw text of one input document and extracts its
/// fragments; fails exactly when the text is not well-formed JSON.
pub fn extract_abis_from_text(text: &str) -> (r: Result<Vec<Fragment>, CodegenError>)
    ensures
        (match (r, parsed_doc(text@)) {
            (Ok(fs), Some(doc)) => views_of_fragments(fs@) == fragments_of_doc(doc),
            (Err(e), None) => e == CodegenError::Json,
            _ => false,
        }),
{
    match parse_json_text(text) {
        Some(doc) => Ok(extract_fragments(&doc)),
        None => Err(CodegenError::Json),
    }
}

/// Keeps, in order, the first fragment seen for each uniqueness key and
/// drops every later holder of a key already seen.
pub fn deduplicate_abis(abis: Vec<Fragment>) -> (r: Vec<Fragment>)
    ensures
        views_of_fragments(r@) == dedup_rec(views_of_fragments(abis@), Seq::empty()),
{
    let ghost all: Seq<FragmentView> = views_of_fragments(abis@);
    let mut rest: Vec<Fragment> = abis;
    let mut out: Vec<Fragment> = Vec::new();
    let mut seen: Vec<String> = Vec::new();
    let ghost mut done: int = 0;
    proof {
        assert(views_of_fragments(rest@) =~= all.skip(0));
        assert(crate::text::views_of_strings(seen@) =~= Seq::<Seq<char>>::empty());
        assert(views_of_fragments(out@) + dedup_rec(all.skip(0), crate::text::views_of_strings(seen@))
            =~= dedup_rec(all, Seq::empty()));
    }
    while rest.len() > 0
        invariant
            0 <= done <= all.len(),
            views_of_fragments(rest@) =~= all.skip(done),
            views_of_fragments(out@) + dedup_rec(
                all.skip(done),
                crate::text::views_of_strings(seen@),
            ) == dedup_rec(all, Seq::empty()),
        decreases rest@.len(),
    {
        let ghost rest_before: Seq<Fragment> = rest@;
        let ghost out_before: Seq<Fragment> = out@;
        let ghost seen_before: Seq<Seq<char>> = crate::text::views_of_strings(seen@);
        proof {
            assert(views_of_fragments(rest_before).len() == rest_before.len());
            assert(done < all.len());
        }
        let f: Fragment = rest.remove(0);
        proof {
            assert(views_of_fragments(rest_before)[0] == rest_before[0]@);
            assert(all.skip(done)[0] == all[done]);
            assert(f@ == all[done]);
            assert(all.skip(done).drop_first() =~= all.skip(done + 1));
            assert forall|k: int| 0 <= k < rest@.len() implies views_of_fragments(rest@)[k]
                == all.skip(done + 1)[k] by {
                assert(rest@[k] == rest_before[k + 1]);
                assert(views_of_fragments(rest_before)[k + 1] == rest_before[k + 1]@);
                assert(all.skip(done)[k + 1] == all[done + 1 + k]);
            }
        }
        let key: String = f.get_unique_key();
        let is_dup: bool = contains_key(&seen, &key);
        if !is_dup {
            seen.push(key);
            out.push(f);
            proof {
                assert(crate::text::views_of_strings(seen@) =~= seen_before.push(
                    unique_key_of(all[done]),
                ));
                assert(views_of_fragments(out@) =~= views_of_fragments(out_before).push(
                    all[done],
                ));
                assert(dedup_rec(all.skip(done), seen_before) == seq![all[done]] + dedup_rec(
                    all.skip(done + 1),
                    crate::text::views_of_strings(seen@),
                ));
                assert(views_of_fragments(out@) + dedup_rec(
                    all.skip(done + 1),
                    crate::text::views_of_strings(seen@),
                ) =~= views_of_fragments(out_before) + dedup_rec(all.skip(done), seen_before));
            }
        } else {
            proof {
                assert(dedup_rec(all.skip(done), seen_before) == dedup_rec(
                    all.skip(done + 1),
                    seen_before,
                ));
            }
        }
        proof {
            done = done + 1;
            assert(views_of_fragments(rest@) =~= all.skip(done));
        }
    }
    proof {
        assert(all.skip(done).len() == 0);
        assert(dedup_rec(all.skip(done), crate::text::views_of_strings(seen@)) =~= Seq::<
            FragmentView,
        >::empty());
        assert(views_of_fragments(out@) =~= dedup_rec(all, Seq::empty()));
    }
    out
}

} // verus!
