//! The declaration generator: structural serialization of a fragment,
//! rendering of structured values as source-text literals, and the
//! per-output-unit orchestration that filters, deduplicates,
//! disambiguates and concatenates declarations.
use vstd::assert_by_contradiction;
use vstd::prelude::*;
use vstd::string::StringExecFns;

use crate::error::CodegenError;
use crate::fragment::Fragment;
use crate::fragment::FragmentInput;
use crate::fragment::FragmentOutput;
use crate::fragment::FragmentView;
use crate::fragment::has_name;
use crate::fragment::identifier_of;
use crate::fragment::name_or_empty;
use crate::fragment::unique_key_of;
use crate::fragment::views_of_fragments;
use crate::text::join_strings;
use crate::text::join_with;
use crate::text::str_eq;
use crate::text::views_of_strings;
use crate::value::JsonVal;
use crate::value::JsonValue;
use crate::value::Member;
use crate::value::MemberVal;
use crate::value::lemma_literals_of_props;
use crate::value::lemma_member_literals_of_props;
use crate::value::lemma_view_of_list_props;
use crate::value::lemma_view_of_members_props;
use crate::value::literal_of;
use crate::value::literals_of;
use crate::value::member_literal_of;
use crate::value::member_literals_of;
use crate::value::view_of;
use crate::value::view_of_list;
use crate::value::view_of_members;

verus! {

/// A text value, or null for an absent optional string.
pub open spec fn opt_text_val(s: Option<Seq<char>>) -> JsonVal {
    match s {
        Some(x) => JsonVal::Text(x),
        None => JsonVal::Null,
    }
}

/// The structural form of one input slot: its fields as an ordered map,
/// keys in sorted order, optional fields present only when set, the
/// name always present (null when absent).
pub open spec fn input_value_of(p: crate::fragment::InputView) -> JsonVal {
    JsonVal::Object(
        (match p.indexed {
            Some(b) => seq![MemberVal { key: "indexed"@, value: JsonVal::Bool(b) }],
            None => Seq::empty(),
        }) + (match p.internal_type {
            Some(t) => seq![MemberVal { key: "internal_type"@, value: JsonVal::Text(t) }],
            None => Seq::empty(),
        }) + seq![
            MemberVal { key: "name"@, value: opt_text_val(p.name) },
            MemberVal { key: "type"@, value: JsonVal::Text(p.ty) },
        ],
    )
}

/// The structural form of one output slot.
pub open spec fn output_value_of(p: crate::fragment::OutputView) -> JsonVal {
    JsonVal::Object(
        (match p.internal_type {
            Some(t) => seq![MemberVal { key: "internal_type"@, value: JsonVal::Text(t) }],
            None => Seq::empty(),
        }) + seq![
            MemberVal { key: "name"@, value: opt_text_val(p.name) },
            MemberVal { key: "type"@, value: JsonVal::Text(p.ty) },
        ],
    )
}

/// The structural form of a whole fragment, keys in sorted order.
pub open spec fn fragment_value_of(f: FragmentView) -> JsonVal {
    JsonVal::Object(
        (match f.anonymous {
            Some(b) => seq![MemberVal { key: "anonymous"@, value: JsonVal::Bool(b) }],
            None => Seq::empty(),
        }) + seq![
            MemberVal {
                key: "inputs"@,
                value: JsonVal::List(
                    f.inputs.map_values(|p: crate::fragment::InputView| input_value_of(p)),
                ),
            },
            MemberVal { key: "name"@, value: opt_text_val(f.name) },
        ] + (match f.outputs {
            Some(os) => seq![
                MemberVal {
                    key: "outputs"@,
                    value: JsonVal::List(
                        os.map_values(|p: crate::fragment::OutputView| output_value_of(p)),
                    ),
                },
            ],
            None => Seq::empty(),
        }) + (match f.state_mutability {
            Some(m) => seq![MemberVal { key: "state_mutability"@, value: JsonVal::Text(m) }],
            None => Seq::empty(),
        }) + seq![MemberVal { key: "type"@, value: JsonVal::Text(f.kind) }],
    )
}

/// The full declaration text of one fragment under the given identifier
/// choice.
pub open spec fn declaration_of(f: FragmentView, explicit: bool) -> Seq<char> {
    "export const "@ + identifier_of(f, explicit) + " = "@ + literal_of(fragment_value_of(f))
        + " as const;"@
}

/// The fragments that carry a usable name, in order.
pub open spec fn kept_fragments(s: Seq<FragmentView>) -> Seq<FragmentView>
    decreases s.len(),
{
    if s.len() == 0 {
        Seq::empty()
    } else if has_name(s[0]) {
        seq![s[0]] + kept_fragments(s.drop_first())
    } else {
        kept_fragments(s.drop_first())
    }
}

/// How often a name occurs among the fragments.
pub open spec fn count_name(s: Seq<FragmentView>, n: Seq<char>) -> nat
    decreases s.len(),
{
    if s.len() == 0 {
        0nat
    } else {
        (if name_or_empty(s[0]) == n {
            1nat
        } else {
            0nat
        }) + count_name(s.drop_first(), n)
    }
}

/// Whether a fragment needs the type-qualified identifier: its name is
/// shared by at least one other fragment of the same output unit.
pub open spec fn explicit_flag(kept: Seq<FragmentView>, f: FragmentView) -> bool {
    count_name(kept, name_or_empty(f)) > 1
}

/// First occurrence of each uniqueness key wins; later holders of a key
/// already in `seen` are dropped.
pub open spec fn dedup_rec(s: Seq<FragmentView>, seen: Seq<Seq<char>>) -> Seq<FragmentView>
    decreases s.len(),
{
    if s.len() == 0 {
        Seq::empty()
    } else if seen.contains(unique_key_of(s[0])) {
        dedup_rec(s.drop_first(), seen)
    } else {
        seq![s[0]] + dedup_rec(s.drop_first(), seen.push(unique_key_of(s[0])))
    }
}

/// The fragments that survive filtering and deduplication, in order.
pub open spec fn surviving_fragments(frags: Seq<FragmentView>) -> Seq<FragmentView> {
    dedup_rec(kept_fragments(frags), Seq::empty())
}

/// The identifiers emitted for an output unit, in order.
pub open spec fn emitted_identifiers(frags: Seq<FragmentView>) -> Seq<Seq<char>> {
    surviving_fragments(frags).map_values(
        |f: FragmentView| identifier_of(f, explicit_flag(kept_fragments(frags), f)),
    )
}

/// The declarations emitted for an output unit, in order.
pub open spec fn emitted_declarations(frags: Seq<FragmentView>) -> Seq<Seq<char>> {
    surviving_fragments(frags).map_values(
        |f: FragmentView| declaration_of(f, explicit_flag(kept_fragments(frags), f)),
    )
}

/// The whole text of one output unit: the declarations separated by a
/// blank line, then the default export list; nothing at all when no
/// named fragment is left.
pub open spec fn file_content_of(frags: Seq<FragmentView>) -> Option<Seq<char>> {
    if kept_fragments(frags).len() == 0 {
        None
    } else {
        Some(
            join_with(emitted_declarations(frags), "\n\n"@) + "\n\n"@ + "export default ["@
                + join_with(emitted_identifiers(frags), ", "@) + "] as const;"@,
        )
    }
}

/// Deduplication keeps at least the first fragment.
pub proof fn lemma_dedup_rec_first_survives(s: Seq<FragmentView>, seen: Seq<Seq<char>>)
    requires
        s.len() > 0,
        !seen.contains(unique_key_of(s[0])),
    ensures
        dedup_rec(s, seen).len() > 0,
{
}

proof fn lemma_push_contains(s: Seq<Seq<char>>, x: Seq<char>, y: Seq<char>)
    ensures
        s.push(x).contains(y) <==> (s.contains(y) || y == x),
{
    if s.push(x).contains(y) {
        let j = choose|j: int| 0 <= j < s.push(x).len() && s.push(x)[j] == y;
        if j < s.len() {
            assert(s[j] == y);
        }
    }
    if s.contains(y) {
        let j = choose|j: int| 0 <= j < s.len() && s[j] == y;
        assert(s.push(x)[j] == y);
    }
    if y == x {
        assert(s.push(x)[s.len() as int] == y);
    }
}

/// The laws of deduplication, generalised over the keys already seen:
/// no surviving key was seen before, no key repeats among the
/// survivors, each survivor is the first element bearing its key, and
/// every unseen key of the input is represented by a survivor.
pub proof fn lemma_dedup_rec_props(s: Seq<FragmentView>, seen: Seq<Seq<char>>)
    ensures
        forall|k: int|
            0 <= k < dedup_rec(s, seen).len() ==> !seen.contains(
                unique_key_of(#[trigger] dedup_rec(s, seen)[k]),
            ),
        forall|k1: int, k2: int|
            0 <= k1 < k2 < dedup_rec(s, seen).len() ==> unique_key_of(
                #[trigger] dedup_rec(s, seen)[k1],
            ) != unique_key_of(#[trigger] dedup_rec(s, seen)[k2]),
        forall|k: int|
            0 <= k < dedup_rec(s, seen).len() ==> exists|i: int|
                0 <= i < s.len() && s[i] == #[trigger] dedup_rec(s, seen)[k] && (forall|m: int|
                    0 <= m < i ==> unique_key_of(#[trigger] s[m]) != unique_key_of(
                        dedup_rec(s, seen)[k],
                    )),
        forall|i: int|
            0 <= i < s.len() ==> seen.contains(unique_key_of(#[trigger] s[i])) || exists|k: int|
                0 <= k < dedup_rec(s, seen).len() && unique_key_of(
                    #[trigger] dedup_rec(s, seen)[k],
                ) == unique_key_of(s[i]),
    decreases s.len(),
{
    if s.len() == 0 {
    } else {
        let key0 = unique_key_of(s[0]);
        let d = dedup_rec(s, seen);
        if seen.contains(key0) {
            let rest = s.drop_first();
            lemma_dedup_rec_props(rest, seen);
            assert(d == dedup_rec(rest, seen));
            assert forall|k: int| #![trigger d[k]] 0 <= k < d.len() implies exists|i: int|
                0 <= i < s.len() && (#[trigger] s[i]) == d[k] && (forall|m: int|
                    0 <= m < i ==> unique_key_of(#[trigger] s[m]) != unique_key_of(d[k])) by {
                let i0 = choose|i0: int|
                    0 <= i0 < rest.len() && rest[i0] == d[k] && (forall|m: int|
                        0 <= m < i0 ==> unique_key_of(#[trigger] rest[m]) != unique_key_of(d[k]));
                assert(s[i0 + 1] == d[k]);
                assert forall|m: int| 0 <= m < i0 + 1 implies unique_key_of(#[trigger] s[m])
                    != unique_key_of(d[k]) by {
                    if m == 0 {
                        assert(!seen.contains(unique_key_of(d[k])));
                    } else {
                        assert(rest[m - 1] == s[m]);
                    }
                }
            }
            assert forall|i: int|
                0 <= i < s.len() && !seen.contains(unique_key_of(s[i])) implies exists|k: int|
                0 <= k < d.len() && unique_key_of(#[trigger] d[k]) == unique_key_of(s[i]) by {
                assert(i != 0);
                assert(rest[i - 1] == s[i]);
            }
        } else {
            let rest = s.drop_first();
            let seen2 = seen.push(key0);
            lemma_dedup_rec_props(rest, seen2);
            let d2 = dedup_rec(rest, seen2);
            assert(d == seq![s[0]] + d2);
            assert(d[0] == s[0]);
            assert forall|k: int| 0 <= k < d.len() implies !seen.contains(
                unique_key_of(d[k]),
            ) by {
                if k > 0 {
                    assert(d[k] == d2[k - 1]);
                    lemma_push_contains(seen, key0, unique_key_of(d2[k - 1]));
                }
            }
            assert forall|k1: int, k2: int| 0 <= k1 < k2 < d.len() implies unique_key_of(d[k1])
                != unique_key_of(d[k2]) by {
                if k1 == 0 {
                    assert(d[k2] == d2[k2 - 1]);
                    lemma_push_contains(seen, key0, unique_key_of(d2[k2 - 1]));
                } else {
                    assert(d[k1] == d2[k1 - 1]);
                    assert(d[k2] == d2[k2 - 1]);
                }
            }
            assert forall|k: int| #![trigger d[k]] 0 <= k < d.len() implies exists|i: int|
                0 <= i < s.len() && (#[trigger] s[i]) == d[k] && (forall|m: int|
                    0 <= m < i ==> unique_key_of(#[trigger] s[m]) != unique_key_of(d[k])) by {
                if k == 0 {
                    assert(s[0] == d[0] && (forall|m: int|
                        0 <= m < 0 ==> unique_key_of(#[trigger] s[m]) != unique_key_of(d[0])));
                } else {
                    assert(d[k] == d2[k - 1]);
                    let i0 = choose|i0: int|
                        0 <= i0 < rest.len() && rest[i0] == d2[k - 1] && (forall|m: int|
                            0 <= m < i0 ==> unique_key_of(#[trigger] rest[m]) != unique_key_of(
                                d2[k - 1],
                            ));
                    assert(s[i0 + 1] == d[k]);
                    assert forall|m: int| 0 <= m < i0 + 1 implies unique_key_of(#[trigger] s[m])
                        != unique_key_of(d[k]) by {
                        lemma_push_contains(seen, key0, unique_key_of(d2[k - 1]));
                        if m == 0 {
                            assert(!seen2.contains(unique_key_of(d2[k - 1])));
                            assert(seen2[seen.len() as int] == key0);
                            assert(unique_key_of(d[k]) != key0);
                        } else {
                            assert(rest[m - 1] == s[m]);
                        }
                    }
                }
            }
            assert forall|i: int|
                0 <= i < s.len() && !seen.contains(unique_key_of(s[i])) implies exists|k: int|
                0 <= k < d.len() && unique_key_of(#[trigger] d[k]) == unique_key_of(s[i]) by {
                if i == 0 {
                    assert(unique_key_of(d[0]) == unique_key_of(s[0]));
                } else {
                    assert(rest[i - 1] == s[i]);
                    lemma_push_contains(seen, key0, unique_key_of(s[i]));
                    if unique_key_of(s[i]) == key0 {
                        assert(unique_key_of(d[0]) == unique_key_of(s[i]));
                    } else {
                        assert(!seen2.contains(unique_key_of(rest[i - 1])));
                        let k0 = choose|k0: int|
                            0 <= k0 < d2.len() && unique_key_of(#[trigger] d2[k0])
                                == unique_key_of(rest[i - 1]);
                        assert(d[k0 + 1] == d2[k0]);
                    }
                }
            }
        }
    }
}

/// Law of deduplication within one output unit: among what is emitted
/// no uniqueness key repeats, every key of the filtered fragments is
/// represented exactly once, and what is emitted for a key is the
/// first filtered fragment that bears it — later fragments with an
/// already-seen key are silently dropped, whatever their other fields.
/// Some emitted fragment bears this uniqueness key.
pub open spec fn key_represented(frags: Seq<FragmentView>, key: Seq<char>) -> bool {
    exists|k: int|
        0 <= k < surviving_fragments(frags).len() && unique_key_of(
            #[trigger] surviving_fragments(frags)[k],
        ) == key
}

/// This emitted fragment is the first filtered fragment bearing its key.
pub open spec fn is_first_occurrence(frags: Seq<FragmentView>, k: int) -> bool {
    exists|i: int|
        0 <= i < kept_fragments(frags).len() && (#[trigger] kept_fragments(frags)[i])
            == surviving_fragments(frags)[k] && (forall|m: int|
            0 <= m < i ==> unique_key_of(#[trigger] kept_fragments(frags)[m]) != unique_key_of(
                surviving_fragments(frags)[k],
            ))
}

pub proof fn lemma_first_occurrence_wins(frags: Seq<FragmentView>)
    ensures
        forall|k1: int, k2: int|
            0 <= k1 < k2 < surviving_fragments(frags).len() ==> unique_key_of(
                #[trigger] surviving_fragments(frags)[k1],
            ) != unique_key_of(#[trigger] surviving_fragments(frags)[k2]),
        forall|i: int|
            0 <= i < kept_fragments(frags).len() ==> key_represented(
                frags,
                unique_key_of(#[trigger] kept_fragments(frags)[i]),
            ),
        forall|k: int|
            0 <= k < surviving_fragments(frags).len() ==> is_first_occurrence(frags, k),
{
    lemma_dedup_rec_props(kept_fragments(frags), Seq::empty());
    let d = dedup_rec(kept_fragments(frags), Seq::<Seq<char>>::empty());
    assert forall|i: int| 0 <= i < kept_fragments(frags).len() implies key_represented(
        frags,
        unique_key_of(#[trigger] kept_fragments(frags)[i]),
    ) by {
        assert(!Seq::<Seq<char>>::empty().contains(unique_key_of(kept_fragments(frags)[i])));
        let k0 = choose|k0: int|
            0 <= k0 < d.len() && unique_key_of(#[trigger] d[k0]) == unique_key_of(
                kept_fragments(frags)[i],
            );
        assert(unique_key_of(surviving_fragments(frags)[k0]) == unique_key_of(
            kept_fragments(frags)[i],
        ));
    }
    assert forall|k: int| 0 <= k < surviving_fragments(frags).len() implies is_first_occurrence(
        frags,
        k,
    ) by {
        let kept = kept_fragments(frags);
        let i0 = choose|i0: int|
            0 <= i0 < kept.len() && (#[trigger] kept[i0]) == d[k] && (forall|m: int|
                0 <= m < i0 ==> unique_key_of(#[trigger] kept[m]) != unique_key_of(d[k]));
        assert(kept_fragments(frags)[i0] == surviving_fragments(frags)[k]);
    }
}

/// Law of filtering: a fragment with an absent or empty name is never
/// emitted — every surviving fragment of an output unit carries a
/// usable name, so no identifier and no declaration stems from an
/// unnamed fragment.
pub proof fn lemma_only_named_fragments_emitted(frags: Seq<FragmentView>)
    ensures
        forall|k: int|
            0 <= k < surviving_fragments(frags).len() ==> has_name(
                #[trigger] surviving_fragments(frags)[k],
            ),
{
    lemma_kept_all_named(frags);
    lemma_dedup_rec_props(kept_fragments(frags), Seq::empty());
    assert forall|k: int| 0 <= k < surviving_fragments(frags).len() implies has_name(
        surviving_fragments(frags)[k],
    ) by {
        let kept = kept_fragments(frags);
        let i = choose|i: int|
            0 <= i < kept.len() && kept[i] == surviving_fragments(frags)[k] && (forall|m: int|
                0 <= m < i ==> unique_key_of(#[trigger] kept[m]) != unique_key_of(
                    surviving_fragments(frags)[k],
                ));
        assert(has_name(kept[i]));
    }
}

/// Law of disambiguation: an emitted fragment whose declared name is
/// shared within the output unit gets the type-qualified identifier,
/// and one whose name is unique keeps its bare name, unaffected by
/// collisions among other names of the same unit.
pub proof fn lemma_identifier_disambiguation(frags: Seq<FragmentView>, k: int)
    requires
        0 <= k < surviving_fragments(frags).len(),
    ensures
        emitted_identifiers(frags).len() == surviving_fragments(frags).len(),
        count_name(kept_fragments(frags), name_or_empty(surviving_fragments(frags)[k])) > 1
            ==> emitted_identifiers(frags)[k] == crate::fragment::explicit_identifier_of(
            surviving_fragments(frags)[k],
        ),
        count_name(kept_fragments(frags), name_or_empty(surviving_fragments(frags)[k])) <= 1
            ==> emitted_identifiers(frags)[k] == name_or_empty(surviving_fragments(frags)[k]),
{
}

/// Every fragment that passes the name filter has a usable name.
pub proof fn lemma_kept_all_named(s: Seq<FragmentView>)
    ensures
        forall|k: int|
            0 <= k < kept_fragments(s).len() ==> has_name(#[trigger] kept_fragments(s)[k]),
    decreases s.len(),
{
    if s.len() > 0 {
        lemma_kept_all_named(s.drop_first());
        if has_name(s[0]) {
            assert forall|k: int|
                0 <= k < kept_fragments(s).len() implies has_name(kept_fragments(s)[k]) by {
                if k > 0 {
                    assert(kept_fragments(s)[k] == kept_fragments(s.drop_first())[k - 1]);
                }
            }
        }
    }
}

/// Counts the fragments whose name (or empty, for the unnamed) equals
/// `n`; exactly `count_name`.
fn count_matching_name(kept: &Vec<Fragment>, n: &String) -> (c: usize)
    ensures
        c == count_name(views_of_fragments(kept@), n@),
{
    let ghost kv: Seq<FragmentView> = views_of_fragments(kept@);
    let mut c: usize = 0;
    let mut i: usize = 0;
    proof {
        assert(kv.skip(0) =~= kv);
    }
    while i < kept.len()
        invariant
            i <= kept@.len(),
            kv == views_of_fragments(kept@),
            kv.len() == kept@.len(),
            c <= i,
            c + count_name(kv.skip(i as int), n@) == count_name(kv, n@),
        decreases kept@.len() - i,
    {
        proof {
            assert(kv.skip(i as int)[0] == kv[i as int]);
            assert(kv.skip(i as int).drop_first() =~= kv.skip(i + 1));
            assert(kv[i as int] == kept@[i as int]@);
        }
        let matches_name: bool = match &kept[i].name {
            Some(m) => str_eq(m.as_str(), n.as_str()),
            None => n.as_str().is_empty(),
        };
        proof {
            if n@.len() == 0 {
                assert(n@ =~= Seq::<char>::empty());
            }
            assert(matches_name == (name_or_empty(kv[i as int]) == n@));
        }
        if matches_name {
            c = c + 1;
        }
        i = i + 1;
    }
    proof {
        assert(kv.skip(kv.len() as int).len() == 0);
    }
    c
}

/// Whether one of the already-seen keys equals this key.
pub(crate) fn contains_key(seen: &Vec<String>, key: &String) -> (r: bool)
    ensures
        r == views_of_strings(seen@).contains(key@),
{
    let mut i: usize = 0;
    while i < seen.len()
        invariant
            i <= seen@.len(),
            forall|k: int| 0 <= k < i ==> views_of_strings(seen@)[k] != key@,
        decreases seen@.len() - i,
    {
        if str_eq(seen[i].as_str(), key.as_str()) {
            proof {
                assert(views_of_strings(seen@)[i as int] == key@);
            }
            return true;
        }
        i = i + 1;
    }
    proof {
        assert_by_contradiction!(!views_of_strings(seen@).contains(key@), {
            let j = choose|j: int|
                0 <= j < views_of_strings(seen@).len() && views_of_strings(seen@)[j] == key@;
            assert(views_of_strings(seen@)[j] != key@);
        });
    }
    false
}

/// Converts the fragment to its generic structured form: exactly
/// `fragment_value_of` of its view.
pub fn fragment_to_value(f: &Fragment) -> (r: JsonValue)
    ensures
        r@ == fragment_value_of(f@),
{
    let mut ms: Vec<Member> = Vec::new();
    match &f.anonymous {
        Some(b) => ms.push(
            Member { key: String::from_str("anonymous"), value: JsonValue::Bool(*b) },
        ),
        None => {},
    }

    let mut inputs_vec: Vec<JsonValue> = Vec::new();
    let mut i: usize = 0;
    while i < f.inputs.len()
        invariant
            i <= f.inputs@.len(),
            inputs_vec@.len() == i,
            forall|k: int| 0 <= k < i ==> inputs_vec@[k]@ == input_value_of(f.inputs@[k]@),
        decreases f.inputs@.len() - i,
    {
        inputs_vec.push(input_to_value(&f.inputs[i]));
        i = i + 1;
    }
    let ghost inputs_vec_snap: Vec<JsonValue> = inputs_vec;
    ms.push(Member { key: String::from_str("inputs"), value: JsonValue::List(inputs_vec) });

    match &f.name {
        Some(n) => ms.push(Member { key: String::from_str("name"), value: JsonValue::Text(n.clone()) }),
        None => ms.push(Member { key: String::from_str("name"), value: JsonValue::Null }),
    }

    match &f.outputs {
        Some(os) => {
            let mut outputs_vec: Vec<JsonValue> = Vec::new();
            let mut j: usize = 0;
            while j < os.len()
                invariant
                    j <= os@.len(),
                    outputs_vec@.len() == j,
                    forall|k: int| 0 <= k < j ==> outputs_vec@[k]@ == output_value_of(os@[k]@),
                decreases os@.len() - j,
            {
                outputs_vec.push(output_to_value(&os[j]));
                j = j + 1;
            }
            let ghost outputs_vec_snap: Vec<JsonValue> = outputs_vec;
            ms.push(Member { key: String::from_str("outputs"), value: JsonValue::List(outputs_vec) });
            proof {
                lemma_view_of_list_props(outputs_vec_snap, 0);
                assert(view_of_list(outputs_vec_snap, 0) =~= os@.map_values(
                    |p: crate::fragment::FragmentOutput| p@,
                ).map_values(|p: crate::fragment::OutputView| output_value_of(p)));
            }
        },
        None => {},
    }

    match &f.state_mutability {
        Some(m) => ms.push(
            Member { key: String::from_str("state_mutability"), value: JsonValue::Text(m.clone()) },
        ),
        None => {},
    }
    ms.push(Member { key: String::from_str("type"), value: JsonValue::Text(f.kind.clone()) });

    let r = JsonValue::Object(ms);
    proof {
        lemma_view_of_list_props(inputs_vec_snap, 0);
        assert(view_of_list(inputs_vec_snap, 0) =~= f@.inputs.map_values(
            |p: crate::fragment::InputView| input_value_of(p),
        ));
        lemma_view_of_members_props(ms, 0);
        assert(view_of_members(ms, 0) =~= (match fragment_value_of(f@) {
            JsonVal::Object(expected) => expected,
            _ => Seq::empty(),
        }));
    }
    r
}

/// Converts one input slot; exactly `input_value_of` of its view.
pub fn input_to_value(p: &FragmentInput) -> (r: JsonValue)
    ensures
        r@ == input_value_of(p@),
{
    let mut ms: Vec<Member> = Vec::new();
    match &p.indexed {
        Some(b) => ms.push(Member { key: String::from_str("indexed"), value: JsonValue::Bool(*b) }),
        None => {},
    }
    match &p.internal_type {
        Some(t) => ms.push(
            Member { key: String::from_str("internal_type"), value: JsonValue::Text(t.clone()) },
        ),
        None => {},
    }
    match &p.name {
        Some(n) => ms.push(Member { key: String::from_str("name"), value: JsonValue::Text(n.clone()) }),
        None => ms.push(Member { key: String::from_str("name"), value: JsonValue::Null }),
    }
    ms.push(Member { key: String::from_str("type"), value: JsonValue::Text(p.ty.clone()) });
    let r = JsonValue::Object(ms);
    proof {
        lemma_view_of_members_props(ms, 0);
        assert(view_of_members(ms, 0) =~= (match input_value_of(p@) {
            JsonVal::Object(expected) => expected,
            _ => Seq::empty(),
        }));
    }
    r
}

/// Converts one output slot; exactly `output_value_of` of its view.
pub fn output_to_value(p: &FragmentOutput) -> (r: JsonValue)
    ensures
        r@ == output_value_of(p@),
{
    let mut ms: Vec<Member> = Vec::new();
    match &p.internal_type {
        Some(t) => ms.push(
            Member { key: String::from_str("internal_type"), value: JsonValue::Text(t.clone()) },
        ),
        None => {},
    }
    match &p.name {
        Some(n) => ms.push(Member { key: String::from_str("name"), value: JsonValue::Text(n.clone()) }),
        None => ms.push(Member { key: String::from_str("name"), value: JsonValue::Null }),
    }
    ms.push(Member { key: String::from_str("type"), value: JsonValue::Text(p.ty.clone()) });
    let r = JsonValue::Object(ms);
    proof {
        lemma_view_of_members_props(ms, 0);
        assert(view_of_members(ms, 0) =~= (match output_value_of(p@) {
            JsonVal::Object(expected) => expected,
            _ => Seq::empty(),
        }));
    }
    r
}

pub struct TypeScriptGenerator;

impl TypeScriptGenerator {
    /// Renders a structured value as its source-text literal: exactly
    /// `literal_of` of the value's view.
    pub fn create_literal_for(value: &JsonValue) -> (r: String)
        ensures
            r@ == literal_of(value@),
        decreases *value,
    {
        match value {
            JsonValue::Null => {
                let r = String::from_str("null");
                proof {
                    reveal_strlit("null");
                    assert(r@ =~= literal_of(value@));
                }
                r
            },
            JsonValue::Bool(b) => {
                let r = if *b {
                    String::from_str("true")
                } else {
                    String::from_str("false")
                };
                proof {
                    reveal_strlit("true");
                    reveal_strlit("false");
                    assert(r@ =~= literal_of(value@));
                }
                r
            },
            JsonValue::Number(s) => {
                let r = s.clone();
                r
            },
            JsonValue::Text(s) => {
                let mut r = String::from_str("\"");
                r.append(crate::text::escape_quotes_str(s.as_str()).as_str());
                r.append("\"");
                proof {
                    reveal_strlit("\"");
                    assert("\""@ =~= seq!['"']);
                    assert(r@ =~= literal_of(value@));
                }
                r
            },
            JsonValue::List(xs) => {
                let mut parts: Vec<String> = Vec::new();
                let mut i: usize = 0;
                while i < xs.len()
                    invariant
                        *value == JsonValue::List(*xs),
                        i <= xs@.len(),
                        parts@.len() == i,
                        forall|k: int| 0 <= k < i ==> parts@[k]@ == literal_of(view_of(xs@[k])),
                    decreases xs@.len() - i,
                {
                    proof {
                        assert(value->List_0 == *xs);
                        assert(decreases_to!(*value => value->List_0));
                        assert(decreases_to!(*xs => xs@[i as int]));
                        assert(decreases_to!(*value => xs@[i as int]));
                    }
                    let part: String = Self::create_literal_for(&xs[i]);
                    parts.push(part);
                    i = i + 1;
                }
                let joined: String = join_strings(&parts, ", ");
                let mut r = String::from_str("[");
                r.append(joined.as_str());
                r.append("]");
                proof {
                    lemma_view_of_list_props(*xs, 0);
                    lemma_literals_of_props(view_of_list(*xs, 0), 0);
                    assert(views_of_strings(parts@) =~= literals_of(view_of_list(*xs, 0), 0));
                    reveal_strlit("[");
                    reveal_strlit("]");
                    reveal_strlit(", ");
                    assert("["@ =~= seq!['[']);
                    assert("]"@ =~= seq![']']);
                    assert(", "@ =~= seq![',', ' ']);
                    assert(r@ =~= literal_of(value@));
                }
                r
            },
            JsonValue::Object(ms) => {
                let mut parts: Vec<String> = Vec::new();
                let mut i: usize = 0;
                while i < ms.len()
                    invariant
                        *value == JsonValue::Object(*ms),
                        i <= ms@.len(),
                        parts@.len() == i,
                        forall|k: int|
                            0 <= k < i ==> parts@[k]@ == member_literal_of(ms@[k]@),
                    decreases ms@.len() - i,
                {
                    let mut part: String = ms[i].key.clone();
                    part.append(": ");
                    proof {
                        assert(value->Object_0 == *ms);
                        assert(decreases_to!(*value => value->Object_0));
                        assert(decreases_to!(*ms => ms@[i as int]));
                        assert(decreases_to!(ms@[i as int] => ms@[i as int].value));
                        assert(decreases_to!(*value => ms@[i as int].value));
                    }
                    let inner: String = Self::create_literal_for(&ms[i].value);
                    part.append(inner.as_str());
                    proof {
                        reveal_strlit(": ");
                        assert(": "@ =~= seq![':', ' ']);
                        assert(part@ =~= member_literal_of(ms@[i as int]@));
                    }
                    parts.push(part);
                    i = i + 1;
                }
                let joined: String = join_strings(&parts, ", ");
                let mut r = String::from_str("{");
                r.append(joined.as_str());
                r.append("}");
                proof {
                    lemma_view_of_members_props(*ms, 0);
                    lemma_member_literals_of_props(view_of_members(*ms, 0), 0);
                    assert(views_of_strings(parts@) =~= member_literals_of(
                        view_of_members(*ms, 0),
                        0,
                    ));
                    reveal_strlit("{");
                    reveal_strlit("}");
                    reveal_strlit(", ");
                    assert("{"@ =~= seq!['{']);
                    assert("}"@ =~= seq!['}']);
                    assert(", "@ =~= seq![',', ' ']);
                    assert(r@ =~= literal_of(value@));
                }
                r
            },
        }
    }

    /// Derives the identifier, serializes the fragment, renders the
    /// literal and pairs both into one exported constant declaration.
    pub fn generate_fragment_declaration(fragment: &Fragment, use_explicit_identifier: bool) -> (r:
        Result<(String, String), CodegenError>)
        ensures
            has_name(fragment@) ==> (r matches Ok(p) && p.0@ == identifier_of(
                fragment@,
                use_explicit_identifier,
            ) && p.1@ == declaration_of(fragment@, use_explicit_identifier)),
            !has_name(fragment@) ==> (r matches Err(e) && e == CodegenError::MissingName),
    {
        let identifier: String = match fragment.identifier(use_explicit_identifier) {
            Ok(s) => s,
            Err(e) => {
                return Err(e);
            },
        };
        let fragment_value: JsonValue = fragment_to_value(fragment);
        let object_literal: String = Self::create_literal_for(&fragment_value);
        let mut declaration: String = String::from_str("export const ");
        declaration.append(identifier.as_str());
        declaration.append(" = ");
        declaration.append(object_literal.as_str());
        declaration.append(" as const;");
        Ok((identifier, declaration))
    }

    /// The per-output-unit orchestration: filters out unnamed fragments,
    /// drops later holders of an already-seen uniqueness key, derives a
    /// type-qualified identifier exactly for names that occur more than
    /// once among the filtered fragments, and concatenates the
    /// declarations with the default export list — or yields nothing
    /// when no named fragment is left.
    pub fn generate_file_content(fragments: Vec<Fragment>) -> (r: Result<
        Option<String>,
        CodegenError,
    >)
        ensures
            (match (r, file_content_of(views_of_fragments(fragments@))) {
                (Ok(Some(s)), Some(t)) => s@ == t,
                (Ok(None), None) => true,
                _ => false,
            }),
    {
        let ghost all: Seq<FragmentView> = views_of_fragments(fragments@);
        let mut rest: Vec<Fragment> = fragments;
        let mut kept: Vec<Fragment> = Vec::new();
        let ghost mut done: int = 0;
        proof {
            assert(views_of_fragments(rest@) =~= all.skip(0));
            assert(views_of_fragments(kept@) + kept_fragments(all.skip(0)) =~= kept_fragments(
                all,
            ));
        }
        while rest.len() > 0
            invariant
                0 <= done <= all.len(),
                views_of_fragments(rest@) =~= all.skip(done),
                views_of_fragments(kept@) + kept_fragments(all.skip(done)) == kept_fragments(all),
            decreases rest@.len(),
        {
            let ghost rest_before: Seq<Fragment> = rest@;
            let ghost kept_before: Seq<Fragment> = kept@;
            proof {
                assert(views_of_fragments(rest_before).len() == rest_before.len());
                assert(done < all.len());
            }
            let f: Fragment = rest.remove(0);
            let keep: bool = match &f.name {
                Some(n) => !n.as_str().is_empty(),
                None => false,
            };
            proof {
                assert(views_of_fragments(rest_before)[0] == rest_before[0]@);
                assert(all.skip(done)[0] == all[done]);
                assert(f@ == all[done]);
                assert(keep == has_name(all[done]));
                assert(all.skip(done).drop_first() =~= all.skip(done + 1));
                assert forall|k: int| 0 <= k < rest@.len() implies views_of_fragments(rest@)[k]
                    == all.skip(done + 1)[k] by {
                    assert(rest@[k] == rest_before[k + 1]);
                    assert(views_of_fragments(rest_before)[k + 1] == rest_before[k + 1]@);
                    assert(all.skip(done)[k + 1] == all[done + 1 + k]);
                }
            }
            if keep {
                kept.push(f);
                proof {
                    assert(views_of_fragments(kept@) =~= views_of_fragments(kept_before).push(
                        all[done],
                    ));
                    assert(kept_fragments(all.skip(done)) == seq![all[done]] + kept_fragments(
                        all.skip(done + 1),
                    ));
                    assert(views_of_fragments(kept@) + kept_fragments(all.skip(done + 1))
                        =~= views_of_fragments(kept_before) + kept_fragments(all.skip(done)));
                }
            } else {
                proof {
                    assert(kept_fragments(all.skip(done)) == kept_fragments(all.skip(done + 1)));
                }
            }
            proof {
                done = done + 1;
                assert(views_of_fragments(rest@) =~= all.skip(done));
            }
        }
        proof {
            assert(all.skip(done).len() == 0);
            assert(kept_fragments(all.skip(done)).len() == 0);
            assert(views_of_fragments(kept@) =~= kept_fragments(all));
            lemma_kept_all_named(all);
        }
        let ghost keptv: Seq<FragmentView> = views_of_fragments(kept@);
        if kept.len() == 0 {
            proof {
                assert(kept_fragments(all).len() == 0);
            }
            return Ok(None);
        }

        let mut identifiers: Vec<String> = Vec::new();
        let mut declarations: Vec<String> = Vec::new();
        let mut seen: Vec<String> = Vec::new();
        let ghost mut survivors: Seq<FragmentView> = Seq::empty();
        let mut i: usize = 0;
        proof {
            assert(views_of_strings(seen@) =~= Seq::<Seq<char>>::empty());
            assert(keptv.skip(0) =~= keptv);
            assert(survivors + dedup_rec(keptv.skip(0), views_of_strings(seen@)) =~= dedup_rec(
                keptv,
                Seq::empty(),
            ));
            assert(views_of_strings(identifiers@) =~= survivors.map_values(
                |f: FragmentView| identifier_of(f, explicit_flag(keptv, f)),
            ));
            assert(views_of_strings(declarations@) =~= survivors.map_values(
                |f: FragmentView| declaration_of(f, explicit_flag(keptv, f)),
            ));
        }
        while i < kept.len()
            invariant
                i <= kept@.len(),
                keptv == views_of_fragments(kept@),
                keptv.len() == kept@.len(),
                forall|k: int| 0 <= k < keptv.len() ==> has_name(#[trigger] keptv[k]),
                survivors + dedup_rec(keptv.skip(i as int), views_of_strings(seen@)) == dedup_rec(
                    keptv,
                    Seq::empty(),
                ),
                identifiers@.len() == survivors.len(),
                declarations@.len() == survivors.len(),
                views_of_strings(identifiers@) =~= survivors.map_values(
                    |f: FragmentView| identifier_of(f, explicit_flag(keptv, f)),
                ),
                views_of_strings(declarations@) =~= survivors.map_values(
                    |f: FragmentView| declaration_of(f, explicit_flag(keptv, f)),
                ),
            decreases kept@.len() - i,
        {
            proof {
                assert(keptv.skip(i as int)[0] == keptv[i as int]);
                assert(keptv.skip(i as int).drop_first() =~= keptv.skip(i + 1));
                assert(keptv[i as int] == kept@[i as int]@);
            }
            let key: String = kept[i].get_unique_key();
            let is_dup: bool = contains_key(&seen, &key);
            if !is_dup {
                let ghost seen_before: Seq<Seq<char>> = views_of_strings(seen@);
                let ghost survivors_before: Seq<FragmentView> = survivors;
                seen.push(key);
                let c: usize = match &kept[i].name {
                    Some(n) => count_matching_name(&kept, n),
                    None => 0,
                };
                let use_explicit: bool = c > 1;
                proof {
                    assert(use_explicit == explicit_flag(keptv, keptv[i as int]));
                }
                let pair: (String, String) = match Self::generate_fragment_declaration(
                    &kept[i],
                    use_explicit,
                ) {
                    Ok(p) => p,
                    Err(e) => {
                        return Err(e);
                    },
                };
                let ghost ids_before: Seq<String> = identifiers@;
                let ghost decls_before: Seq<String> = declarations@;
                identifiers.push(pair.0);
                declarations.push(pair.1);
                proof {
                    survivors = survivors.push(keptv[i as int]);
                    assert(views_of_strings(seen@) =~= seen_before.push(
                        unique_key_of(keptv[i as int]),
                    ));
                    assert(dedup_rec(keptv.skip(i as int), seen_before) == seq![keptv[i as int]]
                        + dedup_rec(keptv.skip(i + 1), views_of_strings(seen@)));
                    assert(survivors + dedup_rec(keptv.skip(i + 1), views_of_strings(seen@))
                        =~= survivors_before + dedup_rec(keptv.skip(i as int), seen_before));
                    assert(views_of_strings(identifiers@) =~= views_of_strings(ids_before).push(
                        identifier_of(keptv[i as int], explicit_flag(keptv, keptv[i as int])),
                    ));
                    assert(views_of_strings(identifiers@) =~= survivors.map_values(
                        |f: FragmentView| identifier_of(f, explicit_flag(keptv, f)),
                    ));
                    assert(views_of_strings(declarations@) =~= views_of_strings(
                        decls_before,
                    ).push(
                        declaration_of(keptv[i as int], explicit_flag(keptv, keptv[i as int])),
                    ));
                    assert(views_of_strings(declarations@) =~= survivors.map_values(
                        |f: FragmentView| declaration_of(f, explicit_flag(keptv, f)),
                    ));
                }
            } else {
                proof {
                    assert(dedup_rec(keptv.skip(i as int), views_of_strings(seen@)) == dedup_rec(
                        keptv.skip(i + 1),
                        views_of_strings(seen@),
                    ));
                }
            }
            i = i + 1;
        }
        proof {
            assert(keptv.skip(i as int).len() == 0);
            assert(dedup_rec(keptv.skip(i as int), views_of_strings(seen@)) =~= Seq::<
                FragmentView,
            >::empty());
            assert(survivors + dedup_rec(keptv.skip(i as int), views_of_strings(seen@))
                =~= survivors);
            assert(survivors == surviving_fragments(all));
            assert(!Seq::<Seq<char>>::empty().contains(unique_key_of(keptv[0])));
            lemma_dedup_rec_first_survives(keptv, Seq::empty());
            assert(survivors.len() > 0);
        }
        if identifiers.len() == 0 {
            return Ok(None);
        }
        let export_list: String = join_strings(&identifiers, ", ");
        let mut export_default: String = String::from_str("export default [");
        export_default.append(export_list.as_str());
        export_default.append("] as const;");
        let mut content: String = join_strings(&declarations, "\n\n");
        content.append("\n\n");
        content.append(export_default.as_str());
        proof {
            assert(views_of_strings(identifiers@) == emitted_identifiers(all));
            assert(views_of_strings(declarations@) == emitted_declarations(all));
            assert(kept_fragments(all).len() > 0);
            assert(content@ =~= file_content_of(all)->0);
        }
        Ok(Some(content))
    }
}

} // verus!
