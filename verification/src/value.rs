//! A generic structured value — the shape of a parsed JSON document —
//! together with its mathematical mirror and the specification of its
//! source-text literal form. The renderer itself lives with the
//! generator; this module only says what values are and what their
//! literal text is.
use vstd::prelude::*;

use crate::text::escape_quotes;
use crate::text::join_with;

verus! {

/// One key/value pair of an object.
#[derive(Debug, PartialEq, Eq)]
pub struct Member {
    pub key: String,
    pub value: JsonValue,
}

/// A generic structured value: null, boolean, number (kept as its
/// decimal text, so that rendering preserves the representation),
/// string, ordered list, or ordered map.
#[derive(Debug, PartialEq, Eq)]
pub enum JsonValue {
    Null,
    Bool(bool),
    Number(String),
    Text(String),
    List(Vec<JsonValue>),
    Object(Vec<Member>),
}

/// The mathematical value of a `Member`.
#[verifier::ext_equal]
pub struct MemberVal {
    pub key: Seq<char>,
    pub value: JsonVal,
}

/// The mathematical value of a `JsonValue`.
#[verifier::ext_equal]
pub enum JsonVal {
    Null,
    Bool(bool),
    Number(Seq<char>),
    Text(Seq<char>),
    List(Seq<JsonVal>),
    Object(Seq<MemberVal>),
}

pub open spec fn view_of(v: JsonValue) -> JsonVal
    decreases v, 0int,
{
    match v {
        JsonValue::Null => JsonVal::Null,
        JsonValue::Bool(b) => JsonVal::Bool(b),
        JsonValue::Number(s) => JsonVal::Number(s@),
        JsonValue::Text(s) => JsonVal::Text(s@),
        JsonValue::List(xs) => JsonVal::List(view_of_list(xs, 0)),
        JsonValue::Object(ms) => JsonVal::Object(view_of_members(ms, 0)),
    }
}

pub open spec fn view_of_list(xs: Vec<JsonValue>, i: int) -> Seq<JsonVal>
    decreases xs, xs@.len() - i,
{
    if i < 0 || i >= xs@.len() {
        Seq::empty()
    } else {
        seq![view_of(xs@[i])] + view_of_list(xs, i + 1)
    }
}

pub open spec fn member_val_of(m: Member) -> MemberVal
    decreases m, 1int,
{
    MemberVal { key: m.key@, value: view_of(m.value) }
}

pub open spec fn view_of_members(ms: Vec<Member>, i: int) -> Seq<MemberVal>
    decreases ms, ms@.len() - i,
{
    if i < 0 || i >= ms@.len() {
        Seq::empty()
    } else {
        seq![member_val_of(ms@[i])] + view_of_members(ms, i + 1)
    }
}

impl View for JsonValue {
    type V = JsonVal;

    open spec fn view(&self) -> JsonVal {
        view_of(*self)
    }
}

impl View for Member {
    type V = MemberVal;

    open spec fn view(&self) -> MemberVal {
        member_val_of(*self)
    }
}

pub proof fn lemma_view_of_list_props(xs: Vec<JsonValue>, j: int)
    requires
        0 <= j <= xs@.len(),
    ensures
        view_of_list(xs, j).len() == xs@.len() - j,
        forall|k: int|
            0 <= k < xs@.len() - j ==> view_of_list(xs, j)[k] == view_of(xs@[j + k]),
    decreases xs@.len() - j,
{
    if j < xs@.len() {
        lemma_view_of_list_props(xs, j + 1);
    }
}

pub proof fn lemma_view_of_members_props(ms: Vec<Member>, j: int)
    requires
        0 <= j <= ms@.len(),
    ensures
        view_of_members(ms, j).len() == ms@.len() - j,
        forall|k: int|
            0 <= k < ms@.len() - j ==> view_of_members(ms, j)[k] == member_val_of(ms@[j + k]),
    decreases ms@.len() - j,
{
    if j < ms@.len() {
        lemma_view_of_members_props(ms, j + 1);
    }
}

/// The source-text literal form of a structured value: `null`, `true`
/// and `false` as tokens, a number as its decimal text, a string in
/// double quotes with inner double quotes escaped, a list in brackets
/// and an object in braces, elements separated by comma and space and
/// object keys written bare in encounter order.
pub open spec fn literal_of(v: JsonVal) -> Seq<char>
    decreases v, 0int,
{
    match v {
        JsonVal::Null => seq!['n', 'u', 'l', 'l'],
        JsonVal::Bool(b) => if b {
            seq!['t', 'r', 'u', 'e']
        } else {
            seq!['f', 'a', 'l', 's', 'e']
        },
        JsonVal::Number(s) => s,
        JsonVal::Text(s) => seq!['"'] + escape_quotes(s) + seq!['"'],
        JsonVal::List(xs) => seq!['['] + join_with(literals_of(xs, 0), seq![',', ' ']) + seq![']'],
        JsonVal::Object(ms) => seq!['{'] + join_with(member_literals_of(ms, 0), seq![',', ' '])
            + seq!['}'],
    }
}

pub open spec fn literals_of(xs: Seq<JsonVal>, i: int) -> Seq<Seq<char>>
    decreases xs, xs.len() - i,
{
    if i < 0 || i >= xs.len() {
        Seq::empty()
    } else {
        seq![literal_of(xs[i])] + literals_of(xs, i + 1)
    }
}

/// The literal form of one object member: bare key, colon, space, value.
pub open spec fn member_literal_of(m: MemberVal) -> Seq<char>
    decreases m, 1int,
{
    m.key + seq![':', ' '] + literal_of(m.value)
}

pub open spec fn member_literals_of(ms: Seq<MemberVal>, i: int) -> Seq<Seq<char>>
    decreases ms, ms.len() - i,
{
    if i < 0 || i >= ms.len() {
        Seq::empty()
    } else {
        seq![member_literal_of(ms[i])] + member_literals_of(ms, i + 1)
    }
}

pub proof fn lemma_literals_of_props(xs: Seq<JsonVal>, j: int)
    requires
        0 <= j <= xs.len(),
    ensures
        literals_of(xs, j).len() == xs.len() - j,
        forall|k: int| 0 <= k < xs.len() - j ==> literals_of(xs, j)[k] == literal_of(xs[j + k]),
    decreases xs.len() - j,
{
    if j < xs.len() {
        lemma_literals_of_props(xs, j + 1);
    }
}

pub proof fn lemma_member_literals_of_props(ms: Seq<MemberVal>, j: int)
    requires
        0 <= j <= ms.len(),
    ensures
        member_literals_of(ms, j).len() == ms.len() - j,
        forall|k: int|
            0 <= k < ms.len() - j ==> member_literals_of(ms, j)[k] == member_literal_of(ms[j + k]),
    decreases ms.len() - j,
{
    if j < ms.len() {
        lemma_member_literals_of_props(ms, j + 1);
    }
}

} // verus!
