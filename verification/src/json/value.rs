//! The JSON value model: an order-preserving tree whose numbers keep their
//! raw literal text, and its mathematical view.

use vstd::prelude::*;
use crate::text::{push_char, push_str, push_decimal, copy_string, decimal};


verus! {

/// The mathematical form of a JSON value: object members keep their order
/// (and duplicates), numbers keep their literal text.
#[verifier::ext_equal]
pub enum Json {
    Null,
    Bool(bool),
    Number(Seq<char>),
    Str(Seq<char>),
    Array(Seq<Json>),
    Object(Seq<(Seq<char>, Json)>),
}

/// One `key: value` member of a JSON object.
#[derive(Debug)]
pub struct JSONProperty {
    pub key: String,
    pub value: JSONValue,
}

/// A JSON value. `Number` holds the literal exactly as it was written.
#[derive(Debug)]
pub enum JSONValue {
    Null,
    Bool(bool),
    Number(String),
    Str(String),
    Array(Vec<JSONValue>),
    Object(Vec<JSONProperty>),
}

pub open spec fn view_items(items: Seq<JSONValue>) -> Seq<Json>
    decreases items,
{
    if items.len() == 0 {
        Seq::empty()
    } else {
        view_items(items.drop_last()).push(view_value(items.last()))
    }
}

pub open spec fn view_props(ps: Seq<JSONProperty>) -> Seq<(Seq<char>, Json)>
    decreases ps,
{
    if ps.len() == 0 {
        Seq::empty()
    } else {
        view_props(ps.drop_last()).push((ps.last().key@, view_value(ps.last().value)))
    }
}

pub open spec fn view_value(v: JSONValue) -> Json
    decreases v,
{
    match v {
        JSONValue::Null => Json::Null,
        JSONValue::Bool(b) => Json::Bool(b),
        JSONValue::Number(raw) => Json::Number(raw@),
        JSONValue::Str(s) => Json::Str(s@),
        JSONValue::Array(items) => Json::Array(view_items(items@)),
        JSONValue::Object(ps) => Json::Object(view_props(ps@)),
    }
}

impl View for JSONValue {
    type V = Json;

    open spec fn view(&self) -> Json {
        view_value(*self)
    }
}

impl View for JSONProperty {
    type V = (Seq<char>, Json);

    open spec fn view(&self) -> (Seq<char>, Json) {
        (self.key@, view_value(self.value))
    }
}

} // verus!

verus! {

pub proof fn lemma_view_items_push(items: Seq<JSONValue>, x: JSONValue)
    ensures
        view_items(items.push(x)) == view_items(items).push(view_value(x)),
{
    assert(items.push(x).drop_last() =~= items);
}

pub proof fn lemma_view_props_push(ps: Seq<JSONProperty>, x: JSONProperty)
    ensures
        view_props(ps.push(x)) == view_props(ps).push((x.key@, view_value(x.value))),
{
    assert(ps.push(x).drop_last() =~= ps);
}

pub broadcast proof fn lemma_view_items(items: Seq<JSONValue>)
    ensures
        #[trigger] view_items(items).len() == items.len(),
        forall|i: int| 0 <= i < items.len() ==> view_items(items)[i] == view_value(#[trigger] items[i]),
    decreases items.len(),
{
    if items.len() > 0 {
        lemma_view_items(items.drop_last());
        assert forall|i: int| 0 <= i < items.len() implies view_items(items)[i] == view_value(
            #[trigger] items[i],
        ) by {
            if i < items.len() - 1 {
                assert(items.drop_last()[i] == items[i]);
            }
        }
    }
}

pub broadcast proof fn lemma_view_props(ps: Seq<JSONProperty>)
    ensures
        #[trigger] view_props(ps).len() == ps.len(),
        forall|i: int|
            0 <= i < ps.len() ==> view_props(ps)[i] == ((#[trigger] ps[i]).key@, view_value(ps[i].value)),
    decreases ps.len(),
{
    if ps.len() > 0 {
        lemma_view_props(ps.drop_last());
        assert forall|i: int| 0 <= i < ps.len() implies view_props(ps)[i] == (
            (#[trigger] ps[i]).key@,
            view_value(ps[i].value),
        ) by {
            if i < ps.len() - 1 {
                assert(ps.drop_last()[i] == ps[i]);
            }
        }
    }
}

/// The name of a value's kind.
pub open spec fn kind_name_of(v: Json) -> Seq<char> {
    match v {
        Json::Null => "null"@,
        Json::Bool(_) => "boolean"@,
        Json::Number(_) => "number"@,
        Json::Str(_) => "string"@,
        Json::Array(_) => "array"@,
        Json::Object(_) => "object"@,
    }
}

/// The number of direct children of a value.
pub open spec fn child_count_of(v: Json) -> nat {
    match v {
        Json::Array(items) => items.len(),
        Json::Object(ps) => ps.len(),
        _ => 0,
    }
}

pub open spec fn is_container_json(v: Json) -> bool {
    v is Array || v is Object
}

/// A one-line summary of a value.
pub open spec fn summary_of(v: Json) -> Seq<char> {
    match v {
        Json::Null => "null"@,
        Json::Bool(b) => if b {
            "true"@
        } else {
            "false"@
        },
        Json::Number(raw) => raw,
        Json::Str(s) => seq!['"'] + s + seq!['"'],
        Json::Array(items) => "Array ["@ + decimal(items.len()) + "]"@,
        Json::Object(ps) => "Object {"@ + decimal(ps.len()) + "}"@,
    }
}

/// The view of a container has as many children as the container.
pub proof fn lemma_view_lens(v: JSONValue)
    ensures
        v matches JSONValue::Array(a) ==> view_items(a@).len() == a@.len(),
        v matches JSONValue::Object(p) ==> view_props(p@).len() == p@.len(),
{
    match v {
        JSONValue::Array(a) => lemma_view_items(a@),
        JSONValue::Object(p) => lemma_view_props(p@),
        _ => {},
    }
}

impl JSONProperty {
    pub fn new(key: String, value: JSONValue) -> (r: Self)
        ensures
            r.key@ == key@,
            r.value@ == value@,
    {
        JSONProperty { key, value }
    }
}

impl JSONValue {
    pub fn kind_name(&self) -> (r: &'static str)
        ensures
            r@ == kind_name_of(self@),
    {
        match self {
            JSONValue::Null => "null",
            JSONValue::Bool(_) => "boolean",
            JSONValue::Number(_) => "number",
            JSONValue::Str(_) => "string",
            JSONValue::Array(_) => "array",
            JSONValue::Object(_) => "object",
        }
    }

    pub fn is_container(&self) -> (r: bool)
        ensures
            r == is_container_json(self@),
    {
        match self {
            JSONValue::Object(_) => true,
            JSONValue::Array(_) => true,
            _ => false,
        }
    }

    pub fn child_count(&self) -> (r: usize)
        ensures
            r == child_count_of(self@),
    {
        proof {
            lemma_view_lens(*self);
        }
        match self {
            JSONValue::Object(p) => p.len(),
            JSONValue::Array(a) => a.len(),
            _ => 0,
        }
    }

    pub fn summary(&self) -> (r: String)
        ensures
            r@ == summary_of(self@),
    {
        proof {
            lemma_view_lens(*self);
        }
        let mut out = String::new();
        match self {
            JSONValue::Null => push_str(&mut out, "null"),
            JSONValue::Bool(b) => if *b {
                push_str(&mut out, "true")
            } else {
                push_str(&mut out, "false")
            },
            JSONValue::Number(raw) => push_str(&mut out, raw.as_str()),
            JSONValue::Str(s) => {
                push_char(&mut out, '"');
                push_str(&mut out, s.as_str());
                push_char(&mut out, '"');
            },
            JSONValue::Array(items) => {
                push_str(&mut out, "Array [");
                push_decimal(&mut out, items.len());
                push_str(&mut out, "]");
            },
            JSONValue::Object(pairs) => {
                push_str(&mut out, "Object {");
                push_decimal(&mut out, pairs.len());
                push_str(&mut out, "}");
            },
        }
        proof {
            assert(out@ =~= summary_of(self@));
        }
        out
    }

    /// A copy of the whole tree.
    pub fn deep_clone(&self) -> (r: JSONValue)
        ensures
            r@ == self@,
        decreases self,
    {
        match self {
            JSONValue::Null => JSONValue::Null,
            JSONValue::Bool(b) => JSONValue::Bool(*b),
            JSONValue::Number(raw) => JSONValue::Number(copy_string(raw)),
            JSONValue::Str(s) => JSONValue::Str(copy_string(s)),
            JSONValue::Array(items) => {
                let mut out: Vec<JSONValue> = Vec::new();
                let mut i: usize = 0;
                while i < items.len()
                    invariant
                        *self == JSONValue::Array(*items),
                        i <= items@.len(),
                        view_items(out@) == view_items(items@.take(i as int)),
                    decreases items@.len() - i,
                {
                    proof {
                        assert(decreases_to!(*self => (*self)->Array_0));
                        assert((*self)->Array_0 == *items);
                        assert(decreases_to!(*items => items@));
                        assert(decreases_to!(items@ => items@[i as int]));
                    }
                    let c = items[i].deep_clone();
                    proof {
                        lemma_view_items_push(out@, c);
                        lemma_view_items_push(items@.take(i as int), items@[i as int]);
                        assert(items@.take(i as int).push(items@[i as int]) =~= items@.take(i + 1));
                    }
                    out.push(c);
                    i += 1;
                }
                proof {
                    assert(items@.take(i as int) =~= items@);
                }
                JSONValue::Array(out)
            },
            JSONValue::Object(ps) => {
                let mut out: Vec<JSONProperty> = Vec::new();
                let mut i: usize = 0;
                while i < ps.len()
                    invariant
                        *self == JSONValue::Object(*ps),
                        i <= ps@.len(),
                        view_props(out@) == view_props(ps@.take(i as int)),
                    decreases ps@.len() - i,
                {
                    proof {
                        assert(decreases_to!(*self => (*self)->Object_0));
                        assert((*self)->Object_0 == *ps);
                        assert(decreases_to!(*ps => ps@));
                        assert(decreases_to!(ps@ => ps@[i as int]));
                        assert(decreases_to!(ps@[i as int] => ps@[i as int].value));
                    }
                    let p = JSONProperty { key: copy_string(&ps[i].key), value: ps[i].value.deep_clone() };
                    proof {
                        lemma_view_props_push(out@, p);
                        lemma_view_props_push(ps@.take(i as int), ps@[i as int]);
                        assert(ps@.take(i as int).push(ps@[i as int]) =~= ps@.take(i + 1));
                    }
                    out.push(p);
                    i += 1;
                }
                proof {
                    assert(ps@.take(i as int) =~= ps@);
                }
                JSONValue::Object(out)
            },
        }
    }
}

impl Clone for JSONValue {
    fn clone(&self) -> (r: Self)
        ensures
            r@ == self@,
    {
        self.deep_clone()
    }
}

impl Clone for JSONProperty {
    fn clone(&self) -> (r: Self)
        ensures
            r@ == self@,
    {
        JSONProperty { key: copy_string(&self.key), value: self.value.deep_clone() }
    }
}

} // verus!
