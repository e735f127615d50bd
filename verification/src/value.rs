//! JSON values as the inference reads them.
use serde_json::Number;
use vstd::prelude::*;

verus! {

/// A JSON value.
#[derive(Debug, PartialEq, Eq)]
pub enum Value {
    Null,
    Bool(bool),
    Number(Number),
    String(String),
    Array(Vec<Value>),
    /// The fields of an object, in the order the sample wrote them.
    Object(Vec<(String, Value)>),
}

/// The mathematical content of a [`Value`].
pub enum ValueView {
    Null,
    Bool(bool),
    Number(Number),
    String(Seq<char>),
    Array(Seq<ValueView>),
    Object(Seq<(Seq<char>, ValueView)>),
}

/// The content of `value`.
pub open spec fn content(value: Value) -> ValueView
    decreases value,
{
    match value {
        Value::Null => ValueView::Null,
        Value::Bool(b) => ValueView::Bool(b),
        Value::Number(n) => ValueView::Number(n),
        Value::String(s) => ValueView::String(s@),
        Value::Array(a) => ValueView::Array(
            Seq::new(a.len() as nat, |i: int| if 0 <= i < a.len() { content(a[i]) } else { ValueView::Null }),
        ),
        Value::Object(o) => ValueView::Object(
            Seq::new(
                o.len() as nat,
                |i: int| if 0 <= i < o.len() { (o[i].0@, content(o[i].1)) } else { (Seq::empty(), ValueView::Null) },
            ),
        ),
    }
}

impl View for Value {
    type V = ValueView;

    open spec fn view(&self) -> ValueView {
        content(*self)
    }
}

/// The kinds of JSON value.
#[derive(Debug, Hash, PartialEq, Eq, Clone, Copy, Structural)]
pub enum Kind {
    Null,
    Bool,
    Number,
    String,
    Array,
    Object,
}

impl ValueView {
    /// The kind of this value.
    pub open spec fn kind(self) -> Kind {
        match self {
            ValueView::Null => Kind::Null,
            ValueView::Bool(_) => Kind::Bool,
            ValueView::Number(_) => Kind::Number,
            ValueView::String(_) => Kind::String,
            ValueView::Array(_) => Kind::Array,
            ValueView::Object(_) => Kind::Object,
        }
    }
}

/// The views of the values of `values`, in order.
pub open spec fn value_views(values: Seq<Value>) -> Seq<ValueView> {
    Seq::new(values.len(), |i: int| values[i]@)
}

/// The views of the fields of `fields`, in order.
pub open spec fn pair_views(fields: Seq<(String, Value)>) -> Seq<(Seq<char>, ValueView)> {
    Seq::new(fields.len(), |i: int| (fields[i].0@, fields[i].1@))
}

/// The view of an array holds the views of its elements.
pub proof fn lemma_array_view(elements: Vec<Value>)
    ensures
        Value::Array(elements)@ == ValueView::Array(value_views(elements@)),
{
    assert(Value::Array(elements)@->Array_0 =~= value_views(elements@));
}

/// The view of an object holds the views of its fields.
pub proof fn lemma_object_view(fields: Vec<(String, Value)>)
    ensures
        Value::Object(fields)@ == ValueView::Object(pair_views(fields@)),
{
    assert(Value::Object(fields)@->Object_0 =~= pair_views(fields@));
}

impl Value {
    /// The kind of this value.
    pub fn kind(&self) -> (kind: Kind)
        ensures
            kind == self@.kind(),
    {
        match self {
            Value::Null => Kind::Null,
            Value::Bool(_) => Kind::Bool,
            Value::Number(_) => Kind::Number,
            Value::String(_) => Kind::String,
            Value::Array(_) => Kind::Array,
            Value::Object(_) => Kind::Object,
        }
    }
}

} // verus!
