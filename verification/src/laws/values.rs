//! What JSON values hold, and when two of them count as equal.

use vstd::prelude::*;

use crate::json::{alike, lemma_alike, lemma_last_field, Json, JsonView};

verus! {

/// Whether a value has a decimal zero in it, which may have a sign.
pub open spec fn has_zero(value: JsonView) -> bool
    decreases value,
{
    match value {
        JsonView::Decimal(text) => text == "0.0"@ || text == "-0.0"@,
        JsonView::Array(items) => exists|i: int| 0 <= i < items.len() && has_zero(#[trigger] items[i]),
        JsonView::Object(fields) => exists|name: Seq<char>|
            fields.dom().contains(name) && has_zero(#[trigger] fields[name]),
        _ => false,
    }
}

/// Values without decimal zeros count as equal exactly where they are the same.
pub proof fn equal_values_are_the_same(a: JsonView, b: JsonView)
    requires
        !has_zero(a),
    ensures
        alike(a, b) <==> a == b,
    decreases a,
{
    lemma_alike(a);
    if alike(a, b) {
        match (a, b) {
            (JsonView::Array(x), JsonView::Array(y)) => {
                assert forall|i: int| 0 <= i < x.len() implies x[i] == y[i] by {
                    assert(alike(x[i], y[i]));
                    assert(!has_zero(x[i]));
                    equal_values_are_the_same(x[i], y[i]);
                }
                assert(x =~= y);
            },
            (JsonView::Object(x), JsonView::Object(y)) => {
                assert forall|name: Seq<char>| x.dom().contains(name) implies #[trigger] x[name] == y[name] by {
                    assert(alike(x[name], y[name]));
                    assert(!has_zero(x[name]));
                    equal_values_are_the_same(x[name], y[name]);
                }
                assert(x =~= y);
            },
            _ => {},
        }
    }
}

/// Values of different kinds never count as equal, and the signs of two zeros do not
/// count.
pub proof fn zeros_are_equal(a: JsonView, b: JsonView)
    ensures
        alike(a, b) ==> (a is Object <==> b is Object) && (a is Array <==> b is Array) && (a is Decimal <==> b
            is Decimal),
        alike(JsonView::Decimal("0.0"@), JsonView::Decimal("-0.0"@)),
{
}

/// A value is looked up in an object under its name; nothing else has fields. A field
/// that is added is found, and leaves the others alone.
pub proof fn fields_are_found(fields: Map<Seq<char>, JsonView>, name: Seq<char>, other: Seq<char>, value: JsonView)
    ensures
        fields.dom().contains(name) ==> JsonView::Object(fields).field(name) == fields[name],
        !fields.dom().contains(name) ==> JsonView::Object(fields).field(name) is Null,
        !(value is Object) ==> value.field(name) is Null && !value.has(name),
        JsonView::Object(fields).with(name, value).field(name) == value,
        name != other ==> JsonView::Object(fields).with(name, value).field(other) == JsonView::Object(fields).field(
            other,
        ),
        name != other ==> JsonView::Object(fields).with(name, value).has(other) == fields.dom().contains(other),
{
}

/// A value holds what it was made of. Where a name is given twice in an object, the last
/// value counts.
pub proof fn values_hold_what_they_are_made_of(value: Json, i: int)
    ensures
        match value {
            Json::Null => value@ is Null,
            Json::Bool(b) => value@ == JsonView::Bool(b),
            Json::Unsigned(n) => value@ == JsonView::Integer(n as int),
            Json::Negative(n) => value@ == JsonView::Integer(n as int),
            Json::Decimal(text) => value@ == JsonView::Decimal(text@),
            Json::Text(text) => value@ == JsonView::Text(text@),
            Json::Array(items) => value@ matches JsonView::Array(list) && list.len() == items.len() && (0 <= i
                < items.len() ==> list[i] == items[i]@),
            Json::Object(fields) => {
                &&& value@ is Object
                &&& 0 <= i < fields.len() && (forall|j: int|
                    i < j < fields.len() ==> (#[trigger] fields[j]).0@ != fields[i].0@) ==> value@.field(
                    fields[i].0@,
                ) == fields[i].1@
            },
        },
{
    if let Json::Object(fields) = value {
        if 0 <= i < fields.len() && (forall|j: int| i < j < fields.len() ==> (#[trigger] fields[j]).0@ != fields[i].0@) {
            lemma_last_field(fields@, i + 1, fields[i].0@);
            assert(fields@.take(i + 1).last() == fields@[i]);
            assert(fields@.take(i + 1).drop_last() =~= fields@.take(i));
        }
    }
}

} // verus!
