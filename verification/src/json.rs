//! JSON values as the adapter reads and builds them.

use vstd::prelude::*;

use crate::text::same_text;

verus! {

/// A JSON value.
///
/// A later field of an object replaces an earlier one of the same name. A number
/// that is no 64-bit integer is kept as its decimal text.
#[derive(Debug)]
pub enum Json {
    Null,
    Bool(bool),
    Unsigned(u64),
    Negative(i64),
    Decimal(String),
    Text(String),
    Array(Vec<Json>),
    Object(Vec<(String, Json)>),
}

/// The mathematical content of a JSON value.
pub enum JsonView {
    Null,
    Bool(bool),
    Integer(int),
    Decimal(Seq<char>),
    Text(Seq<char>),
    Array(Seq<JsonView>),
    Object(Map<Seq<char>, JsonView>),
}

/// The value that each name stands for in a list of fields: the last one given.
pub open spec fn fields_view(fields: Seq<(String, Json)>) -> Map<Seq<char>, JsonView>
    decreases fields,
{
    if fields.len() == 0 {
        Map::empty()
    } else {
        fields_view(fields.drop_last()).insert(fields.last().0@, json_view(fields.last().1))
    }
}

pub open spec fn items_view(items: Seq<Json>) -> Seq<JsonView>
    decreases items,
{
    Seq::new(items.len(), |i: int| if 0 <= i < items.len() { json_view(items[i]) } else { JsonView::Null })
}

pub open spec fn json_view(value: Json) -> JsonView
    decreases value,
{
    match value {
        Json::Null => JsonView::Null,
        Json::Bool(b) => JsonView::Bool(b),
        Json::Unsigned(n) => JsonView::Integer(n as int),
        Json::Negative(n) => JsonView::Integer(n as int),
        Json::Decimal(text) => JsonView::Decimal(text@),
        Json::Text(text) => JsonView::Text(text@),
        Json::Array(items) => JsonView::Array(items_view(items@)),
        Json::Object(fields) => JsonView::Object(fields_view(fields@)),
    }
}

impl View for Json {
    type V = JsonView;

    open spec fn view(&self) -> JsonView {
        json_view(*self)
    }
}

impl JsonView {
    /// The field of that name; null where the value is no object or lacks it.
    pub open spec fn field(self, name: Seq<char>) -> JsonView {
        if self.has(name) {
            self->Object_0[name]
        } else {
            JsonView::Null
        }
    }

    /// Whether the value is an object with a field of that name.
    pub open spec fn has(self, name: Seq<char>) -> bool {
        self is Object && self->Object_0.dom().contains(name)
    }

    /// Whether the value is an object with a field.
    pub open spec fn has_fields(self) -> bool {
        self is Object && exists|name: Seq<char>| #[trigger] self->Object_0.dom().contains(name)
    }

    pub open spec fn text(self) -> Option<Seq<char>> {
        match self {
            JsonView::Text(text) => Some(text),
            _ => None,
        }
    }

    pub open spec fn items(self) -> Option<Seq<JsonView>> {
        match self {
            JsonView::Array(items) => Some(items),
            _ => None,
        }
    }

    /// The integer that the value is, where an unsigned 64-bit integer holds it.
    pub open spec fn unsigned(self) -> Option<u64> {
        match self {
            JsonView::Integer(n) => if 0 <= n <= u64::MAX {
                Some(n as u64)
            } else {
                None
            },
            _ => None,
        }
    }

    /// The integer that the value is, where a signed 64-bit integer holds it.
    pub open spec fn signed(self) -> Option<i64> {
        match self {
            JsonView::Integer(n) => if i64::MIN <= n <= i64::MAX {
                Some(n as i64)
            } else {
                None
            },
            _ => None,
        }
    }

    /// An object without fields.
    pub open spec fn object() -> JsonView {
        JsonView::Object(Map::empty())
    }

    /// The object with one more field.
    pub open spec fn with(self, name: Seq<char>, value: JsonView) -> JsonView {
        match self {
            JsonView::Object(fields) => JsonView::Object(fields.insert(name, value)),
            other => other,
        }
    }
}

/// Whether a decimal text is a zero. There are two of them.
pub open spec fn is_zero(text: Seq<char>) -> bool {
    text == "0.0"@ || text == "-0.0"@
}

/// Whether two values are equal: they have the same content, but for the sign of a
/// zero.
pub open spec fn alike(a: JsonView, b: JsonView) -> bool
    decreases a,
{
    match (a, b) {
        (JsonView::Decimal(x), JsonView::Decimal(y)) => x == y || (is_zero(x) && is_zero(y)),
        (JsonView::Array(x), JsonView::Array(y)) => x.len() == y.len() && forall|i: int|
            0 <= i < x.len() ==> alike(#[trigger] x[i], y[i]),
        (JsonView::Object(x), JsonView::Object(y)) => x.dom() == y.dom() && forall|name: Seq<char>|
            x.dom().contains(name) ==> alike(#[trigger] x[name], y[name]),
        _ => a == b,
    }
}

/// A value is equal to itself.
pub proof fn lemma_alike(value: JsonView)
    ensures
        alike(value, value),
    decreases value,
{
    match value {
        JsonView::Array(items) => {
            assert forall|i: int| 0 <= i < items.len() implies alike(#[trigger] items[i], items[i]) by {
                lemma_alike(items[i]);
            }
        },
        JsonView::Object(fields) => {
            assert forall|name: Seq<char>| fields.dom().contains(name) implies alike(
                #[trigger] fields[name],
                fields[name],
            ) by {
                lemma_alike(fields[name]);
            }
        },
        _ => {},
    }
}

/// Values that are equal to one value are equal to each other.
pub proof fn lemma_all_alike(value: JsonView, a: JsonView, b: JsonView)
    requires
        alike(value, a),
        alike(value, b),
    ensures
        alike(a, b),
    decreases value,
{
    match (value, a, b) {
        (JsonView::Array(items), JsonView::Array(x), JsonView::Array(y)) => {
            assert forall|i: int| 0 <= i < x.len() implies alike(#[trigger] x[i], y[i]) by {
                assert(alike(items[i], x[i]) && alike(items[i], y[i]));
                lemma_all_alike(items[i], x[i], y[i]);
            }
        },
        (JsonView::Object(fields), JsonView::Object(x), JsonView::Object(y)) => {
            assert forall|name: Seq<char>| x.dom().contains(name) implies alike(#[trigger] x[name], y[name]) by {
                assert(alike(fields[name], x[name]) && alike(fields[name], y[name]));
                lemma_all_alike(fields[name], x[name], y[name]);
            }
        },
        _ => {},
    }
}

/// Fields of other names do not change what a name stands for.
pub proof fn lemma_last_field(fields: Seq<(String, Json)>, i: int, name: Seq<char>)
    requires
        0 <= i <= fields.len(),
        forall|j: int| i <= j < fields.len() ==> fields[j].0@ != name,
    ensures
        fields_view(fields).dom().contains(name) == fields_view(fields.take(i)).dom().contains(name),
        fields_view(fields).dom().contains(name) ==> fields_view(fields)[name] == fields_view(fields.take(i))[name],
    decreases fields.len() - i,
{
    if i < fields.len() {
        lemma_last_field(fields, i + 1, name);
        assert(fields.take(i + 1).drop_last() =~= fields.take(i));
    } else {
        assert(fields.take(i) =~= fields);
    }
}

/// A field list names exactly the names that occur in it.
proof fn lemma_field_names(fields: Seq<(String, Json)>, name: Seq<char>)
    ensures
        fields_view(fields).dom().contains(name) == exists|i: int| 0 <= i < fields.len() && (#[trigger] fields[i]).0@ == name,
    decreases fields.len(),
{
    if fields.len() > 0 {
        lemma_field_names(fields.drop_last(), name);
        if fields_view(fields).dom().contains(name) {
            if fields.last().0@ == name {
                assert(fields[fields.len() - 1].0@ == name);
            } else {
                let i = choose|i: int| 0 <= i < fields.drop_last().len() && (#[trigger] fields.drop_last()[i]).0@ == name;
                assert(fields[i].0@ == name);
            }
        }
        if exists|i: int| 0 <= i < fields.len() && (#[trigger] fields[i]).0@ == name {
            let i = choose|i: int| 0 <= i < fields.len() && (#[trigger] fields[i]).0@ == name;
            if i < fields.len() - 1 {
                assert(fields.drop_last()[i].0@ == name);
            }
        }
    }
}

fn is_zero_text(text: &str) -> (zero: bool)
    ensures
        zero == is_zero(text@),
{
    same_text(text, "0.0") || same_text(text, "-0.0")
}

impl Json {
    /// The place of the last field of that name.
    fn find(fields: &Vec<(String, Json)>, name: &str) -> (found: Option<usize>)
        ensures
            match found {
                Some(i) => {
                    &&& i < fields.len()
                    &&& fields_view(fields@).dom().contains(name@)
                    &&& fields_view(fields@)[name@] == fields[i as int].1@
                },
                None => !fields_view(fields@).dom().contains(name@),
            },
    {
        let mut i: usize = fields.len();
        while i > 0
            invariant
                i <= fields.len(),
                forall|j: int| i <= j < fields.len() ==> fields[j].0@ != name@,
            decreases i,
        {
            i = i - 1;
            if same_text(fields[i].0.as_str(), name) {
                proof {
                    lemma_last_field(fields@, i + 1, name@);
                    assert(fields@.take(i + 1).last() == fields@[i as int]);
                }
                return Some(i);
            }
        }
        proof {
            lemma_last_field(fields@, 0, name@);
        }
        None
    }

    /// An object without fields.
    pub fn object() -> (value: Json)
        ensures
            value@ == JsonView::object(),
    {
        Json::Object(Vec::new())
    }

    /// The object with one more field; a value that is no object is left alone.
    pub fn with(self, name: &str, value: Json) -> (object: Json)
        ensures
            object@ == self@.with(name@, value@),
    {
        match self {
            Json::Object(fields) => {
                let mut fields = fields;
                let ghost before = fields@;
                fields.push((name.to_owned(), value));
                assert(fields@.drop_last() =~= before);
                Json::Object(fields)
            },
            other => other,
        }
    }

    /// A text value.
    pub fn of_text(text: &str) -> (value: Json)
        ensures
            value@ == JsonView::Text(text@),
    {
        Json::Text(text.to_owned())
    }

    /// The field of that name; null where the value is no object or lacks it.
    pub fn field<'a>(&'a self, name: &str) -> (value: &'a Json)
        ensures
            value@ == self@.field(name@),
    {
        match self {
            Json::Object(fields) => match Json::find(fields, name) {
                Some(i) => &fields[i].1,
                None => &Json::Null,
            },
            _ => &Json::Null,
        }
    }

    /// The field of that name, where the value is an object that has it.
    pub fn get<'a>(&'a self, name: &str) -> (value: Option<&'a Json>)
        ensures
            value is Some == self@.has(name@),
            value matches Some(value) ==> value@ == self@.field(name@),
    {
        match self {
            Json::Object(fields) => match Json::find(fields, name) {
                Some(i) => Some(&fields[i].1),
                None => None,
            },
            _ => None,
        }
    }

    pub fn is_null(&self) -> (null: bool)
        ensures
            null == (self@ is Null),
    {
        match self {
            Json::Null => true,
            _ => false,
        }
    }

    pub fn is_object(&self) -> (object: bool)
        ensures
            object == (self@ is Object),
    {
        match self {
            Json::Object(_) => true,
            _ => false,
        }
    }

    /// Whether the value is an object with a field.
    pub fn has_fields(&self) -> (has: bool)
        ensures
            has == self@.has_fields(),
    {
        match self {
            Json::Object(fields) => {
                proof {
                    if fields.len() > 0 {
                        lemma_field_names(fields@, fields[0].0@);
                        assert(self@->Object_0.dom().contains(fields[0].0@));
                    }
                }
                fields.len() > 0
            },
            _ => false,
        }
    }

    /// The text of a text value.
    pub fn as_str(&self) -> (text: Option<&str>)
        ensures
            match text {
                Some(text) => self@ == JsonView::Text(text@),
                None => !(self@ is Text),
            },
    {
        match self {
            Json::Text(text) => Some(text.as_str()),
            _ => None,
        }
    }

    /// Whether the value is that text.
    pub fn is_text(&self, text: &str) -> (same: bool)
        ensures
            same == (self@ == JsonView::Text(text@)),
    {
        match self {
            Json::Text(own) => same_text(own.as_str(), text),
            _ => false,
        }
    }

    /// The items of an array.
    pub fn as_array(&self) -> (items: Option<&Vec<Json>>)
        ensures
            match items {
                Some(items) => self@ == JsonView::Array(items_view(items@)),
                None => !(self@ is Array),
            },
    {
        match self {
            Json::Array(items) => Some(items),
            _ => None,
        }
    }

    /// The integer that the value is, where it is one of that range.
    pub fn as_u64(&self) -> (number: Option<u64>)
        ensures
            number == self@.unsigned(),
    {
        match self {
            Json::Unsigned(n) => Some(*n),
            Json::Negative(n) => if *n >= 0 {
                Some(*n as u64)
            } else {
                None
            },
            _ => None,
        }
    }

    /// The integer that the value is, where it is one of that range.
    pub fn as_i64(&self) -> (number: Option<i64>)
        ensures
            number == self@.signed(),
    {
        match self {
            Json::Unsigned(n) => if *n <= i64::MAX as u64 {
                Some(*n as i64)
            } else {
                None
            },
            Json::Negative(n) => Some(*n),
            _ => None,
        }
    }

    /// Whether two values are equal.
    fn same(&self, other: &Json) -> (same: bool)
        ensures
            same == alike(self@, other@),
        decreases self,
    {
        match (self, other) {
            (Json::Null, Json::Null) => true,
            (Json::Bool(a), Json::Bool(b)) => *a == *b,
            (Json::Unsigned(a), Json::Unsigned(b)) => *a == *b,
            (Json::Negative(a), Json::Negative(b)) => *a == *b,
            (Json::Unsigned(a), Json::Negative(b)) => *b >= 0 && *a == *b as u64,
            (Json::Negative(a), Json::Unsigned(b)) => *a >= 0 && *a as u64 == *b,
            (Json::Decimal(a), Json::Decimal(b)) => same_text(a.as_str(), b.as_str()) || (is_zero_text(
                a.as_str(),
            ) && is_zero_text(b.as_str())),
            (Json::Text(a), Json::Text(b)) => same_text(a.as_str(), b.as_str()),
            (Json::Array(a), Json::Array(b)) => {
                if a.len() != b.len() {
                    assert(items_view(a@).len() != items_view(b@).len());
                    return false;
                }
                let mut i: usize = 0;
                while i < a.len()
                    invariant
                        i <= a.len(),
                        a.len() == b.len(),
                        *self == Json::Array(*a),
                        *other == Json::Array(*b),
                        forall|j: int| 0 <= j < i ==> alike(json_view(#[trigger] a[j]), json_view(b[j])),
                    decreases a.len() - i,
                {
                    if !a[i].same(&b[i]) {
                        assert(!alike(self@->Array_0[i as int], other@->Array_0[i as int]));
                        return false;
                    }
                    i = i + 1;
                }
                assert forall|j: int| 0 <= j < a.len() implies alike(
                    #[trigger] items_view(a@)[j],
                    items_view(b@)[j],
                ) by {
                    assert(alike(json_view(a[j]), json_view(b[j])));
                }
                true
            },
            (Json::Object(a), Json::Object(b)) => {
                let mut i: usize = 0;
                while i < a.len()
                    invariant
                        i <= a.len(),
                        *self == Json::Object(*a),
                        *other == Json::Object(*b),
                        forall|j: int|
                            0 <= j < i ==> {
                                &&& fields_view(b@).dom().contains(#[trigger] a[j].0@)
                                &&& alike(fields_view(a@)[a[j].0@], fields_view(b@)[a[j].0@])
                            },
                    decreases a.len() - i,
                {
                    let name = a[i].0.as_str();
                    proof {
                        lemma_field_names(a@, name@);
                    }
                    match (Json::find(a, name), Json::find(b, name)) {
                        (Some(x), Some(y)) => {
                            if !a[x].1.same(&b[y].1) {
                                assert(!alike(self@->Object_0[name@], other@->Object_0[name@]));
                                return false;
                            }
                        },
                        _ => {
                            assert(self@->Object_0.dom().contains(name@) && !other@->Object_0.dom().contains(name@));
                            return false;
                        },
                    }
                    i = i + 1;
                }
                let mut i: usize = 0;
                while i < b.len()
                    invariant
                        i <= b.len(),
                        *self == Json::Object(*a),
                        *other == Json::Object(*b),
                        forall|j: int| 0 <= j < i ==> fields_view(a@).dom().contains(#[trigger] b[j].0@),
                    decreases b.len() - i,
                {
                    let name = b[i].0.as_str();
                    proof {
                        lemma_field_names(b@, name@);
                    }
                    if Json::find(a, name).is_none() {
                        assert(!self@->Object_0.dom().contains(name@) && other@->Object_0.dom().contains(name@));
                        return false;
                    }
                    i = i + 1;
                }
                proof {
                    let (left, right) = (fields_view(a@), fields_view(b@));
                    assert forall|name: Seq<char>| left.dom().contains(name) == right.dom().contains(name) by {
                        lemma_field_names(a@, name);
                        lemma_field_names(b@, name);
                    }
                    assert forall|name: Seq<char>| left.dom().contains(name) implies alike(
                        #[trigger] left[name],
                        right[name],
                    ) by {
                        lemma_field_names(a@, name);
                    }
                    assert(left.dom() =~= right.dom());
                }
                true
            },
            _ => false,
        }
    }

    /// A value with the same content.
    fn copy(&self) -> (copy: Json)
        ensures
            copy@ == self@,
        decreases self,
    {
        match self {
            Json::Null => Json::Null,
            Json::Bool(b) => Json::Bool(*b),
            Json::Unsigned(n) => Json::Unsigned(*n),
            Json::Negative(n) => Json::Negative(*n),
            Json::Decimal(text) => Json::Decimal(text.clone()),
            Json::Text(text) => Json::Text(text.clone()),
            Json::Array(items) => {
                let mut copy: Vec<Json> = Vec::new();
                let mut i: usize = 0;
                while i < items.len()
                    invariant
                        i <= items.len(),
                        copy.len() == i,
                        *self is Array && *items == self->Array_0,
                        forall|j: int| 0 <= j < i ==> json_view(copy[j]) == json_view(items[j]),
                    decreases items.len() - i,
                {
                    let item = items[i].copy();
                    copy.push(item);
                    i = i + 1;
                }
                assert(items_view(copy@) =~= items_view(items@));
                Json::Array(copy)
            },
            Json::Object(fields) => {
                let mut copy: Vec<(String, Json)> = Vec::new();
                let mut i: usize = 0;
                while i < fields.len()
                    invariant
                        i <= fields.len(),
                        *self is Object && *fields == self->Object_0,
                        fields_view(copy@) == fields_view(fields@.take(i as int)),
                    decreases fields.len() - i,
                {
                    let value = fields[i].1.copy();
                    let ghost before = copy@;
                    copy.push((fields[i].0.clone(), value));
                    assert(copy@.drop_last() =~= before);
                    assert(fields@.take(i + 1).drop_last() =~= fields@.take(i as int));
                    i = i + 1;
                }
                assert(fields@.take(fields.len() as int) =~= fields@);
                Json::Object(copy)
            },
        }
    }
}

impl Clone for Json {
    fn clone(&self) -> (copy: Json)
        ensures
            copy@ == self@,
    {
        self.copy()
    }
}

impl PartialEq for Json {
    fn eq(&self, other: &Json) -> (same: bool) {
        self.same(other)
    }
}

impl vstd::std_specs::cmp::PartialEqSpecImpl for Json {
    open spec fn obeys_eq_spec() -> bool {
        true
    }

    open spec fn eq_spec(&self, other: &Json) -> bool {
        alike(self@, other@)
    }
}

} // verus!
