//! The data that templates are rendered against.

use crate::text::same_text;
use vstd::prelude::*;
use vstd::string::*;

verus! {

/// A number: an integer, or a decimal held as its canonical text.
#[derive(Debug, PartialEq)]
pub enum Number {
    PosInt(u64),
    NegInt(i64),
    Float(String),
}

/// A JSON-like value. An object is a list of named fields; where a name
/// occurs twice, the first field stands for it.
#[derive(Debug, PartialEq)]
pub enum Value {
    Null,
    Bool(bool),
    Number(Number),
    String(String),
    Array(Vec<Value>),
    Object(Vec<(String, Value)>),
}

/// The mathematical value of a `Value`: a number is its decimal text, an
/// object a map from names to values.
pub enum ValueView {
    Null,
    Bool(bool),
    Number(Seq<char>),
    String(Seq<char>),
    Array(Seq<ValueView>),
    Object(Map<Seq<char>, ValueView>),
}

/// The decimal digit `d`.
pub open spec fn digit(d: nat) -> char {
    (48 + d) as char
}

/// The decimal text of `n`, without leading zeros.
pub open spec fn decimal(n: nat) -> Seq<char>
    decreases n,
{
    if n < 10 {
        seq![digit(n)]
    } else {
        decimal(n / 10).push(digit(n % 10))
    }
}

/// The decimal text of `i`, with `-` in front of a negative number.
pub open spec fn signed_decimal(i: int) -> Seq<char> {
    if i < 0 {
        seq!['-'] + decimal((-i) as nat)
    } else {
        decimal(i as nat)
    }
}

impl View for Number {
    type V = Seq<char>;

    open spec fn view(&self) -> Seq<char> {
        match self {
            Number::PosInt(n) => decimal(*n as nat),
            Number::NegInt(i) => signed_decimal(*i as int),
            Number::Float(text) => text@,
        }
    }
}

/// The values of a sequence of values.
pub open spec fn values_view(values: Seq<Value>) -> Seq<ValueView>
    decreases values,
{
    Seq::new(
        values.len(),
        |i: int|
            if 0 <= i < values.len() {
                values[i]@
            } else {
                ValueView::Null
            },
    )
}

/// The map that a list of fields stands for.
pub open spec fn fields_view(fields: Seq<(String, Value)>) -> Map<Seq<char>, ValueView>
    decreases fields,
{
    if fields.len() == 0 {
        Map::empty()
    } else {
        fields_view(fields.skip(1)).insert(fields[0].0@, fields[0].1@)
    }
}

impl View for Value {
    type V = ValueView;

    open spec fn view(&self) -> ValueView
        decreases self,
    {
        match self {
            Value::Null => ValueView::Null,
            Value::Bool(b) => ValueView::Bool(*b),
            Value::Number(number) => ValueView::Number(number@),
            Value::String(text) => ValueView::String(text@),
            Value::Array(items) => ValueView::Array(values_view(items@)),
            Value::Object(fields) => ValueView::Object(fields_view(fields@)),
        }
    }
}

/// `serde_json::Number::from` makes a number of an unsigned integer, and
/// the number's `to_string` is the integer in decimal digits.
#[verifier::external_body]
fn unsigned_text(value: u64) -> (text: String)
    ensures
        text@ == decimal(value as nat),
{
    serde_json::Number::from(value).to_string()
}

/// `serde_json::Number::from` makes a number of a signed integer, and the
/// number's `to_string` is the integer in decimal digits, after a `-`
/// where it is negative.
#[verifier::external_body]
fn signed_text(value: i64) -> (text: String)
    ensures
        text@ == signed_decimal(value as int),
{
    serde_json::Number::from(value).to_string()
}

impl Number {
    /// The canonical decimal text of this number.
    pub fn to_text(&self) -> (text: String)
        ensures
            text@ == self@,
    {
        match self {
            Number::PosInt(n) => unsigned_text(*n),
            Number::NegInt(i) => signed_text(*i),
            Number::Float(text) => text.clone(),
        }
    }
}

impl ValueView {
    /// The field `name` of an object; nothing of any other value.
    pub open spec fn field(self, name: Seq<char>) -> Option<ValueView> {
        match self {
            ValueView::Object(fields) => if fields.contains_key(name) {
                Some(fields[name])
            } else {
                None
            },
            _ => None,
        }
    }
}

impl Value {
    /// The field `name` of an object.
    pub fn get(&self, name: &str) -> (found: Option<&Value>)
        ensures
            match found {
                Some(value) => self@.field(name@) == Some(value@),
                None => self@.field(name@) is None,
            },
    {
        match self {
            Value::Object(fields) => {
                let mut index: usize = 0;
                while index < fields.len()
                    invariant
                        0 <= index <= fields.len(),
                        self@ == ValueView::Object(fields_view(fields@)),
                        forall|i: int| 0 <= i < index ==> (#[trigger] fields@[i]).0@ != name@,
                    decreases fields.len() - index,
                {
                    if same_text(fields[index].0.as_str(), name) {
                        proof {
                            lemma_fields_first(fields@, index as int);
                        }
                        return Some(&fields[index].1);
                    }
                    index = index + 1;
                }
                proof {
                    lemma_fields_absent(fields@, name@);
                }
                None
            },
            _ => None,
        }
    }
}

/// The first field with a name stands for that name.
pub proof fn lemma_fields_first(fields: Seq<(String, Value)>, index: int)
    requires
        0 <= index < fields.len(),
        forall|i: int| 0 <= i < index ==> (#[trigger] fields[i]).0@ != fields[index].0@,
    ensures
        fields_view(fields).contains_key(fields[index].0@),
        fields_view(fields)[fields[index].0@] == fields[index].1@,
    decreases index,
{
    let rest = fields.skip(1);
    assert(fields_view(fields) == fields_view(rest).insert(fields[0].0@, fields[0].1@));
    if index > 0 {
        assert forall|i: int| 0 <= i < index - 1 implies (#[trigger] rest[i]).0@ != rest[index
            - 1].0@ by {
            assert(rest[i] == fields[i + 1]);
        }
        lemma_fields_first(rest, index - 1);
        assert(rest[index - 1] == fields[index]);
        assert(fields[0].0@ != fields[index].0@);
    }
}

/// A name that no field has is not in the map.
pub proof fn lemma_fields_absent(fields: Seq<(String, Value)>, name: Seq<char>)
    requires
        forall|i: int| 0 <= i < fields.len() ==> (#[trigger] fields[i]).0@ != name,
    ensures
        !fields_view(fields).contains_key(name),
    decreases fields.len(),
{
    if fields.len() > 0 {
        let rest = fields.skip(1);
        assert(fields_view(fields) == fields_view(rest).insert(fields[0].0@, fields[0].1@));
        assert forall|i: int| 0 <= i < rest.len() implies (#[trigger] rest[i]).0@ != name by {
            assert(rest[i] == fields[i + 1]);
        }
        lemma_fields_absent(rest, name);
        assert(fields[0].0@ != name);
    }
}

} // verus!
