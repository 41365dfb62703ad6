//! Conversion of what the engine reports of a script value into a [`Value`].
use crate::value::{keys_unique, string_keys, value_eq, Value};
use vstd::prelude::*;

verus! {

/// What the engine reports of one script value, read while the value's
/// scope was still open.
///
/// The `is_*` flags are the engine's type tests, several of which may hold
/// at once (a date is an object too). `number` is the bit pattern of the
/// value's number, `uint32` and `int32` its integer readings, `text` its
/// string form, `boolean` its truth. `has_object_view` tells whether the
/// engine gave an object view of the value. `elements` holds the elements of
/// an array in index order; `properties` holds each enumerable property
/// name with the property's value, in the engine's enumeration order.
#[derive(Debug)]
pub struct ScriptValue {
    pub is_null: bool,
    pub is_undefined: bool,
    pub is_number: bool,
    pub is_uint32: bool,
    pub is_int32: bool,
    pub is_string: bool,
    pub is_date: bool,
    pub is_boolean: bool,
    pub is_object: bool,
    pub is_array: bool,
    pub number: u64,
    pub uint32: u32,
    pub int32: i32,
    pub text: String,
    pub boolean: bool,
    pub has_object_view: bool,
    pub elements: Vec<ScriptValue>,
    pub properties: Vec<(ScriptValue, ScriptValue)>,
}

/// `v` is the conversion of `s`. The type tests are tried in a fixed order
/// and the first that holds decides: null, undefined, number, unsigned
/// 32-bit integer, signed 32-bit integer, string, date, boolean, object.
/// An object without an object view, and anything that no test accepts,
/// converts to `NoValue`. An array with at least one element converts
/// element by element; every other object converts property by property.
pub open spec fn converts_to(s: ScriptValue, v: Value) -> bool
    decreases s,
{
    if s.is_null {
        v is Null
    } else if s.is_undefined {
        v is Undefined
    } else if s.is_number {
        v == Value::Float(s.number)
    } else if s.is_uint32 {
        v == Value::UnsignedInteger(s.uint32)
    } else if s.is_int32 {
        v == Value::Integer(s.int32)
    } else if s.is_string {
        v matches Value::String(t) && t@ == s.text@
    } else if s.is_date {
        v == Value::Date(s.number)
    } else if s.is_boolean {
        v == Value::Boolean(s.boolean)
    } else if s.is_object && s.has_object_view {
        if s.is_array && s.elements@.len() > 0 {
            v matches Value::Array(items) && elements_convert(s.elements@, items@)
        } else {
            v matches Value::Object(entries) && properties_convert(s.properties@, entries@)
        }
    } else {
        v is NoValue
    }
}

/// Each value of `items` is the conversion of the element at its index.
pub open spec fn elements_convert(elements: Seq<ScriptValue>, items: Seq<Value>) -> bool
    decreases elements,
{
    &&& items.len() == elements.len()
    &&& forall|k: int| 0 <= k < elements.len() ==> converts_to(#[trigger] elements[k], items[k])
}

/// Each entry of `entries` holds the conversions of the property name and
/// value at its index.
pub open spec fn properties_convert(
    properties: Seq<(ScriptValue, ScriptValue)>,
    entries: Seq<(Value, Value)>,
) -> bool
    decreases properties,
{
    &&& entries.len() == properties.len()
    &&& forall|k: int|
        0 <= k < properties.len() ==> {
            &&& converts_to(#[trigger] properties[k].0, entries[k].0)
            &&& converts_to(properties[k].1, entries[k].1)
        }
}

/// `s` is reported as a string and by no other type test that comes first.
pub open spec fn plain_string(s: ScriptValue) -> bool {
    !s.is_null && !s.is_undefined && !s.is_number && !s.is_uint32 && !s.is_int32 && s.is_string
}

/// Every property name is a plain string, and no two have the same text.
pub open spec fn names_distinct(properties: Seq<(ScriptValue, ScriptValue)>) -> bool {
    &&& forall|i: int| 0 <= i < properties.len() ==> plain_string(#[trigger] properties[i].0)
    &&& forall|i: int, j: int|
        0 <= i < properties.len() && 0 <= j < properties.len() && i != j
            ==> #[trigger] properties[i].0.text@ != #[trigger] properties[j].0.text@
}

impl Value {
    /// Converts what the engine reported of a script value into an owned
    /// value (see [`converts_to`]).
    pub fn new(s: &ScriptValue) -> (r: Value)
        ensures
            converts_to(*s, r),
            r is Object && names_distinct(s.properties@) ==> string_keys(r->Object_0@) && keys_unique(
                r->Object_0@,
            ),
        decreases *s,
    {
        if s.is_null {
            Value::Null
        } else if s.is_undefined {
            Value::Undefined
        } else if s.is_number {
            Value::Float(s.number)
        } else if s.is_uint32 {
            Value::UnsignedInteger(s.uint32)
        } else if s.is_int32 {
            Value::Integer(s.int32)
        } else if s.is_string {
            Value::String(s.text.clone())
        } else if s.is_date {
            Value::Date(s.number)
        } else if s.is_boolean {
            Value::Boolean(s.boolean)
        } else if s.is_object && s.has_object_view {
            proof {
                assert(decreases_to!(*s => s.elements));
                assert(decreases_to!(*s => s.properties));
            }
            if s.is_array && s.elements.len() > 0 {
                Value::Array(convert_elements(&s.elements))
            } else {
                Value::Object(convert_properties(&s.properties))
            }
        } else {
            Value::NoValue
        }
    }
}

/// Converts the elements of an array, in order.
fn convert_elements(elements: &Vec<ScriptValue>) -> (r: Vec<Value>)
    ensures
        elements_convert(elements@, r@),
    decreases *elements,
{
    let mut items: Vec<Value> = Vec::new();
    let mut i: usize = 0;
    while i < elements.len()
        invariant
            0 <= i <= elements@.len(),
            items@.len() == i,
            forall|k: int| 0 <= k < i ==> converts_to(#[trigger] elements@[k], items@[k]),
        decreases elements@.len() - i,
    {
        proof {
            assert(decreases_to!(*elements => elements@));
            assert(decreases_to!(elements@ => elements@[i as int]));
        }
        let item = Value::new(&elements[i]);
        items.push(item);
        i += 1;
    }
    items
}

/// Converts property names and values into object entries, in order.
fn convert_properties(properties: &Vec<(ScriptValue, ScriptValue)>) -> (r: Vec<(Value, Value)>)
    ensures
        properties_convert(properties@, r@),
        names_distinct(properties@) ==> string_keys(r@) && keys_unique(r@),
    decreases *properties,
{
    let mut entries: Vec<(Value, Value)> = Vec::new();
    let mut i: usize = 0;
    while i < properties.len()
        invariant
            0 <= i <= properties@.len(),
            entries@.len() == i,
            forall|k: int|
                0 <= k < i ==> {
                    &&& converts_to(#[trigger] properties@[k].0, entries@[k].0)
                    &&& converts_to(properties@[k].1, entries@[k].1)
                },
        decreases properties@.len() - i,
    {
        proof {
            assert(decreases_to!(*properties => properties@));
            assert(decreases_to!(properties@ => properties@[i as int]));
            assert(decreases_to!(properties@[i as int] => properties@[i as int].0));
            assert(decreases_to!(properties@[i as int] => properties@[i as int].1));
        }
        let key = Value::new(&properties[i].0);
        let value = Value::new(&properties[i].1);
        let ghost before = entries@;
        entries.push((key, value));
        assert forall|k: int| 0 <= k < i + 1 implies {
            &&& converts_to(#[trigger] properties@[k].0, entries@[k].0)
            &&& converts_to(properties@[k].1, entries@[k].1)
        } by {
            if k < i {
                assert(entries@[k] == before[k]);
            }
        }
        i += 1;
    }
    proof {
        if names_distinct(properties@) {
            assert forall|k: int| 0 <= k < entries@.len() implies (#[trigger] entries@[k]).0 is String by {
                assert(plain_string(properties@[k].0));
                assert(converts_to(properties@[k].0, entries@[k].0));
            }
            assert forall|k: int, m: int|
                0 <= k < entries@.len() && 0 <= m < entries@.len() && k != m implies !value_eq(
                #[trigger] entries@[k].0,
                #[trigger] entries@[m].0,
            ) by {
                assert(plain_string(properties@[k].0));
                assert(plain_string(properties@[m].0));
                assert(converts_to(properties@[k].0, entries@[k].0));
                assert(converts_to(properties@[m].0, entries@[m].0));
                assert(properties@[k].0.text@ != properties@[m].0.text@);
            }
        }
    }
    entries
}

} // verus!
