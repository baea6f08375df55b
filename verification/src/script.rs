//! The Starlark interpreter's values and the calls made on them.
//!
//! Everything in this file is believed, not proved: the types are opaque,
//! and each function states what the interpreter's source shows of one call.
//!
//! The interpreter panics on a call on a value that is borrowed for a change
//! at that moment. Nothing here borrows a value for a change, so that can
//! only come from a caller who hands over a value while changing it.

use linked_hash_map::LinkedHashMap;
use starlark::environment::TypeValues;
use starlark::eval::call_stack::CallStack;
use starlark::values::error::ValueError;
use starlark::values::Value;
use vstd::prelude::*;

verus! {

/// `starlark::values::Value`: a handle on a value of the interpreter.
#[verifier::external_type_specification]
#[verifier::external_body]
pub struct ExValue(Value);

/// `starlark::values::error::ValueError`: what an operation on a value failed with.
#[verifier::external_type_specification]
#[verifier::external_body]
pub struct ExValueError(ValueError);

/// `starlark::eval::call_stack::CallStack`: the interpreter's stack of calls.
#[verifier::external_type_specification]
#[verifier::external_body]
pub struct ExCallStack(CallStack);

/// `starlark::environment::TypeValues`: the per-type attributes that calls see.
#[verifier::external_type_specification]
#[verifier::external_body]
pub struct ExTypeValues(TypeValues);

/// `Value::clone`: a second handle on the same value. The interpreter copies
/// the scalar or the shared pointer, so the two handles are the same value.
pub assume_specification[ <Value as Clone>::clone ](value: &Value) -> (copy: Value)
    ensures
        copy == *value,
;

/// `Value::call` with positional arguments only: no named arguments, no
/// `*args`, no `**kwargs`. What comes back, and whether anything does, is
/// up to the callable, so nothing is claimed of it.
#[verifier::external_body]
pub(crate) fn call_positional(
    callable: &Value,
    call_stack: &mut CallStack,
    type_values: &TypeValues,
    positional: Vec<Value>,
) -> (outcome: Result<Value, ValueError>) {
    callable.call(call_stack, type_values, positional, LinkedHashMap::new(), None, None)
}

/// The name of the interpreter's type of a value.
pub uninterp spec fn value_type(value: Value) -> Seq<char>;

/// The characters of a value that is a string of the interpreter.
pub uninterp spec fn value_text(value: Value) -> Seq<char>;

/// The truth value of a value that is a boolean of the interpreter.
pub uninterp spec fn value_truth(value: Value) -> bool;

/// The number that a value is, where it is an integer of the interpreter.
pub uninterp spec fn value_int(value: Value) -> i64;

/// `Value::get_type`: the name that the value's type declares, which is the
/// same for the whole life of the value.
#[verifier::external_body]
pub(crate) fn type_of(value: &Value) -> (name: &'static str)
    ensures
        name@ == value_type(*value),
{
    value.get_type()
}

/// `Value::to_str`: for a string of the interpreter, which is the type
/// named `string` and cannot change, a copy of its characters. Of the text
/// of other values nothing is claimed.
#[verifier::external_body]
pub(crate) fn text_of(value: &Value) -> (text: String)
    ensures
        value_type(*value) == "string"@ ==> text@ == value_text(*value),
{
    value.to_str()
}

/// `Value::to_bool`: for a boolean of the interpreter, which is the type
/// named `bool` and cannot change, the boolean itself. Of the truth of other
/// values nothing is claimed.
#[verifier::external_body]
pub(crate) fn truth_of(value: &Value) -> (truth: bool)
    ensures
        value_type(*value) == "bool"@ ==> truth == value_truth(*value),
{
    value.to_bool()
}

/// `Value::to_int`: for an integer of the interpreter, which is the type
/// named `int` and cannot change, the integer itself where a number comes
/// back. Of other values nothing is claimed.
#[verifier::external_body]
pub(crate) fn int_of(value: &Value) -> (number: Result<i64, ValueError>)
    ensures
        value_type(*value) == "int"@ && number is Ok ==> number->Ok_0 == value_int(*value),
{
    value.to_int()
}

/// `Value::to_vec`: the items that iterating over the value gives at this
/// moment, or the failure to iterate. Both depend on what the value holds
/// now, so nothing is claimed of them.
#[verifier::external_body]
pub(crate) fn items_of(value: &Value) -> (items: Result<Vec<Value>, ValueError>) {
    value.to_vec()
}

/// `Value::at`: what the value holds under `key` at this moment, or the
/// failure to look it up. Nothing is claimed of either.
#[verifier::external_body]
pub(crate) fn item_at(value: &Value, key: &Value) -> (item: Result<Value, ValueError>) {
    value.at(key.clone())
}

} // verus!
