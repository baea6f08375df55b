//! Checks of the values that a script hands to a built-in function: each
//! says whether the value has the type that the function expects, and
//! describes the mismatch where it has not.

use crate::script::{
    int_of, item_at, items_of, text_of, truth_of, type_of, value_int, value_text, value_truth,
    value_type,
};
use crate::text::same_text;
use starlark::values::error::ValueError;
use starlark::values::Value;
use vstd::prelude::*;
use vstd::string::*;

verus! {

/// Why a value is not accepted as an argument.
#[derive(Debug)]
pub enum ArgumentError {
    /// The value, or a value in it, has another type than the function
    /// expects. `message` says so in full, `label` in short.
    IncorrectType { message: String, label: String },
    /// The interpreter failed while the value was looked into.
    Interpreter(ValueError),
}

/// An `ArgumentError` as contracts see it.
pub ghost enum ArgumentErrorView {
    IncorrectType { message: Seq<char>, label: Seq<char> },
    Interpreter(ValueError),
}

impl View for ArgumentError {
    type V = ArgumentErrorView;

    open spec fn view(&self) -> ArgumentErrorView {
        match *self {
            ArgumentError::IncorrectType { message, label } => ArgumentErrorView::IncorrectType {
                message: message@,
                label: label@,
            },
            ArgumentError::Interpreter(error) => ArgumentErrorView::Interpreter(error),
        }
    }
}

/// `first`, then `second`.
fn compose1(first: &str, second: &str) -> (text: String)
    ensures
        text@ == first@ + second@,
{
    let mut text = String::from_str(first);
    text.append(second);
    text
}

/// The four parts in order.
fn compose2(first: &str, second: &str, third: &str, fourth: &str) -> (text: String)
    ensures
        text@ == first@ + second@ + third@ + fourth@,
{
    let mut text = compose1(first, second);
    text.append(third);
    text.append(fourth);
    text
}

/// The six parts in order.
fn compose3(
    first: &str,
    second: &str,
    third: &str,
    fourth: &str,
    fifth: &str,
    sixth: &str,
) -> (text: String)
    ensures
        text@ == first@ + second@ + third@ + fourth@ + fifth@ + sixth@,
{
    let mut text = compose2(first, second, third, fourth);
    text.append(fifth);
    text.append(sixth);
    text
}

/// The mismatch that `required_type_arg` reports.
pub open spec fn type_mismatch(arg_name: Seq<char>, arg_type: Seq<char>, found: Seq<char>)
    -> ArgumentErrorView {
    ArgumentErrorView::IncorrectType {
        message: "function expects a "@ + arg_type + " for "@ + arg_name + "; got type "@ + found,
        label: "expect type "@ + arg_type + "; got "@ + found,
    }
}

/// The mismatch of the argument `name`, which must be of the built-in type
/// `wanted`: `intro` is how the message begins, up to the name.
pub open spec fn builtin_mismatch(
    intro: Seq<char>,
    name: Seq<char>,
    wanted: Seq<char>,
    found: Seq<char>,
) -> ArgumentErrorView {
    ArgumentErrorView::IncorrectType {
        message: intro + name + "; got type "@ + found,
        label: "expected type "@ + wanted + "; got "@ + found,
    }
}

/// The mismatch of a value inside a list or a dict: `kind` is `list` or
/// `dict`, with a space after it, and `role` is `values` or `keys`.
pub open spec fn item_mismatch(
    kind: Seq<char>,
    arg_name: Seq<char>,
    role: Seq<char>,
    wanted: Seq<char>,
    found: Seq<char>,
) -> ArgumentErrorView {
    ArgumentErrorView::IncorrectType {
        message: kind + arg_name + " expects "@ + role + " of type "@ + wanted + "; got "@ + found,
        label: "expected type "@ + wanted + "; got "@ + found,
    }
}

/// Builds the mismatch of an argument that must be of a built-in type.
pub(crate) fn builtin_error(intro: &str, name: &str, wanted: &str, found: &str) -> (error: ArgumentError)
    ensures
        error@ == builtin_mismatch(intro@, name@, wanted@, found@),
{
    ArgumentError::IncorrectType {
        message: compose2(intro, name, "; got type ", found),
        label: compose2("expected type ", wanted, "; got ", found),
    }
}

/// Builds the mismatch of a value inside a list or a dict.
fn item_error(kind: &str, arg_name: &str, role: &str, wanted: &str, found: &str) -> (error:
    ArgumentError)
    ensures
        error@ == item_mismatch(kind@, arg_name@, role@, wanted@, found@),
{
    let mut message = compose3(kind, arg_name, " expects ", role, " of type ", wanted);
    message.append("; got ");
    message.append(found);
    ArgumentError::IncorrectType {
        message,
        label: compose2("expected type ", wanted, "; got ", found),
    }
}

/// Accepts a value of the type `arg_type`, and no other.
pub fn required_type_arg(arg_name: &str, arg_type: &str, value: &Value) -> (checked: Result<
    (),
    ArgumentError,
>)
    ensures
        match checked {
            Ok(_) => value_type(*value) == arg_type@,
            Err(error) => value_type(*value) != arg_type@ && error@ == type_mismatch(
                arg_name@,
                arg_type@,
                value_type(*value),
            ),
        },
{
    let t = type_of(value);
    if same_text(t, arg_type) {
        Ok(())
    } else {
        Err(
            ArgumentError::IncorrectType {
                message: compose3("function expects a ", arg_type, " for ", arg_name, "; got type ", t),
                label: compose2("expect type ", arg_type, "; got ", t),
            },
        )
    }
}

/// Accepts `None` and a value of the type `arg_type`, and no other.
pub fn optional_type_arg(arg_name: &str, arg_type: &str, value: &Value) -> (checked: Result<
    (),
    ArgumentError,
>)
    ensures
        match checked {
            Ok(_) => value_type(*value) == "NoneType"@ || value_type(*value) == arg_type@,
            Err(error) => value_type(*value) != "NoneType"@ && value_type(*value) != arg_type@
                && error@ == type_mismatch(arg_name@, arg_type@, value_type(*value)),
        },
{
    if same_text(type_of(value), "NoneType") {
        Ok(())
    } else {
        required_type_arg(arg_name, arg_type, value)
    }
}

/// The characters of an argument that must be a string.
pub fn required_str_arg(name: &str, value: &Value) -> (text: Result<String, ArgumentError>)
    ensures
        match text {
            Ok(text) => value_type(*value) == "string"@ && text@ == value_text(*value),
            Err(error) => value_type(*value) != "string"@ && error@ == builtin_mismatch(
                "function expects a string for "@,
                name@,
                "string"@,
                value_type(*value),
            ),
        },
{
    let t = type_of(value);
    if same_text(t, "string") {
        Ok(text_of(value))
    } else {
        Err(builtin_error("function expects a string for ", name, "string", t))
    }
}

/// The characters of an argument that must be a string or `None`.
pub fn optional_str_arg(name: &str, value: &Value) -> (text: Result<Option<String>, ArgumentError>)
    ensures
        match text {
            Ok(None) => value_type(*value) == "NoneType"@,
            Ok(Some(text)) => value_type(*value) != "NoneType"@ && value_type(*value) == "string"@
                && text@ == value_text(*value),
            Err(error) => value_type(*value) != "NoneType"@ && value_type(*value) != "string"@
                && error@ == builtin_mismatch(
                "function expects an optional string for "@,
                name@,
                "string"@,
                value_type(*value),
            ),
        },
{
    let t = type_of(value);
    if same_text(t, "NoneType") {
        Ok(None)
    } else if same_text(t, "string") {
        Ok(Some(text_of(value)))
    } else {
        Err(builtin_error("function expects an optional string for ", name, "string", t))
    }
}

/// The truth value of an argument that must be a boolean.
pub fn required_bool_arg(name: &str, value: &Value) -> (truth: Result<bool, ArgumentError>)
    ensures
        match truth {
            Ok(truth) => value_type(*value) == "bool"@ && truth == value_truth(*value),
            Err(error) => value_type(*value) != "bool"@ && error@ == builtin_mismatch(
                "function expects an required bool for "@,
                name@,
                "bool"@,
                value_type(*value),
            ),
        },
{
    let t = type_of(value);
    if same_text(t, "bool") {
        Ok(truth_of(value))
    } else {
        Err(builtin_error("function expects an required bool for ", name, "bool", t))
    }
}

/// The truth value of an argument that must be a boolean or `None`.
pub fn optional_bool_arg(name: &str, value: &Value) -> (truth: Result<Option<bool>, ArgumentError>)
    ensures
        match truth {
            Ok(None) => value_type(*value) == "NoneType"@,
            Ok(Some(truth)) => value_type(*value) != "NoneType"@ && value_type(*value) == "bool"@
                && truth == value_truth(*value),
            Err(error) => value_type(*value) != "NoneType"@ && value_type(*value) != "bool"@
                && error@ == builtin_mismatch(
                "function expects an optional bool for "@,
                name@,
                "bool"@,
                value_type(*value),
            ),
        },
{
    let t = type_of(value);
    if same_text(t, "NoneType") {
        Ok(None)
    } else if same_text(t, "bool") {
        Ok(Some(truth_of(value)))
    } else {
        Err(builtin_error("function expects an optional bool for ", name, "bool", t))
    }
}

/// The number of an argument that must be an integer or `None`. Whether an
/// integer gives its number is the interpreter's to say.
pub fn optional_int_arg(name: &str, value: &Value) -> (number: Result<Option<i64>, ArgumentError>)
    ensures
        match number {
            Ok(None) => value_type(*value) == "NoneType"@,
            Ok(Some(number)) => value_type(*value) != "NoneType"@ && value_type(*value) == "int"@
                && number == value_int(*value),
            Err(error) => value_type(*value) != "NoneType"@ && if value_type(*value) == "int"@ {
                error@ is Interpreter
            } else {
                error@ == builtin_mismatch(
                    "function expected an optional int for "@,
                    name@,
                    "int"@,
                    value_type(*value),
                )
            },
        },
{
    let t = type_of(value);
    if same_text(t, "NoneType") {
        Ok(None)
    } else if same_text(t, "int") {
        match int_of(value) {
            Ok(number) => Ok(Some(number)),
            Err(error) => Err(ArgumentError::Interpreter(error)),
        }
    } else {
        Err(builtin_error("function expected an optional int for ", name, "int", t))
    }
}

/// Accepts an item of a list or a dict if it has the type `wanted`: `kind`
/// is what holds the item, with a space after it, and `role` what the item
/// is there.
pub fn check_item_type(kind: &str, arg_name: &str, role: &str, wanted: &str, item: &Value) -> (checked:
    Result<(), ArgumentError>)
    ensures
        match checked {
            Ok(_) => value_type(*item) == wanted@,
            Err(error) => value_type(*item) != wanted@ && error@ == item_mismatch(
                kind@,
                arg_name@,
                role@,
                wanted@,
                value_type(*item),
            ),
        },
{
    let t = type_of(item);
    if same_text(t, wanted) {
        Ok(())
    } else {
        Err(item_error(kind, arg_name, role, wanted, t))
    }
}

/// Item `i` is the first of `items` that is not of the type `wanted`.
pub open spec fn first_mismatch(items: Seq<Value>, wanted: Seq<char>, i: int) -> bool {
    &&& 0 <= i < items.len()
    &&& value_type(items[i]) != wanted
    &&& forall|j: int| 0 <= j < i ==> value_type(#[trigger] items[j]) == wanted
}

/// Accepts the items of a list if each is of the type `value_type`, and
/// reports the first that is not.
pub fn check_list_items(arg_name: &str, value_type: &str, items: &Vec<Value>) -> (checked: Result<
    (),
    ArgumentError,
>)
    ensures
        match checked {
            Ok(_) => forall|i: int|
                0 <= i < items.len() ==> self::value_type(#[trigger] items@[i]) == value_type@,
            Err(error) => exists|i: int| #[trigger]
                first_mismatch(items@, value_type@, i) && error@ == item_mismatch(
                    "list "@,
                    arg_name@,
                    "values"@,
                    value_type@,
                    self::value_type(items@[i]),
                ),
        },
{
    let mut i: usize = 0;
    while i < items.len()
        invariant
            i <= items.len(),
            forall|j: int| 0 <= j < i ==> self::value_type(#[trigger] items@[j]) == value_type@,
        decreases items.len() - i,
    {
        match check_item_type("list ", arg_name, "values", value_type, &items[i]) {
            Ok(_) => {},
            Err(error) => {
                assert(first_mismatch(items@, value_type@, i as int));
                return Err(error);
            },
        }
        i += 1;
    }
    Ok(())
}

/// Accepts a list whose items are all of the type `value_type`.
///
/// Which items the list holds is the interpreter's to say: where the value
/// is a list, this function answers for the items that it was given.
pub fn required_list_arg(arg_name: &str, value_type: &str, value: &Value) -> (checked: Result<
    (),
    ArgumentError,
>)
    ensures
        match checked {
            Ok(_) => self::value_type(*value) == "list"@,
            Err(error) => if self::value_type(*value) == "list"@ {
                error@ is Interpreter || exists|found: Seq<char>|
                    found != value_type@ && error@ == #[trigger] item_mismatch(
                        "list "@,
                        arg_name@,
                        "values"@,
                        value_type@,
                        found,
                    )
            } else {
                error@ == builtin_mismatch(
                    "function expects a list for "@,
                    arg_name@,
                    "list"@,
                    self::value_type(*value),
                )
            },
        },
{
    let t = type_of(value);
    if same_text(t, "list") {
        match items_of(value) {
            Ok(items) => {
                let checked = check_list_items(arg_name, value_type, &items);
                proof {
                    if let Err(ref error) = checked {
                        let i = choose|i: int| #[trigger]
                            first_mismatch(items@, value_type@, i) && error@ == item_mismatch(
                                "list "@,
                                arg_name@,
                                "values"@,
                                value_type@,
                                self::value_type(items@[i]),
                            );
                        let found = self::value_type(items@[i]);
                        assert(found != value_type@ && error@ == item_mismatch(
                            "list "@,
                            arg_name@,
                            "values"@,
                            value_type@,
                            found,
                        ));
                    }
                }
                checked
            },
            Err(error) => Err(ArgumentError::Interpreter(error)),
        }
    } else {
        Err(builtin_error("function expects a list for ", arg_name, "list", t))
    }
}

/// Accepts `None`, and a list whose items are all of the type `value_type`.
pub fn optional_list_arg(arg_name: &str, value_type: &str, value: &Value) -> (checked: Result<
    (),
    ArgumentError,
>)
    ensures
        match checked {
            Ok(_) => self::value_type(*value) == "NoneType"@ || self::value_type(*value) == "list"@,
            Err(error) => self::value_type(*value) != "NoneType"@ && if self::value_type(*value)
                == "list"@ {
                error@ is Interpreter || exists|found: Seq<char>|
                    found != value_type@ && error@ == #[trigger] item_mismatch(
                        "list "@,
                        arg_name@,
                        "values"@,
                        value_type@,
                        found,
                    )
            } else {
                error@ == builtin_mismatch(
                    "function expects a list for "@,
                    arg_name@,
                    "list"@,
                    self::value_type(*value),
                )
            },
        },
{
    if same_text(type_of(value), "NoneType") {
        return Ok(());
    }
    required_list_arg(arg_name, value_type, value)
}

/// What a failed check of a dict whose type was right can report: a failure
/// of the interpreter, a key of another type than `key_type`, or a value of
/// another type than `value_type`.
pub open spec fn dict_entry_error(
    arg_name: Seq<char>,
    key_type: Seq<char>,
    value_type: Seq<char>,
    error: ArgumentErrorView,
) -> bool {
    ||| error is Interpreter
    ||| exists|found: Seq<char>|
        found != key_type && error == #[trigger] item_mismatch(
            "dict "@,
            arg_name,
            "keys"@,
            key_type,
            found,
        )
    ||| exists|found: Seq<char>|
        found != value_type && error == #[trigger] item_mismatch(
            "dict "@,
            arg_name,
            "values"@,
            value_type,
            found,
        )
}

/// Accepts a dict whose keys are all of the type `key_type` and whose
/// values are all of the type `value_type`.
///
/// Which keys and values the dict holds is the interpreter's to say: where
/// the value is a dict, each key is checked before its value is asked for,
/// and the first mismatch ends the check.
pub fn required_dict_arg(arg_name: &str, key_type: &str, value_type: &str, value: &Value) -> (checked:
    Result<(), ArgumentError>)
    ensures
        match checked {
            Ok(_) => self::value_type(*value) == "dict"@,
            Err(error) => if self::value_type(*value) == "dict"@ {
                dict_entry_error(arg_name@, key_type@, value_type@, error@)
            } else {
                error@ == builtin_mismatch(
                    "function expects a dict for "@,
                    arg_name@,
                    "dict"@,
                    self::value_type(*value),
                )
            },
        },
{
    let t = type_of(value);
    if !same_text(t, "dict") {
        return Err(builtin_error("function expects a dict for ", arg_name, "dict", t));
    }
    let keys = match items_of(value) {
        Ok(keys) => keys,
        Err(error) => {
            return Err(ArgumentError::Interpreter(error));
        },
    };
    let mut i: usize = 0;
    while i < keys.len()
        invariant
            i <= keys.len(),
            self::value_type(*value) == "dict"@,
        decreases keys.len() - i,
    {
        match check_item_type("dict ", arg_name, "keys", key_type, &keys[i]) {
            Ok(_) => {},
            Err(error) => {
                assert(error@ == item_mismatch(
                    "dict "@,
                    arg_name@,
                    "keys"@,
                    key_type@,
                    self::value_type(keys@[i as int]),
                ));
                return Err(error);
            },
        }
        let item = match item_at(value, &keys[i]) {
            Ok(item) => item,
            Err(error) => {
                return Err(ArgumentError::Interpreter(error));
            },
        };
        match check_item_type("dict ", arg_name, "values", value_type, &item) {
            Ok(_) => {},
            Err(error) => {
                assert(error@ == item_mismatch(
                    "dict "@,
                    arg_name@,
                    "values"@,
                    value_type@,
                    self::value_type(item),
                ));
                return Err(error);
            },
        }
        i += 1;
    }
    Ok(())
}

/// Accepts `None`, and a dict whose keys are all of the type `key_type` and
/// whose values are all of the type `value_type`.
pub fn optional_dict_arg(arg_name: &str, key_type: &str, value_type: &str, value: &Value) -> (checked:
    Result<(), ArgumentError>)
    ensures
        match checked {
            Ok(_) => self::value_type(*value) == "NoneType"@ || self::value_type(*value) == "dict"@,
            Err(error) => self::value_type(*value) != "NoneType"@ && if self::value_type(*value)
                == "dict"@ {
                dict_entry_error(arg_name@, key_type@, value_type@, error@)
            } else {
                error@ == builtin_mismatch(
                    "function expects a dict for "@,
                    arg_name@,
                    "dict"@,
                    self::value_type(*value),
                )
            },
        },
{
    if same_text(type_of(value), "NoneType") {
        return Ok(());
    }
    required_dict_arg(arg_name, key_type, value_type, value)
}

} // verus!
