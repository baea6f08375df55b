use codemap::CodeMap;
use starlark::eval::noload;
use starlark::stdlib::global_environment;
use starlark::syntax::dialect::Dialect;
use starlark::values::none::NoneType;
use starlark::values::{Immutable, TypedValue, Value};
use starlark_dialect_build_targets::args::{
    check_item_type, check_list_items, optional_bool_arg, optional_dict_arg, optional_int_arg,
    optional_list_arg, optional_str_arg, optional_type_arg, required_bool_arg, required_dict_arg,
    required_list_arg, required_str_arg, required_type_arg, ArgumentError,
};
use std::sync::{Arc, Mutex};

/// A value that calls itself a list and cannot be iterated over.
struct SoCalledList;

impl TypedValue for SoCalledList {
    type Holder = Immutable<SoCalledList>;

    const TYPE: &'static str = "list";

    fn values_for_descendant_check_and_freeze<'a>(
        &'a self,
    ) -> Box<dyn Iterator<Item = Value> + 'a> {
        Box::new(std::iter::empty())
    }
}

/// A value that calls itself a dict and cannot be iterated over.
struct SoCalledDict;

impl TypedValue for SoCalledDict {
    type Holder = Immutable<SoCalledDict>;

    const TYPE: &'static str = "dict";

    fn values_for_descendant_check_and_freeze<'a>(
        &'a self,
    ) -> Box<dyn Iterator<Item = Value> + 'a> {
        Box::new(std::iter::empty())
    }
}

/// A value that calls itself an int and has no number.
struct SoCalledInt;

impl TypedValue for SoCalledInt {
    type Holder = Immutable<SoCalledInt>;

    const TYPE: &'static str = "int";

    fn values_for_descendant_check_and_freeze<'a>(
        &'a self,
    ) -> Box<dyn Iterator<Item = Value> + 'a> {
        Box::new(std::iter::empty())
    }
}

fn evaluated(expression: &str) -> Value {
    let (mut env, type_values) = global_environment();
    let map = Arc::new(Mutex::new(CodeMap::new()));
    match noload::eval(&map, "args.bzl", expression, Dialect::Bzl, &mut env, &type_values) {
        Ok(value) => value,
        Err(_) => panic!("{} does not evaluate", expression),
    }
}

fn none() -> Value {
    Value::new(NoneType::None)
}

fn mismatch<T: std::fmt::Debug>(result: Result<T, ArgumentError>) -> (String, String) {
    match result {
        Err(ArgumentError::IncorrectType { message, label }) => (message, label),
        other => panic!("expected a type mismatch, got {:?}", other),
    }
}

fn text_pair(message: &str, label: &str) -> (String, String) {
    (message.to_string(), label.to_string())
}

#[test]
fn required_type_accepts_the_type() {
    assert!(required_type_arg("count", "int", &Value::from(3i64)).is_ok());
    assert!(required_type_arg("name", "string", &Value::from("x")).is_ok());
    assert!(required_type_arg("callable", "function", &evaluated("len")).is_ok());
}

#[test]
fn required_type_reports_the_type_found() {
    assert_eq!(
        mismatch(required_type_arg("callable", "function", &Value::from(3i64))),
        text_pair(
            "function expects a function for callable; got type int",
            "expect type function; got int"
        )
    );
    assert_eq!(
        mismatch(required_type_arg("x", "int", &none())),
        text_pair("function expects a int for x; got type NoneType", "expect type int; got NoneType")
    );
}

#[test]
fn optional_type_accepts_none() {
    assert!(optional_type_arg("x", "int", &none()).is_ok());
    assert!(optional_type_arg("x", "int", &Value::from(1i64)).is_ok());
    assert_eq!(
        mismatch(optional_type_arg("x", "int", &Value::from("one"))),
        text_pair("function expects a int for x; got type string", "expect type int; got string")
    );
}

#[test]
fn required_str_returns_the_characters() {
    assert_eq!(required_str_arg("name", &Value::from("hello")).ok(), Some("hello".to_string()));
    assert_eq!(required_str_arg("name", &Value::from("")).ok(), Some(String::new()));
    assert_eq!(
        mismatch(required_str_arg("name", &Value::from(true))),
        text_pair(
            "function expects a string for name; got type bool",
            "expected type string; got bool"
        )
    );
    assert_eq!(
        mismatch(required_str_arg("name", &none())),
        text_pair(
            "function expects a string for name; got type NoneType",
            "expected type string; got NoneType"
        )
    );
}

#[test]
fn optional_str_tells_none_from_a_string() {
    assert_eq!(optional_str_arg("name", &none()).ok(), Some(None));
    assert_eq!(
        optional_str_arg("name", &Value::from("abc")).ok(),
        Some(Some("abc".to_string()))
    );
    assert_eq!(
        mismatch(optional_str_arg("name", &Value::from(5i64))),
        text_pair(
            "function expects an optional string for name; got type int",
            "expected type string; got int"
        )
    );
}

#[test]
fn required_bool_returns_the_truth_value() {
    assert_eq!(required_bool_arg("flag", &Value::from(true)).ok(), Some(true));
    assert_eq!(required_bool_arg("flag", &Value::from(false)).ok(), Some(false));
    assert_eq!(
        mismatch(required_bool_arg("flag", &Value::from(1i64))),
        text_pair(
            "function expects an required bool for flag; got type int",
            "expected type bool; got int"
        )
    );
}

#[test]
fn optional_bool_tells_none_from_a_boolean() {
    assert_eq!(optional_bool_arg("flag", &none()).ok(), Some(None));
    assert_eq!(optional_bool_arg("flag", &Value::from(true)).ok(), Some(Some(true)));
    assert_eq!(optional_bool_arg("flag", &Value::from(false)).ok(), Some(Some(false)));
    assert_eq!(
        mismatch(optional_bool_arg("flag", &Value::from("yes"))),
        text_pair(
            "function expects an optional bool for flag; got type string",
            "expected type bool; got string"
        )
    );
}

#[test]
fn optional_int_returns_the_number() {
    assert_eq!(optional_int_arg("n", &none()).ok(), Some(None));
    assert_eq!(optional_int_arg("n", &Value::from(42i64)).ok(), Some(Some(42)));
    assert_eq!(optional_int_arg("n", &Value::from(-7i64)).ok(), Some(Some(-7)));
    assert_eq!(optional_int_arg("n", &Value::from(i64::MAX)).ok(), Some(Some(i64::MAX)));
    assert_eq!(
        mismatch(optional_int_arg("n", &Value::from(true))),
        text_pair(
            "function expected an optional int for n; got type bool",
            "expected type int; got bool"
        )
    );
}

#[test]
fn optional_int_passes_on_the_failure_of_the_interpreter() {
    assert!(matches!(
        optional_int_arg("n", &Value::new(SoCalledInt)),
        Err(ArgumentError::Interpreter(_))
    ));
}

#[test]
fn item_check_names_kind_and_role() {
    assert!(check_item_type("list ", "xs", "values", "int", &Value::from(1i64)).is_ok());
    assert_eq!(
        mismatch(check_item_type("dict ", "env", "keys", "string", &Value::from(1i64))),
        text_pair("dict env expects keys of type string; got int", "expected type string; got int")
    );
}

#[test]
fn list_items_report_the_first_mismatch() {
    let items = vec![Value::from("a"), Value::from(2i64), Value::from(true)];
    assert_eq!(
        mismatch(check_list_items("xs", "string", &items)),
        text_pair(
            "list xs expects values of type string; got int",
            "expected type string; got int"
        )
    );
    assert!(check_list_items("xs", "string", &items[..1].to_vec()).is_ok());
    assert!(check_list_items("xs", "string", &Vec::new()).is_ok());
}

#[test]
fn required_list_accepts_a_list_of_the_type() {
    assert!(required_list_arg("xs", "string", &evaluated(r#"["a", "b"]"#)).is_ok());
    assert!(required_list_arg("xs", "string", &evaluated("[]")).is_ok());
    assert!(required_list_arg("xs", "int", &Value::from(vec![Value::from(1i64)])).is_ok());
}

#[test]
fn required_list_reports_a_wrong_item() {
    assert_eq!(
        mismatch(required_list_arg("xs", "string", &evaluated(r#"["a", 1, True]"#))),
        text_pair(
            "list xs expects values of type string; got int",
            "expected type string; got int"
        )
    );
}

#[test]
fn required_list_reports_what_is_no_list() {
    assert_eq!(
        mismatch(required_list_arg("xs", "string", &Value::from("a"))),
        text_pair("function expects a list for xs; got type string", "expected type list; got string")
    );
    assert_eq!(
        mismatch(required_list_arg("xs", "string", &none())),
        text_pair(
            "function expects a list for xs; got type NoneType",
            "expected type list; got NoneType"
        )
    );
}

#[test]
fn required_list_passes_on_the_failure_of_the_interpreter() {
    assert!(matches!(
        required_list_arg("xs", "string", &Value::new(SoCalledList)),
        Err(ArgumentError::Interpreter(_))
    ));
}

#[test]
fn optional_list_accepts_none() {
    assert!(optional_list_arg("xs", "string", &none()).is_ok());
    assert!(optional_list_arg("xs", "string", &evaluated(r#"["a"]"#)).is_ok());
    assert_eq!(
        mismatch(optional_list_arg("xs", "string", &evaluated("[None]"))),
        text_pair(
            "list xs expects values of type string; got NoneType",
            "expected type string; got NoneType"
        )
    );
    assert_eq!(
        mismatch(optional_list_arg("xs", "string", &Value::from(1i64))),
        text_pair("function expects a list for xs; got type int", "expected type list; got int")
    );
}

#[test]
fn required_dict_accepts_keys_and_values_of_the_types() {
    assert!(required_dict_arg("env", "string", "int", &evaluated(r#"{"a": 1, "b": 2}"#)).is_ok());
    assert!(required_dict_arg("env", "string", "int", &evaluated("{}")).is_ok());
}

#[test]
fn required_dict_reports_a_wrong_key() {
    assert_eq!(
        mismatch(required_dict_arg("env", "string", "int", &evaluated(r#"{"a": 1, 2: 3}"#))),
        text_pair("dict env expects keys of type string; got int", "expected type string; got int")
    );
}

#[test]
fn required_dict_reports_a_wrong_value() {
    assert_eq!(
        mismatch(required_dict_arg("env", "string", "int", &evaluated(r#"{"a": 1, "b": "x"}"#))),
        text_pair("dict env expects values of type int; got string", "expected type int; got string")
    );
}

#[test]
fn required_dict_goes_entry_by_entry() {
    assert_eq!(
        mismatch(required_dict_arg("env", "string", "int", &evaluated(r#"{"a": "x", 2: 3}"#))),
        text_pair("dict env expects values of type int; got string", "expected type int; got string")
    );
    assert_eq!(
        mismatch(required_dict_arg("env", "string", "int", &evaluated(r#"{1: "x"}"#))),
        text_pair("dict env expects keys of type string; got int", "expected type string; got int")
    );
}

#[test]
fn required_dict_reports_what_is_no_dict() {
    assert_eq!(
        mismatch(required_dict_arg("env", "string", "int", &evaluated("[1]"))),
        text_pair("function expects a dict for env; got type list", "expected type dict; got list")
    );
}

#[test]
fn required_dict_passes_on_the_failure_of_the_interpreter() {
    assert!(matches!(
        required_dict_arg("env", "string", "int", &Value::new(SoCalledDict)),
        Err(ArgumentError::Interpreter(_))
    ));
}

#[test]
fn optional_dict_accepts_none() {
    assert!(optional_dict_arg("env", "string", "string", &none()).is_ok());
    assert!(optional_dict_arg("env", "string", "string", &evaluated(r#"{"a": "b"}"#)).is_ok());
    assert_eq!(
        mismatch(optional_dict_arg("env", "string", "string", &Value::from(false))),
        text_pair("function expects a dict for env; got type bool", "expected type dict; got bool")
    );
}
