//! Registration as a script asks for it: the callable and the list of
//! dependencies arrive as values of the interpreter and are checked before
//! anything is registered.

use crate::args::{
    builtin_error, builtin_mismatch, check_list_items, first_mismatch, item_mismatch,
    required_type_arg, type_mismatch, ArgumentError,
};
use crate::registry::{names_of, EnvironmentContext};
use crate::script::{items_of, text_of, type_of, value_text, value_type};
use crate::text::same_text;
use starlark::values::Value;
use vstd::prelude::*;

verus! {

/// What each of `items` spells, where it is a string of the interpreter.
pub open spec fn texts_of(items: Seq<Value>) -> Seq<Seq<char>> {
    Seq::new(items.len(), |i: int| value_text(items[i]))
}

/// The text of each item, in order.
pub fn names_from_items(items: &Vec<Value>) -> (names: Vec<String>)
    ensures
        names.len() == items.len(),
        forall|i: int|
            0 <= i < items.len() && value_type(#[trigger] items@[i]) == "string"@ ==> names@[i]@
                == value_text(items@[i]),
{
    let mut names: Vec<String> = Vec::new();
    let mut i: usize = 0;
    while i < items.len()
        invariant
            i <= items.len(),
            names.len() == i,
            forall|j: int|
                0 <= j < i && value_type(#[trigger] items@[j]) == "string"@ ==> names@[j]@
                    == value_text(items@[j]),
        decreases items.len() - i,
    {
        names.push(text_of(&items[i]));
        i += 1;
    }
    names
}

/// Registers `target` with the dependencies that `items` spell, if every
/// item is a string; else reports the first that is not and registers
/// nothing.
pub fn register_with_items(
    context: &mut EnvironmentContext,
    target: String,
    callable: Value,
    items: &Vec<Value>,
    default: bool,
    default_build_script: bool,
) -> (registered: Result<(), ArgumentError>)
    requires
        old(context).wf(),
    ensures
        final(context).wf(),
        match registered {
            Ok(_) => final(context)@ == old(context)@.register(
                target@,
                callable,
                texts_of(items@),
                default,
                default_build_script,
            ) && forall|i: int|
                0 <= i < items.len() ==> value_type(#[trigger] items@[i]) == "string"@,
            Err(error) => final(context)@ == old(context)@ && exists|i: int| #[trigger]
                first_mismatch(items@, "string"@, i) && error@ == item_mismatch(
                    "list "@,
                    "depends"@,
                    "values"@,
                    "string"@,
                    value_type(items@[i]),
                ),
        },
{
    match check_list_items("depends", "string", items) {
        Ok(_) => {},
        Err(error) => {
            return Err(error);
        },
    }
    let depends = names_from_items(items);
    assert(names_of(depends@) =~= texts_of(items@));
    context.register_target(target, callable, depends, default, default_build_script);
    Ok(())
}

/// What a refused registration reports when the callable was a function and
/// the dependencies were a list: a failure of the interpreter, or an item
/// that is no string.
pub open spec fn depends_error(error: crate::args::ArgumentErrorView) -> bool {
    ||| error is Interpreter
    ||| exists|found: Seq<char>|
        found != "string"@ && error == #[trigger] item_mismatch(
            "list "@,
            "depends"@,
            "values"@,
            "string"@,
            found,
        )
}

/// register_target(target, callable, depends=None, default=false)
///
/// The callable must be a function, and the dependencies `None` or a list of
/// strings. A refused registration leaves the registry as it was.
pub fn starlark_register_target(
    context: &mut EnvironmentContext,
    target: String,
    callable: Value,
    depends: Value,
    default: bool,
    default_build_script: bool,
) -> (registered: Result<(), ArgumentError>)
    requires
        old(context).wf(),
    ensures
        final(context).wf(),
        match registered {
            Ok(_) => value_type(callable) == "function"@ && if value_type(depends) == "NoneType"@ {
                final(context)@ == old(context)@.register(
                    target@,
                    callable,
                    Seq::empty(),
                    default,
                    default_build_script,
                )
            } else {
                value_type(depends) == "list"@ && exists|names: Seq<Seq<char>>|
                    final(context)@ == #[trigger] old(context)@.register(
                        target@,
                        callable,
                        names,
                        default,
                        default_build_script,
                    )
            },
            Err(error) => final(context)@ == old(context)@ && if value_type(callable)
                != "function"@ {
                error@ == type_mismatch("callable"@, "function"@, value_type(callable))
            } else if value_type(depends) != "list"@ {
                value_type(depends) != "NoneType"@ && error@ == builtin_mismatch(
                    "function expects a list for "@,
                    "depends"@,
                    "list"@,
                    value_type(depends),
                )
            } else {
                depends_error(error@)
            },
        },
{
    match required_type_arg("callable", "function", &callable) {
        Ok(_) => {},
        Err(error) => {
            return Err(error);
        },
    }
    let t = type_of(&depends);
    if same_text(t, "NoneType") {
        let none: Vec<String> = Vec::new();
        assert(names_of(none@) =~= Seq::<Seq<char>>::empty());
        context.register_target(target, callable, none, default, default_build_script);
        return Ok(());
    }
    if !same_text(t, "list") {
        return Err(builtin_error("function expects a list for ", "depends", "list", t));
    }
    match items_of(&depends) {
        Ok(items) => {
            let registered = register_with_items(
                context,
                target,
                callable,
                &items,
                default,
                default_build_script,
            );
            proof {
                if let Err(ref error) = registered {
                    let i = choose|i: int| #[trigger]
                        first_mismatch(items@, "string"@, i) && error@ == item_mismatch(
                            "list "@,
                            "depends"@,
                            "values"@,
                            "string"@,
                            value_type(items@[i]),
                        );
                    let found = value_type(items@[i]);
                    assert(found != "string"@ && error@ == item_mismatch(
                        "list "@,
                        "depends"@,
                        "values"@,
                        "string"@,
                        found,
                    ));
                }
            }
            registered
        },
        Err(error) => Err(ArgumentError::Interpreter(error)),
    }
}

} // verus!
