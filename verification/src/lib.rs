//! Named build targets for a Starlark build dialect.
//!
//! A script registers targets: a name, a callable and the names of the
//! targets that the callable's arguments come from. Resolving a target
//! resolves its dependencies first, in the order listed, calls the callable
//! once with their results, and keeps what it returns for every later
//! request. A resolved target can describe what was built and how to run it.
//!
//! - `registry`: the targets, their order and the defaults;
//! - `resolve`: resolution, and what every resolution guarantees;
//! - `order`: the order in which resolution calls the callables;
//! - `guarantees`: what holds of every resolution;
//! - `cycles`: whether resolving a target would ever end;
//! - `builtins`: registration with arguments as a script hands them over;
//! - `args`: checks of the types of such arguments;
//! - `artifact`: what a built target left behind and how it is run;
//! - `state`: what a build step is told when its context has no value;
//! - `script`: the calls into the interpreter;
//! - `text`: comparison of strings.

pub mod args;
pub mod artifact;
pub mod builtins;
pub mod cycles;
pub mod guarantees;
pub mod order;
pub mod registry;
pub mod resolve;
pub mod script;
pub mod state;
pub mod text;

pub use args::{
    optional_bool_arg, optional_dict_arg, optional_int_arg, optional_list_arg, optional_str_arg,
    optional_type_arg, required_bool_arg, required_dict_arg, required_list_arg, required_str_arg,
    required_type_arg, ArgumentError,
};
pub use artifact::{run_outcome, ResolvedTarget, RunAction, RunError, RunEvent, RunMode};
pub use builtins::starlark_register_target;
pub use cycles::{resolve_target_checked, resolve_targets_checked};
pub use registry::{EnvironmentContext, Target};
pub use resolve::{starlark_resolve_target, starlark_resolve_targets, ResolveError};
pub use state::GetStateError;
