//! Deterministic pieces of the `fluid` program: snapshot cadence and the
//! command-line flags that are not numbers.

use vstd::prelude::*;
use vstd::string::*;
use crate::flow::field::{flag, flag_model, flag_view, arg_texts};
use crate::text::{is_text, debug_quoted, debug_text};

verus! {

/// Number of steps that land on a snapshot; step 0 always is one.
pub fn is_snapshot(step: usize, stride: usize) -> (r: bool)
    requires
        stride > 0,
    ensures
        r == (step % stride == 0),
{
    step % stride == 0
}

/// The value following the first occurrence of `name`, if any.
pub fn arg_value(args: &Vec<String>, name: &str) -> (r: Result<Option<String>, String>)
    ensures
        flag_view(r) == flag_model(arg_texts(args@), name@),
{
    flag(args, name)
}

/// A required text flag.
pub open spec fn required_model(args: Seq<Seq<char>>, name: Seq<char>) -> Result<
    Seq<char>,
    Seq<char>,
> {
    match flag_model(args, name) {
        Ok(Some(v)) => Ok(v),
        Ok(None) => Err("missing required "@ + name),
        Err(e) => Err(e),
    }
}

/// The plain contents of a text result.
pub open spec fn text_result_view(r: Result<String, String>) -> Result<Seq<char>, Seq<char>> {
    match r {
        Ok(v) => Ok(v@),
        Err(e) => Err(e@),
    }
}

/// A required text flag.
pub fn required(args: &Vec<String>, name: &str) -> (r: Result<String, String>)
    ensures
        text_result_view(r) == required_model(arg_texts(args@), name@),
{
    match arg_value(args, name)? {
        Some(v) => Ok(v),
        None => {
            let mut e = String::from_str("missing required ");
            e.append(name);
            Err(e)
        },
    }
}

/// The time-stepping method names `fluid` accepts.
pub open spec fn known_method(m: Seq<char>) -> bool {
    m == "euler"@ || m == "rk2"@ || m == "rk4"@
}

/// What `checked_method` gives.
pub open spec fn method_model(args: Seq<Seq<char>>) -> Result<Seq<char>, Seq<char>> {
    match required_model(args, "--method"@) {
        Err(e) => Err(e),
        Ok(m) => if known_method(m) {
            Ok(m)
        } else {
            Err("invalid --method "@ + debug_text(m) + " (expected euler, rk2 or rk4)"@)
        },
    }
}

/// The required `--method`, one of `euler`, `rk2`, `rk4`.
pub fn checked_method(args: &Vec<String>) -> (r: Result<String, String>)
    ensures
        text_result_view(r) == method_model(arg_texts(args@)),
{
    let method = required(args, "--method")?;
    if !(is_text(&method, "euler") || is_text(&method, "rk2") || is_text(&method, "rk4")) {
        let mut e = String::from_str("invalid --method ");
        let q = debug_quoted(method.as_str());
        e.append(q.as_str());
        e.append(" (expected euler, rk2 or rk4)");
        return Err(e);
    }
    Ok(method)
}

} // verus!
