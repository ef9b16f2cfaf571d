//! The library of primitive operations, and the dispatcher that the
//! evaluator hands resolved arguments to.

use crate::error::{EvalErrModel, EvalError};
use crate::lispobject::{lemma_views_of, views_of, LispObject, LispType, ObjModel, TypeModel};
use std::io::Write;
use vstd::prelude::*;

verus! {

broadcast use vstd::std_specs::vec::group_vec_axioms, vstd::seq::group_seq_axioms, lemma_views_of;

/// An executable outcome matches a modeled one when both succeed with the
/// same value or both fail with the same error.
pub open spec fn result_matches(
    r: Result<LispObject, EvalError>,
    m: Result<ObjModel, EvalErrModel>,
) -> bool {
    match (r, m) {
        (Ok(o), Ok(v)) => o@ == v,
        (Err(e), Err(me)) => e@ == me,
        _ => false,
    }
}

/// What `cons` returns: an unquoted pair of its first two arguments, or a
/// complaint when it got fewer than two.
pub open spec fn cons_spec(args: Seq<ObjModel>) -> Result<ObjModel, EvalErrModel> {
    if args.len() < 2 {
        Err(EvalErrModel::Primitive("Not enough arguments."@))
    } else {
        Ok(ObjModel { quoted: false, val: TypeModel::Cons(Box::new((args[0], args[1]))) })
    }
}

/// What `list` returns: a quoted list of all its arguments; it never fails.
pub open spec fn list_spec(args: Seq<ObjModel>) -> Result<ObjModel, EvalErrModel> {
    Ok(ObjModel { quoted: true, val: TypeModel::List(args) })
}

/// What `add` returns: the sum of its first two arguments when both are
/// numbers and the sum fits the number representation; a complaint
/// otherwise, naming which of the three conditions failed.
pub open spec fn add_spec(args: Seq<ObjModel>) -> Result<ObjModel, EvalErrModel> {
    if args.len() < 2 {
        Err(EvalErrModel::Primitive("Not enough arguments,"@))
    } else {
        match (args[0].val, args[1].val) {
            (TypeModel::Number(a), TypeModel::Number(b)) => if i64::MIN <= a + b <= i64::MAX {
                Ok(ObjModel { quoted: false, val: TypeModel::Number(a + b) })
            } else {
                Err(EvalErrModel::Primitive("Addition overflowed."@))
            },
            _ => Err(EvalErrModel::Primitive("Arguments are of false types."@)),
        }
    }
}

/// What `print` returns: `nil` after printing its first argument, or a
/// complaint when it got none. What is printed is a side effect the model
/// does not carry.
pub open spec fn print_spec(args: Seq<ObjModel>) -> Result<ObjModel, EvalErrModel> {
    if args.len() < 1 {
        Err(EvalErrModel::Primitive("Not enough arguments."@))
    } else {
        Ok(ObjModel { quoted: false, val: TypeModel::Bool(false) })
    }
}

/// What the dispatcher returns for each primitive name; an unknown name is
/// its own complaint.
pub open spec fn builtin_spec(name: Seq<char>, args: Seq<ObjModel>) -> Result<
    ObjModel,
    EvalErrModel,
> {
    if name == "cons"@ {
        cons_spec(args)
    } else if name == "list"@ {
        list_spec(args)
    } else if name == "add"@ || name == "+"@ {
        add_spec(args)
    } else if name == "print"@ {
        print_spec(args)
    } else {
        Err(EvalErrModel::Primitive("No built in function with that name."@))
    }
}

/// Relies on `std::io::Stdout` and the `writeln!` macro: writes one line of
/// text to standard output. Nothing the interpreter computes depends on it.
#[verifier::external_body]
fn emit_line(s: &str) {
    let mut out = std::io::stdout();
    let _ = writeln!(out, "{}", s);
}

/// Dispatches a primitive call by name with pre-evaluated arguments.
pub fn call_builtin(fn_name: &str, args: &[LispObject]) -> (r: Result<LispObject, EvalError>)
    ensures
        result_matches(r, builtin_spec(fn_name@, views_of(args@))),
{
    if crate::lispobject::str_eq(fn_name, "cons") {
        cons(args)
    } else if crate::lispobject::str_eq(fn_name, "list") {
        list(args)
    } else if crate::lispobject::str_eq(fn_name, "add") || crate::lispobject::str_eq(
        fn_name,
        "+",
    ) {
        crate::functions::add(args)
    } else if crate::lispobject::str_eq(fn_name, "print") {
        print(args)
    } else {
        Err(EvalError::Primitive(String::from_str("No built in function with that name.")))
    }
}

/// Builds an unquoted pair from the first two arguments.
pub fn cons(args: &[LispObject]) -> (r: Result<LispObject, EvalError>)
    ensures
        result_matches(r, cons_spec(views_of(args@))),
{
    if args.len() < 2 {
        return Err(EvalError::Primitive(String::from_str("Not enough arguments.")));
    }
    let first = args[0].clone();
    let second = args[1].clone();
    Ok(LispObject::cons(first, second))
}

/// Builds a quoted list of all the arguments.
pub fn list(args: &[LispObject]) -> (r: Result<LispObject, EvalError>)
    ensures
        result_matches(r, list_spec(views_of(args@))),
{
    Ok(LispObject::list(args).move_quoted())
}

/// Adds the first two arguments when both are numbers.
pub fn add(args: &[LispObject]) -> (r: Result<LispObject, EvalError>)
    ensures
        result_matches(r, add_spec(views_of(args@))),
{
    if args.len() < 2 {
        return Err(EvalError::Primitive(String::from_str("Not enough arguments,")));
    }
    let first = args[0].get_type();
    let second = args[1].get_type();
    if let (LispType::Number(n1), LispType::Number(n2)) = (first, second) {
        let sum: i128 = (n1 as i128) + (n2 as i128);
        if sum < (i64::MIN as i128) || sum > (i64::MAX as i128) {
            Err(EvalError::Primitive(String::from_str("Addition overflowed.")))
        } else {
            Ok(LispObject::number(sum as i64))
        }
    } else {
        Err(EvalError::Primitive(String::from_str("Arguments are of false types.")))
    }
}

/// Prints the first argument's text on a line of its own and returns `nil`.
pub fn print(args: &[LispObject]) -> (r: Result<LispObject, EvalError>)
    ensures
        result_matches(r, print_spec(views_of(args@))),
{
    if args.len() < 1 {
        return Err(EvalError::Primitive(String::from_str("Not enough arguments.")));
    }
    let msg = args[0].to_string();
    emit_line(msg.as_str());
    Ok(LispObject::nil())
}

} // verus!
