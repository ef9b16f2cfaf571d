use dlisp::error::EvalError;
use dlisp::functions::{add, call_builtin, cons, list, print};
use dlisp::lispobject::{LispObject, LispType};

#[test]
fn test_add() {
    assert_eq!(
        add(&[LispObject::number(33), LispObject::number(22)])
            .unwrap()
            .get_type(),
        LispType::Number(55)
    );
}

#[test]
fn add_rejects_non_numeric_arguments() {
    let res = add(&[LispObject::symbol("a"), LispObject::number(1)]);
    assert_eq!(
        res,
        Err(EvalError::Primitive(
            "Arguments are of false types.".to_string()
        ))
    );
}

#[test]
fn add_rejects_missing_arguments() {
    let res = add(&[LispObject::number(1)]);
    assert_eq!(
        res,
        Err(EvalError::Primitive("Not enough arguments,".to_string()))
    );
}

#[test]
fn add_reports_overflow() {
    let res = add(&[LispObject::number(i64::MAX), LispObject::number(1)]);
    assert_eq!(
        res,
        Err(EvalError::Primitive("Addition overflowed.".to_string()))
    );
}

#[test]
fn cons_rejects_missing_arguments() {
    let res = cons(&[LispObject::nil()]);
    assert_eq!(
        res,
        Err(EvalError::Primitive("Not enough arguments.".to_string()))
    );
}

#[test]
fn cons_builds_a_pair() {
    let pair = cons(&[LispObject::number(1), LispObject::number(2)]).unwrap();
    assert_eq!(
        pair.get_type(),
        LispType::new_cons((LispObject::number(1), LispObject::number(2)))
    );
}

#[test]
fn print_rejects_missing_arguments() {
    let res = print(&[]);
    assert_eq!(
        res,
        Err(EvalError::Primitive("Not enough arguments.".to_string()))
    );
}

#[test]
fn print_returns_nil() {
    let res = print(&[LispObject::symbol("hello")]);
    assert_eq!(res.unwrap(), LispObject::nil());
}

#[test]
fn list_builds_a_quoted_list_of_all_arguments() {
    let res = list(&[LispObject::number(1), LispObject::bool(true)]).unwrap();
    assert!(res.is_quoted());
    assert_eq!(
        res.get_type(),
        LispType::List(vec![LispObject::number(1), LispObject::bool(true)])
    );
    let empty = list(&[]).unwrap();
    assert_eq!(empty.get_type(), LispType::List(vec![]));
}

#[test]
fn dispatcher_knows_both_names_of_addition() {
    let args = [LispObject::number(2), LispObject::number(3)];
    assert_eq!(
        call_builtin("add", &args).unwrap(),
        LispObject::number(5)
    );
    assert_eq!(call_builtin("+", &args).unwrap(), LispObject::number(5));
    assert_eq!(
        call_builtin("nope", &args),
        Err(EvalError::Primitive(
            "No built in function with that name.".to_string()
        ))
    );
}
