use dlisp::error::EvalError;
use dlisp::evaluator::eval;
use dlisp::lispobject::{LispObject, LispType};
use dlisp::objectmanager::Manager;

#[test]
fn test_eval_simple_built_in() {
    let eval_obj = LispObject::list(&[
        LispObject::new("add"),
        LispObject::new("22"),
        LispObject::new("33"),
    ]);
    let mut obj_manager = Manager::default();
    let res = eval(eval_obj, &mut obj_manager).unwrap();
    assert_eq!(LispObject::new_with(LispType::Number(55), false), res);
}

#[test]
fn test_eval_recursive_built_in() {
    let eval_obj = LispObject::list(&[
        LispObject::new("add"),
        LispObject::list(&[
            LispObject::new("add"),
            LispObject::new("11"),
            LispObject::new("22"),
        ]),
        LispObject::new("33"),
    ]);
    let mut obj_manager = Manager::default();
    let res = eval(eval_obj, &mut obj_manager).unwrap();

    assert_eq!(LispObject::new_with(LispType::Number(66), false), res);
}

#[test]
fn test_eval_multiple_passes_built_in() {
    let eval_obj = LispObject::list(&[
        LispObject::new("add"),
        LispObject::new("22"),
        LispObject::new("33"),
    ]);
    let mut obj_manager = Manager::default();
    let res = eval(eval_obj.clone(), &mut obj_manager).unwrap();
    assert_eq!(LispObject::new_with(LispType::Number(55), false), res);
    let res = eval(eval_obj, &mut obj_manager).unwrap();
    assert_eq!(LispObject::new_with(LispType::Number(55), false), res);
}

#[test]
fn test_eval_setq() {
    let test = vec![
        LispObject::list(&[
            LispObject::symbol("set"),
            LispObject::symbol("test").move_quoted(),
            LispObject::bool(true),
        ]),
        LispObject::symbol("test"),
    ];
    let mut obj_manager = Manager::default();
    let _first = eval(test[0].clone(), &mut obj_manager).unwrap();
    let res = eval(test[1].clone(), &mut obj_manager).unwrap();
    assert_eq!(res, LispObject::bool(true));
}

#[test]
fn test_eval_var_lookup() {
    let eval_obj = vec![
        LispObject::list(&[
            LispObject::symbol("set"),
            LispObject::symbol("test").move_quoted(),
            LispObject::list(&[
                LispObject::symbol("+"),
                LispObject::number(22),
                LispObject::number(23),
            ]),
        ]),
        LispObject::list(&[
            LispObject::symbol("set"),
            LispObject::symbol("test").move_quoted(),
            LispObject::list(&[
                LispObject::symbol("add"),
                LispObject::symbol("test"),
                LispObject::number(2),
            ]),
        ]),
        LispObject::symbol("test"),
    ];
    let mut obj_manager = Manager::default();
    let _res = eval(eval_obj[0].clone(), &mut obj_manager).unwrap();
    let _res = eval(eval_obj[1].clone(), &mut obj_manager).unwrap();
    let res = eval(eval_obj[2].clone(), &mut obj_manager).unwrap();
    assert_eq!(res, LispObject::number(47));
}

#[test]
fn test_recursive_no_var() {
    let eval_obj = LispObject::list(&[
        LispObject::symbol("+"),
        LispObject::list(&[
            LispObject::symbol("+"),
            LispObject::number(2),
            LispObject::number(3),
        ]),
        LispObject::number(4),
    ]);
    let mut obj_manager = Manager::default();
    let res = eval(eval_obj, &mut obj_manager).unwrap();
    assert_eq!(res, LispObject::number(9));
}

#[test]
fn set_then_add_uses_the_binding() {
    let mut manager = Manager::default();
    let set_form = LispObject::list(&[
        LispObject::symbol("set"),
        LispObject::symbol("test").move_quoted(),
        LispObject::number(22),
    ]);
    assert_eq!(eval(set_form, &mut manager).unwrap(), LispObject::nil());
    let add_form = LispObject::list(&[
        LispObject::symbol("add"),
        LispObject::symbol("test"),
        LispObject::number(2),
    ]);
    assert_eq!(eval(add_form, &mut manager).unwrap(), LispObject::number(24));
}

#[test]
fn nested_set_updates_the_outer_binding() {
    let mut manager = Manager::default();
    let outer_set = LispObject::list(&[
        LispObject::symbol("set"),
        LispObject::symbol("test").move_quoted(),
        LispObject::number(1),
    ]);
    eval(outer_set, &mut manager).unwrap();
    let nested = LispObject::list(&[
        LispObject::symbol("cons"),
        LispObject::list(&[
            LispObject::symbol("set"),
            LispObject::symbol("test").move_quoted(),
            LispObject::bool(true),
        ]),
        LispObject::number(5),
    ]);
    eval(nested, &mut manager).unwrap();
    let res = eval(LispObject::symbol("test"), &mut manager).unwrap();
    assert_eq!(res, LispObject::bool(true));
}

#[test]
fn unbound_symbol_in_arguments_is_an_error() {
    let mut manager = Manager::default();
    let form = LispObject::list(&[
        LispObject::symbol("cons"),
        LispObject::nil(),
        LispObject::symbol("test"),
    ]);
    let res = eval(form, &mut manager);
    assert_eq!(res, Err(EvalError::UnboundSymbol("test".to_string())));
}

#[test]
fn number_in_operator_position_is_an_error() {
    let mut manager = Manager::default();
    let form = LispObject::list(&[LispObject::number(1), LispObject::number(2)]);
    assert_eq!(
        eval(form, &mut manager),
        Err(EvalError::InvalidOperatorPosition)
    );
}

#[test]
fn special_form_arity_is_checked() {
    let mut manager = Manager::default();
    let short_set = LispObject::list(&[
        LispObject::symbol("set"),
        LispObject::symbol("x").move_quoted(),
    ]);
    assert_eq!(eval(short_set, &mut manager), Err(EvalError::SpecialFormArity));
    let long_quote = LispObject::list(&[
        LispObject::symbol("quote"),
        LispObject::number(1),
        LispObject::number(2),
    ]);
    assert_eq!(eval(long_quote, &mut manager), Err(EvalError::SpecialFormArity));
}

#[test]
fn quote_marks_the_evaluated_argument() {
    let mut manager = Manager::default();
    let form = LispObject::list(&[
        LispObject::symbol("quote"),
        LispObject::list(&[
            LispObject::symbol("add"),
            LispObject::number(1),
            LispObject::number(2),
        ]),
    ]);
    let res = eval(form, &mut manager).unwrap();
    assert_eq!(res, LispObject::number(3).move_quoted());
    let again = eval(res.clone(), &mut manager).unwrap();
    assert_eq!(again, res);
}

#[test]
fn quote_of_a_quoted_symbol_is_that_symbol() {
    let mut manager = Manager::default();
    let form = LispObject::list(&[
        LispObject::symbol("quote"),
        LispObject::symbol("test").move_quoted(),
    ]);
    let res = eval(form, &mut manager).unwrap();
    assert_eq!(res, LispObject::symbol("test").move_quoted());
}

#[test]
fn quote_propagates_an_unbound_argument() {
    let mut manager = Manager::default();
    let form = LispObject::list(&[
        LispObject::symbol("quote"),
        LispObject::symbol("test"),
    ]);
    assert_eq!(
        eval(form, &mut manager),
        Err(EvalError::UnboundSymbol("test".to_string()))
    );
}

#[test]
fn unknown_operator_is_a_primitive_error() {
    let mut manager = Manager::default();
    let form = LispObject::list(&[LispObject::symbol("frobnicate"), LispObject::number(1)]);
    assert_eq!(
        eval(form, &mut manager),
        Err(EvalError::Primitive(
            "No built in function with that name.".to_string()
        ))
    );
}

#[test]
fn list_head_form_propagates_the_nested_value() {
    let mut manager = Manager::default();
    let form = LispObject::list(&[
        LispObject::list(&[
            LispObject::symbol("add"),
            LispObject::number(1),
            LispObject::number(2),
        ]),
        LispObject::number(9),
    ]);
    assert_eq!(eval(form, &mut manager).unwrap(), LispObject::number(3));
}
