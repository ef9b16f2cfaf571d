use dlisp::ast::{ast, tokenize};
use dlisp::error::ParseError;
use dlisp::lispobject::{LispObject, LispType};

#[test]
fn test_ast_gen() {
    let test = "(test (+ 1 1) 2)";
    let exp = LispObject::new_with(
        LispType::List(vec![
            LispObject::symbol("test"),
            LispObject::new_with(
                LispType::List(vec![
                    LispObject::symbol("+"),
                    LispObject::number(1),
                    LispObject::number(1),
                ]),
                false,
            ),
            LispObject::number(2),
        ]),
        false,
    );
    assert_eq!(ast(test).unwrap()[0], exp);
}

#[test]
fn test_ast_gen_multiple() {
    let test = "(+ (+ 2 3) 4)";
    let exp = LispObject::new_with(
        LispType::List(vec![
            LispObject::symbol("+"),
            LispObject::new_with(
                LispType::List(vec![
                    LispObject::symbol("+"),
                    LispObject::number(2),
                    LispObject::number(3),
                ]),
                false,
            ),
            LispObject::number(4),
        ]),
        false,
    );
    let res = ast(test).unwrap();
    assert_eq!(res[0], exp);
    assert_eq!(
        dlisp::evaluator::eval(res[0].clone(), &mut dlisp::objectmanager::Manager::default())
            .unwrap(),
        LispObject::number(9)
    )
}

#[test]
fn test_lispobject() {
    let tests = [
        ("'test", LispType::Symbol("test".to_string()), true),
        ("'12", LispType::Number(12), true),
        ("33", LispType::Number(33), false),
        ("test", LispType::Symbol("test".to_string()), false),
    ];

    for (test, exp, q) in tests {
        let res = LispObject::new(test);
        assert_eq!(res.get_type(), exp);
        assert_eq!(res.is_quoted(), q);
    }
}

#[test]
fn tokenize_pads_parens_and_splits_on_whitespace() {
    let toks = tokenize("(a\n b)\t(c)");
    let exp: Vec<String> = ["(", "a", "b", ")", "(", "c", ")"]
        .iter()
        .map(|s| s.to_string())
        .collect();
    assert_eq!(toks, exp);
}

#[test]
fn atoms_classify_booleans_and_numbers() {
    assert_eq!(LispType::new("t"), LispType::Bool(true));
    assert_eq!(LispType::new("nil"), LispType::Bool(false));
    assert_eq!(LispType::new("-42"), LispType::Number(-42));
    assert_eq!(LispType::new("+7"), LispType::Number(7));
    assert_eq!(
        LispType::new("9223372036854775807"),
        LispType::Number(i64::MAX)
    );
    assert_eq!(
        LispType::new("-9223372036854775808"),
        LispType::Number(i64::MIN)
    );
    assert_eq!(
        LispType::new("9223372036854775808"),
        LispType::Symbol("9223372036854775808".to_string())
    );
}

#[test]
fn unbalanced_text_is_a_parse_error() {
    assert_eq!(ast("(a b"), Err(ParseError::Unbalanced));
    assert_eq!(ast(")"), Err(ParseError::Unbalanced));
    assert_eq!(ast("stray"), Err(ParseError::Unbalanced));
}

#[test]
fn empty_parens_read_as_nil() {
    let res = ast("()").unwrap();
    assert_eq!(res.len(), 1);
    assert_eq!(res[0], LispObject::nil());
}

#[test]
fn read_render_read_round_trip() {
    let text = "(alpha (beta -3 'x) 'nil t (inner '12))";
    let first = ast(text).unwrap();
    let mut rendered = String::new();
    for (i, obj) in first.iter().enumerate() {
        if i > 0 {
            rendered.push(' ');
        }
        rendered.push_str(&obj.to_string());
    }
    let second = ast(&rendered).unwrap();
    assert_eq!(first, second);
}

#[test]
fn rendering_expressions() {
    assert_eq!(LispObject::number(-5).to_string(), "-5");
    assert_eq!(LispObject::symbol("abc").move_quoted().to_string(), "'abc");
    assert_eq!(
        LispObject::cons(LispObject::nil(), LispObject::symbol("test")).to_string(),
        "(nil test)"
    );
    assert_eq!(
        LispObject::list(&[LispObject::nil(), LispObject::number(2)]).to_string(),
        "(nil 2)"
    );
    assert_eq!(LispObject::bool(true).to_string(), "t");
}
