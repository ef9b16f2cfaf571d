use dlisp::functions::cons;
use dlisp::lispobject::{LispObject, LispType};
use dlisp::objectmanager::{Frame, Manager};

fn test_frame_default() -> Frame {
    let mut frame = Frame::default();
    frame.push(cons(&[LispObject::symbol("test"), LispObject::number(22)]).unwrap());
    frame.push(cons(&[LispObject::symbol("other-var"), LispObject::bool(true)]).unwrap());
    frame.push(cons(&[LispObject::symbol("another-one"), LispObject::number(23)]).unwrap());
    frame
}

#[test]
fn test_frame_get_val() {
    let frame = test_frame_default();
    if let LispType::Bool(var) = frame
        .get_val(LispObject::symbol("other-var"))
        .unwrap()
        .get_type()
    {
        assert!(var);
    } else {
        panic!("Value could not be found.");
    }

    if let LispType::Number(n) = frame
        .get_val(LispObject::symbol("another-one"))
        .unwrap()
        .get_type()
    {
        assert_eq!(n, 23);
    } else {
        panic!("Value could not be found.");
    }
}

#[test]
fn test_frame_set_val_existing() {
    let mut frame = test_frame_default();
    frame.set_val(LispObject::symbol("other-var"), LispObject::bool(true));

    if let LispType::Bool(b) = frame
        .get_val(LispObject::symbol("other-var"))
        .unwrap()
        .get_type()
    {
        assert!(b);
    } else {
        panic!("Value could not be found.");
    }
}

#[test]
fn test_frame_multiple_frames() {
    let mut manager = Manager::default();
    manager.new_frame();
    manager.set_val(LispObject::symbol("test"), LispObject::nil());
    manager.set_val(LispObject::symbol("other"), LispObject::nil());
    manager.new_frame();
    manager.set_val(LispObject::symbol("second"), LispObject::number(1));
    assert_eq!(
        manager.get_val(LispObject::symbol("other")).unwrap(),
        LispObject::nil()
    );
}

#[test]
fn test_frame_multiple_frames_out_of_scope() {
    let mut manager = Manager::default();
    manager.new_frame();
    manager.set_val(LispObject::symbol("this"), LispObject::number(1));
    manager.new_frame();
    manager.set_val(LispObject::symbol("test"), LispObject::number(2));
    assert_eq!(
        manager.get_val(LispObject::symbol("test")),
        Some(LispObject::number(2))
    );
    manager.pop_frame();
    assert_eq!(manager.get_val(LispObject::symbol("test")), None);
}

#[test]
fn set_then_get_yields_the_value() {
    let mut manager = Manager::default();
    manager.set_val(LispObject::symbol("x"), LispObject::number(7));
    assert_eq!(
        manager.get_val(LispObject::symbol("x")),
        Some(LispObject::number(7))
    );
    manager.set_val(LispObject::symbol("x"), LispObject::number(8));
    assert_eq!(
        manager.get_val(LispObject::symbol("x")),
        Some(LispObject::number(8))
    );
}

#[test]
fn set_in_inner_frame_updates_outer_binding_in_place() {
    let mut manager = Manager::default();
    manager.set_val(LispObject::symbol("x"), LispObject::number(1));
    manager.new_frame();
    manager.set_val(LispObject::symbol("x"), LispObject::number(2));
    manager.pop_frame();
    assert_eq!(
        manager.get_val(LispObject::symbol("x")),
        Some(LispObject::number(2))
    );
}

#[test]
fn binding_created_in_popped_frame_is_gone() {
    let mut manager = Manager::default();
    manager.new_frame();
    manager.set_val(LispObject::symbol("fresh"), LispObject::number(3));
    manager.pop_frame();
    assert_eq!(manager.get_val(LispObject::symbol("fresh")), None);
}

#[test]
fn get_val_of_non_symbol_is_none() {
    let mut manager = Manager::default();
    assert_eq!(manager.get_val(LispObject::number(4)), None);
}
