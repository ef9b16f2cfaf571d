//! The evaluator: reduces one expression against the environment manager,
//! opening a scope for each list form and closing it on every exit path.

use crate::error::{EvalErrModel, EvalError};
use crate::functions::{builtin_spec, call_builtin, result_matches};
use crate::lispobject::{lemma_views_of, views_of, LispObject, LispType, ObjModel, TypeModel};
use crate::objectmanager::{lemma_stack_set_len, stack_lookup, stack_set, Manager};
use vstd::prelude::*;

verus! {

broadcast use vstd::std_specs::vec::group_vec_axioms, vstd::seq::group_seq_axioms, lemma_views_of;

/// The `nil` value.
pub open spec fn nil_model() -> ObjModel {
    ObjModel { quoted: false, val: TypeModel::Bool(false) }
}

/// What evaluating one expression yields, and the frame stack it leaves
/// behind. A quoted expression is returned verbatim. A symbol resolves to
/// its bound value exactly as stored — a value that is itself a symbol is
/// not looked up again (evaluation never stores an unquoted symbol, so a
/// further resolution step would have nothing to do) — or fails as
/// unbound. A list is reduced as a form. Any other expression evaluates to
/// itself.
pub open spec fn eval_spec(e: ObjModel, m: Seq<Seq<ObjModel>>) -> (Result<ObjModel, EvalErrModel>, Seq<
    Seq<ObjModel>,
>)
    decreases e, 2int,
{
    if e.quoted {
        (Ok(e), m)
    } else {
        match e.val {
            TypeModel::List(elems) => eval_list_spec(elems, m),
            TypeModel::Symbol(s) => match stack_lookup(m, s) {
                Some(v) => (Ok(v), m),
                None => (Err(EvalErrModel::UnboundSymbol(s)), m),
            },
            _ => (Ok(e), m),
        }
    }
}

/// What reducing a list form yields. A scope is opened for the reduction
/// and closed on every exit path. The head decides: `set` and `quote` are
/// special forms; any other symbol names a primitive, whose arguments are
/// evaluated left to right; a list head is itself reduced and its value is
/// the value of the whole form; anything else cannot stand in operator
/// position. The `quote` form evaluates its one argument and marks the
/// result quoted, so it comes back verbatim from then on. The scope is
/// closed before a `set` assignment or a primitive call takes effect, so
/// bindings land in the enclosing scope.
pub open spec fn eval_list_spec(elems: Seq<ObjModel>, m: Seq<Seq<ObjModel>>) -> (Result<
    ObjModel,
    EvalErrModel,
>, Seq<Seq<ObjModel>>)
    decreases elems, 1int,
{
    let m1 = m.push(Seq::empty());
    if elems.len() == 0 {
        (Err(EvalErrModel::InvalidOperatorPosition), m1.drop_last())
    } else {
        match elems[0].val {
            TypeModel::Symbol(s) => if s == "set"@ {
                eval_set_spec(elems, m1)
            } else if s == "quote"@ {
                if elems.len() != 2 {
                    (Err(EvalErrModel::SpecialFormArity), m1.drop_last())
                } else {
                    let (r1, m2) = eval_spec(elems[1], m1);
                    match r1 {
                        Err(e) => (Err(e), m2.drop_last()),
                        Ok(v) => (Ok(ObjModel { quoted: true, ..v }), m2.drop_last()),
                    }
                }
            } else {
                let (r, m2) = eval_args_spec(elems.drop_first(), m1);
                match r {
                    Ok(vals) => (builtin_spec(s, vals), m2.drop_last()),
                    Err(e) => (Err(e), m2.drop_last()),
                }
            },
            TypeModel::List(_) => {
                let (r, m2) = eval_spec(elems[0], m1);
                (r, m2.drop_last())
            },
            _ => (Err(EvalErrModel::InvalidOperatorPosition), m1.drop_last()),
        }
    }
}

/// What the `set` special form yields: its target and value arguments are
/// evaluated in order inside the form's scope, the scope is closed, and the
/// value is assigned to the target symbol; the form's own value is `nil`.
/// A form of the wrong length, or a target that does not evaluate to a
/// symbol, is an arity error.
pub open spec fn eval_set_spec(elems: Seq<ObjModel>, m1: Seq<Seq<ObjModel>>) -> (Result<
    ObjModel,
    EvalErrModel,
>, Seq<Seq<ObjModel>>)
    decreases elems, 0int,
{
    if elems.len() != 3 {
        (Err(EvalErrModel::SpecialFormArity), m1.drop_last())
    } else {
        let (r1, m2) = eval_spec(elems[1], m1);
        match r1 {
            Err(e) => (Err(e), m2.drop_last()),
            Ok(target) => {
                let (r2, m3) = eval_spec(elems[2], m2);
                match r2 {
                    Err(e) => (Err(e), m3.drop_last()),
                    Ok(value) => if target.val is Symbol {
                        let m4 = m3.drop_last();
                        match stack_set(m4, target, value) {
                            Some(m5) => (Ok(nil_model()), m5),
                            None => (Ok(nil_model()), m4),
                        }
                    } else {
                        (Err(EvalErrModel::SpecialFormArity), m3.drop_last())
                    },
                }
            },
        }
    }
}

/// What evaluating a run of argument expressions left to right yields: the
/// values in order, or the first failure; the frame stack threads through.
pub open spec fn eval_args_spec(elems: Seq<ObjModel>, m: Seq<Seq<ObjModel>>) -> (Result<
    Seq<ObjModel>,
    EvalErrModel,
>, Seq<Seq<ObjModel>>)
    decreases elems, 0int,
{
    if elems.len() == 0 {
        (Ok(Seq::empty()), m)
    } else {
        let (r, m1) = eval_spec(elems[0], m);
        match r {
            Err(e) => (Err(e), m1),
            Ok(v) => {
                let (rr, m2) = eval_args_spec(elems.drop_first(), m1);
                match rr {
                    Err(e) => (Err(e), m2),
                    Ok(vs) => (Ok(seq![v] + vs), m2),
                }
            },
        }
    }
}

/// Evaluation leaves exactly as many frames active as it found: every scope
/// it opens is closed on every exit path, and assignments only rewrite
/// frame contents.
pub proof fn lemma_eval_env_len(e: ObjModel, m: Seq<Seq<ObjModel>>)
    ensures
        eval_spec(e, m).1.len() == m.len(),
    decreases e, 2int,
{
    if !e.quoted {
        match e.val {
            TypeModel::List(elems) => {
                lemma_eval_list_env_len(elems, m);
            },
            _ => {},
        }
    }
}

/// Scope balance for list forms: see [`lemma_eval_env_len`].
pub proof fn lemma_eval_list_env_len(elems: Seq<ObjModel>, m: Seq<Seq<ObjModel>>)
    ensures
        eval_list_spec(elems, m).1.len() == m.len(),
    decreases elems, 1int,
{
    let m1 = m.push(Seq::empty());
    if elems.len() == 0 {
    } else {
        match elems[0].val {
            TypeModel::Symbol(s) => if s == "set"@ {
                lemma_eval_set_env_len(elems, m1);
            } else if s == "quote"@ {
                if elems.len() == 2 {
                    lemma_eval_env_len(elems[1], m1);
                }
            } else {
                lemma_eval_args_env_len(elems.drop_first(), m1);
            },
            TypeModel::List(_) => {
                lemma_eval_env_len(elems[0], m1);
            },
            _ => {},
        }
    }
}

/// Scope balance for the `set` form: see [`lemma_eval_env_len`].
pub proof fn lemma_eval_set_env_len(elems: Seq<ObjModel>, m1: Seq<Seq<ObjModel>>)
    requires
        m1.len() > 0,
    ensures
        eval_set_spec(elems, m1).1.len() == m1.len() - 1,
    decreases elems, 0int,
{
    if elems.len() == 3 {
        lemma_eval_env_len(elems[1], m1);
        let (r1, m2) = eval_spec(elems[1], m1);
        if r1 is Ok {
            lemma_eval_env_len(elems[2], m2);
            let (r2, m3) = eval_spec(elems[2], m2);
            if r2 is Ok {
                let target = r1->Ok_0;
                let value = r2->Ok_0;
                if target.val is Symbol {
                    let m4 = m3.drop_last();
                    lemma_stack_set_len(m4, target, value);
                }
            }
        }
    }
}

/// Scope balance for argument runs: see [`lemma_eval_env_len`].
pub proof fn lemma_eval_args_env_len(elems: Seq<ObjModel>, m: Seq<Seq<ObjModel>>)
    ensures
        eval_args_spec(elems, m).1.len() == m.len(),
    decreases elems, 0int,
{
    if elems.len() > 0 {
        lemma_eval_env_len(elems[0], m);
        let (r, m1) = eval_spec(elems[0], m);
        if r is Ok {
            lemma_eval_args_env_len(elems.drop_first(), m1);
        }
    }
}

/// Law: a quoted expression evaluates to itself, any number of times, and
/// the environment is left exactly as it was.
pub proof fn lemma_quoted_eval_identity(e: ObjModel, m: Seq<Seq<ObjModel>>)
    requires
        e.quoted,
    ensures
        eval_spec(e, m) == (Result::<ObjModel, EvalErrModel>::Ok(e), m),
        eval_spec(e, eval_spec(e, m).1) == (Result::<ObjModel, EvalErrModel>::Ok(e), m),
{
}

/// Evaluates one expression against the environment manager.
pub fn eval(obj: LispObject, manager: &mut Manager) -> (r: Result<LispObject, EvalError>)
    ensures
        ({
            let (rm, mm) = eval_spec(obj@, old(manager)@);
            final(manager)@ == mm && result_matches(r, rm)
        }),
{
    eval_ref(&obj, manager)
}

/// Evaluates one expression, borrowed, against the environment manager.
fn eval_ref(obj: &LispObject, manager: &mut Manager) -> (r: Result<LispObject, EvalError>)
    ensures
        ({
            let (rm, mm) = eval_spec(obj@, old(manager)@);
            final(manager)@ == mm && result_matches(r, rm)
        }),
    decreases obj,
{
    if obj.is_quoted() {
        return Ok(obj.clone());
    }
    match &obj.ltype {
        LispType::List(l) => {
            proof {
                assert(decreases_to!(*obj => obj.ltype));
                assert(decreases_to!(obj.ltype => *l));
            }
            eval_list(l, manager)
        },
        LispType::Symbol(s) => {
            match manager.get_val(obj.clone()) {
                Some(var) => Ok(var),
                None => Err(EvalError::UnboundSymbol(s.clone())),
            }
        },
        _ => Ok(obj.clone()),
    }
}

/// Reduces one list form: opens a scope, dispatches on the head, and closes
/// the scope on every exit path.
#[verifier::loop_isolation(false)]
fn eval_list(list: &Vec<LispObject>, manager: &mut Manager) -> (r: Result<LispObject, EvalError>)
    ensures
        ({
            let (rm, mm) = eval_list_spec(views_of(list@), old(manager)@);
            final(manager)@ == mm && result_matches(r, rm)
        }),
    decreases list,
{
    let ghost m0 = manager@;
    let ghost elems = views_of(list@);
    manager.new_frame();
    let ghost m1 = manager@;
    if list.len() == 0 {
        manager.pop_frame();
        return Err(EvalError::InvalidOperatorPosition);
    }
    proof {
        assert(decreases_to!(*list => list@));
        assert(decreases_to!(list@ => list@[0]));
    }
    match &list[0].ltype {
        LispType::Symbol(s) => {
            if crate::lispobject::str_eq(s.as_str(), "set") {
                if list.len() != 3 {
                    manager.pop_frame();
                    return Err(EvalError::SpecialFormArity);
                }
                proof {
                    assert(decreases_to!(list@ => list@[1]));
                    assert(decreases_to!(list@ => list@[2]));
                }
                let r1 = eval_ref(&list[1], manager);
                proof {
                    lemma_eval_env_len(elems[1], m1);
                }
                let target = match r1 {
                    Ok(t) => t,
                    Err(e) => {
                        manager.pop_frame();
                        return Err(e);
                    },
                };
                let ghost m2 = manager@;
                let r2 = eval_ref(&list[2], manager);
                proof {
                    lemma_eval_env_len(elems[2], m2);
                }
                let value = match r2 {
                    Ok(v) => v,
                    Err(e) => {
                        manager.pop_frame();
                        return Err(e);
                    },
                };
                manager.pop_frame();
                match &target.ltype {
                    LispType::Symbol(_) => {
                        let _ = manager.set_val(target, value);
                        Ok(LispObject::nil())
                    },
                    _ => Err(EvalError::SpecialFormArity),
                }
            } else if crate::lispobject::str_eq(s.as_str(), "quote") {
                proof {
                    reveal_strlit("set");
                    reveal_strlit("quote");
                }
                if list.len() != 2 {
                    manager.pop_frame();
                    return Err(EvalError::SpecialFormArity);
                }
                proof {
                    assert(decreases_to!(list@ => list@[1]));
                }
                let r1 = eval_ref(&list[1], manager);
                proof {
                    lemma_eval_env_len(elems[1], m1);
                }
                match r1 {
                    Ok(v) => {
                        manager.pop_frame();
                        Ok(v.move_quoted())
                    },
                    Err(e) => {
                        manager.pop_frame();
                        Err(e)
                    },
                }
            } else {
                proof {
                    reveal_strlit("set");
                    reveal_strlit("quote");
                }
                let ghost args_model = elems.drop_first();
                let mut params: Vec<LispObject> = Vec::new();
                proof {
                    assert(args_model.skip(0) =~= args_model);
                    let (res0, mf0) = eval_args_spec(args_model, m1);
                    if res0 is Ok {
                        assert(views_of(params@) + res0->Ok_0 =~= res0->Ok_0);
                    }
                }
                let mut i: usize = 1;
                while i < list.len()
                    invariant
                        1 <= i <= list@.len(),
                        params@.len() == i - 1,
                        manager@.len() == m1.len(),
                        ({
                            let (res, mf) = eval_args_spec(
                                args_model.skip(i - 1),
                                manager@,
                            );
                            eval_args_spec(args_model, m1) == (match res {
                                Ok(vs) => (
                                    Result::<Seq<ObjModel>, EvalErrModel>::Ok(
                                        views_of(params@) + vs,
                                    ),
                                    mf,
                                ),
                                Err(e) => (
                                    Result::<Seq<ObjModel>, EvalErrModel>::Err(e),
                                    mf,
                                ),
                            })
                        }),
                    decreases list@.len() - i,
                {
                    proof {
                        assert(decreases_to!(list@ => list@[i as int]));
                        assert(args_model.skip(i - 1)[0] == elems[i as int]);
                    }
                    let ghost m_cur = manager@;
                    let step = eval_ref(&list[i], manager);
                    proof {
                        lemma_eval_env_len(elems[i as int], m_cur);
                    }
                    match step {
                        Ok(v) => {
                            let ghost params_pre = params@;
                            let ghost v_model = v@;
                            params.push(v);
                            proof {
                                assert(args_model.skip(i - 1).drop_first() =~= args_model.skip(
                                    i as int,
                                ));
                                assert(views_of(params@) =~= views_of(params_pre).push(v_model));
                                let (res, mf) = eval_args_spec(args_model.skip(i as int), manager@);
                                if res is Ok {
                                    assert(views_of(params_pre).push(v_model) + res->Ok_0
                                        =~= views_of(params_pre) + (seq![v_model] + res->Ok_0));
                                }
                            }
                        },
                        Err(e) => {
                            manager.pop_frame();
                            return Err(e);
                        },
                    }
                    i = i + 1;
                }
                proof {
                    assert(args_model.skip(list@.len() - 1).len() == 0);
                    let tail = eval_args_spec(args_model.skip(list@.len() - 1), manager@);
                    assert(tail.0 == Ok::<Seq<ObjModel>, EvalErrModel>(Seq::<ObjModel>::empty()));
                    assert(views_of(params@) + Seq::<ObjModel>::empty() =~= views_of(params@));
                    lemma_eval_args_env_len(args_model, m1);
                }
                manager.pop_frame();
                call_builtin(s.as_str(), params.as_slice())
            }
        },
        LispType::List(_) => {
            let r = eval_ref(&list[0], manager);
            proof {
                lemma_eval_env_len(elems[0], m1);
            }
            manager.pop_frame();
            r
        },
        _ => {
            manager.pop_frame();
            Err(EvalError::InvalidOperatorPosition)
        },
    }
}

} // verus!
