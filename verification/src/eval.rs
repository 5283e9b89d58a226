//! The evaluator core: a loop-based dispatcher over form kinds with a
//! manual trampoline for the two tail positions (`if` branches and
//! named-function application), so self- and mutual tail recursion runs in
//! constant stack space.
//!
//! The meaning of every form is fixed by `eval_spec`, a definitional
//! interpreter over the mathematical value model, indexed by a nesting
//! budget (`fuel`). The executable evaluator is proved to return exactly
//! what `eval_spec` returns, state changes included.
use vstd::prelude::*;
use vstd::string::StrSliceExecFns;
use vstd::string::StringExecFns;

use crate::binop::{apply_binop, apply_binop_values};
use crate::env::{env_wf, lookup_spec, opt_obj_view, Env, FrameV};
use crate::errors::{res_view, ErrV, Error};
use crate::object::{
    join_render, lemma_objs_view, lemma_val_wf_mono, lemma_vals_wf, lemma_vals_wf_mono, obj_view,
    objs_view, push_char, render, str_eq_str, val_wf, vals_wf, Object, Val,
};

verus! {

/// The whole mutable state an evaluation acts on: the frame graph and the
/// lines written by `print`.
#[verifier::ext_equal]
pub struct StateV {
    pub frames: Seq<FrameV>,
    pub out: Seq<Seq<char>>,
}

pub open spec fn st_of(frames: Seq<FrameV>, out: Seq<Seq<char>>) -> StateV {
    StateV { frames, out }
}

/// Every value bound in any frame is well formed for an environment of `n`
/// frames.
pub open spec fn frames_vals_wf(fv: Seq<FrameV>, n: int) -> bool {
    forall|i: int, k: Seq<char>|
        0 <= i < fv.len() && #[trigger] fv[i].bindings.contains_key(k) ==> val_wf(
            fv[i].bindings[k],
            n,
        )
}

/// The evaluator's state invariant: a well-formed frame graph whose stored
/// values only capture existing frames.
pub open spec fn state_wf(st: StateV) -> bool {
    &&& env_wf(st.frames)
    &&& frames_vals_wf(st.frames, st.frames.len() as int)
}

/// Resolution of a symbol form: the reserved literals first, then the
/// frame chain; any other name is unbound.
pub open spec fn sym_eval(fv: Seq<FrameV>, e: int, s: Seq<char>) -> Result<Val, ErrV> {
    if s == "true"@ {
        Result::Ok(Val::Bool(true))
    } else if s == "false"@ {
        Result::Ok(Val::Bool(false))
    } else if s == "nil"@ {
        Result::Ok(Val::Void)
    } else {
        match lookup_spec(fv, e, s) {
            Option::Some(v) => Result::Ok(v),
            Option::None => Result::Err(ErrV::UnboundSymbol(s)),
        }
    }
}

/// Parameter names of a lambda form: every element must be a symbol.
pub open spec fn params_of(s: Seq<Val>, acc: Seq<Seq<char>>) -> Option<Seq<Seq<char>>>
    decreases s,
{
    if s.len() == 0 {
        Option::Some(acc)
    } else {
        match s[0] {
            Val::Symbol(n) => params_of(s.drop_first(), acc.push(n)),
            _ => Option::None,
        }
    }
}

/// The parameter map of an application: positional, left to right, a later
/// duplicate name shadowing an earlier one.
pub open spec fn binds(params: Seq<Seq<char>>, args: Seq<Val>) -> Map<Seq<char>, Val>
    decreases params,
{
    if params.len() == 0 {
        Map::empty()
    } else {
        binds(params.drop_last(), args.drop_last()).insert(params.last(), args.last())
    }
}

/// Non-`Void` values of a sequence, in order, appended to `acc`.
pub open spec fn drop_voids(s: Seq<Val>, acc: Seq<Val>) -> Seq<Val>
    decreases s,
{
    if s.len() == 0 {
        acc
    } else {
        drop_voids(
            s.drop_first(),
            if s[0] is Void {
                acc
            } else {
                acc.push(s[0])
            },
        )
    }
}

/// One evaluation outcome: the state afterwards and the result.
pub type EvalR = (StateV, Result<Val, ErrV>);

/// The meaning of one form, with nesting budget `fuel`: each step into a
/// subform or into a lambda body costs one unit.
pub open spec fn eval_spec(fuel: nat, form: Val, e: int, st: StateV) -> EvalR
    decreases fuel, 3nat, 0nat,
{
    if fuel == 0 {
        (st, Result::Err(ErrV::DepthExceeded))
    } else {
        match form {
            Val::Symbol(s) => (st, sym_eval(st.frames, e, s)),
            Val::List(items) => eval_list_spec(fuel, items, e, st),
            _ => (st, Result::Ok(form)),
        }
    }
}

/// Dispatch over the head of a list form.
pub open spec fn eval_list_spec(fuel: nat, items: Seq<Val>, e: int, st: StateV) -> EvalR
    decreases fuel, 2nat, 1nat,
{
    if fuel == 0 {
        (st, Result::Err(ErrV::DepthExceeded))
    } else if items.len() == 0 {
        sequence_spec(fuel, items, e, st)
    } else {
        match items[0] {
            Val::Keyword(k) => if k == "define"@ {
                define_spec(fuel, items, e, st)
            } else if k == "lambda"@ {
                (st, lambda_spec(items, e))
            } else if k == "list"@ {
                listdata_spec(fuel, items, e, st)
            } else if k == "print"@ {
                print_spec(fuel, items, e, st)
            } else if k == "map"@ {
                map_spec(fuel, items, e, st)
            } else if k == "filter"@ {
                filter_spec(fuel, items, e, st)
            } else if k == "reduce"@ {
                reduce_spec(fuel, items, e, st)
            } else {
                sequence_spec(fuel, items, e, st)
            },
            Val::If => if_spec(fuel, items, e, st),
            Val::BinaryOp(op) => binform_spec(fuel, items, op, e, st),
            Val::Symbol(s) => call_spec(fuel, items, s, e, st),
            _ => sequence_spec(fuel, items, e, st),
        }
    }
}

/// Left-to-right evaluation of a sequence of forms against one
/// environment, collecting every result.
pub open spec fn eval_forms_spec(fuel: nat, forms: Seq<Val>, e: int, st: StateV, acc: Seq<Val>) -> (
    StateV,
    Result<Seq<Val>, ErrV>,
)
    decreases fuel, 1nat, forms.len(),
{
    if fuel == 0 {
        (st, Result::Err(ErrV::DepthExceeded))
    } else if forms.len() == 0 {
        (st, Result::Ok(acc))
    } else {
        let (st1, r) = eval_spec((fuel - 1) as nat, forms[0], e, st);
        match r {
            Result::Err(er) => (st1, Result::Err(er)),
            Result::Ok(v) => eval_forms_spec(fuel, forms.drop_first(), e, st1, acc.push(v)),
        }
    }
}

/// `define`: exactly two operands, the first a symbol; the value is stored
/// in the current frame and the form yields `Void`.
pub open spec fn define_spec(fuel: nat, items: Seq<Val>, e: int, st: StateV) -> EvalR
    decreases fuel, 2nat, 0nat,
{
    if fuel == 0 {
        (st, Result::Err(ErrV::DepthExceeded))
    } else if items.len() != 3 {
        (st, Result::Err(ErrV::ArityError("define"@)))
    } else {
        match items[1] {
            Val::Symbol(name) => {
                let (st1, r) = eval_spec((fuel - 1) as nat, items[2], e, st);
                match r {
                    Result::Ok(v) => (
                        StateV {
                            frames: st1.frames.update(
                                e,
                                FrameV {
                                    parent: st1.frames[e].parent,
                                    bindings: st1.frames[e].bindings.insert(name, v),
                                },
                            ),
                            out: st1.out,
                        },
                        Result::Ok(Val::Void),
                    ),
                    Result::Err(er) => (st1, Result::Err(er)),
                }
            }
            _ => (st, Result::Err(ErrV::MalformedForm("define"@))),
        }
    }
}

/// `lambda`: exactly two operands, a list of symbols and a body list;
/// captures the current environment without evaluating the body.
pub open spec fn lambda_spec(items: Seq<Val>, e: int) -> Result<Val, ErrV> {
    if items.len() != 3 {
        Result::Err(ErrV::ArityError("lambda"@))
    } else {
        match items[1] {
            Val::List(pforms) => match params_of(pforms, Seq::empty()) {
                Option::Some(ps) => match items[2] {
                    Val::List(body) => Result::Ok(Val::Lambda(ps, body, e)),
                    _ => Result::Err(ErrV::MalformedForm("lambda"@)),
                },
                Option::None => Result::Err(ErrV::MalformedForm("lambda"@)),
            },
            _ => Result::Err(ErrV::MalformedForm("lambda"@)),
        }
    }
}

/// `list`: evaluate every remaining operand and wrap the results.
pub open spec fn listdata_spec(fuel: nat, items: Seq<Val>, e: int, st: StateV) -> EvalR
    decreases fuel, 2nat, 0nat,
{
    if fuel == 0 {
        (st, Result::Err(ErrV::DepthExceeded))
    } else {
        let (st1, r) = eval_forms_spec(fuel, items.drop_first(), e, st, Seq::empty());
        match r {
            Result::Ok(vs) => (st1, Result::Ok(Val::ListData(vs))),
            Result::Err(er) => (st1, Result::Err(er)),
        }
    }
}

/// `print`: evaluate every remaining operand, write their renderings
/// space-separated as one output line, and yield `Void`.
pub open spec fn print_spec(fuel: nat, items: Seq<Val>, e: int, st: StateV) -> EvalR
    decreases fuel, 2nat, 0nat,
{
    if fuel == 0 {
        (st, Result::Err(ErrV::DepthExceeded))
    } else {
        let (st1, r) = eval_forms_spec(fuel, items.drop_first(), e, st, Seq::empty());
        match r {
            Result::Ok(vs) => (
                StateV { frames: st1.frames, out: st1.out.push(join_render(vs, Seq::empty(), true)) },
                Result::Ok(Val::Void),
            ),
            Result::Err(er) => (st1, Result::Err(er)),
        }
    }
}

/// A list whose head is no recognized special form: an implicit sequence.
/// Every element is evaluated against the same environment and the
/// non-`Void` results form a `List`.
pub open spec fn sequence_spec(fuel: nat, items: Seq<Val>, e: int, st: StateV) -> EvalR
    decreases fuel, 2nat, 0nat,
{
    if fuel == 0 {
        (st, Result::Err(ErrV::DepthExceeded))
    } else {
        let (st1, r) = eval_forms_spec(fuel, items, e, st, Seq::empty());
        match r {
            Result::Ok(vs) => (st1, Result::Ok(Val::List(drop_voids(vs, Seq::empty())))),
            Result::Err(er) => (st1, Result::Err(er)),
        }
    }
}

/// `if`: the condition must reduce to a boolean; the chosen branch is a
/// tail position and the other branch is never evaluated.
pub open spec fn if_spec(fuel: nat, items: Seq<Val>, e: int, st: StateV) -> EvalR
    decreases fuel, 2nat, 0nat,
{
    if fuel == 0 {
        (st, Result::Err(ErrV::DepthExceeded))
    } else if items.len() != 4 {
        (st, Result::Err(ErrV::ArityError("if"@)))
    } else {
        let (st1, r) = eval_spec((fuel - 1) as nat, items[1], e, st);
        match r {
            Result::Err(er) => (st1, Result::Err(er)),
            Result::Ok(Val::Bool(true)) => eval_spec((fuel - 1) as nat, items[2], e, st1),
            Result::Ok(Val::Bool(false)) => eval_spec((fuel - 1) as nat, items[3], e, st1),
            Result::Ok(v) => (st1, Result::Err(ErrV::TypeError("if"@, seq![v]))),
        }
    }
}

/// A binary operator form: both operands are evaluated unconditionally,
/// then dispatched by type.
pub open spec fn binform_spec(fuel: nat, items: Seq<Val>, op: Seq<char>, e: int, st: StateV) -> EvalR
    decreases fuel, 2nat, 0nat,
{
    if fuel == 0 {
        (st, Result::Err(ErrV::DepthExceeded))
    } else if items.len() != 3 {
        (st, Result::Err(ErrV::ArityError(op)))
    } else {
        let (st1, rl) = eval_spec((fuel - 1) as nat, items[1], e, st);
        match rl {
            Result::Err(er) => (st1, Result::Err(er)),
            Result::Ok(lv) => {
                let (st2, rr) = eval_spec((fuel - 1) as nat, items[2], e, st1);
                match rr {
                    Result::Err(er) => (st2, Result::Err(er)),
                    Result::Ok(rv) => (st2, apply_binop(op, lv, rv)),
                }
            }
        }
    }
}

/// Application of a named function: the arguments are evaluated against
/// the caller's environment, bound positionally into a fresh child frame
/// of the lambda's captured environment, and the body becomes the next
/// form — the trampoline's second tail position. Missing arguments are an
/// arity error; surplus arguments are ignored unevaluated.
pub open spec fn call_spec(fuel: nat, items: Seq<Val>, s: Seq<char>, e: int, st: StateV) -> EvalR
    decreases fuel, 2nat, 0nat,
{
    if fuel == 0 {
        (st, Result::Err(ErrV::DepthExceeded))
    } else {
        match lookup_spec(st.frames, e, s) {
            Option::None => (st, Result::Err(ErrV::UnboundFunction(s))),
            Option::Some(Val::Lambda(params, body, cenv)) => {
                if items.len() - 1 < params.len() {
                    (st, Result::Err(ErrV::ArityError(s)))
                } else {
                    let (st1, ra) = eval_forms_spec(
                        fuel,
                        items.subrange(1, params.len() as int + 1),
                        e,
                        st,
                        Seq::empty(),
                    );
                    match ra {
                        Result::Err(er) => (st1, Result::Err(er)),
                        Result::Ok(args) => {
                            let ne = st1.frames.len() as int;
                            let st2 = StateV {
                                frames: st1.frames.push(
                                    FrameV {
                                        parent: Option::Some(cenv),
                                        bindings: binds(params, args),
                                    },
                                ),
                                out: st1.out,
                            };
                            eval_spec((fuel - 1) as nat, Val::List(body), ne, st2)
                        }
                    }
                }
            }
            Option::Some(_) => (st, Result::Err(ErrV::NotCallable(s))),
        }
    }
}

/// `map`: arity-one lambda over evaluated list data; each element is bound
/// into a fresh child frame of the lambda's captured environment and the
/// body's results are collected in input order.
pub open spec fn map_spec(fuel: nat, items: Seq<Val>, e: int, st: StateV) -> EvalR
    decreases fuel, 2nat, 0nat,
{
    if fuel == 0 {
        (st, Result::Err(ErrV::DepthExceeded))
    } else if items.len() != 3 {
        (st, Result::Err(ErrV::ArityError("map"@)))
    } else {
        let (st1, rl) = eval_spec((fuel - 1) as nat, items[1], e, st);
        match rl {
            Result::Err(er) => (st1, Result::Err(er)),
            Result::Ok(lv) => {
                let (st2, rc) = eval_spec((fuel - 1) as nat, items[2], e, st1);
                match rc {
                    Result::Err(er) => (st2, Result::Err(er)),
                    Result::Ok(cv) => match lv {
                        Val::Lambda(params, body, cenv) => if params.len() != 1 {
                            (st2, Result::Err(ErrV::ArityError("map"@)))
                        } else {
                            match cv {
                                Val::ListData(elems) => {
                                    let (st3, rr) = map_run(
                                        fuel,
                                        elems,
                                        params[0],
                                        body,
                                        cenv,
                                        st2,
                                        Seq::empty(),
                                    );
                                    match rr {
                                        Result::Ok(vs) => (st3, Result::Ok(Val::ListData(vs))),
                                        Result::Err(er) => (st3, Result::Err(er)),
                                    }
                                }
                                _ => (st2, Result::Err(ErrV::TypeError("map"@, seq![cv]))),
                            }
                        },
                        _ => (st2, Result::Err(ErrV::TypeError("map"@, seq![lv]))),
                    },
                }
            }
        }
    }
}

pub open spec fn map_run(
    fuel: nat,
    elems: Seq<Val>,
    p: Seq<char>,
    body: Seq<Val>,
    cenv: int,
    st: StateV,
    acc: Seq<Val>,
) -> (StateV, Result<Seq<Val>, ErrV>)
    decreases fuel, 1nat, elems.len(),
{
    if fuel == 0 {
        (st, Result::Err(ErrV::DepthExceeded))
    } else if elems.len() == 0 {
        (st, Result::Ok(acc))
    } else {
        let ne = st.frames.len() as int;
        let st1 = StateV {
            frames: st.frames.push(
                FrameV {
                    parent: Option::Some(cenv),
                    bindings: Map::empty().insert(p, elems[0]),
                },
            ),
            out: st.out,
        };
        let (st2, r) = eval_spec((fuel - 1) as nat, Val::List(body), ne, st1);
        match r {
            Result::Err(er) => (st2, Result::Err(er)),
            Result::Ok(v) => map_run(fuel, elems.drop_first(), p, body, cenv, st2, acc.push(v)),
        }
    }
}

/// `filter`: keeps the original element when the predicate's body yields
/// `Bool(true)`; any other result excludes the element without an error.
pub open spec fn filter_spec(fuel: nat, items: Seq<Val>, e: int, st: StateV) -> EvalR
    decreases fuel, 2nat, 0nat,
{
    if fuel == 0 {
        (st, Result::Err(ErrV::DepthExceeded))
    } else if items.len() != 3 {
        (st, Result::Err(ErrV::ArityError("filter"@)))
    } else {
        let (st1, rl) = eval_spec((fuel - 1) as nat, items[1], e, st);
        match rl {
            Result::Err(er) => (st1, Result::Err(er)),
            Result::Ok(lv) => {
                let (st2, rc) = eval_spec((fuel - 1) as nat, items[2], e, st1);
                match rc {
                    Result::Err(er) => (st2, Result::Err(er)),
                    Result::Ok(cv) => match lv {
                        Val::Lambda(params, body, cenv) => if params.len() != 1 {
                            (st2, Result::Err(ErrV::ArityError("filter"@)))
                        } else {
                            match cv {
                                Val::ListData(elems) => {
                                    let (st3, rr) = filter_run(
                                        fuel,
                                        elems,
                                        params[0],
                                        body,
                                        cenv,
                                        st2,
                                        Seq::empty(),
                                    );
                                    match rr {
                                        Result::Ok(vs) => (st3, Result::Ok(Val::ListData(vs))),
                                        Result::Err(er) => (st3, Result::Err(er)),
                                    }
                                }
                                _ => (st2, Result::Err(ErrV::TypeError("filter"@, seq![cv]))),
                            }
                        },
                        _ => (st2, Result::Err(ErrV::TypeError("filter"@, seq![lv]))),
                    },
                }
            }
        }
    }
}

pub open spec fn filter_run(
    fuel: nat,
    elems: Seq<Val>,
    p: Seq<char>,
    body: Seq<Val>,
    cenv: int,
    st: StateV,
    acc: Seq<Val>,
) -> (StateV, Result<Seq<Val>, ErrV>)
    decreases fuel, 1nat, elems.len(),
{
    if fuel == 0 {
        (st, Result::Err(ErrV::DepthExceeded))
    } else if elems.len() == 0 {
        (st, Result::Ok(acc))
    } else {
        let ne = st.frames.len() as int;
        let st1 = StateV {
            frames: st.frames.push(
                FrameV {
                    parent: Option::Some(cenv),
                    bindings: Map::empty().insert(p, elems[0]),
                },
            ),
            out: st.out,
        };
        let (st2, r) = eval_spec((fuel - 1) as nat, Val::List(body), ne, st1);
        match r {
            Result::Err(er) => (st2, Result::Err(er)),
            Result::Ok(v) => filter_run(
                fuel,
                elems.drop_first(),
                p,
                body,
                cenv,
                st2,
                if v == Val::Bool(true) {
                    acc.push(elems[0])
                } else {
                    acc
                },
            ),
        }
    }
}

/// `reduce`: arity-two lambda folded left to right over evaluated list
/// data, starting from the evaluated seed; an empty collection yields the
/// seed unchanged.
pub open spec fn reduce_spec(fuel: nat, items: Seq<Val>, e: int, st: StateV) -> EvalR
    decreases fuel, 2nat, 0nat,
{
    if fuel == 0 {
        (st, Result::Err(ErrV::DepthExceeded))
    } else if items.len() != 4 {
        (st, Result::Err(ErrV::ArityError("reduce"@)))
    } else {
        let (st1, rl) = eval_spec((fuel - 1) as nat, items[1], e, st);
        match rl {
            Result::Err(er) => (st1, Result::Err(er)),
            Result::Ok(lv) => {
                let (st2, rc) = eval_spec((fuel - 1) as nat, items[3], e, st1);
                match rc {
                    Result::Err(er) => (st2, Result::Err(er)),
                    Result::Ok(cv) => match lv {
                        Val::Lambda(params, body, cenv) => if params.len() != 2 {
                            (st2, Result::Err(ErrV::ArityError("reduce"@)))
                        } else {
                            match cv {
                                Val::ListData(elems) => {
                                    let (st3, rs) = eval_spec((fuel - 1) as nat, items[2], e, st2);
                                    match rs {
                                        Result::Err(er) => (st3, Result::Err(er)),
                                        Result::Ok(seed) => reduce_run(
                                            fuel,
                                            elems,
                                            params[0],
                                            params[1],
                                            body,
                                            cenv,
                                            st3,
                                            seed,
                                        ),
                                    }
                                }
                                _ => (st2, Result::Err(ErrV::TypeError("reduce"@, seq![cv]))),
                            }
                        },
                        _ => (st2, Result::Err(ErrV::TypeError("reduce"@, seq![lv]))),
                    },
                }
            }
        }
    }
}

pub open spec fn reduce_run(
    fuel: nat,
    elems: Seq<Val>,
    pa: Seq<char>,
    pb: Seq<char>,
    body: Seq<Val>,
    cenv: int,
    st: StateV,
    accv: Val,
) -> EvalR
    decreases fuel, 1nat, elems.len(),
{
    if fuel == 0 {
        (st, Result::Err(ErrV::DepthExceeded))
    } else if elems.len() == 0 {
        (st, Result::Ok(accv))
    } else {
        let ne = st.frames.len() as int;
        let st1 = StateV {
            frames: st.frames.push(
                FrameV {
                    parent: Option::Some(cenv),
                    bindings: Map::empty().insert(pa, accv).insert(pb, elems[0]),
                },
            ),
            out: st.out,
        };
        let (st2, r) = eval_spec((fuel - 1) as nat, Val::List(body), ne, st1);
        match r {
            Result::Err(er) => (st2, Result::Err(er)),
            Result::Ok(v) => reduce_run(fuel, elems.drop_first(), pa, pb, body, cenv, st2, v),
        }
    }
}

/// The common shape of every executable evaluation step's contract: the
/// final state and result are exactly what the specification computes, the
/// state invariant is kept, frames are only ever added, and a successful
/// result is well formed.
pub open spec fn eval_post(st0: StateV, st1: StateV, r: Result<Object, Error>, so: EvalR) -> bool {
    &&& st1 == so.0
    &&& res_view(r) == so.1
    &&& state_wf(st1)
    &&& st0.frames.len() <= st1.frames.len()
    &&& (so.1 matches Result::Ok(v) ==> val_wf(v, st1.frames.len() as int))
}

pub open spec fn forms_res_view(r: Result<Vec<Object>, Error>) -> Result<Seq<Val>, ErrV> {
    match r {
        Result::Ok(vs) => Result::Ok(objs_view(vs@)),
        Result::Err(e) => Result::Err(e@),
    }
}

pub proof fn lemma_lookup_wf(fv: Seq<FrameV>, e: int, name: Seq<char>, n: int)
    requires
        frames_vals_wf(fv, n),
    ensures
        lookup_spec(fv, e, name) matches Option::Some(v) ==> val_wf(v, n),
    decreases (if e >= 0 { e } else { 0 }),
{
    if 0 <= e < fv.len() {
        if fv[e].bindings.contains_key(name) {
        } else {
            match fv[e].parent {
                Option::Some(p) => {
                    if 0 <= p < e {
                        lemma_lookup_wf(fv, p, name, n);
                    }
                }
                Option::None => {}
            }
        }
    }
}

pub proof fn lemma_fwf_mono(fv: Seq<FrameV>, n: int, m: int)
    requires
        frames_vals_wf(fv, n),
        n <= m,
    ensures
        frames_vals_wf(fv, m),
{
    assert forall|i: int, k: Seq<char>|
        0 <= i < fv.len() && #[trigger] fv[i].bindings.contains_key(k) implies val_wf(
        fv[i].bindings[k],
        m,
    ) by {
        lemma_val_wf_mono(fv[i].bindings[k], n, m);
    }
}

pub proof fn lemma_fwf_insert(fv: Seq<FrameV>, e: int, name: Seq<char>, v: Val, n: int)
    requires
        frames_vals_wf(fv, n),
        0 <= e < fv.len(),
        val_wf(v, n),
    ensures
        frames_vals_wf(
            fv.update(
                e,
                FrameV { parent: fv[e].parent, bindings: fv[e].bindings.insert(name, v) },
            ),
            n,
        ),
{
    let fv2 = fv.update(
        e,
        FrameV { parent: fv[e].parent, bindings: fv[e].bindings.insert(name, v) },
    );
    assert forall|i: int, k: Seq<char>|
        0 <= i < fv2.len() && #[trigger] fv2[i].bindings.contains_key(k) implies val_wf(
        fv2[i].bindings[k],
        n,
    ) by {
        if i == e {
            if k != name {
                assert(fv[e].bindings.contains_key(k));
            }
        } else {
            assert(fv2[i] == fv[i]);
        }
    }
}

pub proof fn lemma_fwf_push(fv: Seq<FrameV>, f: FrameV, n: int)
    requires
        frames_vals_wf(fv, n),
        forall|k: Seq<char>| #[trigger]
            f.bindings.contains_key(k) ==> val_wf(f.bindings[k], n),
    ensures
        frames_vals_wf(fv.push(f), n),
{
    let fv2 = fv.push(f);
    assert forall|i: int, k: Seq<char>|
        0 <= i < fv2.len() && #[trigger] fv2[i].bindings.contains_key(k) implies val_wf(
        fv2[i].bindings[k],
        n,
    ) by {
        if i < fv.len() {
            assert(fv2[i] == fv[i]);
        } else {
            assert(fv2[i] == f);
        }
    }
}

/// One element of a well-formed sequence of forms is well formed.
pub proof fn lemma_val_at(s: Seq<Object>, i: int, n: int)
    requires
        vals_wf(objs_view(s), n),
        0 <= i < s.len(),
    ensures
        val_wf(obj_view(s[i]), n),
    decreases s.len(),
{
    lemma_objs_view(s);
    lemma_vals_wf(objs_view(s), n);
    assert(val_wf(objs_view(s)[i], n));
}

pub proof fn lemma_objs_view_push(s: Seq<Object>, x: Object)
    ensures
        objs_view(s.push(x)) == objs_view(s).push(obj_view(x)),
{
    lemma_objs_view(s.push(x));
    lemma_objs_view(s);
    assert(forall|i: int| 0 <= i < s.len() ==> s.push(x)[i] == s[i]);
    assert(objs_view(s.push(x)) =~= objs_view(s).push(obj_view(x)));
}

/// Evaluate `count` forms of `items` starting at `start`, left to right,
/// against one environment, collecting every result.
#[verifier::loop_isolation(false)]
fn eval_forms(
    items: &Vec<Object>,
    start: usize,
    count: usize,
    e: usize,
    fuel: u64,
    env: &mut Env,
    out: &mut Vec<String>,
) -> (r: Result<Vec<Object>, Error>)
    requires
        fuel >= 1,
        start + count <= items@.len(),
        state_wf(st_of(old(env)@, old(out).deep_view())),
        e < old(env)@.len(),
        vals_wf(objs_view(items@), old(env)@.len() as int),
    ensures
        ({
            let so = eval_forms_spec(
                fuel as nat,
                objs_view(items@).subrange(start as int, start + count),
                e as int,
                st_of(old(env)@, old(out).deep_view()),
                Seq::empty(),
            );
            &&& st_of(final(env)@, final(out).deep_view()) == so.0
            &&& forms_res_view(r) == so.1
            &&& state_wf(so.0)
            &&& old(env)@.len() <= final(env)@.len()
            &&& (so.1 matches Result::Ok(vs) ==> vals_wf(vs, final(env)@.len() as int)
                && vs.len() == count)
        }),
    decreases fuel, 1int, 0int,
{
    let ghost st0 = st_of(env@, out.deep_view());
    proof {
        lemma_objs_view(items@);
        lemma_vals_wf(objs_view(items@), env@.len() as int);
    }
    let ghost full = objs_view(items@).subrange(start as int, start + count);
    proof {
        assert(full.skip(0) =~= full);
    }
    let mut results: Vec<Object> = Vec::new();
    let mut i: usize = 0;
    while i < count
        invariant
            i <= count,
            results@.len() == i,
            state_wf(st_of(env@, out.deep_view())),
            e < env@.len(),
            old(env)@.len() <= env@.len(),
            vals_wf(objs_view(items@), env@.len() as int),
            forall|j: int|
                0 <= j < i ==> val_wf(obj_view(#[trigger] results@[j]), env@.len() as int),
            eval_forms_spec(fuel as nat, full, e as int, st0, Seq::empty()) == eval_forms_spec(
                fuel as nat,
                full.skip(i as int),
                e as int,
                st_of(env@, out.deep_view()),
                objs_view(results@),
            ),
        decreases count - i,
    {
        proof {
            lemma_objs_view(items@);
            lemma_objs_view(results@);
            lemma_vals_wf(objs_view(items@), env@.len() as int);
            assert(full.skip(i as int)[0] == full[i as int]);
            assert(full[i as int] == objs_view(items@)[start + i]);
            assert(full.skip(i as int).drop_first() =~= full.skip(i as int + 1));
        }
        let ghost pre_results = results@;
        let ghost pre_len = env@.len() as int;
        // An index bound in machine range: the vector's length is a usize.
        let items_len = items.len();
        proof {
            assert(start + i < items_len);
            lemma_val_at(items@, start + i, pre_len);
        }
        let rr = eval_obj(&items[start + i], e, fuel - 1, env, out);
        proof {
            lemma_vals_wf_mono(objs_view(items@), pre_len, env@.len() as int);
        }
        match rr {
            Result::Err(er) => {
                return Result::Err(er);
            }
            Result::Ok(v) => {
                let ghost vv = v@;
                results.push(v);
                proof {
                    lemma_objs_view_push(pre_results, results@.last());
                    assert(objs_view(results@) =~= objs_view(pre_results).push(vv));
                    assert forall|j: int| 0 <= j < i + 1 implies val_wf(
                        obj_view(#[trigger] results@[j]),
                        env@.len() as int,
                    ) by {
                        if j < i {
                            assert(results@[j] == pre_results[j]);
                            lemma_val_wf_mono(obj_view(pre_results[j]), pre_len, env@.len() as int);
                        }
                    }
                }
                i = i + 1;
            }
        }
    }
    proof {
        assert(full.skip(count as int) =~= Seq::<Val>::empty());
        lemma_objs_view(results@);
        lemma_vals_wf(objs_view(results@), env@.len() as int);
    }
    Result::Ok(results)
}

/// `define`: store the evaluated value under the given name in the
/// current frame.
fn eval_define(
    items: &Vec<Object>,
    e: usize,
    fuel: u64,
    env: &mut Env,
    out: &mut Vec<String>,
) -> (r: Result<Object, Error>)
    requires
        fuel >= 1,
        state_wf(st_of(old(env)@, old(out).deep_view())),
        e < old(env)@.len(),
        vals_wf(objs_view(items@), old(env)@.len() as int),
    ensures
        eval_post(
            st_of(old(env)@, old(out).deep_view()),
            st_of(final(env)@, final(out).deep_view()),
            r,
            define_spec(
                fuel as nat,
                objs_view(items@),
                e as int,
                st_of(old(env)@, old(out).deep_view()),
            ),
        ),
    decreases fuel, 2int, 0int,
{
    proof {
        lemma_objs_view(items@);
    }
    if items.len() != 3 {
        return Result::Err(Error::ArityError(String::from_str("define")));
    }
    let name: String = match &items[1] {
        Object::Symbol(s) => s.clone(),
        _ => {
            return Result::Err(Error::MalformedForm(String::from_str("define")));
        }
    };
    proof {
        lemma_val_at(items@, 2, env@.len() as int);
    }
    let v = match eval_obj(&items[2], e, fuel - 1, env, out) {
        Result::Err(er) => {
            return Result::Err(er);
        }
        Result::Ok(v) => v,
    };
    let ghost vv = v@;
    let ghost st1 = st_of(env@, out.deep_view());
    env.set(e, &name, v);
    proof {
        lemma_fwf_insert(st1.frames, e as int, name@, vv, st1.frames.len() as int);
    }
    Result::Ok(Object::Void)
}

fn make_one(v: Object) -> (r: Vec<Object>)
    ensures
        objs_view(r@) == seq![v@],
{
    let ghost vv = v@;
    let mut r: Vec<Object> = Vec::new();
    r.push(v);
    proof {
        lemma_objs_view(r@);
        assert(objs_view(r@) =~= seq![vv]);
    }
    r
}

/// An implicit sequence: evaluate every element against the same
/// environment and collect the non-`Void` results as a `List`.
#[verifier::loop_isolation(false)]
fn eval_sequence(
    items: &Vec<Object>,
    e: usize,
    fuel: u64,
    env: &mut Env,
    out: &mut Vec<String>,
) -> (r: Result<Object, Error>)
    requires
        fuel >= 1,
        state_wf(st_of(old(env)@, old(out).deep_view())),
        e < old(env)@.len(),
        vals_wf(objs_view(items@), old(env)@.len() as int),
    ensures
        eval_post(
            st_of(old(env)@, old(out).deep_view()),
            st_of(final(env)@, final(out).deep_view()),
            r,
            sequence_spec(
                fuel as nat,
                objs_view(items@),
                e as int,
                st_of(old(env)@, old(out).deep_view()),
            ),
        ),
    decreases fuel, 2int, 0int,
{
    proof {
        lemma_objs_view(items@);
        assert(objs_view(items@).subrange(0, items@.len() as int) =~= objs_view(items@));
    }
    let n = items.len();
    let vs = match eval_forms(items, 0, n, e, fuel, env, out) {
        Result::Err(er) => {
            return Result::Err(er);
        }
        Result::Ok(vs) => vs,
    };
    let ghost vsv = objs_view(vs@);
    proof {
        lemma_objs_view(vs@);
        lemma_vals_wf(vsv, env@.len() as int);
        assert(vsv.skip(0) =~= vsv);
    }
    let mut nv: Vec<Object> = Vec::new();
    let mut j: usize = 0;
    while j < vs.len()
        invariant
            j <= vs@.len(),
            vsv == objs_view(vs@),
            vsv.len() == vs@.len(),
            forall|t: int| 0 <= t < vsv.len() ==> vsv[t] == obj_view(#[trigger] vs@[t]),
            drop_voids(vsv, Seq::empty()) == drop_voids(vsv.skip(j as int), objs_view(nv@)),
            forall|t: int|
                0 <= t < nv@.len() ==> val_wf(obj_view(#[trigger] nv@[t]), env@.len() as int),
        decreases vs@.len() - j,
    {
        proof {
            assert(vsv.skip(j as int)[0] == vsv[j as int]);
            assert(vsv.skip(j as int).drop_first() =~= vsv.skip(j as int + 1));
        }
        let ghost pre = nv@;
        match &vs[j] {
            Object::Void => {}
            _ => {
                let d = vs[j].duplicate();
                nv.push(d);
                proof {
                    lemma_objs_view_push(pre, nv@.last());
                    assert(objs_view(nv@) =~= objs_view(pre).push(obj_view(vs@[j as int])));
                }
            }
        }
        j = j + 1;
    }
    proof {
        assert(vsv.skip(vs@.len() as int) =~= Seq::<Val>::empty());
        lemma_objs_view(nv@);
        lemma_vals_wf(objs_view(nv@), env@.len() as int);
    }
    Result::Ok(Object::List(nv))
}

/// `lambda`: build the callable value, capturing the current environment.
#[verifier::loop_isolation(false)]
fn eval_function_definition(items: &Vec<Object>, e: usize) -> (r: Result<Object, Error>)
    ensures
        res_view(r) == lambda_spec(objs_view(items@), e as int),
        r matches Result::Ok(o) ==> o@ == lambda_spec(objs_view(items@), e as int)->Ok_0,
{
    proof {
        lemma_objs_view(items@);
    }
    if items.len() != 3 {
        return Result::Err(Error::ArityError(String::from_str("lambda")));
    }
    let mut ps: Vec<String> = Vec::new();
    match &items[1] {
        Object::List(pf) => {
            let ghost pfv = objs_view(pf@);
            proof {
                lemma_objs_view(pf@);
                assert(pfv.skip(0) =~= pfv);
                assert(ps.deep_view() =~= Seq::<Seq<char>>::empty());
            }
            let mut i: usize = 0;
            while i < pf.len()
                invariant
                    i <= pf@.len(),
                    pfv == objs_view(pf@),
                    pfv.len() == pf@.len(),
                    forall|t: int| 0 <= t < pfv.len() ==> pfv[t] == obj_view(#[trigger] pf@[t]),
                    params_of(pfv, Seq::empty()) == params_of(pfv.skip(i as int), ps.deep_view()),
                decreases pf@.len() - i,
            {
                proof {
                    assert(pfv.skip(i as int)[0] == pfv[i as int]);
                    assert(pfv.skip(i as int).drop_first() =~= pfv.skip(i as int + 1));
                }
                let ghost pre = ps.deep_view();
                match &pf[i] {
                    Object::Symbol(s) => {
                        ps.push(s.clone());
                        proof {
                            assert(ps.deep_view() =~= pre.push(pf@[i as int]->Symbol_0@));
                        }
                    }
                    _ => {
                        return Result::Err(Error::MalformedForm(String::from_str("lambda")));
                    }
                }
                i = i + 1;
            }
            proof {
                assert(pfv.skip(pf@.len() as int) =~= Seq::<Val>::empty());
            }
        }
        _ => {
            return Result::Err(Error::MalformedForm(String::from_str("lambda")));
        }
    }
    let d = items[2].duplicate();
    match d {
        Object::List(b) => Result::Ok(Object::Lambda(ps, b, e)),
        _ => Result::Err(Error::MalformedForm(String::from_str("lambda"))),
    }
}

/// `list`: wrap the evaluated operands as list data.
fn eval_list_data(
    items: &Vec<Object>,
    e: usize,
    fuel: u64,
    env: &mut Env,
    out: &mut Vec<String>,
) -> (r: Result<Object, Error>)
    requires
        fuel >= 1,
        items@.len() >= 1,
        state_wf(st_of(old(env)@, old(out).deep_view())),
        e < old(env)@.len(),
        vals_wf(objs_view(items@), old(env)@.len() as int),
    ensures
        eval_post(
            st_of(old(env)@, old(out).deep_view()),
            st_of(final(env)@, final(out).deep_view()),
            r,
            listdata_spec(
                fuel as nat,
                objs_view(items@),
                e as int,
                st_of(old(env)@, old(out).deep_view()),
            ),
        ),
    decreases fuel, 2int, 0int,
{
    proof {
        lemma_objs_view(items@);
        assert(objs_view(items@).subrange(1, items@.len() as int) =~= objs_view(
            items@,
        ).drop_first());
    }
    let n = items.len();
    match eval_forms(items, 1, n - 1, e, fuel, env, out) {
        Result::Err(er) => Result::Err(er),
        Result::Ok(vs) => {
            proof {
                lemma_objs_view(vs@);
            }
            Result::Ok(Object::ListData(vs))
        }
    }
}

/// `print`: render the evaluated operands space-separated as one line of
/// output and yield `Void`.
fn eval_print(
    items: &Vec<Object>,
    e: usize,
    fuel: u64,
    env: &mut Env,
    out: &mut Vec<String>,
) -> (r: Result<Object, Error>)
    requires
        fuel >= 1,
        items@.len() >= 1,
        state_wf(st_of(old(env)@, old(out).deep_view())),
        e < old(env)@.len(),
        vals_wf(objs_view(items@), old(env)@.len() as int),
    ensures
        eval_post(
            st_of(old(env)@, old(out).deep_view()),
            st_of(final(env)@, final(out).deep_view()),
            r,
            print_spec(
                fuel as nat,
                objs_view(items@),
                e as int,
                st_of(old(env)@, old(out).deep_view()),
            ),
        ),
    decreases fuel, 2int, 0int,
{
    proof {
        lemma_objs_view(items@);
        assert(objs_view(items@).subrange(1, items@.len() as int) =~= objs_view(
            items@,
        ).drop_first());
    }
    let n = items.len();
    let vs = match eval_forms(items, 1, n - 1, e, fuel, env, out) {
        Result::Err(er) => {
            return Result::Err(er);
        }
        Result::Ok(vs) => vs,
    };
    let line = render_line(&vs);
    let ghost pre_out = out.deep_view();
    out.push(line);
    proof {
        assert(out.deep_view() =~= pre_out.push(out@.last()@));
    }
    Result::Ok(Object::Void)
}

/// The space-separated rendering of a sequence of values.
#[verifier::loop_isolation(false)]
fn render_line(vs: &Vec<Object>) -> (r: String)
    ensures
        r@ == join_render(objs_view(vs@), Seq::empty(), true),
{
    let ghost full = objs_view(vs@);
    proof {
        lemma_objs_view(vs@);
        assert(full.skip(0) =~= full);
    }
    let mut s = String::new();
    let mut i: usize = 0;
    while i < vs.len()
        invariant
            i <= vs@.len(),
            full == objs_view(vs@),
            full.len() == vs@.len(),
            forall|t: int| 0 <= t < full.len() ==> full[t] == obj_view(#[trigger] vs@[t]),
            join_render(full, Seq::empty(), true) == join_render(full.skip(i as int), s@, i == 0),
        decreases vs@.len() - i,
    {
        proof {
            assert(full.skip(i as int)[0] == full[i as int]);
            assert(full.skip(i as int).drop_first() =~= full.skip(i as int + 1));
        }
        let ghost pre = s@;
        if i > 0 {
            push_char(&mut s, ' ');
        }
        let sub = render(&vs[i]);
        s.append(sub.as_str());
        proof {
            assert(s@ =~= pre + (if i == 0 {
                Seq::<char>::empty()
            } else {
                seq![' ']
            }) + crate::object::render_spec(full[i as int]));
        }
        i = i + 1;
    }
    s
}

/// A binary operator form: evaluate both operands, then dispatch.
fn eval_binary_op(
    items: &Vec<Object>,
    op: &String,
    e: usize,
    fuel: u64,
    env: &mut Env,
    out: &mut Vec<String>,
) -> (r: Result<Object, Error>)
    requires
        fuel >= 1,
        items@.len() >= 1,
        state_wf(st_of(old(env)@, old(out).deep_view())),
        e < old(env)@.len(),
        vals_wf(objs_view(items@), old(env)@.len() as int),
    ensures
        eval_post(
            st_of(old(env)@, old(out).deep_view()),
            st_of(final(env)@, final(out).deep_view()),
            r,
            binform_spec(
                fuel as nat,
                objs_view(items@),
                op@,
                e as int,
                st_of(old(env)@, old(out).deep_view()),
            ),
        ),
    decreases fuel, 2int, 0int,
{
    proof {
        lemma_objs_view(items@);
        lemma_vals_wf(objs_view(items@), old(env)@.len() as int);
    }
    if items.len() != 3 {
        return Result::Err(Error::ArityError(op.clone()));
    }
    proof {
        lemma_val_at(items@, 1, env@.len() as int);
    }
    let l = match eval_obj(&items[1], e, fuel - 1, env, out) {
        Result::Err(er) => {
            return Result::Err(er);
        }
        Result::Ok(l) => l,
    };
    proof {
        lemma_vals_wf_mono(objs_view(items@), old(env)@.len() as int, env@.len() as int);
        lemma_val_at(items@, 2, env@.len() as int);
    }
    let rv = match eval_obj(&items[2], e, fuel - 1, env, out) {
        Result::Err(er) => {
            return Result::Err(er);
        }
        Result::Ok(rv) => rv,
    };
    apply_binop_values(op, l, rv)
}

/// The trampoline: an iterative loop over the current form and
/// environment. `if` branches and named-function bodies replace the
/// current pair and loop, so tail recursion uses constant stack space;
/// everything else returns through the dispatch helpers.
#[verifier::loop_isolation(false)]
pub fn eval_obj(
    form: &Object,
    e: usize,
    fuel: u64,
    env: &mut Env,
    out: &mut Vec<String>,
) -> (r: Result<Object, Error>)
    requires
        state_wf(st_of(old(env)@, old(out).deep_view())),
        e < old(env)@.len(),
        val_wf(form@, old(env)@.len() as int),
    ensures
        eval_post(
            st_of(old(env)@, old(out).deep_view()),
            st_of(final(env)@, final(out).deep_view()),
            r,
            eval_spec(
                fuel as nat,
                form@,
                e as int,
                st_of(old(env)@, old(out).deep_view()),
            ),
        ),
    decreases fuel, 3int, 0int,
{
    let ghost st0 = st_of(env@, out.deep_view());
    let mut cur: Object = form.duplicate();
    let mut ce: usize = e;
    let mut f: u64 = fuel;
    loop
        invariant
            state_wf(st_of(env@, out.deep_view())),
            ce < env@.len(),
            val_wf(cur@, env@.len() as int),
            f <= fuel,
            st0.frames.len() <= env@.len(),
            eval_spec(fuel as nat, form@, e as int, st0) == eval_spec(
                f as nat,
                cur@,
                ce as int,
                st_of(env@, out.deep_view()),
            ),
        decreases f,
    {
        if f == 0 {
            return Result::Err(Error::DepthExceeded);
        }
        let ghost cv = cur@;
        let ghost stc = st_of(env@, out.deep_view());
        let ghost fg = f;
        let (ncur, nce): (Object, usize) = match cur {
            Object::Symbol(s) => {
                if str_eq_str(s.as_str(), "true") {
                    return Result::Ok(Object::Bool(true));
                }
                if str_eq_str(s.as_str(), "false") {
                    return Result::Ok(Object::Bool(false));
                }
                if str_eq_str(s.as_str(), "nil") {
                    return Result::Ok(Object::Void);
                }
                match env.get(ce, &s) {
                    Option::Some(v) => {
                        proof {
                            lemma_lookup_wf(env@, ce as int, s@, env@.len() as int);
                        }
                        return Result::Ok(v);
                    }
                    Option::None => {
                        return Result::Err(Error::UnboundSymbol(s));
                    }
                }
            }
            Object::List(items) => {
                if items.len() == 0 {
                    let empty_vec: Vec<Object> = Vec::new();
                    proof {
                        lemma_objs_view(items@);
                        lemma_objs_view(empty_vec@);
                        assert(objs_view(items@) =~= Seq::<Val>::empty());
                        assert(objs_view(empty_vec@) =~= Seq::<Val>::empty());
                        assert(eval_spec(fg as nat, cv, ce as int, stc) == eval_list_spec(
                            fg as nat,
                            objs_view(items@),
                            ce as int,
                            stc,
                        ));
                        assert(eval_list_spec(fg as nat, objs_view(items@), ce as int, stc)
                            == sequence_spec(fg as nat, objs_view(items@), ce as int, stc));
                        assert(eval_forms_spec(
                            fg as nat,
                            objs_view(items@),
                            ce as int,
                            stc,
                            Seq::empty(),
                        ) == (stc, Result::<Seq<Val>, ErrV>::Ok(Seq::empty())));
                    }
                    return Result::Ok(Object::List(empty_vec));
                }
                proof {
                    lemma_objs_view(items@);
                    lemma_vals_wf(objs_view(items@), env@.len() as int);
                }
                match &items[0] {
                    Object::Keyword(k) => {
                        if str_eq_str(k.as_str(), "define") {
                            let r = eval_define(&items, ce, f, env, out);
                            return r;
                        } else if str_eq_str(k.as_str(), "lambda") {
                            let r = eval_function_definition(&items, ce);
                            proof {
                                if r is Ok {
                                    lemma_vals_wf(objs_view(items@), env@.len() as int);
                                }
                            }
                            return r;
                        } else if str_eq_str(k.as_str(), "list") {
                            let r = eval_list_data(&items, ce, f, env, out);
                            return r;
                        } else if str_eq_str(k.as_str(), "print") {
                            let r = eval_print(&items, ce, f, env, out);
                            return r;
                        } else if str_eq_str(k.as_str(), "map") {
                            let r = eval_map(&items, ce, f, env, out);
                            return r;
                        } else if str_eq_str(k.as_str(), "filter") {
                            let r = eval_filter(&items, ce, f, env, out);
                            return r;
                        } else if str_eq_str(k.as_str(), "reduce") {
                            let r = eval_reduce(&items, ce, f, env, out);
                            return r;
                        } else {
                            let r = eval_sequence(&items, ce, f, env, out);
                            return r;
                        }
                    }
                    Object::If => {
                        if items.len() != 4 {
                            return Result::Err(Error::ArityError(String::from_str("if")));
                        }
                        let c = match eval_obj(&items[1], ce, f - 1, env, out) {
                            Result::Err(er) => {
                                return Result::Err(er);
                            }
                            Result::Ok(c) => c,
                        };
                        match c {
                            Object::Bool(b) => {
                                let branch = if b {
                                    items[2].duplicate()
                                } else {
                                    items[3].duplicate()
                                };
                                proof {
                                    lemma_vals_wf_mono(
                                        objs_view(items@),
                                        stc.frames.len() as int,
                                        env@.len() as int,
                                    );
                                    lemma_vals_wf(objs_view(items@), env@.len() as int);
                                }
                                (branch, ce)
                            }
                            v => {
                                return Result::Err(
                                    Error::TypeError(String::from_str("if"), make_one(v)),
                                );
                            }
                        }
                    }
                    Object::BinaryOp(op) => {
                        let r = eval_binary_op(&items, op, ce, f, env, out);
                        return r;
                    }
                    Object::Symbol(s) => {
                        match env.get(ce, s) {
                            Option::None => {
                                return Result::Err(Error::UnboundFunction(s.clone()));
                            }
                            Option::Some(fval) => {
                                proof {
                                    lemma_lookup_wf(env@, ce as int, s@, env@.len() as int);
                                }
                                match fval {
                                    Object::Lambda(params, body, cenv) => {
                                        if items.len() - 1 < params.len() {
                                            return Result::Err(Error::ArityError(s.clone()));
                                        }
                                        let ghost pre_call = st_of(env@, out.deep_view());
                                        let args = match eval_forms(
                                            &items,
                                            1,
                                            params.len(),
                                            ce,
                                            f,
                                            env,
                                            out,
                                        ) {
                                            Result::Err(er) => {
                                                return Result::Err(er);
                                            }
                                            Result::Ok(a) => a,
                                        };
                                        let ghost st1 = st_of(env@, out.deep_view());
                                        let ne = env.extend(cenv);
                                        let ghost pv = params.deep_view();
                                        let ghost av = objs_view(args@);
                                        proof {
                                            lemma_objs_view(args@);
                                            lemma_vals_wf(av, st1.frames.len() as int);
                                            assert(pv.take(0) =~= Seq::<Seq<char>>::empty());
                                            assert(av.take(0) =~= Seq::<Val>::empty());
                                            assert(env@ =~= st1.frames.push(
                                                FrameV {
                                                    parent: Option::Some(cenv as int),
                                                    bindings: binds(pv.take(0), av.take(0)),
                                                },
                                            ));
                                        }
                                        let mut bi: usize = 0;
                                        while bi < params.len()
                                            invariant
                                                bi <= params@.len(),
                                                params@.len() == args@.len(),
                                                pv == params.deep_view(),
                                                av == objs_view(args@),
                                                pv.len() == params@.len(),
                                                av.len() == args@.len(),
                                                forall|t: int|
                                                    0 <= t < av.len() ==> av[t] == obj_view(
                                                        #[trigger] args@[t],
                                                    ),
                                                ne == st1.frames.len(),
                                                env@.len() == st1.frames.len() + 1,
                                                out.deep_view() == st1.out,
                                                env@ == st1.frames.push(
                                                    FrameV {
                                                        parent: Option::Some(cenv as int),
                                                        bindings: binds(
                                                            pv.take(bi as int),
                                                            av.take(bi as int),
                                                        ),
                                                    },
                                                ),
                                            decreases params@.len() - bi,
                                        {
                                            let ghost prefr = env@;
                                            let a = args[bi].duplicate();
                                            env.set(ne, &params[bi], a);
                                            proof {
                                                assert(pv.take(bi as int + 1).drop_last() =~= pv.take(
                                                    bi as int,
                                                ));
                                                assert(av.take(bi as int + 1).drop_last() =~= av.take(
                                                    bi as int,
                                                ));
                                                assert(pv.take(bi as int + 1).last() == pv[bi as int]);
                                                assert(av.take(bi as int + 1).last() == av[bi as int]);
                                                assert(env@ =~= st1.frames.push(
                                                    FrameV {
                                                        parent: Option::Some(cenv as int),
                                                        bindings: binds(
                                                            pv.take(bi as int + 1),
                                                            av.take(bi as int + 1),
                                                        ),
                                                    },
                                                ));
                                            }
                                            bi = bi + 1;
                                        }
                                        proof {
                                            assert(pv.take(pv.len() as int) =~= pv);
                                            assert(av.take(av.len() as int) =~= av);
                                            lemma_vals_wf(av, st1.frames.len() as int);
                                            lemma_binds_wf(pv, av, st1.frames.len() as int);
                                            lemma_fwf_mono(
                                                st1.frames,
                                                st1.frames.len() as int,
                                                env@.len() as int,
                                            );
                                            lemma_binds_wf_mono(pv, av, st1.frames.len() as int, env@.len() as int);
                                            lemma_fwf_push(
                                                st1.frames,
                                                FrameV {
                                                    parent: Option::Some(cenv as int),
                                                    bindings: binds(pv, av),
                                                },
                                                env@.len() as int,
                                            );
                                            lemma_vals_wf_mono(
                                                crate::object::objs_view(body@),
                                                stc.frames.len() as int,
                                                env@.len() as int,
                                            );
                                        }
                                        (Object::List(body), ne)
                                    }
                                    _ => {
                                        return Result::Err(Error::NotCallable(s.clone()));
                                    }
                                }
                            }
                        }
                    }
                    _ => {
                        let r = eval_sequence(&items, ce, f, env, out);
                        return r;
                    }
                }
            }
            other => {
                return Result::Ok(other);
            }
        };
        cur = ncur;
        ce = nce;
        f = f - 1;
    }
}

/// `map`: run the arity-one lambda over each element of the evaluated
/// list data, collecting the results in input order.
#[verifier::loop_isolation(false)]
fn eval_map(
    items: &Vec<Object>,
    e: usize,
    fuel: u64,
    env: &mut Env,
    out: &mut Vec<String>,
) -> (r: Result<Object, Error>)
    requires
        fuel >= 1,
        items@.len() >= 1,
        state_wf(st_of(old(env)@, old(out).deep_view())),
        e < old(env)@.len(),
        vals_wf(objs_view(items@), old(env)@.len() as int),
    ensures
        eval_post(
            st_of(old(env)@, old(out).deep_view()),
            st_of(final(env)@, final(out).deep_view()),
            r,
            map_spec(
                fuel as nat,
                objs_view(items@),
                e as int,
                st_of(old(env)@, old(out).deep_view()),
            ),
        ),
    decreases fuel, 2int, 0int,
{
    proof {
        lemma_objs_view(items@);
        lemma_vals_wf(objs_view(items@), old(env)@.len() as int);
    }
    if items.len() != 3 {
        return Result::Err(Error::ArityError(String::from_str("map")));
    }
    proof {
        lemma_val_at(items@, 1, env@.len() as int);
    }
    let lv = match eval_obj(&items[1], e, fuel - 1, env, out) {
        Result::Err(er) => {
            return Result::Err(er);
        }
        Result::Ok(v) => v,
    };
    let ghost len1 = env@.len() as int;
    proof {
        lemma_vals_wf_mono(objs_view(items@), old(env)@.len() as int, env@.len() as int);
        lemma_val_at(items@, 2, env@.len() as int);
    }
    let cv = match eval_obj(&items[2], e, fuel - 1, env, out) {
        Result::Err(er) => {
            return Result::Err(er);
        }
        Result::Ok(v) => v,
    };
    proof {
        lemma_val_wf_mono(lv@, len1, env@.len() as int);
    }
    match lv {
        Object::Lambda(params, body, cenv) => {
            if params.len() != 1 {
                return Result::Err(Error::ArityError(String::from_str("map")));
            }
            match cv {
                Object::ListData(elems) => {
                    let ghost bodyv = objs_view(body@);
                    let bodyform = Object::List(body);
                    let ghost st2 = st_of(env@, out.deep_view());
                    let ghost ev = objs_view(elems@);
                    let ghost pv = params.deep_view();
                    proof {
                        lemma_objs_view(elems@);
                        assert(ev.skip(0) =~= ev);
                    }
                    let mut resv: Vec<Object> = Vec::new();
                    let mut i: usize = 0;
                    while i < elems.len()
                        invariant
                            i <= elems@.len(),
                            ev == objs_view(elems@),
                            ev.len() == elems@.len(),
                            forall|t: int| 0 <= t < ev.len() ==> ev[t] == obj_view(#[trigger] elems@[t]),
                            state_wf(st_of(env@, out.deep_view())),
                            0 <= cenv < env@.len(),
                            st2.frames.len() <= env@.len(),
                            st0_len_le(st_of(old(env)@, old(out).deep_view()), env@.len() as int),
                            vals_wf(ev, env@.len() as int),
                            val_wf(bodyform@, env@.len() as int),
                            forall|t: int|
                                0 <= t < resv@.len() ==> val_wf(
                                    obj_view(#[trigger] resv@[t]),
                                    env@.len() as int,
                                ),
                            map_run(fuel as nat, ev, pv[0], bodyv, cenv as int, st2, Seq::empty())
                                == map_run(
                                fuel as nat,
                                ev.skip(i as int),
                                pv[0],
                                bodyv,
                                cenv as int,
                                st_of(env@, out.deep_view()),
                                objs_view(resv@),
                            ),
                        decreases elems@.len() - i,
                    {
                        proof {
                            assert(ev.skip(i as int)[0] == ev[i as int]);
                            assert(ev.skip(i as int).drop_first() =~= ev.skip(i as int + 1));
                            lemma_vals_wf(ev, env@.len() as int);
                        }
                        let ghost st_pre = st_of(env@, out.deep_view());
                        let ne = env.extend(cenv);
                        let a = elems[i].duplicate();
                        env.set(ne, &params[0], a);
                        proof {
                            assert(env@ =~= st_pre.frames.push(
                                FrameV {
                                    parent: Option::Some(cenv as int),
                                    bindings: Map::empty().insert(pv[0], ev[i as int]),
                                },
                            ));
                            assert forall|k: Seq<char>| #[trigger]
                                Map::empty().insert(pv[0], ev[i as int]).contains_key(k) implies val_wf(
                                Map::empty().insert(pv[0], ev[i as int])[k],
                                env@.len() as int,
                            ) by {
                                lemma_val_wf_mono(ev[i as int], st_pre.frames.len() as int, env@.len() as int);
                            }
                            lemma_fwf_mono(st_pre.frames, st_pre.frames.len() as int, env@.len() as int);
                            lemma_fwf_push(
                                st_pre.frames,
                                FrameV {
                                    parent: Option::Some(cenv as int),
                                    bindings: Map::empty().insert(pv[0], ev[i as int]),
                                },
                                env@.len() as int,
                            );
                            lemma_val_wf_mono(bodyform@, st_pre.frames.len() as int, env@.len() as int);
                        }
                        let v = match eval_obj(&bodyform, ne, fuel - 1, env, out) {
                            Result::Err(er) => {
                                return Result::Err(er);
                            }
                            Result::Ok(v) => v,
                        };
                        let ghost pre_res = resv@;
                        resv.push(v);
                        proof {
                            lemma_objs_view_push(pre_res, resv@.last());
                            lemma_vals_wf_mono(ev, st_pre.frames.len() as int, env@.len() as int);
                            lemma_val_wf_mono(bodyform@, st_pre.frames.len() as int, env@.len() as int);
                            assert forall|t: int| 0 <= t < resv@.len() implies val_wf(
                                obj_view(#[trigger] resv@[t]),
                                env@.len() as int,
                            ) by {
                                if t < pre_res.len() {
                                    assert(resv@[t] == pre_res[t]);
                                    lemma_val_wf_mono(
                                        obj_view(pre_res[t]),
                                        st_pre.frames.len() as int,
                                        env@.len() as int,
                                    );
                                }
                            }
                        }
                        i = i + 1;
                    }
                    proof {
                        assert(ev.skip(elems@.len() as int) =~= Seq::<Val>::empty());
                        lemma_objs_view(resv@);
                        lemma_vals_wf(objs_view(resv@), env@.len() as int);
                    }
                    Result::Ok(Object::ListData(resv))
                }
                other => Result::Err(Error::TypeError(String::from_str("map"), make_one(other))),
            }
        }
        other => Result::Err(Error::TypeError(String::from_str("map"), make_one(other))),
    }
}

/// `filter`: keep the original elements whose predicate body yields
/// `Bool(true)`.
#[verifier::loop_isolation(false)]
fn eval_filter(
    items: &Vec<Object>,
    e: usize,
    fuel: u64,
    env: &mut Env,
    out: &mut Vec<String>,
) -> (r: Result<Object, Error>)
    requires
        fuel >= 1,
        items@.len() >= 1,
        state_wf(st_of(old(env)@, old(out).deep_view())),
        e < old(env)@.len(),
        vals_wf(objs_view(items@), old(env)@.len() as int),
    ensures
        eval_post(
            st_of(old(env)@, old(out).deep_view()),
            st_of(final(env)@, final(out).deep_view()),
            r,
            filter_spec(
                fuel as nat,
                objs_view(items@),
                e as int,
                st_of(old(env)@, old(out).deep_view()),
            ),
        ),
    decreases fuel, 2int, 0int,
{
    proof {
        lemma_objs_view(items@);
        lemma_vals_wf(objs_view(items@), old(env)@.len() as int);
    }
    if items.len() != 3 {
        return Result::Err(Error::ArityError(String::from_str("filter")));
    }
    proof {
        lemma_val_at(items@, 1, env@.len() as int);
    }
    let lv = match eval_obj(&items[1], e, fuel - 1, env, out) {
        Result::Err(er) => {
            return Result::Err(er);
        }
        Result::Ok(v) => v,
    };
    let ghost len1 = env@.len() as int;
    proof {
        lemma_vals_wf_mono(objs_view(items@), old(env)@.len() as int, env@.len() as int);
        lemma_val_at(items@, 2, env@.len() as int);
    }
    let cv = match eval_obj(&items[2], e, fuel - 1, env, out) {
        Result::Err(er) => {
            return Result::Err(er);
        }
        Result::Ok(v) => v,
    };
    proof {
        lemma_val_wf_mono(lv@, len1, env@.len() as int);
    }
    match lv {
        Object::Lambda(params, body, cenv) => {
            if params.len() != 1 {
                return Result::Err(Error::ArityError(String::from_str("filter")));
            }
            match cv {
                Object::ListData(elems) => {
                    let ghost bodyv = objs_view(body@);
                    let bodyform = Object::List(body);
                    let ghost st2 = st_of(env@, out.deep_view());
                    let ghost ev = objs_view(elems@);
                    let ghost pv = params.deep_view();
                    proof {
                        lemma_objs_view(elems@);
                        assert(ev.skip(0) =~= ev);
                    }
                    let mut resv: Vec<Object> = Vec::new();
                    let mut i: usize = 0;
                    while i < elems.len()
                        invariant
                            i <= elems@.len(),
                            ev == objs_view(elems@),
                            ev.len() == elems@.len(),
                            forall|t: int| 0 <= t < ev.len() ==> ev[t] == obj_view(#[trigger] elems@[t]),
                            state_wf(st_of(env@, out.deep_view())),
                            0 <= cenv < env@.len(),
                            st2.frames.len() <= env@.len(),
                            st0_len_le(st_of(old(env)@, old(out).deep_view()), env@.len() as int),
                            vals_wf(ev, env@.len() as int),
                            val_wf(bodyform@, env@.len() as int),
                            forall|t: int|
                                0 <= t < resv@.len() ==> val_wf(
                                    obj_view(#[trigger] resv@[t]),
                                    env@.len() as int,
                                ),
                            filter_run(fuel as nat, ev, pv[0], bodyv, cenv as int, st2, Seq::empty())
                                == filter_run(
                                fuel as nat,
                                ev.skip(i as int),
                                pv[0],
                                bodyv,
                                cenv as int,
                                st_of(env@, out.deep_view()),
                                objs_view(resv@),
                            ),
                        decreases elems@.len() - i,
                    {
                        proof {
                            assert(ev.skip(i as int)[0] == ev[i as int]);
                            assert(ev.skip(i as int).drop_first() =~= ev.skip(i as int + 1));
                            lemma_vals_wf(ev, env@.len() as int);
                        }
                        let ghost st_pre = st_of(env@, out.deep_view());
                        let ne = env.extend(cenv);
                        let a = elems[i].duplicate();
                        env.set(ne, &params[0], a);
                        proof {
                            assert(env@ =~= st_pre.frames.push(
                                FrameV {
                                    parent: Option::Some(cenv as int),
                                    bindings: Map::empty().insert(pv[0], ev[i as int]),
                                },
                            ));
                            assert forall|k: Seq<char>| #[trigger]
                                Map::empty().insert(pv[0], ev[i as int]).contains_key(k) implies val_wf(
                                Map::empty().insert(pv[0], ev[i as int])[k],
                                env@.len() as int,
                            ) by {
                                lemma_val_wf_mono(ev[i as int], st_pre.frames.len() as int, env@.len() as int);
                            }
                            lemma_fwf_mono(st_pre.frames, st_pre.frames.len() as int, env@.len() as int);
                            lemma_fwf_push(
                                st_pre.frames,
                                FrameV {
                                    parent: Option::Some(cenv as int),
                                    bindings: Map::empty().insert(pv[0], ev[i as int]),
                                },
                                env@.len() as int,
                            );
                            lemma_val_wf_mono(bodyform@, st_pre.frames.len() as int, env@.len() as int);
                        }
                        let v = match eval_obj(&bodyform, ne, fuel - 1, env, out) {
                            Result::Err(er) => {
                                return Result::Err(er);
                            }
                            Result::Ok(v) => v,
                        };
                        let ghost pre_res = resv@;
                        let keep = match &v {
                            Object::Bool(b) => *b,
                            _ => false,
                        };
                        if keep {
                            let kept = elems[i].duplicate();
                            resv.push(kept);
                            proof {
                                lemma_objs_view_push(pre_res, resv@.last());
                            }
                        }
                        proof {
                            lemma_vals_wf_mono(ev, st_pre.frames.len() as int, env@.len() as int);
                            lemma_val_wf_mono(bodyform@, st_pre.frames.len() as int, env@.len() as int);
                            assert forall|t: int| 0 <= t < resv@.len() implies val_wf(
                                obj_view(#[trigger] resv@[t]),
                                env@.len() as int,
                            ) by {
                                if t < pre_res.len() {
                                    assert(resv@[t] == pre_res[t]);
                                }
                                lemma_vals_wf(ev, env@.len() as int);
                                if t < pre_res.len() {
                                    lemma_val_wf_mono(
                                        obj_view(pre_res[t]),
                                        st_pre.frames.len() as int,
                                        env@.len() as int,
                                    );
                                }
                            }
                        }
                        i = i + 1;
                    }
                    proof {
                        assert(ev.skip(elems@.len() as int) =~= Seq::<Val>::empty());
                        lemma_objs_view(resv@);
                        lemma_vals_wf(objs_view(resv@), env@.len() as int);
                    }
                    Result::Ok(Object::ListData(resv))
                }
                other => Result::Err(Error::TypeError(String::from_str("filter"), make_one(other))),
            }
        }
        other => Result::Err(Error::TypeError(String::from_str("filter"), make_one(other))),
    }
}

/// `reduce`: fold the arity-two lambda over the evaluated list data,
/// starting from the evaluated seed.
#[verifier::loop_isolation(false)]
fn eval_reduce(
    items: &Vec<Object>,
    e: usize,
    fuel: u64,
    env: &mut Env,
    out: &mut Vec<String>,
) -> (r: Result<Object, Error>)
    requires
        fuel >= 1,
        items@.len() >= 1,
        state_wf(st_of(old(env)@, old(out).deep_view())),
        e < old(env)@.len(),
        vals_wf(objs_view(items@), old(env)@.len() as int),
    ensures
        eval_post(
            st_of(old(env)@, old(out).deep_view()),
            st_of(final(env)@, final(out).deep_view()),
            r,
            reduce_spec(
                fuel as nat,
                objs_view(items@),
                e as int,
                st_of(old(env)@, old(out).deep_view()),
            ),
        ),
    decreases fuel, 2int, 0int,
{
    proof {
        lemma_objs_view(items@);
        lemma_vals_wf(objs_view(items@), old(env)@.len() as int);
    }
    if items.len() != 4 {
        return Result::Err(Error::ArityError(String::from_str("reduce")));
    }
    proof {
        lemma_val_at(items@, 1, env@.len() as int);
    }
    let lv = match eval_obj(&items[1], e, fuel - 1, env, out) {
        Result::Err(er) => {
            return Result::Err(er);
        }
        Result::Ok(v) => v,
    };
    let ghost len1 = env@.len() as int;
    proof {
        lemma_vals_wf_mono(objs_view(items@), old(env)@.len() as int, env@.len() as int);
        lemma_val_at(items@, 3, env@.len() as int);
    }
    let cv = match eval_obj(&items[3], e, fuel - 1, env, out) {
        Result::Err(er) => {
            return Result::Err(er);
        }
        Result::Ok(v) => v,
    };
    proof {
        lemma_val_wf_mono(lv@, len1, env@.len() as int);
    }
    match lv {
        Object::Lambda(params, body, cenv) => {
            if params.len() != 2 {
                return Result::Err(Error::ArityError(String::from_str("reduce")));
            }
            match cv {
                Object::ListData(elems) => {
                    let ghost len2 = env@.len() as int;
                    proof {
                        lemma_vals_wf_mono(objs_view(items@), old(env)@.len() as int, len2);
                        lemma_val_at(items@, 2, len2);
                    }
                    let seed = match eval_obj(&items[2], e, fuel - 1, env, out) {
                        Result::Err(er) => {
                            return Result::Err(er);
                        }
                        Result::Ok(v) => v,
                    };
                    let ghost bodyv = objs_view(body@);
                    let bodyform = Object::List(body);
                    let ghost st3 = st_of(env@, out.deep_view());
                    let ghost ev = objs_view(elems@);
                    let ghost pv = params.deep_view();
                    proof {
                        lemma_objs_view(elems@);
                        assert(ev.skip(0) =~= ev);
                        lemma_val_wf_mono(lv@, len1, env@.len() as int);
                        lemma_vals_wf_mono(ev, len2, env@.len() as int);
                    }
                    let mut accv: Object = seed;
                    let mut i: usize = 0;
                    while i < elems.len()
                        invariant
                            i <= elems@.len(),
                            ev == objs_view(elems@),
                            ev.len() == elems@.len(),
                            forall|t: int| 0 <= t < ev.len() ==> ev[t] == obj_view(#[trigger] elems@[t]),
                            state_wf(st_of(env@, out.deep_view())),
                            0 <= cenv < env@.len(),
                            st3.frames.len() <= env@.len(),
                            st0_len_le(st_of(old(env)@, old(out).deep_view()), env@.len() as int),
                            vals_wf(ev, env@.len() as int),
                            val_wf(bodyform@, env@.len() as int),
                            val_wf(accv@, env@.len() as int),
                            reduce_run(fuel as nat, ev, pv[0], pv[1], bodyv, cenv as int, st3, seed@)
                                == reduce_run(
                                fuel as nat,
                                ev.skip(i as int),
                                pv[0],
                                pv[1],
                                bodyv,
                                cenv as int,
                                st_of(env@, out.deep_view()),
                                accv@,
                            ),
                        decreases elems@.len() - i,
                    {
                        proof {
                            assert(ev.skip(i as int)[0] == ev[i as int]);
                            assert(ev.skip(i as int).drop_first() =~= ev.skip(i as int + 1));
                            lemma_vals_wf(ev, env@.len() as int);
                        }
                        let ghost st_pre = st_of(env@, out.deep_view());
                        let ghost av = accv@;
                        let ne = env.extend(cenv);
                        env.set(ne, &params[0], accv);
                        let b = elems[i].duplicate();
                        env.set(ne, &params[1], b);
                        proof {
                            assert(env@ =~= st_pre.frames.push(
                                FrameV {
                                    parent: Option::Some(cenv as int),
                                    bindings: Map::empty().insert(pv[0], av).insert(
                                        pv[1],
                                        ev[i as int],
                                    ),
                                },
                            ));
                            assert forall|k: Seq<char>| #[trigger]
                                Map::empty().insert(pv[0], av).insert(pv[1], ev[i as int]).contains_key(
                                k,
                            ) implies val_wf(
                                Map::empty().insert(pv[0], av).insert(pv[1], ev[i as int])[k],
                                env@.len() as int,
                            ) by {
                                lemma_val_wf_mono(ev[i as int], st_pre.frames.len() as int, env@.len() as int);
                                lemma_val_wf_mono(av, st_pre.frames.len() as int, env@.len() as int);
                            }
                            lemma_fwf_mono(st_pre.frames, st_pre.frames.len() as int, env@.len() as int);
                            lemma_fwf_push(
                                st_pre.frames,
                                FrameV {
                                    parent: Option::Some(cenv as int),
                                    bindings: Map::empty().insert(pv[0], av).insert(
                                        pv[1],
                                        ev[i as int],
                                    ),
                                },
                                env@.len() as int,
                            );
                            lemma_val_wf_mono(bodyform@, st_pre.frames.len() as int, env@.len() as int);
                        }
                        let v = match eval_obj(&bodyform, ne, fuel - 1, env, out) {
                            Result::Err(er) => {
                                return Result::Err(er);
                            }
                            Result::Ok(v) => v,
                        };
                        accv = v;
                        proof {
                            lemma_vals_wf_mono(ev, st_pre.frames.len() as int, env@.len() as int);
                            lemma_val_wf_mono(bodyform@, st_pre.frames.len() as int, env@.len() as int);
                        }
                        i = i + 1;
                    }
                    proof {
                        assert(ev.skip(elems@.len() as int) =~= Seq::<Val>::empty());
                    }
                    Result::Ok(accv)
                }
                other => Result::Err(Error::TypeError(String::from_str("reduce"), make_one(other))),
            }
        }
        other => Result::Err(Error::TypeError(String::from_str("reduce"), make_one(other))),
    }
}

/// A bound used by the loop invariants: the entry state has no more
/// frames than the current environment.
pub open spec fn st0_len_le(st0: StateV, n: int) -> bool {
    st0.frames.len() <= n
}

/// The nesting budget of a top-level evaluation. Only steps into
/// subforms and into lambda bodies consume it, never the native stack;
/// a program would need that many nested steps to exhaust it.
pub const TOP_FUEL: u64 = 0xffff_ffff_ffff_ffff;

/// Evaluate a whole program text against the session environment: lex,
/// parse to exactly one root form, then evaluate that form against the
/// root frame, with a nesting budget that tail calls never consume the
/// stack for.
pub fn eval(program: &str, env: &mut Env, out: &mut Vec<String>) -> (r: Result<Object, Error>)
    requires
        state_wf(st_of(old(env)@, old(out).deep_view())),
    ensures
        ({
            let st0 = st_of(old(env)@, old(out).deep_view());
            match crate::lexer::tokenize_spec(program@, 0, Seq::empty()) {
                Result::Err(wv) => {
                    &&& r matches Result::Err(e)
                    &&& r->Err_0@ == ErrV::ParseError("Unterminated string: "@ + wv)
                    &&& final(env)@ == old(env)@
                    &&& final(out).deep_view() == old(out).deep_view()
                },
                Result::Ok(tv) => match crate::parser::parse_spec(tv) {
                    Result::Err(_) => {
                        &&& r matches Result::Err(e)
                        &&& r->Err_0@ is ParseError
                        &&& final(env)@ == old(env)@
                        &&& final(out).deep_view() == old(out).deep_view()
                    },
                    Result::Ok(form) => eval_post(
                        st0,
                        st_of(final(env)@, final(out).deep_view()),
                        r,
                        eval_spec(TOP_FUEL as nat, form, 0, st0),
                    ),
                },
            }
        }),
{
    let toks = match crate::lexer::tokenize(program) {
        Result::Err(te) => {
            return Result::Err(Error::ParseError(te.err));
        }
        Result::Ok(ts) => ts,
    };
    let form = match crate::parser::parse(&toks) {
        Result::Err(e) => {
            return Result::Err(e);
        }
        Result::Ok(o) => o,
    };
    proof {
        crate::parser::lemma_parse_form_wf(
            crate::lexer::toks_view(toks@),
            0,
            env@.len() as int,
        );
    }
    eval_obj(&form, 0, TOP_FUEL, env, out)
}

/// Referencing a name that is neither a reserved literal nor bound
/// anywhere in the frame chain fails as `UnboundSymbol` naming that very
/// symbol — it never silently yields `Void` — and leaves the state
/// untouched.
pub proof fn law_unbound_symbol(fuel: nat, s: Seq<char>, e: int, st: StateV)
    requires
        fuel >= 1,
        s != "true"@,
        s != "false"@,
        s != "nil"@,
        lookup_spec(st.frames, e, s) is None,
    ensures
        eval_spec(fuel, Val::Symbol(s), e, st) == (
            st,
            Result::<Val, ErrV>::Err(ErrV::UnboundSymbol(s)),
        ),
{
}

/// An `if` whose condition evaluates to a non-boolean fails as a type
/// error carrying the offending value, and neither branch is evaluated:
/// the outcome is identical whatever forms stand in the two branches.
pub proof fn law_if_non_bool(
    fuel: nat,
    c: Val,
    t1: Val,
    e1: Val,
    t2: Val,
    e2: Val,
    e: int,
    st: StateV,
)
    requires
        fuel >= 1,
        eval_spec((fuel - 1) as nat, c, e, st).1 matches Result::Ok(v) && !(v is Bool),
    ensures
        eval_spec(fuel, Val::List(seq![Val::If, c, t1, e1]), e, st) == (
            eval_spec((fuel - 1) as nat, c, e, st).0,
            Result::<Val, ErrV>::Err(
                ErrV::TypeError("if"@, seq![eval_spec((fuel - 1) as nat, c, e, st).1->Ok_0]),
            ),
        ),
        eval_spec(fuel, Val::List(seq![Val::If, c, t2, e2]), e, st) == eval_spec(
            fuel,
            Val::List(seq![Val::If, c, t1, e1]),
            e,
            st,
        ),
{
    let items1 = seq![Val::If, c, t1, e1];
    let items2 = seq![Val::If, c, t2, e2];
    assert(items1.len() == 4);
    assert(items2.len() == 4);
    assert(items1[0] is If);
    assert(items2[0] is If);
    assert(items1[1] == c);
    assert(items2[1] == c);
    assert(eval_spec(fuel, Val::List(items1), e, st) == if_spec(fuel, items1, e, st));
    assert(eval_spec(fuel, Val::List(items2), e, st) == if_spec(fuel, items2, e, st));
}

/// Every value bound by a positional parameter map is well formed.
proof fn lemma_binds_wf(params: Seq<Seq<char>>, args: Seq<Val>, n: int)
    requires
        vals_wf(args, n),
        params.len() <= args.len(),
    ensures
        forall|k: Seq<char>| #[trigger]
            binds(params, args).contains_key(k) ==> val_wf(binds(params, args)[k], n),
    decreases params,
{
    if params.len() > 0 {
        lemma_vals_wf(args, n);
        lemma_vals_wf(args.drop_last(), n);
        assert(forall|t: int| 0 <= t < args.len() - 1 ==> args.drop_last()[t] == args[t]);
        assert(vals_wf(args.drop_last(), n));
        lemma_binds_wf(params.drop_last(), args.drop_last(), n);
        let m = binds(params, args);
        assert forall|k: Seq<char>| #[trigger] m.contains_key(k) implies val_wf(m[k], n) by {
            if k == params.last() {
                assert(m[k] == args.last());
                assert(val_wf(args[args.len() - 1], n));
            } else {
                assert(binds(params.drop_last(), args.drop_last()).contains_key(k));
            }
        }
    }
}

proof fn lemma_binds_wf_mono(params: Seq<Seq<char>>, args: Seq<Val>, n: int, m: int)
    requires
        vals_wf(args, n),
        params.len() <= args.len(),
        n <= m,
    ensures
        forall|k: Seq<char>| #[trigger]
            binds(params, args).contains_key(k) ==> val_wf(binds(params, args)[k], m),
{
    lemma_vals_wf(args, n);
    lemma_vals_wf_mono(args, n, m);
    lemma_binds_wf(params, args, m);
}

} // verus!
