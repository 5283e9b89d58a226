//! Type-directed dispatch of the binary operators `+ - * / % < > = != & |`.
//! Both operands are already evaluated; the dispatch itself is pure.
//!
//! Integer arithmetic uses two's-complement wrapping semantics and native
//! truncating division and remainder; division or remainder by zero is
//! reported as a typed error.
use vstd::arithmetic::div_mod::{
    lemma_div_is_ordered_by_denominator, lemma_div_nonincreasing, lemma_div_pos_is_pos,
};
use vstd::prelude::*;
use vstd::string::StringExecFns;

use crate::env::string_eq;
use crate::errors::{ErrV, Error};
use crate::object::{str_eq_str, str_lt, string_lt, val_wf, Object, Val};

verus! {

pub open spec fn wrap_add(x: int, y: int) -> int {
    if x + y > i64::MAX {
        x + y - 0x1_0000_0000_0000_0000
    } else if x + y < i64::MIN {
        x + y + 0x1_0000_0000_0000_0000
    } else {
        x + y
    }
}

pub open spec fn wrap_sub(x: int, y: int) -> int {
    if x - y > i64::MAX {
        x - y - 0x1_0000_0000_0000_0000
    } else if x - y < i64::MIN {
        x - y + 0x1_0000_0000_0000_0000
    } else {
        x - y
    }
}

pub open spec fn signed_crop(x: int) -> int {
    if (x % 0x1_0000_0000_0000_0000) > i64::MAX {
        (x % 0x1_0000_0000_0000_0000) - 0x1_0000_0000_0000_0000
    } else {
        x % 0x1_0000_0000_0000_0000
    }
}

pub open spec fn wrap_mul(x: int, y: int) -> int {
    signed_crop(x * y)
}

/// Division truncating toward zero, as the native integer division does.
pub open spec fn trunc_div(x: int, d: int) -> int {
    if x == 0 {
        0
    } else if x > 0 && d > 0 {
        x / d
    } else if x < 0 && d < 0 {
        (x * -1) / (d * -1)
    } else if x < 0 {
        ((x * -1) / d) * -1
    } else {
        (x / (d * -1)) * -1
    }
}

/// Remainder matching truncating division: the result takes the sign of
/// the dividend.
pub open spec fn trunc_rem(x: int, d: int) -> int {
    if x == 0 {
        0
    } else if x > 0 && d > 0 {
        x % d
    } else if x < 0 && d < 0 {
        ((x * -1) % (d * -1)) * -1
    } else if x < 0 {
        ((x * -1) % d) * -1
    } else {
        x % (d * -1)
    }
}

/// What division of `x` by `d` yields in the evaluator, `d != 0`: the
/// truncated quotient, wrapped in the one overflowing case.
pub open spec fn div_value(x: int, d: int) -> int {
    if x == i64::MIN && d == -1 {
        i64::MIN as int
    } else {
        trunc_div(x, d)
    }
}

pub open spec fn rem_value(x: int, d: int) -> int {
    if x == i64::MIN && d == -1 {
        0
    } else {
        trunc_rem(x, d)
    }
}

/// The result of applying binary operator `op` to the evaluated operands
/// `l` and `r`, per the type and promotion rules of the language.
pub open spec fn apply_binop(op: Seq<char>, l: Val, r: Val) -> Result<Val, ErrV> {
    if op == "+"@ {
        match (l, r) {
            (Val::Integer(a), Val::Integer(b)) => Result::Ok(Val::Integer(wrap_add(a, b))),
            (Val::Str(a), Val::Str(b)) => Result::Ok(Val::Str(a + b)),
            _ => Result::Err(ErrV::TypeError(op, seq![l, r])),
        }
    } else if op == "-"@ {
        match (l, r) {
            (Val::Integer(a), Val::Integer(b)) => Result::Ok(Val::Integer(wrap_sub(a, b))),
            _ => Result::Err(ErrV::TypeError(op, seq![l, r])),
        }
    } else if op == "*"@ {
        match (l, r) {
            (Val::Integer(a), Val::Integer(b)) => Result::Ok(Val::Integer(wrap_mul(a, b))),
            _ => Result::Err(ErrV::TypeError(op, seq![l, r])),
        }
    } else if op == "/"@ {
        match (l, r) {
            (Val::Integer(a), Val::Integer(b)) => if b == 0 {
                Result::Err(ErrV::DivisionByZero)
            } else {
                Result::Ok(Val::Integer(div_value(a, b)))
            },
            _ => Result::Err(ErrV::TypeError(op, seq![l, r])),
        }
    } else if op == "%"@ {
        match (l, r) {
            (Val::Integer(a), Val::Integer(b)) => if b == 0 {
                Result::Err(ErrV::DivisionByZero)
            } else {
                Result::Ok(Val::Integer(rem_value(a, b)))
            },
            _ => Result::Err(ErrV::TypeError(op, seq![l, r])),
        }
    } else if op == "<"@ {
        match (l, r) {
            (Val::Integer(a), Val::Integer(b)) => Result::Ok(Val::Bool(a < b)),
            (Val::Str(a), Val::Str(b)) => Result::Ok(Val::Bool(str_lt(a, b))),
            _ => Result::Err(ErrV::TypeError(op, seq![l, r])),
        }
    } else if op == ">"@ {
        match (l, r) {
            (Val::Integer(a), Val::Integer(b)) => Result::Ok(Val::Bool(a > b)),
            (Val::Str(a), Val::Str(b)) => Result::Ok(Val::Bool(str_lt(b, a))),
            _ => Result::Err(ErrV::TypeError(op, seq![l, r])),
        }
    } else if op == "="@ {
        match (l, r) {
            (Val::Integer(a), Val::Integer(b)) => Result::Ok(Val::Bool(a == b)),
            (Val::Str(a), Val::Str(b)) => Result::Ok(Val::Bool(a == b)),
            _ => Result::Err(ErrV::TypeError(op, seq![l, r])),
        }
    } else if op == "!="@ {
        match (l, r) {
            (Val::Integer(a), Val::Integer(b)) => Result::Ok(Val::Bool(a != b)),
            (Val::Str(a), Val::Str(b)) => Result::Ok(Val::Bool(a != b)),
            _ => Result::Err(ErrV::TypeError(op, seq![l, r])),
        }
    } else if op == "&"@ {
        match (l, r) {
            (Val::Bool(a), Val::Bool(b)) => Result::Ok(Val::Bool(a && b)),
            _ => Result::Err(ErrV::TypeError(op, seq![l, r])),
        }
    } else if op == "|"@ {
        match (l, r) {
            (Val::Bool(a), Val::Bool(b)) => Result::Ok(Val::Bool(a || b)),
            _ => Result::Err(ErrV::TypeError(op, seq![l, r])),
        }
    } else {
        Result::Err(ErrV::MalformedForm(op))
    }
}

/// Apply a binary operator to two evaluated operands.
pub fn apply_binop_values(op: &String, l: Object, r: Object) -> (res: Result<Object, Error>)
    ensures
        crate::errors::res_view(res) == apply_binop(op@, l@, r@),
        res matches Result::Ok(o) ==> forall|n: int| val_wf(#[trigger] o@, n),
{
    if str_eq_str(op.as_str(), "+") {
        match (l, r) {
            (Object::Integer(a), Object::Integer(b)) => Result::Ok(
                Object::Integer(a.wrapping_add(b)),
            ),
            (Object::Str(a), Object::Str(b)) => Result::Ok(Object::Str(a.concat(b.as_str()))),
            (lv, rv) => Result::Err(Error::TypeError(op.clone(), make_pair(lv, rv))),
        }
    } else if str_eq_str(op.as_str(), "-") {
        match (l, r) {
            (Object::Integer(a), Object::Integer(b)) => Result::Ok(
                Object::Integer(a.wrapping_sub(b)),
            ),
            (lv, rv) => Result::Err(Error::TypeError(op.clone(), make_pair(lv, rv))),
        }
    } else if str_eq_str(op.as_str(), "*") {
        match (l, r) {
            (Object::Integer(a), Object::Integer(b)) => Result::Ok(
                Object::Integer(a.wrapping_mul(b)),
            ),
            (lv, rv) => Result::Err(Error::TypeError(op.clone(), make_pair(lv, rv))),
        }
    } else if str_eq_str(op.as_str(), "/") {
        match (l, r) {
            (Object::Integer(a), Object::Integer(b)) => {
                if b == 0 {
                    Result::Err(Error::DivisionByZero)
                } else {
                    match a.checked_div(b) {
                        Option::Some(q) => Result::Ok(Object::Integer(q)),
                        Option::None => {
                            proof {
                                if !(a == i64::MIN && b == -1) {
                                    lemma_div_in_range(a as int, b as int);
                                }
                            }
                            Result::Ok(Object::Integer(i64::MIN))
                        }
                    }
                }
            }
            (lv, rv) => Result::Err(Error::TypeError(op.clone(), make_pair(lv, rv))),
        }
    } else if str_eq_str(op.as_str(), "%") {
        match (l, r) {
            (Object::Integer(a), Object::Integer(b)) => {
                if b == 0 {
                    Result::Err(Error::DivisionByZero)
                } else {
                    match a.checked_rem(b) {
                        Option::Some(q) => Result::Ok(Object::Integer(q)),
                        Option::None => Result::Ok(Object::Integer(0)),
                    }
                }
            }
            (lv, rv) => Result::Err(Error::TypeError(op.clone(), make_pair(lv, rv))),
        }
    } else if str_eq_str(op.as_str(), "<") {
        match (l, r) {
            (Object::Integer(a), Object::Integer(b)) => Result::Ok(Object::Bool(a < b)),
            (Object::Str(a), Object::Str(b)) => Result::Ok(Object::Bool(string_lt(&a, &b))),
            (lv, rv) => Result::Err(Error::TypeError(op.clone(), make_pair(lv, rv))),
        }
    } else if str_eq_str(op.as_str(), ">") {
        match (l, r) {
            (Object::Integer(a), Object::Integer(b)) => Result::Ok(Object::Bool(a > b)),
            (Object::Str(a), Object::Str(b)) => Result::Ok(Object::Bool(string_lt(&b, &a))),
            (lv, rv) => Result::Err(Error::TypeError(op.clone(), make_pair(lv, rv))),
        }
    } else if str_eq_str(op.as_str(), "=") {
        match (l, r) {
            (Object::Integer(a), Object::Integer(b)) => Result::Ok(Object::Bool(a == b)),
            (Object::Str(a), Object::Str(b)) => Result::Ok(Object::Bool(string_eq(&a, &b))),
            (lv, rv) => Result::Err(Error::TypeError(op.clone(), make_pair(lv, rv))),
        }
    } else if str_eq_str(op.as_str(), "!=") {
        match (l, r) {
            (Object::Integer(a), Object::Integer(b)) => Result::Ok(Object::Bool(a != b)),
            (Object::Str(a), Object::Str(b)) => Result::Ok(Object::Bool(!string_eq(&a, &b))),
            (lv, rv) => Result::Err(Error::TypeError(op.clone(), make_pair(lv, rv))),
        }
    } else if str_eq_str(op.as_str(), "&") {
        match (l, r) {
            (Object::Bool(a), Object::Bool(b)) => Result::Ok(Object::Bool(a && b)),
            (lv, rv) => Result::Err(Error::TypeError(op.clone(), make_pair(lv, rv))),
        }
    } else if str_eq_str(op.as_str(), "|") {
        match (l, r) {
            (Object::Bool(a), Object::Bool(b)) => Result::Ok(Object::Bool(a || b)),
            (lv, rv) => Result::Err(Error::TypeError(op.clone(), make_pair(lv, rv))),
        }
    } else {
        Result::Err(Error::MalformedForm(op.clone()))
    }
}

fn make_pair(l: Object, r: Object) -> (v: Vec<Object>)
    ensures
        crate::object::objs_view(v@) == seq![l@, r@],
{
    let ghost lv = l@;
    let ghost rv = r@;
    let mut v: Vec<Object> = Vec::new();
    v.push(l);
    v.push(r);
    proof {
        crate::object::lemma_objs_view(v@);
        assert(crate::object::objs_view(v@) =~= seq![lv, rv]);
    }
    v
}

/// In every case but `i64::MIN / -1`, the truncated quotient of two `i64`
/// values is again an `i64` value.
proof fn lemma_div_in_range(x: int, d: int)
    requires
        i64::MIN <= x <= i64::MAX,
        i64::MIN <= d <= i64::MAX,
        d != 0,
        !(x == i64::MIN && d == -1),
    ensures
        i64::MIN <= trunc_div(x, d) <= i64::MAX,
{
    if x == 0 {
    } else if x > 0 && d > 0 {
        lemma_div_pos_is_pos(x, d);
        lemma_div_nonincreasing(x, d);
    } else if x < 0 && d < 0 {
        lemma_div_pos_is_pos(x * -1, d * -1);
        lemma_div_nonincreasing(x * -1, d * -1);
        if x == i64::MIN {
            lemma_div_is_ordered_by_denominator(x * -1, 2, d * -1);
            assert(x * -1 == 0x8000_0000_0000_0000int);
            assert(0x8000_0000_0000_0000int / 2 == 0x4000_0000_0000_0000int);
        }
    } else if x < 0 {
        lemma_div_pos_is_pos(x * -1, d);
        lemma_div_nonincreasing(x * -1, d);
    } else {
        lemma_div_pos_is_pos(x, d * -1);
        lemma_div_nonincreasing(x, d * -1);
    }
}

} // verus!