//! The parser: a token stream to a single nested list-of-forms AST. The
//! program must be one parenthesized root form with nothing after it.
use vstd::prelude::*;
use vstd::string::StringExecFns;

use crate::errors::Error;
use crate::lexer::{tok_view, toks_view, TokV, Token};
use crate::object::{obj_view, objs_view, val_wf, Object, Val};

verus! {

/// Parse one form at position `i`: the next position and the form, or a
/// failure (end of input, or a stray closing parenthesis).
pub open spec fn parse_form_spec(toks: Seq<TokV>, i: int) -> Result<(int, Val), ()>
    decreases toks.len() - i, 0nat,
{
    if i < 0 || i >= toks.len() {
        Result::Err(())
    } else {
        match toks[i] {
            TokV::Integer(n) => Result::Ok((i + 1, Val::Integer(n))),
            TokV::Str(s) => Result::Ok((i + 1, Val::Str(s))),
            TokV::Symbol(s) => Result::Ok((i + 1, Val::Symbol(s))),
            TokV::Keyword(s) => Result::Ok((i + 1, Val::Keyword(s))),
            TokV::If => Result::Ok((i + 1, Val::If)),
            TokV::BinaryOp(s) => Result::Ok((i + 1, Val::BinaryOp(s))),
            TokV::LParen => match parse_items_spec(toks, i + 1, Seq::empty()) {
                Result::Ok((j, items)) => Result::Ok((j, Val::List(items))),
                Result::Err(e) => Result::Err(e),
            },
            TokV::RParen => Result::Err(()),
        }
    }
}

/// Parse forms until the matching closing parenthesis, which is consumed.
pub open spec fn parse_items_spec(toks: Seq<TokV>, i: int, acc: Seq<Val>) -> Result<
    (int, Seq<Val>),
    (),
>
    decreases toks.len() - i, 1nat,
{
    if i < 0 || i >= toks.len() {
        Result::Err(())
    } else if toks[i] is RParen {
        Result::Ok((i + 1, acc))
    } else {
        match parse_form_spec(toks, i) {
            Result::Ok((j, v)) => if i < j <= toks.len() {
                parse_items_spec(toks, j, acc.push(v))
            } else {
                Result::Err(())
            },
            Result::Err(e) => Result::Err(e),
        }
    }
}

/// The program must reduce to exactly one parenthesized root form.
pub open spec fn parse_spec(toks: Seq<TokV>) -> Result<Val, ()> {
    if toks.len() == 0 || !(toks[0] is LParen) {
        Result::Err(())
    } else {
        match parse_form_spec(toks, 0) {
            Result::Ok((j, v)) => if j == toks.len() {
                Result::Ok(v)
            } else {
                Result::Err(())
            },
            Result::Err(e) => Result::Err(e),
        }
    }
}

/// A successful parse consumes at least one token and never runs past the
/// end of the stream.
pub proof fn lemma_parse_form_progress(toks: Seq<TokV>, i: int)
    ensures
        parse_form_spec(toks, i) matches Result::Ok(jv) ==> i < jv.0 <= toks.len(),
    decreases toks.len() - i, 0nat,
{
    if 0 <= i < toks.len() {
        if toks[i] is LParen {
            lemma_parse_items_progress(toks, i + 1, Seq::empty());
        }
    }
}

pub proof fn lemma_parse_items_progress(toks: Seq<TokV>, i: int, acc: Seq<Val>)
    ensures
        parse_items_spec(toks, i, acc) matches Result::Ok(jv) ==> i < jv.0 <= toks.len(),
    decreases toks.len() - i, 1nat,
{
    if 0 <= i < toks.len() && !(toks[i] is RParen) {
        lemma_parse_form_progress(toks, i);
        match parse_form_spec(toks, i) {
            Result::Ok(jv) => {
                if i < jv.0 <= toks.len() {
                    lemma_parse_items_progress(toks, jv.0, acc.push(jv.1));
                }
            }
            Result::Err(_) => {}
        }
    }
}

/// A parsed form contains no lambdas, so it is well formed for any
/// environment.
pub proof fn lemma_parse_form_wf(toks: Seq<TokV>, i: int, n: int)
    ensures
        parse_form_spec(toks, i) matches Result::Ok(jv) ==> val_wf(jv.1, n),
    decreases toks.len() - i, 0nat,
{
    if 0 <= i < toks.len() {
        if toks[i] is LParen {
            lemma_parse_items_wf(toks, i + 1, Seq::empty(), n);
        }
    }
}

pub proof fn lemma_parse_items_wf(toks: Seq<TokV>, i: int, acc: Seq<Val>, n: int)
    requires
        crate::object::vals_wf(acc, n),
    ensures
        parse_items_spec(toks, i, acc) matches Result::Ok(jv) ==> crate::object::vals_wf(jv.1, n),
    decreases toks.len() - i, 1nat,
{
    if 0 <= i < toks.len() && !(toks[i] is RParen) {
        lemma_parse_form_wf(toks, i, n);
        lemma_parse_form_progress(toks, i);
        match parse_form_spec(toks, i) {
            Result::Ok(jv) => {
                if i < jv.0 <= toks.len() {
                    crate::object::lemma_vals_wf(acc, n);
                    crate::object::lemma_vals_wf(acc.push(jv.1), n);
                    assert(forall|t: int| 0 <= t < acc.len() ==> acc.push(jv.1)[t] == acc[t]);
                    lemma_parse_items_wf(toks, jv.0, acc.push(jv.1), n);
                }
            }
            Result::Err(_) => {}
        }
    }
}

/// Parse one form starting at `i`.
fn parse_form(toks: &Vec<Token>, i: usize) -> (r: Result<(usize, Object), Error>)
    requires
        i <= toks@.len(),
    ensures
        ({
            let so = parse_form_spec(toks_view(toks@), i as int);
            match r {
                Result::Ok((j, o)) => so == Result::<(int, Val), ()>::Ok(((j as int), o@)) && i < j
                    <= toks@.len(),
                Result::Err(e) => so is Err && e@ is ParseError,
            }
        }),
    decreases toks@.len() - i, 0nat,
{
    let ghost tv = toks_view(toks@);
    if i >= toks.len() {
        return Result::Err(Error::ParseError(String::from_str("unexpected end of input")));
    }
    match &toks[i] {
        Token::Integer(n) => Result::Ok((i + 1, Object::Integer(*n))),
        Token::Str(s) => Result::Ok((i + 1, Object::Str(s.clone()))),
        Token::Symbol(s) => Result::Ok((i + 1, Object::Symbol(s.clone()))),
        Token::Keyword(s) => Result::Ok((i + 1, Object::Keyword(s.clone()))),
        Token::If => Result::Ok((i + 1, Object::If)),
        Token::BinaryOp(s) => Result::Ok((i + 1, Object::BinaryOp(s.clone()))),
        Token::LParen => {
            match parse_items(toks, i + 1) {
                Result::Ok((j, items)) => {
                    proof {
                        crate::object::lemma_objs_view(items@);
                    }
                    Result::Ok((j, Object::List(items)))
                }
                Result::Err(e) => Result::Err(e),
            }
        }
        Token::RParen => Result::Err(
            Error::ParseError(String::from_str("unexpected closing parenthesis")),
        ),
    }
}

/// Parse forms until the matching closing parenthesis.
#[verifier::loop_isolation(false)]
fn parse_items(toks: &Vec<Token>, start: usize) -> (r: Result<(usize, Vec<Object>), Error>)
    requires
        start <= toks@.len(),
    ensures
        ({
            let so = parse_items_spec(toks_view(toks@), start as int, Seq::empty());
            match r {
                Result::Ok((j, items)) => so == Result::<(int, Seq<Val>), ()>::Ok(
                    ((j as int), objs_view(items@)),
                ) && start < j <= toks@.len(),
                Result::Err(e) => so is Err && e@ is ParseError,
            }
        }),
    decreases toks@.len() - start, 1nat,
{
    let ghost tv = toks_view(toks@);
    let mut items: Vec<Object> = Vec::new();
    let mut i: usize = start;
    proof {
        crate::object::lemma_objs_view(items@);
        assert(objs_view(items@) =~= Seq::<Val>::empty());
    }
    loop
        invariant
            start <= i <= toks@.len(),
            parse_items_spec(tv, start as int, Seq::empty()) == parse_items_spec(
                tv,
                i as int,
                objs_view(items@),
            ),
        decreases toks@.len() - i,
    {
        if i >= toks.len() {
            return Result::Err(Error::ParseError(String::from_str("unclosed parenthesis")));
        }
        let is_close = match &toks[i] {
            Token::RParen => true,
            _ => false,
        };
        if is_close {
            return Result::Ok((i + 1, items));
        }
        match parse_form(toks, i) {
            Result::Err(e) => {
                return Result::Err(e);
            }
            Result::Ok((j, o)) => {
                let ghost pre = items@;
                items.push(o);
                proof {
                    crate::eval::lemma_objs_view_push(pre, items@.last());
                }
                i = j;
            }
        }
    }
}

/// Parse a whole program: one parenthesized root form, nothing after it.
pub fn parse(toks: &Vec<Token>) -> (r: Result<Object, Error>)
    ensures
        ({
            let so = parse_spec(toks_view(toks@));
            match r {
                Result::Ok(o) => so == Result::<Val, ()>::Ok(o@),
                Result::Err(e) => so is Err && e@ is ParseError,
            }
        }),
{
    let ghost tv = toks_view(toks@);
    if toks.len() == 0 {
        return Result::Err(Error::ParseError(String::from_str("empty program")));
    }
    let starts_open = match &toks[0] {
        Token::LParen => true,
        _ => false,
    };
    if !starts_open {
        return Result::Err(
            Error::ParseError(String::from_str("a program must start with an opening parenthesis")),
        );
    }
    match parse_form(toks, 0) {
        Result::Err(e) => Result::Err(e),
        Result::Ok((j, o)) => {
            if j == toks.len() {
                Result::Ok(o)
            } else {
                Result::Err(
                    Error::ParseError(String::from_str("unexpected text after the program")),
                )
            }
        }
    }
}

} // verus!
