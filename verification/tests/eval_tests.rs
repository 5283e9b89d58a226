use lisp_rs::env::Env;
use lisp_rs::errors::Error;
use lisp_rs::eval::eval;
use lisp_rs::object::Object;

fn run(program: &str) -> Result<Object, Error> {
    let mut env = Env::new();
    let mut out: Vec<String> = Vec::new();
    eval(program, &mut env, &mut out)
}

#[test]
fn test_simple_add() {
    let mut env = Env::new();
    let mut out: Vec<String> = Vec::new();
    let result = eval("(+ 1 2)", &mut env, &mut out).unwrap();
    assert_eq!(result, Object::Integer(3))
}

#[test]
fn eval_test_area_of_a_circle() {
    let mut env = Env::new();
    let mut out: Vec<String> = Vec::new();
    let program = "( (define r 10) (define pi 314) (* pi (* r r)) )";
    let result = eval(program, &mut env, &mut out).unwrap();
    assert_eq!(
        result,
        Object::List(vec![Object::Integer((314 * 10 * 10) as i64)])
    )
}

#[test]
fn test_sqr_function() {
    let mut env = Env::new();
    let mut out: Vec<String> = Vec::new();
    let program = "( (define sqr (lambda (r) (* r r))) (sqr 10) )";
    let result = eval(program, &mut env, &mut out).unwrap();
    assert_eq!(result, Object::List(vec![Object::Integer(100)]));
}

#[test]
fn test_factorial() {
    let mut env = Env::new();
    let mut out: Vec<String> = Vec::new();
    let program = "
        (
            (define fact (lambda (n) (if (< n 1) 1 (* n (fact (- n 1))))))
            (fact 5)
        )
    ";
    let result = eval(program, &mut env, &mut out).unwrap();
    assert_eq!(result, Object::List(vec![Object::Integer(120 as i64)]));
}

#[test]
fn test_map() {
    let mut env = Env::new();
    let mut out: Vec<String> = Vec::new();
    let program = "\
    (
        (define sqr (lambda (r) (* r r)))
        (define coll (list 1 2 3 4 5))
        (map sqr coll)
    )
    ";
    let result = eval(program, &mut env, &mut out).unwrap();
    assert_eq!(
        result,
        Object::List(vec![Object::ListData(vec![
            Object::Integer(1),
            Object::Integer(4),
            Object::Integer(9),
            Object::Integer(16),
            Object::Integer(25),
        ])])
    )
}

#[test]
fn test_reduce() {
    let mut env = Env::new();
    let mut out: Vec<String> = Vec::new();
    let program = "(
        (define add (lambda (a b) (+ a b)))
        (define coll (list 1 2 3 4 5))
        (reduce add 0 coll)
    )";
    let result = eval(program, &mut env, &mut out).unwrap();
    assert_eq!(result, Object::List(vec![Object::Integer(15)]));
}

#[test]
fn test_filter() {
    let program = "(
        (define even (lambda (x) (= (% x 2) 0)))
        (define coll (list 1 2 3 4 5))
        (filter even coll)
    )";
    let result = run(program).unwrap();
    assert_eq!(
        result,
        Object::List(vec![Object::ListData(vec![
            Object::Integer(2),
            Object::Integer(4),
        ])])
    );
}

#[test]
fn test_string_concat() {
    let result = run("(+ \"a\" \"b\")").unwrap();
    assert_eq!(result, Object::Str("ab".to_string()));
}

#[test]
fn test_string_order() {
    assert_eq!(run("(< \"a\" \"b\")").unwrap(), Object::Bool(true));
    assert_eq!(run("(> \"a\" \"b\")").unwrap(), Object::Bool(false));
    assert_eq!(run("(= \"a\" \"a\")").unwrap(), Object::Bool(true));
    assert_eq!(run("(!= \"a\" \"b\")").unwrap(), Object::Bool(true));
}

#[test]
fn test_closures_capture_definition_environment() {
    let program = "(
        (define adder (lambda (a) (lambda (b) (+ a b))))
        (define add10 (adder 10))
        (add10 20)
    )";
    let result = run(program).unwrap();
    assert_eq!(result, Object::List(vec![Object::Integer(30)]));
}

#[test]
fn test_deep_tail_recursion_constant_stack() {
    let program = "(
        (define count (lambda (n) (if (< n 1) 0 (count (- n 1)))))
        (count 100000)
    )";
    let result = run(program).unwrap();
    assert_eq!(result, Object::List(vec![Object::Integer(0)]));
}

#[test]
fn test_unbound_symbol_is_an_error() {
    let result = run("(+ foo 1)");
    assert_eq!(result, Err(Error::UnboundSymbol("foo".to_string())));
}

#[test]
fn test_unbound_function() {
    let result = run("(foo 1)");
    assert_eq!(result, Err(Error::UnboundFunction("foo".to_string())));
}

#[test]
fn test_not_callable() {
    let result = run("( (define x 1) (x 2) )");
    assert_eq!(result, Err(Error::NotCallable("x".to_string())));
}

#[test]
fn test_if_non_boolean_condition_is_a_type_error() {
    let result = run("(if 1 2 3)");
    assert_eq!(
        result,
        Err(Error::TypeError("if".to_string(), vec![Object::Integer(1)]))
    );
}

#[test]
fn test_binary_op_type_error() {
    let result = run("(+ 1 \"a\")");
    assert_eq!(
        result,
        Err(Error::TypeError(
            "+".to_string(),
            vec![Object::Integer(1), Object::Str("a".to_string())]
        ))
    );
}

#[test]
fn test_define_arity_error() {
    let result = run("(define x)");
    assert_eq!(result, Err(Error::ArityError("define".to_string())));
}

#[test]
fn test_define_malformed() {
    let result = run("(define 1 2)");
    assert_eq!(result, Err(Error::MalformedForm("define".to_string())));
}

#[test]
fn test_call_with_missing_argument() {
    let result = run("( (define f (lambda (a b) (+ a b))) (f 1) )");
    assert_eq!(result, Err(Error::ArityError("f".to_string())));
}

#[test]
fn test_call_with_extra_arguments_ignores_surplus() {
    let result = run("( (define f (lambda (a) (+ a 0))) (f 1 2) )").unwrap();
    assert_eq!(result, Object::List(vec![Object::Integer(1)]));
}

#[test]
fn test_division_by_zero() {
    assert_eq!(run("(/ 1 0)"), Err(Error::DivisionByZero));
    assert_eq!(run("(% 1 0)"), Err(Error::DivisionByZero));
}

#[test]
fn test_truncating_division() {
    assert_eq!(run("(/ 7 2)").unwrap(), Object::Integer(3));
    assert_eq!(run("(/ -7 2)").unwrap(), Object::Integer(-3));
    assert_eq!(run("(% -7 2)").unwrap(), Object::Integer(-1));
}

#[test]
fn test_reserved_literals() {
    let result = run("(list true false nil)").unwrap();
    assert_eq!(
        result,
        Object::ListData(vec![
            Object::Bool(true),
            Object::Bool(false),
            Object::Void
        ])
    );
}

#[test]
fn test_boolean_operators() {
    assert_eq!(run("(& true false)").unwrap(), Object::Bool(false));
    assert_eq!(run("(| true false)").unwrap(), Object::Bool(true));
}

#[test]
fn test_defines_vanish_from_sequence_result() {
    let result = run("( (define a 1) (define b 2) )").unwrap();
    assert_eq!(result, Object::List(vec![]));
}

#[test]
fn test_print_writes_one_line() {
    let mut env = Env::new();
    let mut out: Vec<String> = Vec::new();
    let result = eval("( (print 1 \"x\" true) )", &mut env, &mut out).unwrap();
    assert_eq!(result, Object::List(vec![]));
    assert_eq!(out, vec!["1 \"x\" true".to_string()]);
}

#[test]
fn test_session_environment_persists_across_calls() {
    let mut env = Env::new();
    let mut out: Vec<String> = Vec::new();
    eval("( (define x 41) )", &mut env, &mut out).unwrap();
    let result = eval("(+ x 1)", &mut env, &mut out).unwrap();
    assert_eq!(result, Object::Integer(42));
}

#[test]
fn test_parse_errors() {
    assert!(matches!(run(""), Err(Error::ParseError(_))));
    assert!(matches!(run("1"), Err(Error::ParseError(_))));
    assert!(matches!(run("(+ 1 2"), Err(Error::ParseError(_))));
    assert!(matches!(run("(+ 1 2) 3"), Err(Error::ParseError(_))));
    assert!(matches!(run("(\"abc"), Err(Error::ParseError(_))));
}

#[test]
fn test_oversized_integer_literal_is_a_symbol() {
    let result = run("(+ 99999999999999999999 1)");
    assert_eq!(
        result,
        Err(Error::UnboundSymbol("99999999999999999999".to_string()))
    );
}

#[test]
fn test_signed_integer_literals() {
    assert_eq!(run("(+ -1 +2)").unwrap(), Object::Integer(1));
    assert_eq!(
        run("(- -9223372036854775808 0)").unwrap(),
        Object::Integer(i64::MIN)
    );
}

#[test]
fn test_empty_list_evaluates_to_empty_list() {
    assert_eq!(run("()").unwrap(), Object::List(vec![]));
}

#[test]
fn test_side_effects_before_a_failure_are_kept() {
    let mut env = Env::new();
    let mut out: Vec<String> = Vec::new();
    let result = eval("( (print 1) undefined )", &mut env, &mut out);
    assert_eq!(result, Err(Error::UnboundSymbol("undefined".to_string())));
    assert_eq!(out, vec!["1".to_string()]);
}

#[test]
fn test_boolean_operators_do_not_short_circuit() {
    let result = run("(| true x)");
    assert_eq!(result, Err(Error::UnboundSymbol("x".to_string())));
    let result = run("(& false x)");
    assert_eq!(result, Err(Error::UnboundSymbol("x".to_string())));
}
