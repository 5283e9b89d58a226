use lisp_rs::object::{render, Object};

#[test]
fn test_render_atoms() {
    assert_eq!(render(&Object::Void), "Void".to_string());
    assert_eq!(render(&Object::Integer(-42)), "-42".to_string());
    assert_eq!(render(&Object::Integer(0)), "0".to_string());
    assert_eq!(render(&Object::Bool(true)), "true".to_string());
    assert_eq!(render(&Object::Str("hi".to_string())), "\"hi\"".to_string());
    assert_eq!(render(&Object::Symbol("x".to_string())), "x".to_string());
    assert_eq!(render(&Object::If), "if".to_string());
}

#[test]
fn test_render_lists() {
    let v = Object::ListData(vec![
        Object::Integer(1),
        Object::Integer(2),
        Object::Integer(3),
    ]);
    assert_eq!(render(&v), "(1 2 3)".to_string());
    assert_eq!(render(&Object::List(vec![])), "()".to_string());
}

#[test]
fn test_render_lambda() {
    let v = Object::Lambda(
        vec!["a".to_string(), "b".to_string()],
        vec![
            Object::BinaryOp("+".to_string()),
            Object::Symbol("a".to_string()),
            Object::Symbol("b".to_string()),
        ],
        0,
    );
    assert_eq!(render(&v), "Lambda(a b ) + a b".to_string());
}

#[test]
fn test_render_extreme_integers() {
    assert_eq!(
        render(&Object::Integer(i64::MIN)),
        "-9223372036854775808".to_string()
    );
    assert_eq!(
        render(&Object::Integer(i64::MAX)),
        "9223372036854775807".to_string()
    );
}
