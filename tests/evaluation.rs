use chibi::{
    EvalError, FloatFolds, Native, ParseTree, Primitive, Scope, SpecialForm, call_native, divide,
    interpret, interpret_with_depth, parse, standard_env, subtract,
};

fn number(p: &Primitive) -> f64 {
    match p {
        Primitive::Integer(n) => f64::from(*n),
        Primitive::Float(text) => text.parse().unwrap_or(f64::NAN),
        _ => f64::NAN,
    }
}

/// The binary64 fold of an arithmetic native, as its text.
fn binary64(op: Native, operands: &Vec<Primitive>) -> String {
    let xs: Vec<f64> = operands.iter().map(number).collect();
    let r = match op {
        Native::Add => xs.iter().fold(0.0, |acc, x| x + acc),
        Native::Multiply => xs.iter().fold(1.0, |acc, x| acc * x),
        Native::Subtract if xs.len() == 1 => -xs[0],
        Native::Subtract => xs[1..].iter().fold(xs[0], |acc, x| acc - x),
        _ => xs[1..].iter().fold(xs[0], |acc, x| acc / x),
    };
    format!("{:?}", r)
}

/// Evaluates `text` at top level, computing each float fold it asks for.
fn run_in(text: &str, scope: Scope) -> (Result<Primitive, EvalError>, Scope) {
    let tree = parse(text);
    let mut folds = FloatFolds::new();
    let mut scope = scope;
    loop {
        let (result, next) = interpret(tree.duplicate(), scope, true, &folds);
        match result {
            Err(EvalError::FloatFoldNeeded { procedure, operands }) => {
                let value = binary64(procedure, &operands);
                folds.record(procedure, operands, value);
                scope = next;
            }
            other => return (other, next),
        }
    }
}

fn run(text: &str) -> Result<Primitive, EvalError> {
    run_in(text, standard_env()).0
}

/// Calls a native, computing the float fold it asks for.
fn with_folds(
    native: fn(&Vec<Primitive>, &FloatFolds) -> Result<Primitive, EvalError>,
    list: &Vec<Primitive>,
) -> Result<Primitive, EvalError> {
    let mut folds = FloatFolds::new();
    loop {
        match native(list, &folds) {
            Err(EvalError::FloatFoldNeeded { procedure, operands }) => {
                let value = binary64(procedure, &operands);
                folds.record(procedure, operands, value);
            }
            other => return other,
        }
    }
}

fn ident(s: &str) -> Primitive {
    Primitive::Identifier(String::from(s))
}

fn float(s: &str) -> Primitive {
    Primitive::Float(String::from(s))
}

#[test]
fn test_subtract() {
    let list = vec![Primitive::Integer(9), Primitive::Integer(1)];
    assert_eq!(with_folds(subtract, &list), Ok(Primitive::Integer(8)));
}

#[test]
fn test_division() {
    let list = vec![Primitive::Integer(4), float("2.0")];
    assert_eq!(with_folds(divide, &list), Ok(float("2.0")));
}

#[test]
fn test_case_and_empty() {
    assert_eq!(run("(and)"), Ok(Primitive::Bool(true)));
}

#[test]
fn test_case_and_return_last_truthy() {
    assert_eq!(run("(and 1 2 3 \"Eureka\")"), Ok(Primitive::String(String::from("Eureka"))));
}

#[test]
fn test_case_and_return_false() {
    assert_eq!(run("(and 1 2 3 4 0)"), Ok(Primitive::Bool(false)));
}

#[test]
fn test_case_or_empty() {
    assert_eq!(run("(or)"), Ok(Primitive::Nil));
}

#[test]
fn test_case_or_return_first_truthy() {
    assert_eq!(run("(or 0 0 1 0)"), Ok(Primitive::Integer(1)));
}

#[test]
fn test_case_or_return_nil() {
    assert_eq!(run("(or 0 0 0 0)"), Ok(Primitive::Nil));
}

#[test]
fn test_case_analysis() {
    let text = "
        (define (abs x)
            (cond ((> x 0) x)
                  ((= x 0) 0)
                  ((< x 0) (- x))))

        (abs -5)";
    assert_eq!(run(text), Ok(Primitive::Integer(5)));
}

#[test]
fn test_else_case_analysis() {
    let text = "
        (cond (= 1 0)
              (else 123))
    ";
    assert_eq!(run(text), Ok(Primitive::Integer(123)));
}

#[test]
fn test_case_analysis_undefined() {
    assert_eq!(run("(cond (= 1 2))"), Ok(Primitive::Nil));
}

#[test]
fn test_if_statement() {
    let text = "
        (define (abs x)
            (if (< x 0)
                (- x)
                x))
        (abs -10)
    ";
    assert_eq!(run(text), Ok(Primitive::Integer(10)));
}

#[test]
fn test_lambda_return_type() {
    let result = run("
        (lambda (x) (* x x))
    ");
    let params = vec![ident("x")];
    let body = match parse("(* x x)") {
        ParseTree::List(mut items) => items.remove(0),
        other => other,
    };
    assert_eq!(result, Ok(Primitive::Lambda(params, Box::new(body))));
}

#[test]
fn test_lambda_apply() {
    assert_eq!(run("((lambda (x) (* x x)) 2)"), Ok(Primitive::Integer(4)));
}

#[test]
fn scope_local_and_global_test() {
    let text = "
        (define (foo x) x)
        (define (bar x) ((foo 1) x))
        (bar 5)
    ";
    // `((foo 1) x)` has two values and no procedure at its head: a tuple.
    assert_eq!(
        run(text),
        Ok(Primitive::Tuple(vec![Primitive::Integer(1), Primitive::Integer(5)]))
    );
}

#[test]
fn undefined_procedure_falls_through_to_a_tuple() {
    assert_eq!(
        run("(foobar 5)"),
        Ok(Primitive::Tuple(vec![ident("foobar"), Primitive::Integer(5)]))
    );
}

#[test]
fn arithmetic_identities() {
    assert_eq!(run("(+)"), Ok(Primitive::Integer(0)));
    assert_eq!(run("(*)"), Ok(Primitive::Integer(1)));
}

#[test]
fn float_promotion() {
    assert_eq!(run("(+ 1 2.0)"), Ok(float("3.0")));
    assert_eq!(run("(* 2 1.5)"), Ok(float("3.0")));
    assert_eq!(run("(- 2.5)"), Ok(float("-2.5")));
    assert_eq!(run("(/ 1 4.0)"), Ok(float("0.25")));
    assert_eq!(run("(/ 7 2.0)"), Ok(float("3.5")));
}

#[test]
fn integer_arithmetic_is_exact_then_clamped() {
    assert_eq!(run("(+ 2147483647 1 -1)"), Ok(Primitive::Integer(2147483647)));
    assert_eq!(run("(+ 2147483647 1)"), Ok(Primitive::Integer(i32::MAX)));
    assert_eq!(run("(* 65536 65536 0)"), Ok(Primitive::Integer(0)));
    assert_eq!(run("(* -65536 65536)"), Ok(Primitive::Integer(i32::MIN)));
    assert_eq!(run("(- 10 1 2 3)"), Ok(Primitive::Integer(4)));
    assert_eq!(run("(- -2147483648)"), Ok(Primitive::Integer(i32::MAX)));
}

#[test]
fn conditional_branching() {
    assert_eq!(run("(if (> 3 2) 10 20)"), Ok(Primitive::Integer(10)));
    assert_eq!(run("(if (> 2 3) 10 20)"), Ok(Primitive::Integer(20)));
    assert_eq!(run("(if 1 10 20)"), Ok(Primitive::Integer(20)));
}

#[test]
fn short_circuit_laws() {
    assert_eq!(run("(and 1 2 3 0)"), Ok(Primitive::Bool(false)));
    assert_eq!(run("(and 1 2 3)"), Ok(Primitive::Integer(3)));
    assert_eq!(run("(or 0 0 0)"), Ok(Primitive::Nil));
    assert_eq!(run("(or 0 5 0)"), Ok(Primitive::Integer(5)));
    assert_eq!(run("(and 0 (undefined-thing 1 (/)))"), Ok(Primitive::Bool(false)));
}

#[test]
fn truthiness_of_float_zero_and_empty_string() {
    assert_eq!(run("(and 0.0 \"\" 7)"), Ok(Primitive::Integer(7)));
    assert_eq!(run("(not 0)"), Ok(Primitive::Bool(true)));
    assert_eq!(run("(not 0.0)"), Ok(Primitive::Bool(false)));
}

#[test]
fn comparisons_hold_only_of_integers() {
    assert_eq!(run("(>= 3 3)"), Ok(Primitive::Bool(true)));
    assert_eq!(run("(<= 4 3)"), Ok(Primitive::Bool(false)));
    assert_eq!(run("(= 1.0 1.0)"), Ok(Primitive::Bool(false)));
}

#[test]
fn scope_discard() {
    let text = "
        (define (set-y v) (define y v))
        (set-y 7)
        y
    ";
    let (result, scope) = run_in(text, standard_env());
    assert_eq!(result, Ok(ident("y")));
    assert!(scope.variable(&String::from("y")).is_none());
    assert!(scope.variable(&String::from("set-y")).is_some());
}

#[test]
fn nested_define_is_seen_by_later_siblings_only() {
    assert_eq!(run("((define z 3) z)"), Ok(Primitive::Tuple(vec![ident("z"), Primitive::Integer(3)])));
    let (result, scope) = run_in("(foo (define z 3) z)", standard_env());
    assert_eq!(result, Ok(Primitive::Tuple(vec![ident("foo"), ident("z"), Primitive::Integer(3)])));
    assert!(scope.variable(&String::from("z")).is_none());
}

#[test]
fn idempotent_redefinition() {
    let (first, scope) = run_in("(define x 1)", standard_env());
    assert_eq!(first, Ok(ident("x")));
    let (second, scope) = run_in("(define x 2)", scope);
    assert_eq!(second, Ok(ident("x")));
    assert_eq!(scope.variable(&String::from("x")), Some(&Primitive::Integer(2)));
    let (value, _) = run_in("x", scope);
    assert_eq!(value, Ok(Primitive::Integer(2)));
}

#[test]
fn definitions_persist_between_lines() {
    let (_, scope) = run_in("(define (square n) (* n n))", standard_env());
    let (result, _) = run_in("(square 12)", scope);
    assert_eq!(result, Ok(Primitive::Integer(144)));
}

#[test]
fn calls_see_the_callers_scope() {
    let text = "
        (define (peek z) k)
        (define (outer k) (peek 0))
        (outer 9)
    ";
    assert_eq!(run(text), Ok(Primitive::Integer(9)));
}

#[test]
fn procedure_arity_is_checked() {
    assert_eq!(
        run("(define (peek) 1) (peek 0)"),
        Err(EvalError::ArityMismatch { expected: 0, found: 1 })
    );
}

#[test]
fn special_forms_cannot_be_shadowed() {
    let (_, scope) = run_in("(define if 5)", standard_env());
    let (result, _) = run_in("(if (> 1 0) 1 2)", scope);
    assert_eq!(result, Ok(Primitive::Integer(1)));
}

#[test]
fn type_mismatch_is_reported() {
    assert_eq!(
        run("(+ 1 \"a\")"),
        Err(EvalError::TypeMismatch {
            procedure: Native::Add,
            value: Primitive::String(String::from("a")),
        })
    );
}

#[test]
fn arity_mismatches_are_reported() {
    assert_eq!(run("((lambda (x) x) 1 2)"), Err(EvalError::ArityMismatch { expected: 1, found: 2 }));
    assert_eq!(run("(if 1 2)"), Err(EvalError::ArityMismatch { expected: 4, found: 3 }));
    assert_eq!(run("(define x)"), Err(EvalError::ArityMismatch { expected: 3, found: 2 }));
    assert_eq!(run("(-)"), Err(EvalError::ArityMismatch { expected: 1, found: 0 }));
    assert_eq!(run("(> 1)"), Err(EvalError::ArityMismatch { expected: 2, found: 1 }));
}

#[test]
fn malformed_special_forms_are_reported() {
    assert_eq!(
        run("(define 5 1)"),
        Err(EvalError::MalformedSpecialForm { form: SpecialForm::Define })
    );
    assert_eq!(
        run("(lambda x x)"),
        Err(EvalError::MalformedSpecialForm { form: SpecialForm::Lambda })
    );
    assert_eq!(
        run("(cond 1)"),
        Err(EvalError::MalformedSpecialForm { form: SpecialForm::Cond })
    );
}

#[test]
fn runaway_recursion_is_stopped() {
    let folds = FloatFolds::new();
    let (result, _) = interpret_with_depth(
        parse("(define (spin n) (spin n)) (spin 1)"),
        standard_env(),
        true,
        &folds,
        64,
    );
    assert_eq!(result, Err(EvalError::RecursionLimit));
}

#[test]
fn depth_limit_counts_nested_calls() {
    let text = "(define (count n) (if (= n 0) 0 (+ 1 (count (- n 1))))) (count 10)";
    let folds = FloatFolds::new();
    let (deep_enough, _) = interpret_with_depth(parse(text), standard_env(), true, &folds, 11);
    assert_eq!(deep_enough, Ok(Primitive::Integer(10)));
    let (too_shallow, _) = interpret_with_depth(parse(text), standard_env(), true, &folds, 10);
    assert_eq!(too_shallow, Err(EvalError::RecursionLimit));
}

#[test]
fn recursion_deeper_than_a_few_hundred_calls() {
    let text = "
        (define (count n) (if (= n 0) 0 (+ 1 (count (- n 1)))))
        (count 300)
    ";
    assert_eq!(run(text), Ok(Primitive::Integer(300)));
}

#[test]
fn integer_division_truncates_toward_zero() {
    assert_eq!(run("(/ 7 2)"), Ok(Primitive::Integer(3)));
    assert_eq!(run("(/ -7 2)"), Ok(Primitive::Integer(-3)));
    assert_eq!(run("(/ 7 -2)"), Ok(Primitive::Integer(-3)));
    assert_eq!(run("(/ 1 4)"), Ok(Primitive::Integer(0)));
    assert_eq!(run("(/ 100 3 3)"), Ok(Primitive::Integer(11)));
    assert_eq!(run("(/ 5)"), Ok(Primitive::Integer(5)));
    assert_eq!(run("(/ -2147483648 -1)"), Ok(Primitive::Integer(i32::MAX)));
    let list = vec![Primitive::Integer(7), Primitive::Integer(2)];
    assert_eq!(divide(&list, &FloatFolds::new()), Ok(Primitive::Integer(3)));
}

#[test]
fn integer_division_by_zero_is_reported() {
    assert_eq!(run("(/ 7 0)"), Err(EvalError::DivisionByZero));
    assert_eq!(run("(/ 0 0)"), Err(EvalError::DivisionByZero));
    assert_eq!(run("(/ 7 2 0)"), Err(EvalError::DivisionByZero));
    assert_eq!(run("(/ 7 0.0)"), Ok(float("inf")));
}

#[test]
fn integer_text_round_trips() {
    for n in [0, 7, -7, 42, i32::MAX, i32::MIN] {
        assert_eq!(run(&n.to_string()), Ok(Primitive::Integer(n)));
    }
    assert_eq!(run("\"a-b\""), Ok(Primitive::String(String::from("a-b"))));
}

#[test]
fn recursion_within_the_limit() {
    let text = "
        (define (count n) (if (= n 0) 0 (+ 1 (count (- n 1)))))
        (count 120)
    ";
    assert_eq!(run(text), Ok(Primitive::Integer(120)));
}

#[test]
fn errors_leave_the_scope_unchanged() {
    let (result, scope) = run_in("(define a 1) (+ 1 \"b\")", standard_env());
    assert!(result.is_err());
    assert!(scope.variable(&String::from("a")).is_none());
}

#[test]
fn empty_form_and_atoms() {
    assert_eq!(run("()"), Ok(Primitive::Tuple(vec![])));
    assert_eq!(run(""), Ok(Primitive::Tuple(vec![])));
    assert_eq!(run("unbound"), Ok(ident("unbound")));
    assert_eq!(run("(1 2 3)"), Ok(Primitive::Tuple(vec![
        Primitive::Integer(1),
        Primitive::Integer(2),
        Primitive::Integer(3),
    ])));
}

#[test]
fn natives_are_called_directly() {
    let args = vec![Primitive::Integer(2), Primitive::Integer(3)];
    let folds = FloatFolds::new();
    assert_eq!(call_native(Native::Less, &args, &folds), Ok(Primitive::Bool(true)));
    assert_eq!(call_native(Native::Multiply, &args, &folds), Ok(Primitive::Integer(6)));
}

#[test]
fn a_missing_float_fold_is_asked_for() {
    let folds = FloatFolds::new();
    let (result, scope) = interpret(parse("(define a 1) (+ a 0.5)"), standard_env(), true, &folds);
    assert_eq!(
        result,
        Err(EvalError::FloatFoldNeeded {
            procedure: Native::Add,
            operands: vec![Primitive::Integer(1), float("0.5")],
        })
    );
    assert!(scope.variable(&String::from("a")).is_none());
    let mut folds = FloatFolds::new();
    folds.record(Native::Add, vec![Primitive::Integer(1), float("0.5")], String::from("1.5"));
    let (result, _) = interpret(parse("(define a 1) (+ a 0.5)"), standard_env(), true, &folds);
    assert_eq!(result, Ok(float("1.5")));
}
