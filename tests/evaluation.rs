use lisper::eval::{evaluate, EvalError};
use lisper::expr::Expr;
use lisper::lexer::lex;
use lisper::parser::parse;
use lisper::render::render_expr;
use lisper::scope::Scope;

fn run(src: &str, env: &mut Scope) -> Result<Expr, EvalError> {
    let tokens = lex(src);
    let expr = parse(&tokens).expect("the program parses");
    evaluate(&expr, env)
}

fn text_of(src: &str, env: &mut Scope) -> String {
    match run(src, env) {
        Ok(e) => render_expr(&e),
        Err(e) => format!("error: {}", e.message()),
    }
}

fn eval_text(src: &str) -> String {
    let mut env = Scope::new();
    text_of(src, &mut env)
}

#[test]
fn addition_of_two_integers() {
    assert_eq!(eval_text("(+ 1 2)"), "3");
    assert_eq!(eval_text("(+ 2 4 6)"), "12");
    assert_eq!(eval_text("(+ 5 -5)"), "0");
}

#[test]
fn subtraction_folds_from_the_first_argument() {
    assert_eq!(eval_text("(- 1 2)"), "-1");
    assert_eq!(eval_text("(- 10 2 3)"), "5");
    assert_eq!(eval_text("(- 5)"), "5");
}

#[test]
fn multiplication_of_integers() {
    assert_eq!(eval_text("(* 1 2)"), "2");
    assert_eq!(eval_text("(* 0 3 4 6)"), "0");
    assert_eq!(eval_text("(* -3 4)"), "-12");
}

#[test]
fn division_truncates_toward_zero() {
    assert_eq!(eval_text("(/ 1 2)"), "0");
    assert_eq!(eval_text("(/ 12 6 2)"), "1");
    assert_eq!(eval_text("(/ 100 10 2)"), "5");
    assert_eq!(eval_text("(/ -7 2)"), "-3");
    assert_eq!(eval_text("(/ 7 -2)"), "-3");
}

#[test]
fn division_by_zero_is_reported() {
    let mut env = Scope::new();
    match run("(/ 1 0)", &mut env) {
        Err(EvalError::IllegalArgument(name, why)) => {
            assert_eq!(name, "/");
            assert_eq!(why, "Division by zero");
        }
        other => panic!("unexpected {:?}", other),
    }
}

#[test]
fn overflow_is_reported() {
    let mut env = Scope::new();
    match run("(+ 9223372036854775807 1)", &mut env) {
        Err(EvalError::IllegalArgument(name, why)) => {
            assert_eq!(name, "+");
            assert_eq!(why, "Integer overflow");
        }
        other => panic!("unexpected {:?}", other),
    }
    assert_eq!(eval_text("(/ -9223372036854775808 -1)"), "error: Illegal argument in /: Integer overflow");
    assert_eq!(eval_text("(- -9223372036854775808 1)"), "error: Illegal argument in -: Integer overflow");
}

#[test]
fn arithmetic_needs_an_argument() {
    let mut env = Scope::new();
    match run("(+)", &mut env) {
        Err(EvalError::ArgumentCount(name, n)) => {
            assert_eq!(name, "+");
            assert_eq!(n, 2);
        }
        other => panic!("unexpected {:?}", other),
    }
}

#[test]
fn arithmetic_rejects_non_numbers() {
    assert_eq!(eval_text("(+ 1 true)"), "error: Illegal argument in +: All arguments must be numbers");
}

#[test]
fn if_evaluates_only_the_chosen_branch() {
    let mut env = Scope::new();
    assert_eq!(text_of("(if true (print 1) (print 2))", &mut env), "1");
    assert_eq!(env.take_printed(), vec!["1".to_string()]);
    assert_eq!(text_of("(if false (print 1) (print 2))", &mut env), "2");
    assert_eq!(env.take_printed(), vec!["2".to_string()]);
}

#[test]
fn if_needs_a_boolean_condition() {
    assert_eq!(eval_text("(if 1 2 3)"), "error: Illegal argument in if: Condition must evaluate to bool");
    assert_eq!(eval_text("(if true 2)"), "error: Invalid argument count for if, 4 needed");
}

#[test]
fn definitions_persist() {
    let mut env = Scope::new();
    assert_eq!(text_of("(def x 10)", &mut env), "-=-");
    assert_eq!(text_of("(+ x 5)", &mut env), "15");
}

#[test]
fn definitions_in_one_program() {
    assert_eq!(eval_text("((def x 10) (+ x 5))"), "(-=- 15)");
}

#[test]
fn closures_see_later_changes_to_their_frame() {
    let mut env = Scope::new();
    text_of("(def x 1)", &mut env);
    text_of("(defun f (lambda () (+ x 0)))", &mut env);
    text_of("(def x 2)", &mut env);
    assert_eq!(text_of("(f)", &mut env), "2");
}

#[test]
fn closures_use_lexical_scope() {
    let mut env = Scope::new();
    text_of("(def y 1)", &mut env);
    text_of("(defun get (lambda () (+ y 0)))", &mut env);
    text_of("(defun shadow (lambda (y) (get)))", &mut env);
    assert_eq!(text_of("(shadow 100)", &mut env), "1");
}

#[test]
fn recursive_function() {
    let mut env = Scope::new();
    text_of("(defun power (lambda (x y) (if (= y 0) 1 (* x (power x (- y 1))))))", &mut env);
    assert_eq!(text_of("(power 2 10)", &mut env), "1024");
}

#[test]
fn runaway_recursion_hits_the_depth_limit() {
    let mut env = Scope::new();
    text_of("(defun f (lambda () (f)))", &mut env);
    match run("(f)", &mut env) {
        Err(EvalError::MaximumRecursionDepthReached(n)) => assert_eq!(n, 1024),
        other => panic!("unexpected {:?}", other),
    }
    assert_eq!(text_of("(+ 1 1)", &mut env), "2");
}

#[test]
fn chained_comparisons() {
    assert_eq!(eval_text("(< 1 2 3)"), "true");
    assert_eq!(eval_text("(< 2 5 3)"), "false");
    assert_eq!(eval_text("(>= 8 6 8 2)"), "false");
    assert_eq!(eval_text("(>= 8 6 6 2)"), "true");
    assert_eq!(eval_text("(<= 1 1 2)"), "true");
    assert_eq!(eval_text("(> 3 2 2)"), "false");
    assert_eq!(eval_text("(< 1 true)"), "error: Illegal argument in compare: All arguments must be numbers");
}

#[test]
fn equality_operators() {
    assert_eq!(eval_text("(= 1 1 1)"), "true");
    assert_eq!(eval_text("(= 1 2)"), "false");
    assert_eq!(eval_text("(= (1 2) (1 2))"), "true");
    assert_eq!(eval_text("(!= 1 1 2)"), "true");
    assert_eq!(eval_text("(!= 3 3)"), "false");
}

#[test]
fn logical_operators() {
    assert_eq!(eval_text("(and true false)"), "false");
    assert_eq!(eval_text("(and true true)"), "true");
    assert_eq!(eval_text("(or false false)"), "false");
    assert_eq!(eval_text("(or false true)"), "true");
    assert_eq!(eval_text("(not true)"), "false");
    assert_eq!(eval_text("(not (< 2 1))"), "true");
    assert_eq!(eval_text("(and 1 true)"), "error: Illegal argument in and: All arguments must be booleans");
    assert_eq!(eval_text("(not 1)"), "error: Illegal argument in not: Argument must be a boolean");
}

#[test]
fn not_with_two_arguments_is_an_arity_error() {
    let mut env = Scope::new();
    match run("(not true false)", &mut env) {
        Err(EvalError::ArgumentCount(name, n)) => {
            assert_eq!(name, "not");
            assert_eq!(n, 1);
        }
        other => panic!("unexpected {:?}", other),
    }
}

#[test]
fn rendered_values_parse_back() {
    let mut env = Scope::new();
    let value = run("((+ 1 2) (< 1 2) ((* 2 -3) ()))", &mut env).unwrap();
    let text = render_expr(&value);
    assert_eq!(text, "(3 true (-6 ()))");
    let again = parse(&lex(&text)).ok().unwrap();
    assert!(again.same_as(&value));
}

#[test]
fn empty_list_evaluates_to_itself() {
    assert_eq!(eval_text("()"), "()");
}

#[test]
fn undefined_names() {
    let mut env = Scope::new();
    match run("(+ x 1)", &mut env) {
        Err(EvalError::UndefinedVariable(name)) => assert_eq!(name, "x"),
        other => panic!("unexpected {:?}", other),
    }
    match run("(foo 1)", &mut env) {
        Err(EvalError::UndefinedFunction(name)) => assert_eq!(name, "foo"),
        other => panic!("unexpected {:?}", other),
    }
    text_of("(def n 3)", &mut env);
    match run("(n 1)", &mut env) {
        Err(EvalError::UndefinedFunction(name)) => assert_eq!(name, "n"),
        other => panic!("unexpected {:?}", other),
    }
}

#[test]
fn closure_argument_count_must_match() {
    let mut env = Scope::new();
    text_of("(defun add (lambda (a b) (+ a b)))", &mut env);
    assert_eq!(text_of("(add 1 2)", &mut env), "3");
    match run("(add 1)", &mut env) {
        Err(EvalError::ArgumentCount(name, n)) => {
            assert_eq!(name, "add");
            assert_eq!(n, 2);
        }
        other => panic!("unexpected {:?}", other),
    }
    assert_eq!(text_of("(add 1 2 3)", &mut env), "error: Invalid argument count for add, 2 needed");
}

#[test]
fn closures_are_not_bare_values() {
    let mut env = Scope::new();
    text_of("(defun f (lambda () (+ 1 1)))", &mut env);
    match run("(+ f 1)", &mut env) {
        Err(EvalError::Unimplemented) => {}
        other => panic!("unexpected {:?}", other),
    }
}

#[test]
fn malformed_definitions() {
    assert_eq!(eval_text("(def 1 2)"), "error: Illegal argument in def: Variable name must be a symbol");
    assert_eq!(eval_text("(def x)"), "error: Invalid argument count for def, 3 needed");
    assert_eq!(eval_text("(defun f (lambda (1) (+ 1)))"), "error: Illegal argument in lambda: Function arguments must be symbols");
    assert_eq!(eval_text("(defun f (lambda x (+ 1)))"), "error: Illegal argument in lambda: Function arguments must be a list of symbols");
    assert_eq!(eval_text("(defun f (lambda () 1))"), "error: Illegal argument in lambda: Function body must be an evaluable list");
    assert_eq!(eval_text("(defun f (print () (1)))"), "error: Illegal argument in lambda: Missing lambda");
    assert_eq!(eval_text("(defun f (lambda ()))"), "error: Invalid argument count for lambda, 3 needed");
    assert_eq!(eval_text("(defun f 3)"), "error: Illegal argument in defun: Function must be a lambda form");
}

#[test]
fn print_returns_its_value() {
    let mut env = Scope::new();
    assert_eq!(text_of("(print (1 true))", &mut env), "(1 true)");
    assert_eq!(env.take_printed(), vec!["(1 true)".to_string()]);
    assert_eq!(text_of("(print 1 2)", &mut env), "error: Invalid argument count for print, 1 needed");
}

#[test]
fn unsupported_keyword() {
    let mut env = Scope::new();
    match run("(len 1)", &mut env) {
        Err(EvalError::Unimplemented) => {}
        other => panic!("unexpected {:?}", other),
    }
}

#[test]
fn error_messages() {
    assert_eq!(EvalError::UndefinedVariable("x".to_string()).message(), "Undefined variable: x");
    assert_eq!(EvalError::UndefinedFunction("f".to_string()).message(), "Undefined function: f");
    assert_eq!(EvalError::ArgumentCount("def".to_string(), 3).message(), "Invalid argument count for def, 3 needed");
    assert_eq!(EvalError::Unimplemented.message(), "Internal error (Unimplemented)");
    assert_eq!(EvalError::Unreachable.message(), "Internal error (Unreachable)");
    assert_eq!(EvalError::Internal.message(), "Internal error");
    assert_eq!(EvalError::MaximumRecursionDepthReached(1024).message(), "Maximum recursion depth (1024) exceeded");
}
