//! The evaluator's semantics: scoping, closures, variadics, truthiness,
//! the error taxonomy, and the printed output of the printing natives.

use mal::env::Env;
use mal::funcs::add;
use mal::funcs::div;
use mal::funcs::mul;
use mal::funcs::sub;
use mal::printer::pr_str;
use mal::repl::rep;
use mal::test_builder::test_builder;
use mal::types::FnError;
use mal::types::MalError;
use mal::types::Token;

fn chars(s: &str) -> Vec<char> {
    let mut v = Vec::new();
    for c in s.chars() {
        v.push(c);
    }
    v
}

fn session(lines: &[&str]) -> (Result<String, MalError>, Vec<String>) {
    let mut env = Env::default();
    let mut output: Vec<String> = Vec::new();
    let mut res = rep(lines[0], &mut env, &mut output);
    for line in lines.iter().skip(1) {
        res = rep(line, &mut env, &mut output);
    }
    (res, output)
}

#[test]
fn addition_of_two_integers() {
    let (res, _) = session(&["(+ 1 2)"]);
    assert_eq!(res.unwrap(), "3");
}

#[test]
fn sequential_let_bindings_see_earlier_ones() {
    let (res, _) = session(&["(let* (a 5 b (+ a 2)) (+ a b))"]);
    assert_eq!(res.unwrap(), "12");
}

#[test]
fn closures_capture_the_defining_scope() {
    let (res, _) = session(&["(def! f (let* (x 5) (fn* (y) (+ x y))))", "(f 3)"]);
    assert_eq!(res.unwrap(), "8");
}

#[test]
fn variadic_tail_collects_surplus_arguments() {
    let (res, _) = session(&["((fn* (a & more) (count more)) 1 2 3)"]);
    assert_eq!(res.unwrap(), "2");
}

#[test]
fn only_nil_and_false_are_false() {
    let (res, _) = session(&["(if 0 \"a\" \"b\")"]);
    assert_eq!(res.unwrap(), "\"a\"");
    let (res, _) = session(&["(if \"\" 1 2)"]);
    assert_eq!(res.unwrap(), "1");
    let (res, _) = session(&["(if nil 1 2)"]);
    assert_eq!(res.unwrap(), "2");
    let (res, _) = session(&["(if false 1 2)"]);
    assert_eq!(res.unwrap(), "2");
}

#[test]
fn unbound_symbol_surfaces_and_session_continues() {
    let mut env = Env::default();
    let mut output: Vec<String> = Vec::new();
    match rep("(abc 1 2)", &mut env, &mut output) {
        Err(MalError::UnknownSymbol(name)) => assert_eq!(name, chars("abc")),
        other => panic!("{other:?}"),
    }
    let res = rep("(+ 2 3)", &mut env, &mut output);
    assert_eq!(res.unwrap(), "5");
}

#[test]
fn odd_map_literal_binds_nothing() {
    let mut env = Env::default();
    let mut output: Vec<String> = Vec::new();
    let res = rep("(def! m {\"a\" 1 \"b\"})", &mut env, &mut output);
    assert!(matches!(res, Err(MalError::MistmatchKeyValue)));
    let after = rep("m", &mut env, &mut output);
    assert!(matches!(after, Err(MalError::UnknownSymbol(_))));
}

#[test]
fn failed_def_keeps_the_old_binding() {
    let (res, _) = session(&["(def! w 123)", "(def! w (abc))", "w"]);
    assert_eq!(res.unwrap(), "123");
}

#[test]
fn division_by_zero_is_a_typed_error() {
    let (res, _) = session(&["(/ 1 0)"]);
    assert!(matches!(res, Err(MalError::FnError(FnError::ZeroDivision))));
}

#[test]
fn arithmetic_on_non_numbers_is_a_type_error() {
    let (res, _) = session(&["(+ 1 \"a\")"]);
    assert!(matches!(res, Err(MalError::FnError(FnError::Type(_, _, _)))));
}

#[test]
fn too_few_arithmetic_operands_is_an_arity_error() {
    let (res, _) = session(&["(+ 1)"]);
    assert!(matches!(res, Err(MalError::FnError(FnError::Argument(2, 1)))));
}

#[test]
fn closure_arity_mismatch_is_an_arity_error() {
    let (res, _) = session(&["((fn* (a b) a) 1)"]);
    assert!(matches!(res, Err(MalError::FnError(FnError::Argument(2, 1)))));
}

#[test]
fn calling_a_non_function_fails() {
    let (res, _) = session(&["(1 2 3)"]);
    assert!(matches!(res, Err(MalError::FnError(FnError::CallableError))));
}

#[test]
fn defining_a_non_symbol_fails() {
    let (res, _) = session(&["(def! 1 2)"]);
    assert!(matches!(res, Err(MalError::BadDef(Some(Token::Integer(1))))));
}

#[test]
fn binding_a_non_symbol_fails() {
    let (res, _) = session(&["(let* (1 2) 3)"]);
    assert!(matches!(res, Err(MalError::BadTokenString(Token::Integer(1)))));
}

#[test]
fn odd_binding_list_fails() {
    let (res, _) = session(&["(let* (a 1 b) a)"]);
    assert!(matches!(res, Err(MalError::MistmatchKeyValue)));
}

#[test]
fn runaway_recursion_hits_the_depth_bound() {
    let (res, _) = session(&["(def! f (fn* () (f)))", "(f)"]);
    assert!(matches!(res, Err(MalError::Depth)));
}

#[test]
fn prn_output_is_readable_and_println_raw() {
    let (res, output) = session(&["(prn \"a\\\"b\")"]);
    assert_eq!(res.unwrap(), "nil");
    assert_eq!(output, vec!["\"a\\\"b\"".to_string()]);
    let (res, output) = session(&["(println \"a\\\"b\")"]);
    assert_eq!(res.unwrap(), "nil");
    assert_eq!(output, vec!["a\"b".to_string()]);
}

#[test]
fn do_threads_definitions_and_keeps_the_last_value() {
    let (res, _) = session(&["(do (def! a 6) 7 (+ a 8))"]);
    assert_eq!(res.unwrap(), "14");
    let (res, _) = session(&["(do)"]);
    assert_eq!(res.unwrap(), "nil");
}

#[test]
fn vectors_and_maps_evaluate_their_elements() {
    let (res, _) = session(&["[1 (+ 1 1) [3]]"]);
    assert_eq!(res.unwrap(), "[1 2 [3]]");
    let (res, _) = session(&["{:k (+ 7 8)}"]);
    assert_eq!(res.unwrap(), "{:k 15}");
}

#[test]
fn equality_ignores_list_vector_distinction_but_not_contents() {
    let (res, _) = session(&["(= [1 2 (list 3)] (list 1 2 [3]))"]);
    assert_eq!(res.unwrap(), "true");
    let (res, _) = session(&["(= {\"a\" 1} {\"a\" 1})"]);
    assert_eq!(res.unwrap(), "true");
    let (res, _) = session(&["(= {\"a\" 1} {\"a\" 2})"]);
    assert_eq!(res.unwrap(), "false");
}

#[test]
fn arithmetic_natives_fold_left_to_right() {
    let args = vec![Token::Integer(10), Token::Integer(3), Token::Integer(2)];
    match add(&args) {
        Ok(Token::Integer(15)) => (),
        other => panic!("{other:?}"),
    }
    match sub(&args) {
        Ok(Token::Integer(5)) => (),
        other => panic!("{other:?}"),
    }
    match mul(&args) {
        Ok(Token::Integer(60)) => (),
        other => panic!("{other:?}"),
    }
    match div(&args) {
        Ok(Token::Integer(1)) => (),
        other => panic!("{other:?}"),
    }
}

#[test]
fn environment_lookup_walks_the_scope_chain() {
    let mut env = Env::default();
    env.insert(0, chars("x"), Token::Integer(1));
    let child = env.new_child(0);
    assert!(matches!(env.get(child, &chars("x")), Some(Token::Integer(1))));
    env.insert(child, chars("x"), Token::Integer(2));
    assert!(matches!(env.get(child, &chars("x")), Some(Token::Integer(2))));
    assert!(matches!(env.get(0, &chars("x")), Some(Token::Integer(1))));
    assert!(env.get(child, &chars("y")).is_none());
    let names = env.symbols(child);
    assert_eq!(names, vec![chars("x")]);
}

#[test]
fn printer_renders_constructed_values() {
    assert_eq!(pr_str(&Token::Integer(-5), true), "-5");
    assert_eq!(pr_str(&Token::Str(chars("a\"b")), true), "\"a\\\"b\"");
    assert_eq!(pr_str(&Token::Str(chars("a\"b")), false), "a\"b");
    let list = Token::List(vec![Token::Nil, Token::Bool(true), Token::Keyword(chars("k"))]);
    assert_eq!(pr_str(&list, true), "(nil true :k)");
}

#[test]
fn test_builder_pairs_inputs_with_expectations() {
    let lines = vec![
        "; a comment".to_string(),
        "(+ 1 2)".to_string(),
        ";=>3".to_string(),
        "unanswered".to_string(),
        "(list)".to_string(),
        ";=>()".to_string(),
    ];
    let tests = test_builder(&lines);
    assert_eq!(tests.len(), 2);
    assert_eq!(tests[0].input, "(+ 1 2)");
    assert_eq!(tests[0].output, "3");
    assert_eq!(tests[1].input, "(list)");
    assert_eq!(tests[1].output, "()");
}
