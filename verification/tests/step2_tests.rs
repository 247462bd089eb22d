//! Evaluation of arithmetic over a fresh root environment.

fn test_runner(inp: &str, out: Option<&str>) {
    let mut env = mal::env::Env::default();
    let mut output: Vec<String> = Vec::new();
    let res = mal::repl::rep(inp, &mut env, &mut output);
    if let Some(s) = out {
        assert!(res.is_ok());
        assert_eq!(res.unwrap(), s);
    } else {
        assert!(res.is_err());
    }
}

#[test]
fn step2_test0() {
    test_runner("(+ 1 2)", Some("3"));
}

#[test]
fn step2_test1() {
    test_runner("(+ 5 (* 2 3))", Some("11"));
}

#[test]
fn step2_test2() {
    test_runner("(- (+ 5 (* 2 3)) 3)", Some("8"));
}

#[test]
fn step2_test3() {
    test_runner("(/ (- (+ 5 (* 2 3)) 3) 4)", Some("2"));
}

#[test]
fn step2_test4() {
    test_runner("(/ (- (+ 515 (* 87 311)) 302) 27)", Some("1010"));
}

#[test]
fn step2_test5() {
    test_runner("(* -3 6)", Some("-18"));
}

#[test]
fn step2_test6() {
    test_runner("(/ (- (+ 515 (* -87 311)) 296) 27)", Some("-994"));
}

#[test]
fn step2_testf1() {
    test_runner("(abc 1 2 3)", None);
}

#[test]
fn step2_test7() {
    test_runner("()", Some("()"));
}

#[test]
fn step2_test8() {
    test_runner("[1 2 (+ 1 2)]", Some("[1 2 3]"));
}

#[test]
fn step2_test9() {
    test_runner("{\"a\" (+ 7 8)}", Some("{\"a\" 15}"));
}

#[test]
fn step2_test10() {
    test_runner("{:a (+ 7 8)}", Some("{:a 15}"));
}
