//! Definitions and lexical scopes carried across a session.

fn test_runner(inp: &[&str], out: Option<&str>) {
    let mut env = mal::env::Env::default();
    let mut output: Vec<String> = Vec::new();
    let mut res = mal::repl::rep(inp[0], &mut env, &mut output);
    if inp.len() > 1 {
        for line in inp.iter().skip(1) {
            res = mal::repl::rep(line, &mut env, &mut output);
        }
    }
    if let Some(s) = out {
        assert!(res.is_ok());
        assert_eq!(res.unwrap(), s);
    } else {
        assert!(res.is_err());
    }
}

#[test]
fn tests_test0() {
    test_runner(&["(+ 1 2)"], Some("3"));
}

#[test]
fn tests_test1() {
    test_runner(&["(/ (- (+ 5 (* 2 3)) 3) 4)"], Some("2"));
}

#[test]
fn tests_test2() {
    test_runner(&["(def! x 3)"], Some("3"));
}

#[test]
fn tests_test3() {
    test_runner(&["(def! x 3)", "x"], Some("3"));
}

#[test]
fn tests_test4() {
    test_runner(&["(def! x 3)", "(def! x 4)"], Some("4"));
}

#[test]
fn tests_test5() {
    test_runner(&["(def! x 3)", "(def! x 4)", "x"], Some("4"));
}

#[test]
fn tests_test6() {
    test_runner(&["(def! y (+ 1 7))"], Some("8"));
}

#[test]
fn step3_test7() {
    test_runner(&["(def! y (+ 1 7))", "y"], Some("8"));
}

#[test]
fn tests_test10() {
    test_runner(
        &["(def! mynum 111)", "(def! MYNUM 222)", "mynum"],
        Some("111"),
    );
}

#[test]
fn tests_test11() {
    test_runner(
        &["(def! mynum 111)", "(def! MYNUM 222)", "MYNUM"],
        Some("222"),
    );
}

#[test]
fn tests_testf1() {
    test_runner(&["(abc 1 2 3)"], None);
}

#[test]
fn tests_test12() {
    test_runner(&["(def! w 123)", "(def! w (abc))", "w"], Some("123"));
}

#[test]
fn tests_test13() {
    test_runner(&["(let* (z 9) z)"], Some("9"));
}

#[test]
fn tests_test14() {
    test_runner(&["(let* (x 9) x)"], Some("9"));
}

#[test]
fn tests_test15() {
    test_runner(&["(def! x 4)", "(let* (x 9) x)", "x"], Some("4"));
}

#[test]
fn tests_test16() {
    test_runner(&["(let* (z (+ 2 3)) (+ 1 z))"], Some("6"));
}

#[test]
fn tests_test17() {
    test_runner(&["(let* (p (+ 2 3) q (+ 2 p)) (+ p q))"], Some("12"));
}

#[test]
fn tests_test18() {
    test_runner(&["(def! y (let* (z 7) z))", "y"], Some("7"));
}

#[test]
fn tests_test19() {
    test_runner(&["(def! a 4)"], Some("4"));
}

#[test]
fn tests_test20() {
    test_runner(&["(def! a 4)", "(let* (q 9) q)"], Some("9"));
}

#[test]
fn tests_test21() {
    test_runner(&["(def! a 4)", "(let* (q 9) a)"], Some("4"));
}

#[test]
fn tests_test22() {
    test_runner(&["(def! a 4)", "(let* (z 2) (let* (q 9) a))"], Some("4"));
}

#[test]
fn tests_test23() {
    test_runner(&["(def! a 4)", "(let* (x 4) (def! a 5))"], Some("5"));
}

#[test]
fn tests_test24() {
    test_runner(&["(def! a 4)", "(let* (x 4) (def! a 5))", "a"], Some("4"));
}

#[test]
fn tests_test25() {
    test_runner(&["(let* [z 9] z)"], Some("9"));
}

#[test]
fn tests_test26() {
    test_runner(&["(let* [p (+ 2 3) q (+ 2 p)] (+ p q))"], Some("12"));
}

#[test]
fn tests_test27() {
    test_runner(
        &["(let* (a 5 b 6) [3 4 a [b 7] 8])"],
        Some("[3 4 5 [6 7] 8]"),
    );
}
