use mut_gen::mutate::{
    arithmetic_positions, collect_names, comment_out_call, constant_value_exec, cut_at_operator,
    mutate_file_by_line, mutate_with_draws, mutation_is_defined_exec, negate_binding, negate_return, other_constants,
    replace_constant, splice_lines, try_mutate_file_by_line,
};
use mut_gen::mutants::split_mutation_result;

fn chars(s: &str) -> Vec<char> {
    s.chars().collect()
}

fn text(v: &[char]) -> String {
    v.iter().collect()
}

fn lines_of(v: &[&str]) -> Vec<Vec<char>> {
    v.iter().map(|s| chars(s)).collect()
}

#[test]
fn negating_a_binding() {
    assert_eq!(text(&negate_binding(&chars("let x = a + b;"))), "let x = -(a + b);");
    assert_eq!(text(&negate_binding(&chars("    let y=f(z) ;;"))), "    let y= -(f(z) );");
    assert_eq!(text(&negate_binding(&chars("let b = c == d;"))), "let b = -(c);");
}

#[test]
fn operator_positions() {
    assert_eq!(arithmetic_positions(&chars("let x = a + b - c;")), vec![10, 14]);
    assert_eq!(arithmetic_positions(&chars("let x = 1;")), Vec::<usize>::new());
    assert_eq!(arithmetic_positions(&chars("a*b/c%d")), vec![1, 3, 5]);
}

#[test]
fn cutting_at_an_operator() {
    let t = chars("let x = a + b;");
    assert_eq!(cut_at_operator(&t, 10).map(|c| text(&c)), Some("let x = a;".to_string()));
    let t = chars("let é = a + b;");
    // Read as a byte offset, the operator index lands one character earlier.
    assert_eq!(cut_at_operator(&t, 10).map(|c| text(&c)), Some("let é = a;".to_string()));
    let t = chars("let s = \"ééé\" + a;");
    // Byte 14 lies inside the third `é`.
    assert_eq!(cut_at_operator(&t, 14), None);
}

#[test]
fn replacing_a_constant() {
    let t = chars("const A: i32 = 5;");
    assert_eq!(text(&constant_value_exec(&t)), "5");
    assert_eq!(text(&replace_constant(&t, &chars("-1"))), "const A: i32 = -1;");
}

#[test]
fn other_constants_leave_out_the_current_one() {
    let cs = lines_of(&["0", "1", "-1", "5", "0"]);
    let others = other_constants(&cs, &chars("0"));
    let texts: Vec<String> = others.iter().map(|c| text(c)).collect();
    assert_eq!(texts, vec!["1", "-1", "5"]);
}

#[test]
fn commenting_out_a_call() {
    assert_eq!(text(&comment_out_call(&chars("    foo(1);"))), "    // foo(1);");
    assert_eq!(text(&comment_out_call(&chars("\u{3000}foo();"))), "   // foo();");
}

#[test]
fn negating_a_return() {
    assert_eq!(text(&negate_return(&chars("    return a - b;"))), "    return -(a - b);");
    assert_eq!(text(&negate_return(&chars("return x;;"))), "return -(x);");
}

#[test]
fn splicing_lines() {
    let lines = lines_of(&["a", "b", "c", "d"]);
    assert_eq!(text(&splice_lines(&lines, 1, 3, &chars("X"))), "a\r\nX\r\nd");
    assert_eq!(text(&splice_lines(&lines, 0, 1, &chars("X"))), "X\r\nb\r\nc\r\nd");
    assert_eq!(text(&splice_lines(&lines, 3, 4, &chars("X"))), "a\r\nb\r\nc\r\nX");
    assert_eq!(text(&splice_lines(&lines, 4, 4, &chars("X"))), "a\r\nb\r\nc\r\nd\r\nX");
}

#[test]
fn names_of_the_file() {
    let lines = lines_of(&["const A: u8 = 7;", "fn f() {}", "fn g() -> u8 { 1 }", "const B: u8=2 ;", ""]);
    let (constants, unit_fns) = collect_names(&lines);
    let cs: Vec<String> = constants.iter().map(|c| text(c)).collect();
    let fs: Vec<String> = unit_fns.iter().map(|c| text(c)).collect();
    assert_eq!(cs, vec!["0", "1", "-1", "7", "2"]);
    assert_eq!(fs, vec!["f"]);
    // A constant and a function on the last line are found too.
    let lines = lines_of(&["fn g() {}", "const C: u8 = 3;"]);
    let (constants, unit_fns) = collect_names(&lines);
    let cs: Vec<String> = constants.iter().map(|c| text(c)).collect();
    let fs: Vec<String> = unit_fns.iter().map(|c| text(c)).collect();
    assert_eq!(cs, vec!["0", "1", "-1", "3"]);
    assert_eq!(fs, vec!["g"]);
}

#[test]
fn call_of_unit_function_is_commented_out() {
    let source = "fn foo() {}\r\nfn main() {\r\n    foo();\r\n}";
    assert_eq!(
        mutate_file_by_line(source, 3),
        "call_:fn foo() {}\r\nfn main() {\r\n    // foo();\r\n}"
    );
}

#[test]
fn call_of_other_function_is_not_mutated() {
    let source = "fn foo() -> u8 { 1 }\r\nfn main() {\r\n    foo();\r\n}";
    assert_eq!(mutate_file_by_line(source, 3), format!("notmutated:{}", source));
}

#[test]
fn last_line_is_mutated() {
    let source = "fn foo() {}\r\nfoo();";
    assert_eq!(mutate_file_by_line(source, 2), "call_:fn foo() {}\r\n// foo();");
}

#[test]
fn other_statement_is_not_mutated() {
    let source = "struct S;\r\nfn main() {}";
    assert_eq!(mutate_file_by_line(source, 1), format!("notmutated:{}", source));
    assert_eq!(mutate_file_by_line(source, 9), format!("notmutated:{}", source));
}

#[test]
fn binding_mutations() {
    let source = "fn main() {\r\n    let x = a + b;\r\n}";
    for _ in 0..20 {
        let r = mutate_file_by_line(source, 2);
        assert!(
            r == "negation:fn main() {\r\n    let x = -(a + b);\r\n}"
                || r == "arithmetic_deletion:fn main() {\r\n    let x = a;\r\n}",
            "{}",
            r
        );
    }
}

#[test]
fn binding_without_operator() {
    let source = "let x = y;";
    for _ in 0..20 {
        let r = mutate_file_by_line(source, 1);
        assert!(r == "negation:let x = -(y);" || r == "notmutated:let x = y;", "{}", r);
    }
}

#[test]
fn constant_mutations() {
    let source = "const A: i32 = 1;\r\nconst B: i32 = 9;\r\n";
    for _ in 0..30 {
        let r = mutate_file_by_line(source, 2);
        let (kind, body) = split_mutation_result(&r).unwrap();
        assert_eq!(kind, "constant_replacement");
        assert!(
            body == "const A: i32 = 1;\r\nconst B: i32 = 0;\r\n"
                || body == "const A: i32 = 1;\r\nconst B: i32 = 1;\r\n"
                || body == "const A: i32 = 1;\r\nconst B: i32 = -1;\r\n",
            "{}",
            body
        );
    }
}

#[test]
fn return_mutations() {
    let source = "fn f() -> i32 {\r\n    return a * b;\r\n}";
    for _ in 0..20 {
        let r = mutate_file_by_line(source, 2);
        assert!(
            r == "return1:fn f() -> i32 {\r\n    return -(a * b);\r\n}"
                || r == "return2:fn f() -> i32 {\r\n    return a;\r\n}",
            "{}",
            r
        );
    }
}

#[test]
fn undefined_mutations_are_refused() {
    // A binding without `=`: negating it has no value to negate; cutting it
    // at an operator leaves it as it is, since it has none.
    assert!(!mutation_is_defined_exec("let x;", 1));
    for _ in 0..20 {
        let r = try_mutate_file_by_line("let x;", 1);
        assert!(r.is_none() || r == Some("notmutated:let x;".to_string()), "{:?}", r);
    }
    // An operator whose index is no byte boundary of the statement: the cut
    // has no result, the negation has one.
    let source = "let s = \"ééé\" + a;";
    assert!(!mutation_is_defined_exec(source, 1));
    for _ in 0..20 {
        let r = try_mutate_file_by_line(source, 1);
        assert!(
            r.is_none() || r == Some("negation:let s = -(\"ééé\" + a);".to_string()),
            "{:?}",
            r
        );
    }
    assert!(mutation_is_defined_exec("let x = 1;", 1));
    assert!(try_mutate_file_by_line("struct S;", 1).is_some());
}

#[test]
fn mutations_for_given_draws() {
    let source = "fn main() {\r\n    let x = a + b - c;\r\n}";
    assert_eq!(
        mutate_with_draws(source, 2, 0, 0, 0),
        "negation:fn main() {\r\n    let x = -(a + b - c);\r\n}"
    );
    assert_eq!(
        mutate_with_draws(source, 2, 1, 0, 0),
        "arithmetic_deletion:fn main() {\r\n    let x = a;\r\n}"
    );
    assert_eq!(
        mutate_with_draws(source, 2, 1, 1, 0),
        "arithmetic_deletion:fn main() {\r\n    let x = a + b;\r\n}"
    );
    let source = "const A: i32 = 1;\r\nconst B: i32 = 9;\r\n";
    // The candidates for `9` are 0, 1, -1 and 1.
    assert_eq!(
        mutate_with_draws(source, 2, 0, 0, 0),
        "constant_replacement:const A: i32 = 1;\r\nconst B: i32 = 0;\r\n"
    );
    assert_eq!(
        mutate_with_draws(source, 2, 1, 0, 2),
        "constant_replacement:const A: i32 = 1;\r\nconst B: i32 = -1;\r\n"
    );
    assert_eq!(
        mutate_with_draws(source, 2, 0, 0, 3),
        "constant_replacement:const A: i32 = 1;\r\nconst B: i32 = 1;\r\n"
    );
    let source = "fn f() -> i32 {\r\n    return a * b;\r\n}";
    assert_eq!(
        mutate_with_draws(source, 2, 0, 0, 0),
        "return1:fn f() -> i32 {\r\n    return -(a * b);\r\n}"
    );
    assert_eq!(
        mutate_with_draws(source, 2, 1, 0, 0),
        "return2:fn f() -> i32 {\r\n    return a;\r\n}"
    );
    let source = "fn foo() {}\r\nfoo();";
    assert_eq!(mutate_with_draws(source, 2, 1, 0, 0), "call_:fn foo() {}\r\n// foo();");
    let source = "let x = y;";
    assert_eq!(mutate_with_draws(source, 1, 1, 0, 0), "notmutated:let x = y;");
    let source = "struct S;";
    assert_eq!(mutate_with_draws(source, 1, 1, 0, 0), "notmutated:struct S;");
}

#[test]
fn replaced_constant_reads_back() {
    let t = chars("    const LIMIT: usize = 10 ;");
    for c in ["0", "-1", "foo(1)", ""] {
        let replaced = replace_constant(&t, &chars(c));
        assert_eq!(text(&constant_value_exec(&replaced)), c);
    }
}

#[test]
fn results_name_their_kind() {
    let sources = [
        ("fn main() {\r\n    let x = a + b;\r\n}", 2),
        ("const A: i32 = 1;\r\nconst B: i32 = 9;\r\n", 2),
        ("fn f() -> i32 {\r\n    return a * b;\r\n}", 2),
        ("struct S;\r\nfn main() {}", 1),
    ];
    let kinds = [
        "negation",
        "arithmetic_deletion",
        "notmutated",
        "constant_replacement",
        "call_",
        "return1",
        "return2",
    ];
    for (source, line) in sources {
        for _ in 0..10 {
            let r = mutate_file_by_line(source, line);
            let (kind, body) = split_mutation_result(&r).unwrap();
            assert!(kinds.contains(&kind.as_str()));
            if kind == "notmutated" {
                assert_eq!(body, source);
            } else {
                // Only the target line changed.
                let before: Vec<&str> = source.split("\r\n").collect();
                let after: Vec<&str> = body.split("\r\n").collect();
                assert_eq!(before.len(), after.len());
                for k in 0..before.len() {
                    if k + 1 != line {
                        assert_eq!(before[k], after[k]);
                    }
                }
            }
        }
    }
}
