use mut_gen::parse::{find_min_parsable_lines, find_min_parsable_window, statement_shape, StmtShape};

fn chars(s: &str) -> Vec<char> {
    s.chars().collect()
}

#[test]
fn single_line_statement_is_its_own_window() {
    let lines = vec!["fn f() {", "let x = 1;", "}"];
    assert_eq!(find_min_parsable_lines(lines, 2), (1, 2));
}

#[test]
fn line_past_the_end_gives_the_whole_file() {
    let lines = vec!["let x = 1;", "let y = 2;"];
    assert_eq!(find_min_parsable_lines(lines.clone(), 1), (0, 1));
    assert_eq!(find_min_parsable_lines(lines.clone(), 3), (0, 2));
    assert_eq!(find_min_parsable_lines(lines, 7), (0, 2));
}

#[test]
fn line_zero_gives_the_whole_file() {
    let lines = vec!["let x = 1;", "let y = 2;"];
    assert_eq!(find_min_parsable_lines(lines, 0), (0, 2));
}

#[test]
fn statement_over_two_lines_is_found() {
    let lines = vec!["let x =", "1 + 2;", "let y = 3;"];
    assert_eq!(find_min_parsable_lines(lines.clone(), 1), (0, 2));
    assert_eq!(find_min_parsable_lines(lines.clone(), 2), (1, 2));
    assert_eq!(find_min_parsable_lines(lines, 3), (2, 3));
}

#[test]
fn last_line_is_its_own_window() {
    let lines = vec!["let a = 1;", "let b = 2;"];
    assert_eq!(find_min_parsable_lines(lines, 2), (1, 2));
}

#[test]
fn longest_windows_are_tried_too() {
    let lines = vec!["a", "let x = {", "1", "};"];
    assert_eq!(find_min_parsable_lines(lines, 2), (1, 4));
}

#[test]
fn statement_over_the_whole_file() {
    let lines = vec!["let x =", "1;"];
    assert_eq!(find_min_parsable_lines(lines, 1), (0, 2));
}

#[test]
fn nothing_parsable_gives_the_whole_file() {
    let lines = vec!["}", "}", "}"];
    assert_eq!(find_min_parsable_lines(lines, 2), (0, 3));
}

#[test]
fn window_search_on_character_lines() {
    let lines = vec![chars("fn f() {"), chars("    foo();"), chars("}")];
    assert_eq!(find_min_parsable_window(&lines, 2), (1, 2));
    assert_eq!(find_min_parsable_window(&lines, 1), (0, 3));
}

#[test]
fn statement_shapes() {
    assert!(matches!(statement_shape(&chars("let x = 1;")), StmtShape::Local));
    assert!(matches!(statement_shape(&chars("const A: u8 = 1;")), StmtShape::ConstItem));
    match statement_shape(&chars("fn foo() {}")) {
        StmtShape::FnItem(unit, name) => {
            assert!(unit);
            assert_eq!(name, "foo");
        }
        _ => panic!("not a function item"),
    }
    match statement_shape(&chars("fn bar() -> u8 { 1 }")) {
        StmtShape::FnItem(unit, name) => {
            assert!(!unit);
            assert_eq!(name, "bar");
        }
        _ => panic!("not a function item"),
    }
    match statement_shape(&chars("a::b(1);")) {
        StmtShape::Call(Some(head)) => assert_eq!(head, "a"),
        _ => panic!("not a call"),
    }
    assert!(matches!(statement_shape(&chars("(f)(1);")), StmtShape::Call(None)));
    assert!(matches!(statement_shape(&chars("return 1;")), StmtShape::Return));
    assert!(matches!(statement_shape(&chars("x + 1;")), StmtShape::Other));
    assert!(matches!(statement_shape(&chars("if a { b }")), StmtShape::Other));
    assert!(matches!(statement_shape(&chars("struct S;")), StmtShape::Other));
    assert!(matches!(statement_shape(&chars("let x =")), StmtShape::Unparsable));
    assert!(matches!(statement_shape(&chars("let x = 1; let y = 2;")), StmtShape::Unparsable));
}
