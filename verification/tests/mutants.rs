use mut_gen::ast_mutation::{
    binop_from_symbol, binop_mutations, parse_swap_pair, swap_pairs, BinOpKind, BinOpVisitor,
};
use mut_gen::mutants::{is_applied, mutant_file_name, split_mutation_result, MutantInfo};

#[test]
fn binop_replacements() {
    let (alts, kind) = binop_mutations(BinOpKind::Sub);
    assert_eq!(alts, vec!["+", "*", "/", "%"]);
    assert_eq!(kind, "arithmetic");
    let (alts, kind) = binop_mutations(BinOpKind::BitOr);
    assert_eq!(alts, vec!["^", "&"]);
    assert_eq!(kind, "bitwise");
    let (alts, kind) = binop_mutations(BinOpKind::Ge);
    assert_eq!(alts, vec!["==", "<", "<=", "!=", ">"]);
    assert_eq!(kind, "relational");
    let (alts, kind) = binop_mutations(BinOpKind::Other);
    assert_eq!(alts, vec!["+"]);
    assert_eq!(kind, "");
}

#[test]
fn symbols_read_back() {
    assert_eq!(binop_from_symbol("<="), BinOpKind::Le);
    assert_eq!(binop_from_symbol("%"), BinOpKind::Rem);
    assert_eq!(binop_from_symbol("&&"), BinOpKind::Other);
    for op in [BinOpKind::Add, BinOpKind::Lt, BinOpKind::BitXor] {
        for alt in binop_mutations(op).0 {
            let back = binop_from_symbol(&alt);
            assert_ne!(back, op);
            assert_ne!(back, BinOpKind::Other);
        }
    }
}

#[test]
fn match_arm_swaps() {
    assert_eq!(swap_pairs(0), Vec::<String>::new());
    assert_eq!(swap_pairs(1), Vec::<String>::new());
    assert_eq!(swap_pairs(3), vec!["0,1", "0,2", "1,2"]);
    assert_eq!(swap_pairs(12).last().unwrap(), "10,11");
    for s in swap_pairs(5) {
        let (j, i) = parse_swap_pair(&s).unwrap();
        assert_eq!(format!("{},{}", j, i), s);
    }
}

#[test]
fn reading_swaps() {
    assert_eq!(parse_swap_pair("3,14"), Some((3, 14)));
    assert_eq!(parse_swap_pair("+3,007"), Some((3, 7)));
    assert_eq!(parse_swap_pair("1,2,3"), Some((1, 2)));
    assert_eq!(parse_swap_pair("12"), None);
    assert_eq!(parse_swap_pair("a,1"), None);
    assert_eq!(parse_swap_pair("-1,1"), None);
    assert_eq!(parse_swap_pair("+,1"), None);
    assert_eq!(parse_swap_pair("1,"), None);
    assert_eq!(parse_swap_pair("99999999999999999999,1"), None);
}

#[test]
fn search_records_nodes_around_the_line() {
    let mut v = BinOpVisitor::new(4);
    assert!(v.search);
    assert_eq!(v.target.start_type, vec!["+"]);
    v.record_binop(4, 10, 4, 11, BinOpKind::Mul);
    v.record_binop(5, 1, 5, 2, BinOpKind::Add);
    v.record_match(2, 4, 8, 5, 3);
    v.record_match(3, 0, 6, 1, 0);
    assert_eq!(v.vec_pos.len(), 2);
    assert_eq!(v.vec_pos[0].start_type, vec!["+", "-", "/", "%"]);
    assert_eq!(v.vec_pos[0].mut_type, "arithmetic");
    assert_eq!((v.vec_pos[0].start_line, v.vec_pos[0].start_column), (4, 10));
    assert_eq!(v.vec_pos[1].start_type, vec!["0,1", "0,2", "1,2"]);
    assert_eq!(v.vec_pos[1].mut_type, "match");
    assert!(v.covers(3, 4));
    assert!(!v.covers(5, 9));
}

#[test]
fn rewriting_takes_replacements_from_the_end() {
    let mut v = BinOpVisitor::new(1);
    v.record_binop(1, 2, 1, 3, BinOpKind::BitAnd);
    v.aim_at(0);
    assert!(!v.search);
    // Recording does nothing outside the search phase.
    v.record_binop(1, 2, 1, 3, BinOpKind::Add);
    assert_eq!(v.vec_pos.len(), 1);
    assert_eq!(v.take_replacement(1, 2, 1, 4), None);
    assert_eq!(v.take_replacement(1, 2, 1, 3), Some("|".to_string()));
    assert_eq!(v.take_replacement(1, 2, 1, 3), Some("^".to_string()));
    assert_eq!(v.take_replacement(1, 2, 1, 3), None);
}

#[test]
fn mutant_names() {
    assert_eq!(mutant_file_name(12, 3), "mutated12_3.rs");
    assert_eq!(mutant_file_name(0, 10), "mutated0_10.rs");
    let info = MutantInfo::new("a.rs".to_string(), 7, 2, "negation".to_string());
    assert_eq!(info.source_name, "a.rs");
    assert_eq!(info.file_name, "mutated7_2.rs");
    assert_eq!(info.target_line, 7);
    assert_eq!(info.mutation, "negation");
}

#[test]
fn mutation_results_split_at_the_first_colon() {
    assert_eq!(
        split_mutation_result("negation:let x = -(a);"),
        Some(("negation".to_string(), "let x = -(a);".to_string()))
    );
    assert_eq!(split_mutation_result("a:b:c"), Some(("a".to_string(), "b:c".to_string())));
    assert_eq!(split_mutation_result(":"), Some((String::new(), String::new())));
    assert_eq!(split_mutation_result("abc"), None);
    assert!(!is_applied("notmutated"));
    assert!(is_applied("return2"));
}

#[test]
fn mutant_names_differ() {
    assert_ne!(mutant_file_name(1, 23), mutant_file_name(12, 3));
    assert_ne!(mutant_file_name(4, 0), mutant_file_name(4, 1));
}
