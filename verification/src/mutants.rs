//! The record of a generated mutant, and reading back the result of a
//! line mutation.

use crate::mutate::{
    commented_call, constant_candidates, cut_at, draw_is_defined, draws_fit, is_mutation_outcome,
    mutation_with_draws, negated_binding, negated_return, operator_positions, replaced_constant,
    tagged_text, target_statement, unchanged_result, with_target_replaced,
};
use crate::parse::{parsed_statement, StmtShapeView};
use crate::text::{
    append_all, chars_of, copy_range, crlf, decimal, push_decimal, split_by, string_of,
};
use vstd::prelude::*;

verus! {

/// A mutant file generated from a source file.
pub struct MutantInfo {
    /// The file the mutant was made from.
    pub source_name: String,
    /// The file that holds the mutant.
    pub file_name: String,
    /// The line around which the source was mutated.
    pub target_line: usize,
    /// The kind of mutation.
    pub mutation: String,
}

/// The name of mutant number `idx` of line `num_line`:
/// `mutated{num_line}_{idx}.rs`.
pub open spec fn mutant_file_name_spec(num_line: nat, idx: nat) -> Seq<char> {
    "mutated"@ + decimal(num_line) + "_"@ + decimal(idx) + ".rs"@
}

/// The name of mutant number `idx` of line `num_line`.
pub fn mutant_file_name(num_line: usize, idx: usize) -> (r: String)
    ensures
        r@ == mutant_file_name_spec(num_line as nat, idx as nat),
{
    let mut out = chars_of("mutated");
    push_decimal(&mut out, num_line);
    append_all(&mut out, &chars_of("_"));
    push_decimal(&mut out, idx);
    append_all(&mut out, &chars_of(".rs"));
    string_of(&out)
}

impl MutantInfo {
    /// The record of mutant number `idx` of line `num_line` of `source_name`,
    /// made by a mutation of kind `mutation`.
    pub fn new(source_name: String, num_line: usize, idx: usize, mutation: String) -> (r: MutantInfo)
        ensures
            r.source_name@ == source_name@,
            r.file_name@ == mutant_file_name_spec(num_line as nat, idx as nat),
            r.target_line == num_line,
            r.mutation@ == mutation@,
    {
        MutantInfo {
            source_name,
            file_name: mutant_file_name(num_line, idx),
            target_line: num_line,
            mutation,
        }
    }
}

/// The index of the first `c` in `s` at or after `i`, or -1.
pub open spec fn find_char_from(s: Seq<char>, c: char, i: int) -> int
    decreases s.len() - i,
{
    if i < 0 || i >= s.len() {
        -1
    } else if s[i] == c {
        i
    } else {
        find_char_from(s, c, i + 1)
    }
}

/// `s.splitn(2, ':')` read as a pair: the text before the first `:` and the
/// text after it; `None` when `s` holds no `:`.
pub open spec fn split_kind(s: Seq<char>) -> Option<(Seq<char>, Seq<char>)> {
    let k = find_char_from(s, ':', 0);
    if k < 0 {
        None
    } else {
        Some((s.take(k), s.skip(k + 1)))
    }
}

/// Splits the result of a line mutation into the kind of mutation and the
/// mutated text.
pub fn split_mutation_result(s: &str) -> (r: Option<(String, String)>)
    ensures
        match r {
            Some((kind, body)) => split_kind(s@) == Some((kind@, body@)),
            None => split_kind(s@) is None,
        },
{
    let v = chars_of(s);
    let mut k: usize = 0;
    while k < v.len()
        invariant
            k <= v.len(),
            v@ == s@,
            find_char_from(v@, ':', 0) == find_char_from(v@, ':', k as int),
        decreases v.len() - k,
    {
        if v[k] == ':' {
            let kind = copy_range(&v, 0, k);
            let body = copy_range(&v, k + 1, v.len());
            assert(kind@ =~= v@.take(k as int));
            assert(body@ =~= v@.skip(k + 1));
            return Some((string_of(&kind), string_of(&body)));
        }
        k += 1;
    }
    None
}

/// True when the kind names an applied mutation, not `notmutated`.
pub fn is_applied(kind: &str) -> (r: bool)
    ensures
        r == (kind@ != "notmutated"@),
{
    !crate::text::same_text(&chars_of(kind), &chars_of("notmutated"))
}

/// The kinds of line mutation, as the results name them.
pub open spec fn mutation_kinds() -> Seq<Seq<char>> {
    seq!["negation"@, "arithmetic_deletion"@, "notmutated"@, "constant_replacement"@, "call_"@, "return1"@, "return2"@]
}

/// The first `:` of `name : rest` is the one after `name`.
proof fn lemma_find_after_name(name: Seq<char>, rest: Seq<char>, i: int)
    requires
        !name.contains(':'),
        0 <= i <= name.len(),
    ensures
        find_char_from(name + seq![':'] + rest, ':', i) == name.len(),
    decreases name.len() - i,
{
    let s = name + seq![':'] + rest;
    if i < name.len() {
        assert(s[i] == name[i]);
        lemma_find_after_name(name, rest, i + 1);
    } else {
        assert(s[i] == ':');
    }
}

/// A result tagged `name:` splits into `name` and the rest.
pub proof fn lemma_split_tagged(name: Seq<char>, rest: Seq<char>)
    requires
        !name.contains(':'),
    ensures
        split_kind(name + seq![':'] + rest) == Some((name, rest)),
{
    lemma_find_after_name(name, rest, 0);
    let s = name + seq![':'] + rest;
    assert(s.take(name.len() as int) =~= name);
    assert(s.skip(name.len() as int + 1) =~= rest);
}

/// The kinds of mutation hold no `:`, and all but `notmutated` differ from it.
proof fn lemma_kinds_are_tags()
    ensures
        forall|k: int|
            0 <= k < mutation_kinds().len() ==> !(#[trigger] mutation_kinds()[k]).contains(':'),
        forall|k: int|
            0 <= k < mutation_kinds().len() && k != 2 ==> #[trigger] mutation_kinds()[k]
                != "notmutated"@,
{
    reveal_strlit("negation");
    reveal_strlit("arithmetic_deletion");
    reveal_strlit("notmutated");
    reveal_strlit("constant_replacement");
    reveal_strlit("call_");
    reveal_strlit("return1");
    reveal_strlit("return2");
    assert forall|k: int| 0 <= k < mutation_kinds().len() implies !(
    #[trigger] mutation_kinds()[k]).contains(':') by {
        let s = mutation_kinds()[k];
        if s.contains(':') {
            let i = choose|i: int| 0 <= i < s.len() && s[i] == ':';
        }
    }
}

/// `r` reads as a result of mutating line `n` of `source`: it splits into
/// one of the kinds of mutation and a text; the text of a result of kind
/// `notmutated` is the source itself, that of any other kind is the source
/// with the lines of the target statement replaced by one new line.
pub open spec fn reads_as_mutation(source: Seq<char>, n: int, r: Seq<char>) -> bool {
    split_kind(r) matches Some((kind, body)) && mutation_kinds().contains(kind) && (kind
        == "notmutated"@ ==> body == source) && (kind != "notmutated"@ ==> exists|
        new_line: Seq<char>,
    | body == #[trigger] with_target_replaced(split_by(source, crlf()), n, new_line))
}

/// The unchanged file reads as a result of kind `notmutated`.
proof fn lemma_unchanged_reads(source: Seq<char>, n: int)
    ensures
        reads_as_mutation(source, n, unchanged_result(split_by(source, crlf()))),
{
    lemma_kinds_are_tags();
    crate::text::lemma_join_split(source, crlf());
    assert(mutation_kinds()[2] == "notmutated"@);
    lemma_split_tagged(mutation_kinds()[2], source);
}

/// The file with the target replaced, tagged with kind number `k` other than
/// `notmutated`, reads as a result of that kind.
proof fn lemma_replaced_reads(source: Seq<char>, n: int, k: int, new_line: Seq<char>)
    requires
        0 <= k < mutation_kinds().len(),
        k != 2,
    ensures
        reads_as_mutation(
            source,
            n,
            tagged_text(mutation_kinds()[k], with_target_replaced(split_by(source, crlf()), n, new_line)),
        ),
{
    lemma_kinds_are_tags();
    let body = with_target_replaced(split_by(source, crlf()), n, new_line);
    lemma_split_tagged(mutation_kinds()[k], body);
}

/// Whatever the draws, the result of mutating line `n` of `source` splits
/// into one of the kinds of mutation and a text: the source itself for
/// `notmutated`, else the source with only the lines of the target
/// statement replaced, by one new line.
pub proof fn lemma_mutation_result_kind(source: Seq<char>, n: int, rule: int, op_pick: int, const_pick: int)
    ensures
        reads_as_mutation(source, n, mutation_with_draws(source, n, rule, op_pick, const_pick)),
{
    let lines = split_by(source, crlf());
    let t = target_statement(lines, n);
    let ps = operator_positions(t);
    lemma_unchanged_reads(source, n);
    match parsed_statement(t) {
        StmtShapeView::Local => {
            if rule == 0 {
                lemma_replaced_reads(source, n, 0, negated_binding(t));
            } else if ps.len() > 0 {
                lemma_replaced_reads(source, n, 1, cut_at(t, ps[op_pick]));
            }
        },
        StmtShapeView::ConstItem => {
            let c = constant_candidates(lines, n)[const_pick];
            lemma_replaced_reads(source, n, 3, replaced_constant(t, c));
        },
        StmtShapeView::Call(Some(head)) => {
            lemma_replaced_reads(source, n, 4, commented_call(t));
        },
        StmtShapeView::Return => {
            if rule == 0 {
                lemma_replaced_reads(source, n, 5, negated_return(t));
            } else if ps.len() > 0 {
                lemma_replaced_reads(source, n, 6, cut_at(t, ps[op_pick]));
            }
        },
        _ => {},
    }
}

/// Every result that mutating a line can give reads as a mutation of that
/// line.
pub proof fn lemma_outcome_reads_as_mutation(source: Seq<char>, n: int, r: Seq<char>)
    requires
        is_mutation_outcome(source, n, r),
    ensures
        reads_as_mutation(source, n, r),
{
    let (rule, op_pick, const_pick) = choose|rule: int, op_pick: int, const_pick: int|
        draws_fit(source, n, rule, op_pick, const_pick) && draw_is_defined(source, n, rule, op_pick)
            && r == #[trigger] mutation_with_draws(source, n, rule, op_pick, const_pick);
    lemma_mutation_result_kind(source, n, rule, op_pick, const_pick);
}

/// A decimal representation holds nothing but digits.
proof fn lemma_decimal_has_no(n: nat, c: char)
    requires
        !('0' <= c && c <= '9'),
    ensures
        !decimal(n).contains(c),
{
    crate::text::lemma_decimal_digits(n);
    if decimal(n).contains(c) {
        let k = choose|k: int| 0 <= k < decimal(n).len() && decimal(n)[k] == c;
        assert('0' <= decimal(n)[k]);
    }
}

/// Different mutants get different file names: the name gives back the line
/// and the number of the mutant.
pub proof fn lemma_mutant_names_distinct(l1: nat, i1: nat, l2: nat, i2: nat)
    requires
        mutant_file_name_spec(l1, i1) == mutant_file_name_spec(l2, i2),
    ensures
        l1 == l2,
        i1 == i2,
{
    reveal_strlit("mutated");
    reveal_strlit("_");
    reveal_strlit(".rs");
    let u1 = decimal(l1) + seq!['_'] + decimal(i1);
    let u2 = decimal(l2) + seq!['_'] + decimal(i2);
    let s1 = mutant_file_name_spec(l1, i1);
    assert(s1 =~= "mutated"@ + u1 + ".rs"@);
    assert(mutant_file_name_spec(l2, i2) =~= "mutated"@ + u2 + ".rs"@);
    assert(u1 =~= s1.subrange(7, s1.len() - 3));
    assert(u2 =~= s1.subrange(7, s1.len() - 3));
    lemma_decimal_has_no(l1, '_');
    lemma_decimal_has_no(i1, '_');
    lemma_decimal_has_no(l2, '_');
    lemma_decimal_has_no(i2, '_');
    crate::text::lemma_split_two(decimal(l1), '_', decimal(i1));
    crate::text::lemma_split_two(decimal(l2), '_', decimal(i2));
    assert(split_by(u1, seq!['_']) == split_by(u2, seq!['_']));
    assert(decimal(l1) == split_by(u1, seq!['_'])[0]);
    crate::ast_mutation::lemma_digits_value_decimal(l1);
    crate::ast_mutation::lemma_digits_value_decimal(l2);
    crate::ast_mutation::lemma_digits_value_decimal(i1);
    crate::ast_mutation::lemma_digits_value_decimal(i2);
}

} // verus!
