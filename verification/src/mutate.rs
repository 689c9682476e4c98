//! Line-based mutation of a source file: one statement around a chosen line
//! is rewritten by one of a few mutation rules.

use crate::parse::{
    find_min_parsable_window, min_parsable_window, parsed_statement, statement_shape, window_text,
    StmtShape, StmtShapeView,
};
use crate::text::{
    append_all, byte_offset_chars, byte_prefix, chars_of, copy_range, crlf, crlf_exec,
    is_char_offset, join, occurs_at, join_range, push_spaces, same_text, spaces, split_by, split_by_exec,
    string_of, texts, trim, trim_end, trim_end_char, trim_end_char_exec, trim_end_exec, trim_exec,
    trim_start, trim_start_exec, trim_start_pattern, trim_start_pattern_exec, utf8_len,
    utf8_len_exec,
};
use rand::seq::SliceRandom;
use rand::Rng;
use vstd::prelude::*;

verus! {

// ---------------------------------------------------------------------------
// Rewriting one statement
// ---------------------------------------------------------------------------

/// The pieces of a statement text around its `=` signs.
pub open spec fn eq_parts(t: Seq<char>) -> Seq<Seq<char>> {
    split_by(t, seq!['='])
}

/// `let x = e;` becomes `let x = -(e);`: the text before the first `=`,
/// then `= -(`, the trimmed text between the first and second `=` without
/// its trailing semicolons, then `);`.
pub open spec fn negated_binding(t: Seq<char>) -> Seq<char> {
    eq_parts(t)[0] + "= "@ + "-("@ + trim_end_char(trim(eq_parts(t)[1]), ';') + ");"@
}

/// The arithmetic operator characters.
pub open spec fn is_arithmetic(c: char) -> bool {
    c == '+' || c == '-' || c == '*' || c == '/' || c == '%'
}

/// The indices of the arithmetic operator characters among the first `k`
/// characters of `t`, in increasing order.
pub open spec fn operator_positions_upto(t: Seq<char>, k: int) -> Seq<int>
    decreases k,
{
    if k <= 0 {
        seq![]
    } else if is_arithmetic(t[k - 1]) {
        operator_positions_upto(t, k - 1).push(k - 1)
    } else {
        operator_positions_upto(t, k - 1)
    }
}

/// The indices of the arithmetic operator characters of `t`.
pub open spec fn operator_positions(t: Seq<char>) -> Seq<int> {
    operator_positions_upto(t, t.len() as int)
}

/// The statement cut before an operator: its text up to byte `p` (the
/// character index of the operator, read as a byte offset), without trailing
/// whitespace, then `;`.
pub open spec fn cut_at(t: Seq<char>, p: int) -> Seq<char> {
    trim_end(byte_prefix(t, p)) + ";"@
}

/// The value of a `const` item: the text between the first and second `=`,
/// without trailing semicolons, trimmed.
pub open spec fn constant_value(t: Seq<char>) -> Seq<char> {
    trim(trim_end_char(eq_parts(t)[1], ';'))
}

/// `const X: T = v;` becomes `const X: T = c;`.
pub open spec fn replaced_constant(t: Seq<char>, c: Seq<char>) -> Seq<char> {
    eq_parts(t)[0] + "= "@ + c + ";"@
}

/// The number of bytes of the leading whitespace of `t`.
pub open spec fn leading_bytes(t: Seq<char>) -> int {
    utf8_len(t) - utf8_len(trim_start(t))
}

/// A call statement turned into a comment, indented by one space per byte
/// of its leading whitespace.
pub open spec fn commented_call(t: Seq<char>) -> Seq<char> {
    spaces(leading_bytes(t) as nat) + "// "@ + trim_start(t)
}

/// The expression of `return e;`: the statement without leading whitespace,
/// without leading `return`s, trimmed, without trailing semicolons.
pub open spec fn returned_expr(t: Seq<char>) -> Seq<char> {
    trim_end_char(trim(trim_start_pattern(trim_start(t), "return"@)), ';')
}

/// `return e;` becomes `return -(e);`, indented as the call comment is.
pub open spec fn negated_return(t: Seq<char>) -> Seq<char> {
    spaces(leading_bytes(t) as nat) + "return "@ + "-("@ + returned_expr(t) + ");"@
}

/// The lines with lines `start..end` replaced by `new_line`, joined with CRLF.
pub open spec fn spliced(lines: Seq<Seq<char>>, start: int, end: int, new_line: Seq<char>) -> Seq<char> {
    join(lines.take(start) + seq![new_line] + lines.skip(end), crlf())
}

/// The characters of a string literal.
fn literal(s: &str) -> (r: Vec<char>)
    ensures
        r@ == s@,
{
    chars_of(s)
}

/// Rewrites a `let` binding into one whose value is negated.
pub fn negate_binding(t: &Vec<char>) -> (r: Vec<char>)
    requires
        eq_parts(t@).len() > 1,
    ensures
        r@ == negated_binding(t@),
        eq_parts(r@).len() == 2,
        eq_parts(r@)[0] == eq_parts(t@)[0],
        bound_value(r@) == negation_of(bound_value(t@)),
{
    proof {
        lemma_negation_binds_negated_value(t@);
    }
    let eq = vec!['='];
    assert(eq@ =~= seq!['=']);
    let parts = split_by_exec(t, &eq);
    let mut out = copy_range(&parts[0], 0, parts[0].len());
    append_all(&mut out, &literal("= "));
    append_all(&mut out, &literal("-("));
    let value = trim_exec(&parts[1]);
    append_all(&mut out, &trim_end_char_exec(&value, ';'));
    append_all(&mut out, &literal(");"));
    assert(parts[0]@.subrange(0, parts[0]@.len() as int) =~= parts[0]@);
    out
}


/// The pieces of `t` around its `=` signs.
fn eq_parts_exec(t: &Vec<char>) -> (r: Vec<Vec<char>>)
    ensures
        texts(r@) == eq_parts(t@),
{
    let eq = vec!['='];
    assert(eq@ =~= seq!['=']);
    split_by_exec(t, &eq)
}

/// `c` is one of `+ - * / %`.
pub fn is_arithmetic_exec(c: char) -> (r: bool)
    ensures
        r == is_arithmetic(c),
{
    c == '+' || c == '-' || c == '*' || c == '/' || c == '%'
}

/// The character indices of the arithmetic operators in `t`, in order.
pub fn arithmetic_positions(t: &Vec<char>) -> (r: Vec<usize>)
    ensures
        r@.map_values(|p: usize| p as int) == operator_positions(t@),
{
    let mut out: Vec<usize> = Vec::new();
    let mut k: usize = 0;
    while k < t.len()
        invariant
            k <= t.len(),
            out@.map_values(|p: usize| p as int) == operator_positions_upto(t@, k as int),
        decreases t.len() - k,
    {
        if is_arithmetic_exec(t[k]) {
            let ghost before = out@;
            out.push(k);
            assert(out@.map_values(|p: usize| p as int) =~= before.map_values(|p: usize| p as int).push(
                k as int,
            ));
        }
        k += 1;
    }
    out
}

/// Cuts the statement before the operator at character index `p`, reading
/// `p` as a byte offset as the mutation rule does; `None` when that byte
/// offset is not a character boundary of `t`.
pub fn cut_at_operator(t: &Vec<char>, p: usize) -> (r: Option<Vec<char>>)
    ensures
        r is Some <==> is_char_offset(t@, p as int),
        r matches Some(c) ==> c@ == cut_at(t@, p as int),
{
    match byte_offset_chars(t, p) {
        None => None,
        Some(k) => {
            let prefix = copy_range(t, 0, k);
            assert(prefix@ =~= t@.take(k as int));
            let mut out = trim_end_exec(&prefix);
            append_all(&mut out, &literal(";"));
            Some(out)
        },
    }
}

/// The value that a `const` statement assigns.
pub fn constant_value_exec(t: &Vec<char>) -> (r: Vec<char>)
    requires
        eq_parts(t@).len() > 1,
    ensures
        r@ == constant_value(t@),
{
    let parts = eq_parts_exec(t);
    let v = trim_end_char_exec(&parts[1], ';');
    trim_exec(&v)
}

/// Rewrites a `const` statement to assign `c`.
pub fn replace_constant(t: &Vec<char>, c: &Vec<char>) -> (r: Vec<char>)
    requires
        eq_parts(t@).len() > 1,
    ensures
        r@ == replaced_constant(t@, c@),
{
    let parts = eq_parts_exec(t);
    let mut out = copy_range(&parts[0], 0, parts[0].len());
    assert(parts[0]@.subrange(0, parts[0]@.len() as int) =~= parts[0]@);
    append_all(&mut out, &literal("= "));
    append_all(&mut out, c);
    append_all(&mut out, &literal(";"));
    out
}

/// The number of bytes of the leading whitespace of `t`.
fn leading_bytes_exec(t: &Vec<char>) -> (r: usize)
    requires
        utf8_len(t@) <= usize::MAX,
    ensures
        r == leading_bytes(t@),
{
    let trimmed = trim_start_exec(t);
    proof {
        crate::text::lemma_trim_start_suffix(t@);
        crate::text::lemma_utf8_len_concat(
            t@.take(t@.len() - trimmed@.len()),
            t@.skip(t@.len() - trimmed@.len()),
        );
        assert(t@.take(t@.len() - trimmed@.len()) + t@.skip(t@.len() - trimmed@.len()) =~= t@);
    }
    let total = utf8_len_exec(t);
    let rest = utf8_len_exec(&trimmed);
    total - rest
}

/// Turns a call statement into a comment.
pub fn comment_out_call(t: &Vec<char>) -> (r: Vec<char>)
    requires
        utf8_len(t@) <= usize::MAX,
    ensures
        r@ == commented_call(t@),
{
    let n = leading_bytes_exec(t);
    let mut out: Vec<char> = Vec::new();
    push_spaces(&mut out, n);
    append_all(&mut out, &literal("// "));
    append_all(&mut out, &trim_start_exec(t));
    assert(out@ =~= commented_call(t@));
    out
}

/// Rewrites `return e;` into `return -(e);`.
pub fn negate_return(t: &Vec<char>) -> (r: Vec<char>)
    requires
        utf8_len(t@) <= usize::MAX,
    ensures
        r@ == negated_return(t@),
        returned_expr(r@) == negation_of(returned_expr(t@)),
        leading_bytes(r@) == leading_bytes(t@),
{
    proof {
        lemma_negated_return_returns_negation(t@);
    }
    let n = leading_bytes_exec(t);
    let mut out: Vec<char> = Vec::new();
    push_spaces(&mut out, n);
    append_all(&mut out, &literal("return "));
    append_all(&mut out, &literal("-("));
    let body = trim_start_exec(t);
    let keyword = literal("return");
    proof {
        reveal_strlit("return");
    }
    let body = trim_start_pattern_exec(&body, &keyword);
    let body = trim_exec(&body);
    append_all(&mut out, &trim_end_char_exec(&body, ';'));
    append_all(&mut out, &literal(");"));
    assert(out@ =~= negated_return(t@));
    out
}

/// The lines with lines `start..end` replaced by `new_line`, joined with CRLF.
pub fn splice_lines(lines: &Vec<Vec<char>>, start: usize, end: usize, new_line: &Vec<char>) -> (r: Vec<char>)
    requires
        start <= end <= lines.len(),
    ensures
        r@ == spliced(texts(lines@), start as int, end as int, new_line@),
{
    let ghost ls = texts(lines@);
    let sep = literal("\r\n");
    proof {
        reveal_strlit("\r\n");
        assert(sep@ =~= crlf());
    }
    let mut out = join_range(lines, 0, start, &sep);
    if start > 0 {
        append_all(&mut out, &sep);
    }
    append_all(&mut out, new_line);
    if end < lines.len() {
        append_all(&mut out, &sep);
        let tail = join_range(lines, end, lines.len(), &sep);
        append_all(&mut out, &tail);
    }
    proof {
        let head = ls.take(start as int);
        let tail = ls.skip(end as int);
        assert(ls.subrange(0, start as int) =~= head);
        assert(ls.subrange(end as int, ls.len() as int) =~= tail);
        let hn = head + seq![new_line@];
        if start > 0 {
            crate::text::lemma_join_concat(head, seq![new_line@], crlf());
        } else {
            assert(hn =~= seq![new_line@]);
        }
        if end < lines.len() {
            crate::text::lemma_join_concat(hn, tail, crlf());
            assert(out@ =~= join(hn, crlf()) + crlf() + join(tail, crlf()));
        } else {
            assert(tail.len() == 0);
            assert(hn + tail =~= hn);
        }
    }
    out
}


// ---------------------------------------------------------------------------
// Names read from the whole file
// ---------------------------------------------------------------------------

/// The constants every file offers for replacement: `0`, `1`, `-1`.
pub open spec fn initial_constants() -> Seq<Seq<char>> {
    seq!["0"@, "1"@, "-1"@]
}

/// The constants and the unit-returning function names found in the first
/// `k` lines: line `i` contributes when the statement found around it is a
/// `const` item (the value after the first `=` of line `i` itself, when it
/// has one) or a function item that declares no return type (its name).
pub open spec fn scanned_names(lines: Seq<Seq<char>>, k: int) -> (Seq<Seq<char>>, Seq<Seq<char>>)
    decreases k,
{
    if k <= 0 {
        (initial_constants(), seq![])
    } else {
        let prev = scanned_names(lines, k - 1);
        let w = min_parsable_window(lines, k);
        match parsed_statement(window_text(lines, w.0, w.1)) {
            StmtShapeView::ConstItem => if eq_parts(lines[k - 1]).len() > 1 {
                (prev.0.push(constant_value(lines[k - 1])), prev.1)
            } else {
                prev
            },
            StmtShapeView::FnItem(unit, name) => if unit {
                (prev.0, prev.1.push(name))
            } else {
                prev
            },
            _ => prev,
        }
    }
}

/// The constants a `const` item may be given.
pub open spec fn file_constants(lines: Seq<Seq<char>>) -> Seq<Seq<char>> {
    scanned_names(lines, lines.len() as int).0
}

/// The functions whose calls may be commented out.
pub open spec fn unit_functions(lines: Seq<Seq<char>>) -> Seq<Seq<char>> {
    scanned_names(lines, lines.len() as int).1
}

/// The scan keeps the initial constants in front.
proof fn lemma_scanned_prefix(lines: Seq<Seq<char>>, k: int)
    ensures
        scanned_names(lines, k).0.len() >= 3,
        scanned_names(lines, k).0.take(3) == initial_constants(),
    decreases k,
{
    if k > 0 {
        lemma_scanned_prefix(lines, k - 1);
        let prev = scanned_names(lines, k - 1).0;
        assert forall|c: Seq<char>| #[trigger] prev.push(c).take(3) == prev.take(3) by {
            assert(prev.push(c).take(3) =~= prev.take(3));
        }
    }
}

/// Scans every line for constants and unit-returning function names.
pub fn collect_names(lines: &Vec<Vec<char>>) -> (r: (Vec<Vec<char>>, Vec<Vec<char>>))
    ensures
        texts(r.0@) == file_constants(texts(lines@)),
        texts(r.1@) == unit_functions(texts(lines@)),
{
    let ghost ls = texts(lines@);
    let sep = crlf_exec();
    let mut constants: Vec<Vec<char>> = Vec::new();
    constants.push(literal("0"));
    constants.push(literal("1"));
    constants.push(literal("-1"));
    let mut unit_fns: Vec<Vec<char>> = Vec::new();
    assert(texts(constants@) =~= initial_constants());
    assert(texts(unit_fns@) =~= Seq::<Seq<char>>::empty());
    let mut k: usize = 0;
    while k < lines.len()
        invariant
            k <= lines.len(),
            ls == texts(lines@),
            sep@ == crlf(),
            (texts(constants@), texts(unit_fns@)) == scanned_names(ls, k as int),
        decreases lines.len() - k,
    {
        let (start, end) = find_min_parsable_window(lines, k + 1);
        proof {
            crate::parse::lemma_min_parsable_window(ls, k + 1);
        }
        let text = join_range(lines, start, end, &sep);
        let shape = statement_shape(&text);
        let ghost prev_c = texts(constants@);
        let ghost prev_f = texts(unit_fns@);
        match shape {
            StmtShape::ConstItem => {
                let parts = eq_parts_exec(&lines[k]);
                if parts.len() > 1 {
                    constants.push(constant_value_exec(&lines[k]));
                    assert(texts(constants@) =~= prev_c.push(constant_value(ls[k as int])));
                }
            },
            StmtShape::FnItem(unit, name) => {
                if unit {
                    unit_fns.push(chars_of(name.as_str()));
                    assert(texts(unit_fns@) =~= prev_f.push(name@));
                }
            },
            _ => {},
        }
        k += 1;
    }
    (constants, unit_fns)
}

/// True when `names` holds `name`.
fn contains_text(names: &Vec<Vec<char>>, name: &Vec<char>) -> (r: bool)
    ensures
        r == texts(names@).contains(name@),
{
    let mut k: usize = 0;
    while k < names.len()
        invariant
            k <= names.len(),
            forall|m: int| 0 <= m < k ==> texts(names@)[m] != name@,
        decreases names.len() - k,
    {
        if same_text(&names[k], name) {
            assert(texts(names@)[k as int] == name@);
            return true;
        }
        k += 1;
    }
    false
}

/// The constants of `cs` that differ from `current`, in order.
pub open spec fn differing(cs: Seq<Seq<char>>, current: Seq<char>) -> Seq<Seq<char>>
    decreases cs.len(),
{
    if cs.len() == 0 {
        seq![]
    } else if cs.last() != current {
        differing(cs.drop_last(), current).push(cs.last())
    } else {
        differing(cs.drop_last(), current)
    }
}

/// The constants left after taking out `current` are those of `cs` that
/// differ from it.
pub proof fn lemma_differing(cs: Seq<Seq<char>>, current: Seq<char>)
    ensures
        forall|k: int|
            0 <= k < differing(cs, current).len() ==> cs.contains(
                #[trigger] differing(cs, current)[k],
            ) && differing(cs, current)[k] != current,
        forall|k: int|
            0 <= k < cs.len() && #[trigger] cs[k] != current ==> differing(cs, current).contains(
                cs[k],
            ),
    decreases cs.len(),
{
    if cs.len() > 0 {
        let init = cs.drop_last();
        lemma_differing(init, current);
        let d0 = differing(init, current);
        let d = differing(cs, current);
        assert forall|k: int| 0 <= k < d.len() implies cs.contains(#[trigger] d[k]) && d[k]
            != current by {
            if k < d0.len() {
                assert(d[k] == d0[k]);
                let i = choose|i: int| 0 <= i < init.len() && init[i] == d0[k];
                assert(cs[i] == init[i]);
            } else {
                assert(d[k] == cs.last());
                assert(cs[cs.len() - 1] == cs.last());
            }
        }
        assert forall|k: int| 0 <= k < cs.len() && #[trigger] cs[k] != current implies d.contains(
            cs[k],
        ) by {
            if k < cs.len() - 1 {
                assert(init[k] == cs[k]);
                let i = choose|i: int| 0 <= i < d0.len() && d0[i] == init[k];
                assert(d[i] == d0[i]);
            } else {
                assert(d[d.len() - 1] == cs.last());
            }
        }
    }
}

/// The constants of `constants` that differ from `current`, in order.
pub fn other_constants(constants: &Vec<Vec<char>>, current: &Vec<char>) -> (r: Vec<Vec<char>>)
    ensures
        texts(r@) == differing(texts(constants@), current@),
{
    let mut out: Vec<Vec<char>> = Vec::new();
    let mut k: usize = 0;
    while k < constants.len()
        invariant
            k <= constants.len(),
            texts(out@) == differing(texts(constants@).take(k as int), current@),
        decreases constants.len() - k,
    {
        let ghost before = texts(out@);
        assert(texts(constants@).take(k + 1).drop_last() =~= texts(constants@).take(k as int));
        if !same_text(&constants[k], current) {
            let c = copy_range(&constants[k], 0, constants[k].len());
            assert(c@ =~= texts(constants@)[k as int]);
            out.push(c);
            assert(texts(out@) =~= before.push(c@));
        }
        k += 1;
    }
    assert(texts(constants@).take(k as int) =~= texts(constants@));
    out
}

// ---------------------------------------------------------------------------
// Chance
// ---------------------------------------------------------------------------

/// `rand::thread_rng().gen_range(0, n)`: a number below `n`, drawn at random.
/// The contract states the range only; that the draw is uniform is not stated.
#[verifier::external_body]
fn random_below(n: usize) -> (r: usize)
    requires
        n > 0,
    ensures
        r < n,
{
    rand::thread_rng().gen_range(0, n)
}

/// `SliceRandom::choose` on the thread generator: one of `indices`, drawn
/// at random. The contract states that the result is one of the indices;
/// that each is equally likely is not stated.
#[verifier::external_body]
fn choose_index(indices: &Vec<usize>) -> (r: usize)
    requires
        indices.len() > 0,
    ensures
        indices@.contains(r),
{
    *indices.choose(&mut rand::thread_rng()).unwrap()
}

/// `SliceRandom::choose_multiple` of one item on the thread generator: one
/// of `indices`, drawn at random. The contract states that the result is one
/// of the indices; that each is equally likely is not stated.
#[verifier::external_body]
fn choose_one_of(indices: &Vec<usize>) -> (r: usize)
    requires
        indices.len() > 0,
    ensures
        indices@.contains(r),
{
    *indices.choose_multiple(&mut rand::thread_rng(), 1).next().unwrap()
}

/// The indices `0..n`, in order.
fn index_range(n: usize) -> (r: Vec<usize>)
    ensures
        r.len() == n,
        forall|k: int| 0 <= k < n ==> r@[k] == k,
{
    let mut out: Vec<usize> = Vec::new();
    let mut k: usize = 0;
    while k < n
        invariant
            k <= n,
            out.len() == k,
            forall|m: int| 0 <= m < k ==> out@[m] == m,
        decreases n - k,
    {
        out.push(k);
        k += 1;
    }
    out
}

// ---------------------------------------------------------------------------
// Mutating one line of a file
// ---------------------------------------------------------------------------

/// The statement that the mutation of line `n` rewrites: the smallest
/// parsable window of lines around it, joined with CRLF.
pub open spec fn target_statement(lines: Seq<Seq<char>>, n: int) -> Seq<char> {
    let w = min_parsable_window(lines, n);
    window_text(lines, w.0, w.1)
}

/// The file with the target window of line `n` replaced by `new_line`.
pub open spec fn with_target_replaced(lines: Seq<Seq<char>>, n: int, new_line: Seq<char>) -> Seq<char> {
    let w = min_parsable_window(lines, n);
    spliced(lines, w.0, w.1, new_line)
}

/// A result: the kind of mutation, `:`, and the text.
pub open spec fn tagged_text(kind: Seq<char>, body: Seq<char>) -> Seq<char> {
    kind + seq![':'] + body
}

/// The result when no mutation applies: the kind `notmutated` and the file.
pub open spec fn unchanged_result(lines: Seq<Seq<char>>) -> Seq<char> {
    tagged_text("notmutated"@, join(lines, crlf()))
}

/// The result of cutting the statement before its operator number `k`, or
/// the unchanged result when it has no operator.
pub open spec fn deletion_result(lines: Seq<Seq<char>>, n: int, kind: Seq<char>, k: int) -> Seq<char> {
    let t = target_statement(lines, n);
    let ps = operator_positions(t);
    if ps.len() == 0 {
        unchanged_result(lines)
    } else {
        tagged_text(kind, with_target_replaced(lines, n, cut_at(t, ps[k])))
    }
}

/// The constants that may replace the value of the target `const` item: the
/// constants of the file that differ from it, in order.
pub open spec fn constant_candidates(lines: Seq<Seq<char>>, n: int) -> Seq<Seq<char>> {
    differing(file_constants(lines), constant_value(target_statement(lines, n)))
}

/// The result of mutating line `n` of `source` for the draws `rule`,
/// `op_pick` and `const_pick`. The file is split at CRLF and the statement
/// around line `n` is rewritten by the rule for its kind:
/// - a `let` binding: rule 0 negates its value (`negation`); rule 1 cuts it
///   before its operator number `op_pick` (`arithmetic_deletion`), or leaves
///   the file as it is when it has no arithmetic operator;
/// - a `const` item: its value becomes candidate number `const_pick`
///   (`constant_replacement`);
/// - a call of a function that declares no return type: commented out (`call_`);
/// - a `return`: rule 0 negates its value (`return1`); rule 1 cuts it as
///   above (`return2`);
/// - anything else: left as it is (`notmutated`).
pub open spec fn mutation_with_draws(
    source: Seq<char>,
    n: int,
    rule: int,
    op_pick: int,
    const_pick: int,
) -> Seq<char> {
    let lines = split_by(source, crlf());
    let t = target_statement(lines, n);
    match parsed_statement(t) {
        StmtShapeView::Local => if rule == 0 {
            tagged_text("negation"@, with_target_replaced(lines, n, negated_binding(t)))
        } else {
            deletion_result(lines, n, "arithmetic_deletion"@, op_pick)
        },
        StmtShapeView::ConstItem => tagged_text(
            "constant_replacement"@,
            with_target_replaced(
                lines,
                n,
                replaced_constant(t, constant_candidates(lines, n)[const_pick]),
            ),
        ),
        StmtShapeView::Call(Some(head)) => if unit_functions(lines).contains(head) {
            tagged_text("call_"@, with_target_replaced(lines, n, commented_call(t)))
        } else {
            unchanged_result(lines)
        },
        StmtShapeView::Return => if rule == 0 {
            tagged_text("return1"@, with_target_replaced(lines, n, negated_return(t)))
        } else {
            deletion_result(lines, n, "return2"@, op_pick)
        },
        _ => unchanged_result(lines),
    }
}

/// The draws that fit line `n` of `source`: the rule is 0 or 1; a cut picks
/// one of the statement's operators; a `const` item picks one of the
/// candidate constants.
pub open spec fn draws_fit(source: Seq<char>, n: int, rule: int, op_pick: int, const_pick: int) -> bool {
    let lines = split_by(source, crlf());
    let t = target_statement(lines, n);
    let ps = operator_positions(t);
    &&& 0 <= rule < 2
    &&& 0 <= op_pick
    &&& 0 <= const_pick
    &&& match parsed_statement(t) {
        StmtShapeView::Local | StmtShapeView::Return => rule == 1 && ps.len() > 0 ==> op_pick
            < ps.len(),
        StmtShapeView::ConstItem => const_pick < constant_candidates(lines, n).len(),
        _ => true,
    }
}

/// The draws for which the mutation has a result: a negated `let` binding and
/// a `const` item hold an `=`, and a cut falls on a character boundary.
pub open spec fn draw_is_defined(source: Seq<char>, n: int, rule: int, op_pick: int) -> bool {
    let lines = split_by(source, crlf());
    let t = target_statement(lines, n);
    let ps = operator_positions(t);
    match parsed_statement(t) {
        StmtShapeView::Local => if rule == 0 {
            eq_parts(t).len() > 1
        } else {
            ps.len() == 0 || is_char_offset(t, ps[op_pick])
        },
        StmtShapeView::ConstItem => eq_parts(t).len() > 1,
        StmtShapeView::Return => rule == 0 || ps.len() == 0 || is_char_offset(t, ps[op_pick]),
        _ => true,
    }
}

/// The results that mutating line `n` of `source` can give: those of the
/// draws that fit it and have a result.
pub open spec fn is_mutation_outcome(source: Seq<char>, n: int, r: Seq<char>) -> bool {
    exists|rule: int, op_pick: int, const_pick: int|
        draws_fit(source, n, rule, op_pick, const_pick) && draw_is_defined(source, n, rule, op_pick)
            && r == #[trigger] mutation_with_draws(source, n, rule, op_pick, const_pick)
}

/// Every arithmetic operator index of `t`, read as a byte offset, falls on
/// a character boundary.
pub open spec fn operators_on_boundaries(t: Seq<char>) -> bool {
    forall|k: int|
        0 <= k < operator_positions(t).len() ==> is_char_offset(t, #[trigger] operator_positions(t)[k])
}

/// The inputs on which every way of mutating line `n` is defined: a `let`
/// binding or `const` item holds an `=`, and the operators of a `let` or
/// `return` statement sit at byte offsets that are character boundaries.
pub open spec fn mutation_is_defined(source: Seq<char>, n: int) -> bool {
    let lines = split_by(source, crlf());
    let t = target_statement(lines, n);
    match parsed_statement(t) {
        StmtShapeView::Local => eq_parts(t).len() > 1 && operators_on_boundaries(t),
        StmtShapeView::ConstItem => eq_parts(t).len() > 1,
        StmtShapeView::Return => operators_on_boundaries(t),
        _ => true,
    }
}

/// Where every way of mutating a line is defined, every draw that fits has
/// a result.
pub proof fn lemma_defined_draws(source: Seq<char>, n: int, rule: int, op_pick: int, const_pick: int)
    requires
        mutation_is_defined(source, n),
        draws_fit(source, n, rule, op_pick, const_pick),
    ensures
        draw_is_defined(source, n, rule, op_pick),
{
}

/// `kind`, `:`, then `body`.
fn tagged(kind: &str, body: &Vec<char>) -> (r: Vec<char>)
    ensures
        r@ == tagged_text(kind@, body@),
{
    let mut out = literal(kind);
    out.push(':');
    append_all(&mut out, body);
    assert(out@ =~= tagged_text(kind@, body@));
    out
}

/// The number of bytes of the encoding of `source` fits in `usize`.
fn utf8_len_fits(source: &str)
    ensures
        utf8_len(source@) <= usize::MAX,
{
    let bytes = source.as_bytes();
    let _count = bytes.len();
    proof {
        crate::text::lemma_utf8_len_encoding(source@);
    }
}

/// The window, text and bounds of the target statement.
proof fn lemma_target_bounds(source: Seq<char>, n: int)
    requires
        utf8_len(source) <= usize::MAX,
    ensures
        ({
            let lines = split_by(source, crlf());
            let w = min_parsable_window(lines, n);
            &&& 0 <= w.0 <= w.1 <= lines.len()
            &&& utf8_len(window_text(lines, w.0, w.1)) <= usize::MAX
        }),
{
    let lines = split_by(source, crlf());
    crate::parse::lemma_min_parsable_window(lines, n);
    crate::text::lemma_join_split(source, crlf());
    let w = min_parsable_window(lines, n);
    crate::text::lemma_join_window_len(lines, w.0, w.1, crlf());
}

/// What the mutation of one line reads of the file.
struct Target {
    lines: Vec<Vec<char>>,
    constants: Vec<Vec<char>>,
    unit_fns: Vec<Vec<char>>,
    start: usize,
    end: usize,
    stmt: Vec<char>,
    shape: StmtShape,
}

/// `tg` is what the mutation of line `n` of `source` reads.
spec fn reads_target(tg: &Target, source: Seq<char>, n: int) -> bool {
    let lines = split_by(source, crlf());
    &&& texts(tg.lines@) == lines
    &&& texts(tg.constants@) == file_constants(lines)
    &&& texts(tg.unit_fns@) == unit_functions(lines)
    &&& (tg.start as int, tg.end as int) == min_parsable_window(lines, n)
    &&& tg.start <= tg.end <= tg.lines.len()
    &&& tg.stmt@ == target_statement(lines, n)
    &&& tg.shape@ == parsed_statement(tg.stmt@)
    &&& utf8_len(tg.stmt@) <= usize::MAX
}

/// Reads the file for the mutation of line `num_line`.
fn read_target(source: &str, num_line: usize) -> (tg: Target)
    ensures
        reads_target(&tg, source@, num_line as int),
{
    utf8_len_fits(source);
    let src = chars_of(source);
    let sep = crlf_exec();
    let lines = split_by_exec(&src, &sep);
    let (constants, unit_fns) = collect_names(&lines);
    let (start, end) = find_min_parsable_window(&lines, num_line);
    proof {
        lemma_target_bounds(source@, num_line as int);
    }
    let stmt = join_range(&lines, start, end, &sep);
    let shape = statement_shape(&stmt);
    Target { lines, constants, unit_fns, start, end, stmt, shape }
}

/// The file unchanged, tagged `notmutated`.
fn unchanged(lines: &Vec<Vec<char>>) -> (r: Vec<char>)
    ensures
        r@ == unchanged_result(texts(lines@)),
{
    let sep = crlf_exec();
    let all = join_range(lines, 0, lines.len(), &sep);
    assert(texts(lines@).subrange(0, lines@.len() as int) =~= texts(lines@));
    tagged("notmutated", &all)
}

/// The file cut before operator number `k` of the target statement.
fn delete_from_operator(tg: &Target, Ghost(source): Ghost<Seq<char>>, Ghost(n): Ghost<int>, kind: &str, k: usize) -> (r: Vec<char>)
    requires
        reads_target(tg, source, n),
        operator_positions(tg.stmt@).len() > 0 ==> k < operator_positions(tg.stmt@).len()
            && is_char_offset(tg.stmt@, operator_positions(tg.stmt@)[k as int]),
    ensures
        r@ == deletion_result(split_by(source, crlf()), n, kind@, k as int),
{
    let positions = arithmetic_positions(&tg.stmt);
    let ghost ps = operator_positions(tg.stmt@);
    assert(positions@.map_values(|p: usize| p as int).len() == positions@.len());
    if positions.len() == 0 {
        return unchanged(&tg.lines);
    }
    assert(ps[k as int] == positions@[k as int] as int);
    let new_line = cut_at_operator(&tg.stmt, positions[k]).unwrap();
    let body = splice_lines(&tg.lines, tg.start, tg.end, &new_line);
    tagged(kind, &body)
}

/// The result of the mutation of the target for the given draws.
fn apply_draws(
    tg: &Target,
    Ghost(source): Ghost<Seq<char>>,
    Ghost(n): Ghost<int>,
    rule: usize,
    op_pick: usize,
    const_pick: usize,
) -> (r: Vec<char>)
    requires
        reads_target(tg, source, n),
        draws_fit(source, n, rule as int, op_pick as int, const_pick as int),
        draw_is_defined(source, n, rule as int, op_pick as int),
    ensures
        r@ == mutation_with_draws(source, n, rule as int, op_pick as int, const_pick as int),
{
    let ghost lines = split_by(source, crlf());
    match &tg.shape {
        StmtShape::Local => {
            if rule == 0 {
                let new_line = negate_binding(&tg.stmt);
                tagged("negation", &splice_lines(&tg.lines, tg.start, tg.end, &new_line))
            } else {
                delete_from_operator(tg, Ghost(source), Ghost(n), "arithmetic_deletion", op_pick)
            }
        },
        StmtShape::ConstItem => {
            let current = constant_value_exec(&tg.stmt);
            let candidates = other_constants(&tg.constants, &current);
            let new_line = replace_constant(&tg.stmt, &candidates[const_pick]);
            tagged("constant_replacement", &splice_lines(&tg.lines, tg.start, tg.end, &new_line))
        },
        StmtShape::Call(Some(head)) => {
            if contains_text(&tg.unit_fns, &chars_of(head.as_str())) {
                let new_line = comment_out_call(&tg.stmt);
                tagged("call_", &splice_lines(&tg.lines, tg.start, tg.end, &new_line))
            } else {
                unchanged(&tg.lines)
            }
        },
        StmtShape::Return => {
            if rule == 0 {
                let new_line = negate_return(&tg.stmt);
                tagged("return1", &splice_lines(&tg.lines, tg.start, tg.end, &new_line))
            } else {
                delete_from_operator(tg, Ghost(source), Ghost(n), "return2", op_pick)
            }
        },
        _ => unchanged(&tg.lines),
    }
}

/// Mutates the statement around line `num_line` (counted from 1) of
/// `source` for the given draws: see [`mutation_with_draws`] for the rules.
/// The draws must fit the statement, and the mutation must have a result
/// for them ([`draw_is_defined`]).
pub fn mutate_with_draws(source: &str, num_line: usize, rule: usize, op_pick: usize, const_pick: usize) -> (r: String)
    requires
        draws_fit(source@, num_line as int, rule as int, op_pick as int, const_pick as int),
        draw_is_defined(source@, num_line as int, rule as int, op_pick as int),
    ensures
        r@ == mutation_with_draws(source@, num_line as int, rule as int, op_pick as int, const_pick as int),
{
    let tg = read_target(source, num_line);
    let out = apply_draws(&tg, Ghost(source@), Ghost(num_line as int), rule, op_pick, const_pick);
    string_of(&out)
}

/// Every `const` value has a candidate to replace it: the constants of a
/// file begin with `0` and `1`, which differ.
proof fn lemma_candidates_exist(lines: Seq<Seq<char>>, current: Seq<char>)
    ensures
        differing(file_constants(lines), current).len() > 0,
{
    lemma_scanned_prefix(lines, lines.len() as int);
    lemma_differing(file_constants(lines), current);
    let cs = file_constants(lines);
    reveal_strlit("0");
    reveal_strlit("1");
    assert(cs.take(3)[0] == cs[0]);
    assert(cs.take(3)[1] == cs[1]);
    assert(cs[0] != cs[1]) by {
        assert(cs[0][0] != cs[1][0]);
    }
    if cs[0] != current {
        assert(differing(cs, current).contains(cs[0]));
    } else {
        assert(differing(cs, current).contains(cs[1]));
    }
}

/// True when `t` has no arithmetic operator, or its operator number `k`
/// sits at a byte offset that is a character boundary.
fn cut_is_defined(t: &Vec<char>, k: usize) -> (r: bool)
    requires
        operator_positions(t@).len() > 0 ==> k < operator_positions(t@).len(),
    ensures
        r == (operator_positions(t@).len() == 0 || is_char_offset(t@, operator_positions(t@)[k as int])),
{
    let positions = arithmetic_positions(t);
    let ghost ps = operator_positions(t@);
    assert(positions@.map_values(|p: usize| p as int).len() == positions@.len());
    if positions.len() == 0 {
        return true;
    }
    assert(ps[k as int] == positions@[k as int] as int);
    byte_offset_chars(t, positions[k]).is_some()
}

/// True when the mutation of the target has a result for the draws.
fn draw_is_defined_exec(
    tg: &Target,
    Ghost(source): Ghost<Seq<char>>,
    Ghost(n): Ghost<int>,
    rule: usize,
    op_pick: usize,
    const_pick: usize,
) -> (r: bool)
    requires
        reads_target(tg, source, n),
        draws_fit(source, n, rule as int, op_pick as int, const_pick as int),
    ensures
        r == draw_is_defined(source, n, rule as int, op_pick as int),
{
    match &tg.shape {
        StmtShape::Local => if rule == 0 {
            eq_parts_exec(&tg.stmt).len() > 1
        } else {
            cut_is_defined(&tg.stmt, op_pick)
        },
        StmtShape::ConstItem => eq_parts_exec(&tg.stmt).len() > 1,
        StmtShape::Return => rule == 0 || cut_is_defined(&tg.stmt, op_pick),
        _ => true,
    }
}

/// Mutates the statement around line `num_line` (counted from 1) of the
/// source text, with the draws between rules, operators and constants made
/// at random. The result is [`mutation_with_draws`] for the draws made, which
/// fit the statement; `None` when the mutation has no result for them
/// ([`draw_is_defined`]). Where every draw has a result
/// ([`mutation_is_defined`]), the result is never `None`.
pub fn try_mutate_file_by_line(source: &str, num_line: usize) -> (r: Option<String>)
    ensures
        r matches Some(s) ==> is_mutation_outcome(source@, num_line as int, s@),
        r is None ==> exists|rule: int, op_pick: int, const_pick: int|
            #[trigger] draws_fit(source@, num_line as int, rule, op_pick, const_pick)
                && !draw_is_defined(source@, num_line as int, rule, op_pick),
        mutation_is_defined(source@, num_line as int) ==> r is Some,
{
    let tg = read_target(source, num_line);
    let ghost lines = split_by(source@, crlf());
    let ghost n = num_line as int;
    let rule = random_below(2);
    let positions = arithmetic_positions(&tg.stmt);
    assert(positions@.map_values(|p: usize| p as int).len() == positions@.len());
    let op_pick = if positions.len() > 0 {
        choose_index(&index_range(positions.len()))
    } else {
        0
    };
    let const_pick = match &tg.shape {
        StmtShape::ConstItem => {
            proof {
                lemma_candidates_exist(lines, constant_value(tg.stmt@));
            }
            if eq_parts_exec(&tg.stmt).len() > 1 {
                let current = constant_value_exec(&tg.stmt);
                let candidates = other_constants(&tg.constants, &current);
                choose_one_of(&index_range(candidates.len()))
            } else {
                0
            }
        },
        _ => 0,
    };
    assert(draws_fit(source@, n, rule as int, op_pick as int, const_pick as int));
    if !draw_is_defined_exec(&tg, Ghost(source@), Ghost(n), rule, op_pick, const_pick) {
        proof {
            if mutation_is_defined(source@, n) {
                lemma_defined_draws(source@, n, rule as int, op_pick as int, const_pick as int);
            }
        }
        return None;
    }
    let out = apply_draws(&tg, Ghost(source@), Ghost(n), rule, op_pick, const_pick);
    let r = string_of(&out);
    assert(r@ == mutation_with_draws(source@, n, rule as int, op_pick as int, const_pick as int));
    Some(r)
}

/// Mutates the statement around line `num_line` (counted from 1) of the
/// source text as [`try_mutate_file_by_line`] does, on the inputs where
/// every draw has a result ([`mutation_is_defined`]).
pub fn mutate_file_by_line(source: &str, num_line: usize) -> (r: String)
    requires
        mutation_is_defined(source@, num_line as int),
    ensures
        is_mutation_outcome(source@, num_line as int, r@),
{
    match try_mutate_file_by_line(source, num_line) {
        Some(r) => r,
        None => {
            // Every draw has a result here, so no draw gives `None`.
            proof {
                assert(false);
            }
            string_of(&Vec::new())
        },
    }
}

/// True when every arithmetic operator index of `t` is a character boundary.
fn operators_on_boundaries_exec(t: &Vec<char>) -> (r: bool)
    ensures
        r == operators_on_boundaries(t@),
{
    let positions = arithmetic_positions(t);
    let ghost ps = operator_positions(t@);
    assert(positions@.map_values(|p: usize| p as int).len() == positions@.len());
    let mut k: usize = 0;
    while k < positions.len()
        invariant
            k <= positions.len(),
            ps == positions@.map_values(|p: usize| p as int),
            ps == operator_positions(t@),
            forall|m: int| 0 <= m < k ==> is_char_offset(t@, #[trigger] ps[m]),
        decreases positions.len() - k,
    {
        assert(ps[k as int] == positions@[k as int] as int);
        if byte_offset_chars(t, positions[k]).is_none() {
            assert(!is_char_offset(t@, ps[k as int]));
            return false;
        }
        k += 1;
    }
    true
}

/// True when every way of mutating line `num_line` of `source` is defined.
pub fn mutation_is_defined_exec(source: &str, num_line: usize) -> (r: bool)
    ensures
        r == mutation_is_defined(source@, num_line as int),
{
    utf8_len_fits(source);
    let src = chars_of(source);
    let sep = crlf_exec();
    let lines = split_by_exec(&src, &sep);
    let (start, end) = find_min_parsable_window(&lines, num_line);
    proof {
        lemma_target_bounds(source@, num_line as int);
    }
    let stmt = join_range(&lines, start, end, &sep);
    let shape = statement_shape(&stmt);
    match shape {
        StmtShape::Local => eq_parts_exec(&stmt).len() > 1 && operators_on_boundaries_exec(&stmt),
        StmtShape::ConstItem => eq_parts_exec(&stmt).len() > 1,
        StmtShape::Return => operators_on_boundaries_exec(&stmt),
        _ => true,
    }
}

/// Replacing lines `start..end` by a new line keeps the lines before and
/// after them, with their separators.
pub proof fn lemma_spliced_parts(lines: Seq<Seq<char>>, start: int, end: int, new_line: Seq<char>)
    requires
        0 <= start <= end <= lines.len(),
    ensures
        spliced(lines, start, end, new_line) == (if start > 0 {
            join(lines.take(start), crlf()) + crlf()
        } else {
            seq![]
        }) + new_line + (if end < lines.len() {
            crlf() + join(lines.skip(end), crlf())
        } else {
            seq![]
        }),
{
    let head = lines.take(start);
    let tail = lines.skip(end);
    let hn = head + seq![new_line];
    if start > 0 {
        crate::text::lemma_join_concat(head, seq![new_line], crlf());
    } else {
        assert(hn =~= seq![new_line]);
    }
    if end < lines.len() {
        crate::text::lemma_join_concat(hn, tail, crlf());
    } else {
        assert(hn + tail =~= hn);
    }
    let pre: Seq<char> = if start > 0 { join(head, crlf()) + crlf() } else { seq![] };
    let post: Seq<char> = if end < lines.len() { crlf() + join(tail, crlf()) } else { seq![] };
    assert(join(hn, crlf()) =~= pre + new_line);
    assert(spliced(lines, start, end, new_line) =~= pre + new_line + post);
}

/// A replaced constant reads back as the new constant: the value of the
/// `const` statement that the mutation writes is `c`, for a constant
/// without `=`, without surrounding whitespace, that does not end in `;`.
pub proof fn lemma_replaced_constant_reads_back(t: Seq<char>, c: Seq<char>)
    requires
        eq_parts(t).len() > 1,
        !c.contains('='),
        trim(c) == c,
        c.len() == 0 || c.last() != ';',
    ensures
        constant_value(replaced_constant(t, c)) == c,
{
    reveal_strlit("= ");
    reveal_strlit(";");
    let p0 = eq_parts(t)[0];
    crate::text::lemma_split_first_piece(t, '=', 0);
    let x = seq![' '] + c;
    let rest = x.push(';');
    assert(!rest.contains('=')) by {
        if rest.contains('=') {
            let k = choose|k: int| 0 <= k < rest.len() && rest[k] == '=';
            assert(c[k - 1] == '=');
        }
    }
    assert(replaced_constant(t, c) =~= p0 + seq!['='] + rest);
    crate::text::lemma_split_two(p0, '=', rest);
    assert(eq_parts(replaced_constant(t, c))[1] == rest);
    assert(rest.drop_last() =~= x);
    assert(trim_end_char(rest, ';') == trim_end_char(x, ';'));
    assert(x.last() != ';') by {
        if c.len() > 0 {
            assert(x.last() == c.last());
        }
    }
    assert(trim_end_char(x, ';') == x);
    crate::text::lemma_trimmed(c);
    assert(x.drop_first() =~= c);
    assert(trim_start(x) == trim_start(c));
}

/// Cutting before an operator keeps only text in front of it: the new
/// statement is a prefix of the old one that stops at or before the
/// operator's character index, then `;`.
pub proof fn lemma_cut_keeps_prefix(t: Seq<char>, p: int)
    requires
        is_char_offset(t, p),
    ensures
        exists|m: int| 0 <= m <= p && m <= t.len() && #[trigger] cut_at(t, p) == t.take(m) + ";"@,
{
    let k = choose|k: int| 0 <= k <= t.len() && crate::text::utf8_len(#[trigger] t.take(k)) == p;
    crate::text::lemma_byte_prefix_at(t, k, p);
    crate::text::lemma_utf8_len_at_least_len(t.take(k));
    crate::text::lemma_trim_end_prefix(t.take(k));
    let m = trim_end(t.take(k)).len() as int;
    assert(trim_end(t.take(k)) =~= t.take(m));
    assert(cut_at(t, p) == t.take(m) + ";"@);
}

/// Line `k` of the file contributes a constant: its statement is a `const`
/// item and the line holds an `=`; the value is the line's.
pub open spec fn offers_constant(lines: Seq<Seq<char>>, k: int, c: Seq<char>) -> bool {
    &&& parsed_statement(target_statement(lines, k)) == StmtShapeView::ConstItem
    &&& eq_parts(lines[k - 1]).len() > 1
    &&& c == constant_value(lines[k - 1])
}

/// What the scan of the first `m` lines records: a unit function for each
/// line among them whose statement is a function item that declares no return
/// type, and a constant for each `const` line among them.
proof fn lemma_scan_records(lines: Seq<Seq<char>>, m: int, name: Seq<char>)
    requires
        0 <= m <= lines.len(),
    ensures
        scanned_names(lines, m).1.contains(name) <==> exists|k: int|
            1 <= k <= m && #[trigger] parsed_statement(target_statement(lines, k))
                == StmtShapeView::FnItem(true, name),
        scanned_names(lines, m).0.contains(name) <==> (initial_constants().contains(name)
            || exists|k: int| 1 <= k <= m && #[trigger] offers_constant(lines, k, name)),
    decreases m,
{
    if m > 0 {
        lemma_scan_records(lines, m - 1, name);
        let prev = scanned_names(lines, m - 1);
        let cur = scanned_names(lines, m);
        let sh = parsed_statement(target_statement(lines, m));
        assert(cur.1 == prev.1 || cur.1 == prev.1.push(sh->FnItem_1));
        assert(cur.0 == prev.0 || cur.0 == prev.0.push(constant_value(lines[m - 1])));
        if cur.1.contains(name) {
            if !prev.1.contains(name) {
                let i = choose|i: int| 0 <= i < cur.1.len() && cur.1[i] == name;
                assert(i == prev.1.len());
                assert(parsed_statement(target_statement(lines, m)) == StmtShapeView::FnItem(true, name));
            }
        }
        if exists|k: int|
            1 <= k <= m && #[trigger] parsed_statement(target_statement(lines, k))
                == StmtShapeView::FnItem(true, name) {
            let k = choose|k: int|
                1 <= k <= m && #[trigger] parsed_statement(target_statement(lines, k))
                    == StmtShapeView::FnItem(true, name);
            if k == m {
                assert(cur.1 == prev.1.push(name));
                assert(cur.1[prev.1.len() as int] == name);
            } else {
                let i = choose|i: int| 0 <= i < prev.1.len() && prev.1[i] == name;
                assert(cur.1[i] == name);
            }
        }
        if cur.0.contains(name) {
            if !prev.0.contains(name) {
                let i = choose|i: int| 0 <= i < cur.0.len() && cur.0[i] == name;
                assert(i == prev.0.len());
                assert(offers_constant(lines, m, name));
            }
        }
        if prev.0.contains(name) {
            let i = choose|i: int| 0 <= i < prev.0.len() && prev.0[i] == name;
            assert(cur.0[i] == name);
        }
        if offers_constant(lines, m, name) {
            assert(cur.0 == prev.0.push(name));
            assert(cur.0[prev.0.len() as int] == name);
        }
    }
}

/// The unit functions of a file are read from the statement found around
/// each line, the smallest window of lines that parses, not from the line
/// alone: a name is recorded exactly when around some line the statement is
/// a function item of that name that declares no return type. Likewise a
/// value is offered as a constant exactly when it is `0`, `1` or `-1`, or the
/// value of a line whose statement is a `const` item.
pub proof fn lemma_names_from_windows(lines: Seq<Seq<char>>, name: Seq<char>)
    ensures
        unit_functions(lines).contains(name) <==> exists|k: int|
            1 <= k <= lines.len() && #[trigger] parsed_statement(target_statement(lines, k))
                == StmtShapeView::FnItem(true, name),
        file_constants(lines).contains(name) <==> (initial_constants().contains(name)
            || exists|k: int| 1 <= k <= lines.len() && #[trigger] offers_constant(lines, k, name)),
{
    lemma_scan_records(lines, lines.len() as int, name);
}

/// A call of a function that the file declares, around one of its lines,
/// without a return type is commented out and tagged `call_`, whatever the
/// draws.
pub proof fn lemma_unit_call_commented(
    source: Seq<char>,
    n: int,
    k: int,
    h: Seq<char>,
    rule: int,
    op_pick: int,
    const_pick: int,
)
    requires
        1 <= k <= split_by(source, crlf()).len(),
        parsed_statement(target_statement(split_by(source, crlf()), k)) == StmtShapeView::FnItem(
            true,
            h,
        ),
        parsed_statement(target_statement(split_by(source, crlf()), n)) == StmtShapeView::Call(
            Some(h),
        ),
    ensures
        mutation_with_draws(source, n, rule, op_pick, const_pick) == tagged_text(
            "call_"@,
            with_target_replaced(
                split_by(source, crlf()),
                n,
                commented_call(target_statement(split_by(source, crlf()), n)),
            ),
        ),
{
    lemma_names_from_windows(split_by(source, crlf()), h);
}

/// The value a `let` statement binds: the trimmed text between its first
/// and second `=`, without trailing semicolons.
pub open spec fn bound_value(t: Seq<char>) -> Seq<char> {
    trim_end_char(trim(eq_parts(t)[1]), ';')
}

/// `-(`, `x`, `)`: the negation of the whole of `x`.
pub open spec fn negation_of(x: Seq<char>) -> Seq<char> {
    seq!['-', '('] + x + seq![')']
}

/// `x` ends in `);`.
pub open spec fn ends_in_close(x: Seq<char>) -> bool {
    x.len() >= 2 && x[x.len() - 2] == ')' && x[x.len() - 1] == ';'
}

/// `-(x);` trimmed and read as a value: `-(x)`.
proof fn lemma_read_negation(x: Seq<char>)
    ensures
        trim_end_char(trim(seq![' '] + negation_of(x) + seq![';']), ';') == negation_of(x),
        trim_end_char(trim(negation_of(x) + seq![';']), ';') == negation_of(x),
{
    let y = negation_of(x) + seq![';'];
    let sy = seq![' '] + negation_of(x) + seq![';'];
    assert(sy[0] == ' ');
    assert(sy.drop_first() =~= y);
    assert(y[0] == '-');
    assert(trim_start(y) == y);
    assert(trim_start(sy) == y);
    assert(y.last() == ';');
    assert(trim_end(y) == y);
    assert(y.drop_last() =~= negation_of(x));
    assert(negation_of(x).last() == ')');
    assert(trim_end_char(negation_of(x), ';') == negation_of(x));
    assert(trim(y) == y);
    assert(trim(sy) == y);
    assert(trim_end_char(y, ';') == negation_of(x));
}

/// Negating a binding keeps everything in front of its `=` and binds the
/// negation of the whole value: the new statement holds one `=`, the text
/// before it is that of `t`, the value it binds is `-(`, the value `t`
/// binds, then `)`, and it ends in `);`.
pub proof fn lemma_negation_binds_negated_value(t: Seq<char>)
    requires
        eq_parts(t).len() > 1,
    ensures
        eq_parts(negated_binding(t)).len() == 2,
        eq_parts(negated_binding(t))[0] == eq_parts(t)[0],
        bound_value(negated_binding(t)) == negation_of(bound_value(t)),
        ends_in_close(negated_binding(t)),
{
    reveal_strlit("= ");
    reveal_strlit("-(");
    reveal_strlit(");");
    let parts = eq_parts(t);
    crate::text::lemma_split_pieces_free(t, '=', 0, 0);
    assert(!parts[0].contains('='));
    assert(!parts[1].contains('='));
    let v = bound_value(t);
    crate::text::lemma_trimmed_value_within(parts[1], ';', '=');
    let rest = seq![' '] + negation_of(v) + seq![';'];
    assert(!rest.contains('=')) by {
        if rest.contains('=') {
            let k = choose|k: int| 0 <= k < rest.len() && rest[k] == '=';
            if 3 <= k < 3 + v.len() {
                assert(rest[k] == v[k - 3]);
            }
        }
    }
    let r = negated_binding(t);
    assert(r =~= parts[0] + seq!['='] + rest);
    crate::text::lemma_split_two(parts[0], '=', rest);
    lemma_read_negation(v);
}

/// Negating a return keeps its indentation and returns the negation of the
/// whole expression: the expression the new statement returns is `-(`, the
/// one `t` returns, then `)`, and it ends in `);`.
pub proof fn lemma_negated_return_returns_negation(t: Seq<char>)
    ensures
        returned_expr(negated_return(t)) == negation_of(returned_expr(t)),
        leading_bytes(negated_return(t)) == leading_bytes(t),
        ends_in_close(negated_return(t)),
{
    reveal_strlit("return ");
    reveal_strlit("return");
    reveal_strlit("-(");
    reveal_strlit(");");
    crate::text::lemma_trim_start_suffix(t);
    let ts = trim_start(t);
    let m = t.len() - ts.len();
    assert(t =~= t.take(m) + ts);
    crate::text::lemma_utf8_len_concat(t.take(m), ts);
    let n = leading_bytes(t) as nat;
    assert(n == leading_bytes(t));
    let e = returned_expr(t);
    let x = "return"@ + seq![' '] + negation_of(e) + seq![';'];
    let r = negated_return(t);
    assert(r =~= spaces(n) + x);
    crate::text::lemma_trim_start_spaces(n, x);
    assert(x[0] == 'r');
    assert(trim_start(x) == x);
    assert(occurs_at(x, "return"@, 0)) by {
        assert(x.subrange(0, 6) =~= "return"@);
    }
    let y = x.skip(6);
    assert(y =~= seq![' '] + negation_of(e) + seq![';']);
    assert(!occurs_at(y, "return"@, 0)) by {
        if occurs_at(y, "return"@, 0) {
            assert(y.subrange(0, 6)[0] == y[0]);
        }
    }
    assert(trim_start_pattern(y, "return"@) == y);
    assert("return"@.len() == 6);
    assert(x.skip("return"@.len() as int) == y);
    assert(trim_start_pattern(x, "return"@) == y);
    lemma_read_negation(e);
    crate::text::lemma_utf8_len_concat(spaces(n), x);
    crate::text::lemma_utf8_len_spaces(n);
}

} // verus!
