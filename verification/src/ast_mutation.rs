//! The decisions of the syntax-tree mutation pass: which binary operators
//! and `match` expressions around a line can be mutated, into what, and
//! which node a later pass rewrites.
//!
//! The tree walk itself belongs to the caller; it reports each node's kind
//! and source span here, and applies the rewrites decided here.

use crate::text::{chars_of, decimal, digit_char, push_decimal, same_text, split_by, split_by_exec, string_of, texts};
use vstd::prelude::*;

verus! {

/// The texts held by a sequence of strings.
pub open spec fn strings(v: Seq<String>) -> Seq<Seq<char>> {
    Seq::new(v.len(), |i: int| v[i]@)
}

/// The binary operators that the pass tells apart.
#[derive(Clone, Copy, Debug, PartialEq, Eq, Structural)]
pub enum BinOpKind {
    Add,
    Sub,
    Mul,
    Div,
    Rem,
    BitXor,
    BitAnd,
    BitOr,
    Eq,
    Lt,
    Le,
    Ne,
    Ge,
    Gt,
    /// Any other binary operator.
    Other,
}

/// The operators among which a mutation exchanges `op`, by their symbols.
pub open spec fn family(op: BinOpKind) -> Seq<Seq<char>> {
    match op {
        BinOpKind::Add | BinOpKind::Sub | BinOpKind::Mul | BinOpKind::Div | BinOpKind::Rem => seq![
            "+"@,
            "-"@,
            "*"@,
            "/"@,
            "%"@,
        ],
        BinOpKind::BitXor | BinOpKind::BitAnd | BinOpKind::BitOr => seq!["^"@, "&"@, "|"@],
        BinOpKind::Other => seq![],
        _ => seq!["=="@, "<"@, "<="@, "!="@, ">="@, ">"@],
    }
}

/// The place of `op` in its family.
pub open spec fn family_index(op: BinOpKind) -> int {
    match op {
        BinOpKind::Add => 0,
        BinOpKind::Sub => 1,
        BinOpKind::Mul => 2,
        BinOpKind::Div => 3,
        BinOpKind::Rem => 4,
        BinOpKind::BitXor => 0,
        BinOpKind::BitAnd => 1,
        BinOpKind::BitOr => 2,
        BinOpKind::Eq => 0,
        BinOpKind::Lt => 1,
        BinOpKind::Le => 2,
        BinOpKind::Ne => 3,
        BinOpKind::Ge => 4,
        BinOpKind::Gt => 5,
        BinOpKind::Other => 0,
    }
}

/// The symbols `op` may be replaced by: the rest of its family, or `+` for
/// an operator outside the three families.
pub open spec fn alternatives(op: BinOpKind) -> Seq<Seq<char>> {
    if op is Other {
        seq!["+"@]
    } else {
        family(op).remove(family_index(op))
    }
}

/// The name of the kind of mutation that replaces `op`.
pub open spec fn mutation_kind(op: BinOpKind) -> Seq<char> {
    match op {
        BinOpKind::Add | BinOpKind::Sub | BinOpKind::Mul | BinOpKind::Div | BinOpKind::Rem =>
            "arithmetic"@,
        BinOpKind::BitXor | BinOpKind::BitAnd | BinOpKind::BitOr => "bitwise"@,
        BinOpKind::Other => ""@,
        _ => "relational"@,
    }
}

/// The operator written `s`, or `Other`.
pub open spec fn operator_of_symbol(s: Seq<char>) -> BinOpKind {
    if s == "+"@ {
        BinOpKind::Add
    } else if s == "-"@ {
        BinOpKind::Sub
    } else if s == "*"@ {
        BinOpKind::Mul
    } else if s == "/"@ {
        BinOpKind::Div
    } else if s == "%"@ {
        BinOpKind::Rem
    } else if s == "^"@ {
        BinOpKind::BitXor
    } else if s == "&"@ {
        BinOpKind::BitAnd
    } else if s == "|"@ {
        BinOpKind::BitOr
    } else if s == "=="@ {
        BinOpKind::Eq
    } else if s == "<"@ {
        BinOpKind::Lt
    } else if s == "<="@ {
        BinOpKind::Le
    } else if s == "!="@ {
        BinOpKind::Ne
    } else if s == ">="@ {
        BinOpKind::Ge
    } else if s == ">"@ {
        BinOpKind::Gt
    } else {
        BinOpKind::Other
    }
}

/// A `String` holding the characters of a literal.
fn string_from(s: &str) -> (r: String)
    ensures
        r@ == s@,
{
    string_of(&chars_of(s))
}

/// The symbols of `op`'s family, in order.
fn family_exec(op: BinOpKind) -> (r: Vec<String>)
    ensures
        strings(r@) == family(op),
{
    let mut v: Vec<String> = Vec::new();
    match op {
        BinOpKind::Add | BinOpKind::Sub | BinOpKind::Mul | BinOpKind::Div | BinOpKind::Rem => {
            v.push(string_from("+"));
            v.push(string_from("-"));
            v.push(string_from("*"));
            v.push(string_from("/"));
            v.push(string_from("%"));
        },
        BinOpKind::BitXor | BinOpKind::BitAnd | BinOpKind::BitOr => {
            v.push(string_from("^"));
            v.push(string_from("&"));
            v.push(string_from("|"));
        },
        BinOpKind::Other => {},
        _ => {
            v.push(string_from("=="));
            v.push(string_from("<"));
            v.push(string_from("<="));
            v.push(string_from("!="));
            v.push(string_from(">="));
            v.push(string_from(">"));
        },
    }
    assert(strings(v@) =~= family(op));
    v
}

/// The symbols that may replace `op`, and the name of that kind of mutation.
pub fn binop_mutations(op: BinOpKind) -> (r: (Vec<String>, String))
    ensures
        strings(r.0@) == alternatives(op),
        r.1@ == mutation_kind(op),
{
    match op {
        BinOpKind::Other => {
            let mut v: Vec<String> = Vec::new();
            v.push(string_from("+"));
            assert(strings(v@) =~= alternatives(op));
            (v, string_from(""))
        },
        _ => {
            let mut v = family_exec(op);
            let idx: usize = match op {
                BinOpKind::Add | BinOpKind::BitXor | BinOpKind::Eq => 0,
                BinOpKind::Sub | BinOpKind::BitAnd | BinOpKind::Lt => 1,
                BinOpKind::Mul | BinOpKind::BitOr | BinOpKind::Le => 2,
                BinOpKind::Div | BinOpKind::Ne => 3,
                BinOpKind::Rem | BinOpKind::Ge => 4,
                _ => 5,
            };
            assert(idx == family_index(op));
            assert(family(op).len() > family_index(op));
            assert(strings(v@).len() == v@.len());
            let ghost before = v@;
            v.remove(idx);
            assert(strings(v@) =~= strings(before).remove(idx as int));
            let kind = match op {
                BinOpKind::Add | BinOpKind::Sub | BinOpKind::Mul | BinOpKind::Div | BinOpKind::Rem =>
                    string_from("arithmetic"),
                BinOpKind::BitXor | BinOpKind::BitAnd | BinOpKind::BitOr => string_from("bitwise"),
                _ => string_from("relational"),
            };
            (v, kind)
        },
    }
}

/// Reads an operator symbol back: the operator written `symbol`, or `Other`.
pub fn binop_from_symbol(symbol: &str) -> (r: BinOpKind)
    ensures
        r == operator_of_symbol(symbol@),
{
    let s = chars_of(symbol);
    if same_text(&s, &chars_of("+")) {
        BinOpKind::Add
    } else if same_text(&s, &chars_of("-")) {
        BinOpKind::Sub
    } else if same_text(&s, &chars_of("*")) {
        BinOpKind::Mul
    } else if same_text(&s, &chars_of("/")) {
        BinOpKind::Div
    } else if same_text(&s, &chars_of("%")) {
        BinOpKind::Rem
    } else if same_text(&s, &chars_of("^")) {
        BinOpKind::BitXor
    } else if same_text(&s, &chars_of("&")) {
        BinOpKind::BitAnd
    } else if same_text(&s, &chars_of("|")) {
        BinOpKind::BitOr
    } else if same_text(&s, &chars_of("==")) {
        BinOpKind::Eq
    } else if same_text(&s, &chars_of("<")) {
        BinOpKind::Lt
    } else if same_text(&s, &chars_of("<=")) {
        BinOpKind::Le
    } else if same_text(&s, &chars_of("!=")) {
        BinOpKind::Ne
    } else if same_text(&s, &chars_of(">=")) {
        BinOpKind::Ge
    } else if same_text(&s, &chars_of(">")) {
        BinOpKind::Gt
    } else {
        BinOpKind::Other
    }
}

// ---------------------------------------------------------------------------
// Swapping match arms
// ---------------------------------------------------------------------------

/// The swaps of a `match` with `n` arms are all the pairs of arms, each
/// once: there are `n * (n - 1) / 2` of them, and the swap of arms `j < i`
/// stands at place `i * (i - 1) / 2 + j`, so they come by increasing `i`,
/// then increasing `j`.
pub proof fn lemma_swap_pairs_all_pairs(n: nat)
    ensures
        2 * swap_pair_list(n).len() == n * (n - 1),
        forall|i: int, j: int|
            0 <= j < i < n ==> swap_pair_list(n)[i * (i - 1) / 2 + j] == #[trigger] swap_pair_text(
                j as nat,
                i as nat,
            ),
    decreases n,
{
    if n > 0 {
        let m = (n - 1) as nat;
        lemma_swap_pairs_all_pairs(m);
        let prev = swap_pair_list(m);
        let l = swap_pair_list(n);
        assert(2 * prev.len() == m * (m - 1));
        assert(m * (m - 1) + 2 * m == n * (n - 1)) by (nonlinear_arith)
            requires
                m == n - 1,
        ;
        assert forall|i: int, j: int| 0 <= j < i < n implies l[i * (i - 1) / 2 + j]
            == #[trigger] swap_pair_text(j as nat, i as nat) by {
            if i < m {
                assert(i * (i - 1) / 2 + j < prev.len()) by {
                    assert(i * (i - 1) + 2 * j < m * (m - 1)) by (nonlinear_arith)
                        requires
                            0 <= j < i < m,
                    ;
                }
                assert(l[i * (i - 1) / 2 + j] == prev[i * (i - 1) / 2 + j]);
            } else {
                assert(i * (i - 1) == m * (m - 1));
                assert(i * (i - 1) / 2 == prev.len());
            }
        }
    }
}

/// The text naming the swap of arms `j` and `i`: `j,i` in decimal.
pub open spec fn swap_pair_text(j: nat, i: nat) -> Seq<char> {
    decimal(j) + seq![','] + decimal(i)
}

/// The swaps of a `match` with `n` arms: every pair `j < i < n`, by
/// increasing `i`, then increasing `j`.
pub open spec fn swap_pair_list(n: nat) -> Seq<Seq<char>>
    decreases n,
{
    if n == 0 {
        seq![]
    } else {
        swap_pair_list((n - 1) as nat) + Seq::new(
            (n - 1) as nat,
            |j: int| swap_pair_text(j as nat, (n - 1) as nat),
        )
    }
}

/// The swaps of a `match` with `n` arms.
pub fn swap_pairs(n: usize) -> (r: Vec<String>)
    ensures
        strings(r@) == swap_pair_list(n as nat),
{
    let mut out: Vec<String> = Vec::new();
    let mut i: usize = 0;
    while i < n
        invariant
            i <= n,
            strings(out@) == swap_pair_list(i as nat),
        decreases n - i,
    {
        let ghost before = strings(out@);
        let mut j: usize = 0;
        while j < i
            invariant
                j <= i < n,
                strings(out@) == before + Seq::new(j as nat, |m: int| swap_pair_text(m as nat, i as nat)),
            decreases i - j,
        {
            let mut text: Vec<char> = Vec::new();
            push_decimal(&mut text, j);
            text.push(',');
            push_decimal(&mut text, i);
            assert(text@ =~= swap_pair_text(j as nat, i as nat));
            let ghost prev = strings(out@);
            out.push(string_of(&text));
            assert(strings(out@) =~= prev.push(text@));
            j += 1;
            assert(strings(out@) =~= before + Seq::new(j as nat, |m: int| swap_pair_text(m as nat, i as nat)));
        }
        i += 1;
        assert(swap_pair_list(i as nat) == swap_pair_list((i - 1) as nat) + Seq::new(
            (i - 1) as nat,
            |m: int| swap_pair_text(m as nat, (i - 1) as nat),
        ));
    }
    out
}

/// `c` is an ASCII digit.
pub open spec fn is_digit(c: char) -> bool {
    '0' <= c && c <= '9'
}

/// The value of a digit character (0 for other characters).
pub open spec fn digit_value(c: char) -> nat {
    if is_digit(c) {
        ((c as u32) - ('0' as u32)) as nat
    } else {
        0
    }
}

/// The number written by the digits `s`, in decimal.
pub open spec fn digits_value(s: Seq<char>) -> nat
    decreases s.len(),
{
    if s.len() == 0 {
        0
    } else {
        digits_value(s.drop_last()) * 10 + digit_value(s.last())
    }
}

/// The text of a number without its optional leading `+`.
pub open spec fn unsigned_digits(s: Seq<char>) -> Seq<char> {
    if s.len() > 0 && s[0] == '+' {
        s.drop_first()
    } else {
        s
    }
}

/// Every character of `s` is an ASCII digit.
pub open spec fn all_digits(s: Seq<char>) -> bool {
    forall|k: int| 0 <= k < s.len() ==> is_digit(#[trigger] s[k])
}

/// `s.parse::<usize>()`: an optional `+`, then at least one ASCII digit,
/// naming a number that fits in `usize`.
pub open spec fn parse_usize(s: Seq<char>) -> Option<nat> {
    let body = unsigned_digits(s);
    if body.len() > 0 && all_digits(body) && digits_value(body) <= usize::MAX {
        Some(digits_value(body))
    } else {
        None
    }
}

/// Reading more digits never gives a smaller number.
proof fn lemma_digits_value_grows(s: Seq<char>, k1: int, k2: int)
    requires
        0 <= k1 <= k2 <= s.len(),
    ensures
        digits_value(s.take(k1)) <= digits_value(s.take(k2)),
    decreases k2 - k1,
{
    if k1 < k2 {
        lemma_digits_value_grows(s, k1, k2 - 1);
        assert(s.take(k2).drop_last() =~= s.take(k2 - 1));
    }
}

/// `s.parse::<usize>()`.
pub fn parse_usize_exec(s: &Vec<char>) -> (r: Option<usize>)
    ensures
        match r {
            Some(v) => parse_usize(s@) == Some(v as nat),
            None => parse_usize(s@) is None,
        },
{
    let from: usize = if s.len() > 0 && s[0] == '+' {
        1
    } else {
        0
    };
    let ghost body = s@.skip(from as int);
    assert(body =~= unsigned_digits(s@));
    if from >= s.len() {
        return None;
    }
    let mut value: usize = 0;
    let mut k = from;
    while k < s.len()
        invariant
            from <= k <= s.len(),
            from < s.len(),
            body == s@.skip(from as int),
            body == unsigned_digits(s@),
            value == digits_value(body.take(k - from)),
            forall|m: int| 0 <= m < k - from ==> is_digit(#[trigger] body[m]),
        decreases s.len() - k,
    {
        let c = s[k];
        assert(body[k - from] == c);
        if !('0' <= c && c <= '9') {
            assert(!is_digit(body[k - from]));
            return None;
        }
        let d = (c as u32 - '0' as u32) as usize;
        assert(body.take(k + 1 - from).drop_last() =~= body.take(k - from));
        match value.checked_mul(10) {
            None => {
                proof {
                    lemma_digits_value_grows(body, k + 1 - from, body.len() as int);
                    assert(body.take(body.len() as int) =~= body);
                }
                return None;
            },
            Some(v10) => match v10.checked_add(d) {
                None => {
                    proof {
                        lemma_digits_value_grows(body, k + 1 - from, body.len() as int);
                        assert(body.take(body.len() as int) =~= body);
                    }
                    return None;
                },
                Some(v) => {
                    value = v;
                },
            },
        }
        k += 1;
    }
    assert(body.take(k - from) =~= body);
    Some(value)
}

/// `j,i` read back as the pair `(j, i)`, as the rewriting pass reads the
/// swaps it was given: the first two pieces of the text around `,`, each
/// parsed as a `usize`; `None` where that reading fails.
pub open spec fn swap_pair_of(s: Seq<char>) -> Option<(nat, nat)> {
    let parts = split_by(s, seq![',']);
    if parts.len() >= 2 && parse_usize(parts[0]) is Some && parse_usize(parts[1]) is Some {
        Some((parse_usize(parts[0])->0, parse_usize(parts[1])->0))
    } else {
        None
    }
}

/// Reads a swap `j,i` back as the pair of arm indices.
pub fn parse_swap_pair(s: &str) -> (r: Option<(usize, usize)>)
    ensures
        match r {
            Some((j, i)) => swap_pair_of(s@) == Some((j as nat, i as nat)),
            None => swap_pair_of(s@) is None,
        },
{
    let comma = vec![','];
    assert(comma@ =~= seq![',']);
    let parts = split_by_exec(&chars_of(s), &comma);
    if parts.len() < 2 {
        return None;
    }
    match (parse_usize_exec(&parts[0]), parse_usize_exec(&parts[1])) {
        (Some(j), Some(i)) => Some((j, i)),
        _ => None,
    }
}

// ---------------------------------------------------------------------------
// The pass state
// ---------------------------------------------------------------------------

/// A node of the tree that may be mutated: its span, the replacements still
/// to apply to it (taken from the end), and the kind of mutation.
pub struct Pos {
    pub start_line: usize,
    pub start_column: usize,
    pub end_line: usize,
    pub end_column: usize,
    pub start_type: Vec<String>,
    pub mut_type: String,
}

/// The mathematical form of a [`Pos`].
pub struct PosView {
    pub start_line: int,
    pub start_column: int,
    pub end_line: int,
    pub end_column: int,
    pub start_type: Seq<Seq<char>>,
    pub mut_type: Seq<char>,
}

impl View for Pos {
    type V = PosView;

    open spec fn view(&self) -> PosView {
        PosView {
            start_line: self.start_line as int,
            start_column: self.start_column as int,
            end_line: self.end_line as int,
            end_column: self.end_column as int,
            start_type: strings(self.start_type@),
            mut_type: self.mut_type@,
        }
    }
}

/// The views of a sequence of positions.
pub open spec fn pos_views(v: Seq<Pos>) -> Seq<PosView> {
    Seq::new(v.len(), |i: int| v[i]@)
}

/// A copy of a vector of strings.
fn copy_strings(v: &Vec<String>) -> (r: Vec<String>)
    ensures
        strings(r@) == strings(v@),
{
    let mut out: Vec<String> = Vec::new();
    let mut k: usize = 0;
    while k < v.len()
        invariant
            k <= v.len(),
            strings(out@) == strings(v@).take(k as int),
        decreases v.len() - k,
    {
        let ghost before = strings(out@);
        out.push(v[k].clone());
        assert(strings(out@) =~= before.push(v@[k as int]@));
        k += 1;
        assert(strings(out@) =~= strings(v@).take(k as int));
    }
    assert(strings(v@).take(k as int) =~= strings(v@));
    out
}

/// A copy of a position.
fn copy_pos(p: &Pos) -> (r: Pos)
    ensures
        r@ == p@,
{
    Pos {
        start_line: p.start_line,
        start_column: p.start_column,
        end_line: p.end_line,
        end_column: p.end_column,
        start_type: copy_strings(&p.start_type),
        mut_type: p.mut_type.clone(),
    }
}

/// The state of the mutation pass over the tree of one file: in the search
/// phase it collects the mutable nodes around line `struct_line`; in the
/// rewriting phase it rewrites the node at the position of `target`.
pub struct BinOpVisitor {
    pub vec_pos: Vec<Pos>,
    pub struct_line: usize,
    pub struct_column: usize,
    pub search: bool,
    pub target: Pos,
}

/// The start state of the pass around line `num_line`.
pub open spec fn initial_target() -> PosView {
    PosView {
        start_line: 0,
        start_column: 0,
        end_line: 0,
        end_column: 0,
        start_type: seq!["+"@],
        mut_type: ""@,
    }
}

/// The node at `[(sl, sc), (el, ec)]` recorded with the given replacements.
pub open spec fn recorded(sl: usize, sc: usize, el: usize, ec: usize, types: Seq<Seq<char>>, kind: Seq<char>) -> PosView {
    PosView {
        start_line: sl as int,
        start_column: sc as int,
        end_line: el as int,
        end_column: ec as int,
        start_type: types,
        mut_type: kind,
    }
}

impl BinOpVisitor {
    /// A pass in its search phase, around line `num_line`.
    pub fn new(num_line: usize) -> (r: BinOpVisitor)
        ensures
            pos_views(r.vec_pos@) == Seq::<PosView>::empty(),
            r.struct_line == num_line,
            r.struct_column == 0,
            r.search,
            r.target@ == initial_target(),
    {
        let mut types: Vec<String> = Vec::new();
        types.push(string_from("+"));
        let r = BinOpVisitor {
            vec_pos: Vec::new(),
            struct_line: num_line,
            struct_column: 0,
            search: true,
            target: Pos {
                start_line: 0,
                start_column: 0,
                end_line: 0,
                end_column: 0,
                start_type: types,
                mut_type: string_from(""),
            },
        };
        assert(pos_views(r.vec_pos@) =~= Seq::<PosView>::empty());
        assert(r.target@.start_type =~= seq!["+"@]);
        r
    }

    /// True when a node spanning lines `start_line..=end_line` holds the line
    /// of the pass.
    pub fn covers(&self, start_line: usize, end_line: usize) -> (r: bool)
        ensures
            r == (start_line <= self.struct_line && self.struct_line <= end_line),
    {
        start_line <= self.struct_line && self.struct_line <= end_line
    }

    /// Reports a binary operator: in the search phase, one that spans the
    /// line of the pass is recorded with the symbols that may replace it.
    pub fn record_binop(
        &mut self,
        start_line: usize,
        start_column: usize,
        end_line: usize,
        end_column: usize,
        op: BinOpKind,
    )
        ensures
            final(self).struct_line == old(self).struct_line,
            final(self).struct_column == old(self).struct_column,
            final(self).search == old(self).search,
            final(self).target@ == old(self).target@,
            pos_views(final(self).vec_pos@) == if old(self).search && start_line
                <= old(self).struct_line <= end_line {
                pos_views(old(self).vec_pos@).push(
                    recorded(
                        start_line,
                        start_column,
                        end_line,
                        end_column,
                        alternatives(op),
                        mutation_kind(op),
                    ),
                )
            } else {
                pos_views(old(self).vec_pos@)
            },
    {
        if self.search && self.covers(start_line, end_line) {
            let (types, kind) = binop_mutations(op);
            let ghost before = pos_views(self.vec_pos@);
            self.vec_pos.push(
                Pos { start_line, start_column, end_line, end_column, start_type: types, mut_type: kind },
            );
            assert(pos_views(self.vec_pos@) =~= before.push(
                recorded(start_line, start_column, end_line, end_column, alternatives(op), mutation_kind(op)),
            ));
        }
    }

    /// Reports a `match` expression with `arms` arms: in the search phase,
    /// one that spans the line of the pass and has arms is recorded with
    /// every swap of two of its arms.
    pub fn record_match(
        &mut self,
        start_line: usize,
        start_column: usize,
        end_line: usize,
        end_column: usize,
        arms: usize,
    )
        ensures
            final(self).struct_line == old(self).struct_line,
            final(self).struct_column == old(self).struct_column,
            final(self).search == old(self).search,
            final(self).target@ == old(self).target@,
            pos_views(final(self).vec_pos@) == if old(self).search && start_line
                <= old(self).struct_line <= end_line && arms > 0 {
                pos_views(old(self).vec_pos@).push(
                    recorded(
                        start_line,
                        start_column,
                        end_line,
                        end_column,
                        swap_pair_list(arms as nat),
                        "match"@,
                    ),
                )
            } else {
                pos_views(old(self).vec_pos@)
            },
    {
        if self.search && self.covers(start_line, end_line) && arms > 0 {
            let types = swap_pairs(arms);
            let kind = string_from("match");
            let ghost before = pos_views(self.vec_pos@);
            self.vec_pos.push(
                Pos { start_line, start_column, end_line, end_column, start_type: types, mut_type: kind },
            );
            assert(pos_views(self.vec_pos@) =~= before.push(
                recorded(start_line, start_column, end_line, end_column, swap_pair_list(arms as nat), "match"@),
            ));
        }
    }

    /// Ends the search phase and aims the rewriting at recorded node `k`.
    pub fn aim_at(&mut self, k: usize)
        requires
            k < old(self).vec_pos.len(),
        ensures
            final(self).vec_pos@ == old(self).vec_pos@,
            final(self).struct_line == old(self).struct_line,
            final(self).struct_column == old(self).struct_column,
            !final(self).search,
            final(self).target@ == old(self).vec_pos@[k as int]@,
    {
        self.search = false;
        self.target = copy_pos(&self.vec_pos[k]);
    }

    /// Reports a node at `[(start_line, start_column), (end_line,
    /// end_column)]` in the rewriting phase: when it is the target and a
    /// replacement is left, the last replacement is taken off the target and
    /// returned.
    pub fn take_replacement(
        &mut self,
        start_line: usize,
        start_column: usize,
        end_line: usize,
        end_column: usize,
    ) -> (r: Option<String>)
        ensures
            final(self).vec_pos@ == old(self).vec_pos@,
            final(self).struct_line == old(self).struct_line,
            final(self).struct_column == old(self).struct_column,
            final(self).search == old(self).search,
            final(self).target.start_line == old(self).target.start_line,
            final(self).target.start_column == old(self).target.start_column,
            final(self).target.end_line == old(self).target.end_line,
            final(self).target.end_column == old(self).target.end_column,
            final(self).target.mut_type@ == old(self).target.mut_type@,
            ({
                let types = strings(old(self).target.start_type@);
                let hit = start_line == old(self).target.start_line && start_column
                    == old(self).target.start_column && end_line == old(self).target.end_line
                    && end_column == old(self).target.end_column && types.len() > 0;
                if hit {
                    &&& r matches Some(t) && t@ == types.last()
                    &&& strings(final(self).target.start_type@) == types.drop_last()
                } else {
                    &&& r is None
                    &&& strings(final(self).target.start_type@) == types
                }
            }),
    {
        if start_line == self.target.start_line && start_column == self.target.start_column
            && end_line == self.target.end_line && end_column == self.target.end_column
            && self.target.start_type.len() > 0 {
            let ghost before = self.target.start_type@;
            let t = self.target.start_type.pop();
            assert(strings(self.target.start_type@) =~= strings(before).drop_last());
            t
        } else {
            None
        }
    }
}

/// Reading a decimal representation gives back its number.
pub proof fn lemma_digits_value_decimal(n: nat)
    ensures
        digits_value(decimal(n)) == n,
    decreases n,
{
    let d = (n % 10) as nat;
    assert(digit_value(digit_char(d)) == d) by {
        assert(d < 10);
        if d == 0 {} else if d == 1 {} else if d == 2 {} else if d == 3 {} else if d == 4 {}
        else if d == 5 {} else if d == 6 {} else if d == 7 {} else if d == 8 {} else {}
    }
    if n < 10 {
        assert(decimal(n).drop_last() =~= Seq::<char>::empty());
        assert(decimal(n).last() == digit_char(d));
        assert(digits_value(Seq::<char>::empty()) == 0);
    } else {
        lemma_digits_value_decimal(n / 10);
        assert(decimal(n).drop_last() =~= decimal(n / 10));
        assert(decimal(n).last() == digit_char(d));
    }
}

/// A number written in decimal parses back to itself.
pub proof fn lemma_parse_decimal(n: nat)
    requires
        n <= usize::MAX,
    ensures
        parse_usize(decimal(n)) == Some(n),
{
    crate::text::lemma_decimal_digits(n);
    lemma_digits_value_decimal(n);
    assert(unsigned_digits(decimal(n)) == decimal(n));
    assert(all_digits(decimal(n)));
}

/// The text of a swap reads back as the same pair of arms.
pub proof fn lemma_swap_pair_roundtrip(j: nat, i: nat)
    requires
        j <= usize::MAX,
        i <= usize::MAX,
    ensures
        swap_pair_of(swap_pair_text(j, i)) == Some((j, i)),
{
    crate::text::lemma_decimal_digits(j);
    crate::text::lemma_decimal_digits(i);
    assert(!decimal(j).contains(',')) by {
        if decimal(j).contains(',') {
            let k = choose|k: int| 0 <= k < decimal(j).len() && decimal(j)[k] == ',';
            assert('0' <= decimal(j)[k]);
        }
    }
    assert(!decimal(i).contains(',')) by {
        if decimal(i).contains(',') {
            let k = choose|k: int| 0 <= k < decimal(i).len() && decimal(i)[k] == ',';
            assert('0' <= decimal(i)[k]);
        }
    }
    crate::text::lemma_split_two(decimal(j), ',', decimal(i));
    lemma_parse_decimal(j);
    lemma_parse_decimal(i);
}


/// Each operator symbol reads back as its operator.
pub proof fn lemma_symbols_read_back()
    ensures
        operator_of_symbol("+"@) == BinOpKind::Add,
        operator_of_symbol("-"@) == BinOpKind::Sub,
        operator_of_symbol("*"@) == BinOpKind::Mul,
        operator_of_symbol("/"@) == BinOpKind::Div,
        operator_of_symbol("%"@) == BinOpKind::Rem,
        operator_of_symbol("^"@) == BinOpKind::BitXor,
        operator_of_symbol("&"@) == BinOpKind::BitAnd,
        operator_of_symbol("|"@) == BinOpKind::BitOr,
        operator_of_symbol("=="@) == BinOpKind::Eq,
        operator_of_symbol("<"@) == BinOpKind::Lt,
        operator_of_symbol("<="@) == BinOpKind::Le,
        operator_of_symbol("!="@) == BinOpKind::Ne,
        operator_of_symbol(">="@) == BinOpKind::Ge,
        operator_of_symbol(">"@) == BinOpKind::Gt,
{
    reveal_strlit("+");
    reveal_strlit("-");
    reveal_strlit("*");
    reveal_strlit("/");
    reveal_strlit("%");
    reveal_strlit("^");
    reveal_strlit("&");
    reveal_strlit("|");
    reveal_strlit("==");
    reveal_strlit("<");
    reveal_strlit("<=");
    reveal_strlit("!=");
    reveal_strlit(">=");
    reveal_strlit(">");
    assert("+"@[0] == '+');
    assert("+"@.len() == 1);
    assert("-"@[0] == '-');
    assert("-"@.len() == 1);
    assert("*"@[0] == '*');
    assert("*"@.len() == 1);
    assert("/"@[0] == '/');
    assert("/"@.len() == 1);
    assert("%"@[0] == '%');
    assert("%"@.len() == 1);
    assert("^"@[0] == '^');
    assert("^"@.len() == 1);
    assert("&"@[0] == '&');
    assert("&"@.len() == 1);
    assert("|"@[0] == '|');
    assert("|"@.len() == 1);
    assert("=="@[0] == '=');
    assert("=="@[1] == '=');
    assert("=="@.len() == 2);
    assert("<"@[0] == '<');
    assert("<"@.len() == 1);
    assert("<="@[0] == '<');
    assert("<="@[1] == '=');
    assert("<="@.len() == 2);
    assert("!="@[0] == '!');
    assert("!="@[1] == '=');
    assert("!="@.len() == 2);
    assert(">="@[0] == '>');
    assert(">="@[1] == '=');
    assert(">="@.len() == 2);
    assert(">"@[0] == '>');
    assert(">"@.len() == 1);
}

/// Every operator symbol reads back as its operator, and every replacement
/// offered for an operator is a different operator of the same kind.
pub proof fn lemma_alternatives(op: BinOpKind)
    ensures
        !(op is Other) ==> operator_of_symbol(family(op)[family_index(op)]) == op,
        !(op is Other) ==> alternatives(op).len() + 1 == family(op).len(),
        forall|k: int|
            0 <= k < alternatives(op).len() ==> operator_of_symbol(#[trigger] alternatives(op)[k])
                != op,
        forall|k: int|
            0 <= k < alternatives(op).len() && !(op is Other) ==> mutation_kind(
                operator_of_symbol(#[trigger] alternatives(op)[k]),
            ) == mutation_kind(op),
{
    lemma_symbols_read_back();
    let f = family(op);
    let alts = alternatives(op);
    if !(op is Other) {
        assert forall|k: int| 0 <= k < alts.len() implies operator_of_symbol(#[trigger] alts[k])
            != op && mutation_kind(operator_of_symbol(alts[k])) == mutation_kind(op) by {
            let m = if k < family_index(op) {
                k
            } else {
                k + 1
            };
            assert(alts[k] == f[m]);
            assert(m != family_index(op));
        }
    }
}

/// The place of an operator in the declaration of [`BinOpKind`].
pub open spec fn declared_rank(op: BinOpKind) -> int {
    match op {
        BinOpKind::Add => 0,
        BinOpKind::Sub => 1,
        BinOpKind::Mul => 2,
        BinOpKind::Div => 3,
        BinOpKind::Rem => 4,
        BinOpKind::BitXor => 5,
        BinOpKind::BitAnd => 6,
        BinOpKind::BitOr => 7,
        BinOpKind::Eq => 8,
        BinOpKind::Lt => 9,
        BinOpKind::Le => 10,
        BinOpKind::Ne => 11,
        BinOpKind::Ge => 12,
        BinOpKind::Gt => 13,
        BinOpKind::Other => 14,
    }
}

/// `a` and `b` are operators of the same kind: both arithmetic, both
/// bitwise, or both relational.
pub open spec fn same_kind(a: BinOpKind, b: BinOpKind) -> bool {
    !(a is Other) && !(b is Other) && mutation_kind(a) == mutation_kind(b)
}

/// The replacements offered for an arithmetic, bitwise or relational
/// operator are exactly the other operators of its kind, each once, in the
/// order of their declaration (for `+`: `-`, `*`, `/`, `%`); for any other
/// operator, `+` alone.
pub proof fn lemma_replacements_are_the_other_operators(op: BinOpKind)
    ensures
        op is Other ==> alternatives(op) == seq!["+"@],
        forall|k: int|
            0 <= k < alternatives(op).len() && !(op is Other) ==> same_kind(
                #[trigger] operator_of_symbol(alternatives(op)[k]),
                op,
            ) && operator_of_symbol(alternatives(op)[k]) != op,
        forall|o: BinOpKind|
            #[trigger] same_kind(o, op) && o != op ==> exists|k: int|
                0 <= k < alternatives(op).len() && #[trigger] operator_of_symbol(alternatives(op)[k])
                    == o,
        forall|k: int, l: int|
            0 <= k < l < alternatives(op).len() ==> declared_rank(
                #[trigger] operator_of_symbol(alternatives(op)[k]),
            ) < declared_rank(#[trigger] operator_of_symbol(alternatives(op)[l])),
{
    lemma_symbols_read_back();
    lemma_alternatives(op);
    reveal_strlit("arithmetic");
    reveal_strlit("bitwise");
    reveal_strlit("relational");
    reveal_strlit("");
    assert("arithmetic"@[0] == 'a');
    assert("bitwise"@[0] == 'b');
    assert("relational"@[0] == 'r');
    assert(""@.len() == 0);
    let alts = alternatives(op);
    let f = family(op);
    if !(op is Other) {
        assert(alts =~= f.remove(family_index(op)));
    }
    match op {
        BinOpKind::Add => {
            assert(alts =~= seq!["-"@, "*"@, "/"@, "%"@]);
            assert(operator_of_symbol(alts[0]) == BinOpKind::Sub);
            assert(operator_of_symbol(alts[1]) == BinOpKind::Mul);
            assert(operator_of_symbol(alts[2]) == BinOpKind::Div);
            assert(operator_of_symbol(alts[3]) == BinOpKind::Rem);
        },
        BinOpKind::Sub => {
            assert(alts =~= seq!["+"@, "*"@, "/"@, "%"@]);
            assert(operator_of_symbol(alts[0]) == BinOpKind::Add);
            assert(operator_of_symbol(alts[1]) == BinOpKind::Mul);
            assert(operator_of_symbol(alts[2]) == BinOpKind::Div);
            assert(operator_of_symbol(alts[3]) == BinOpKind::Rem);
        },
        BinOpKind::Mul => {
            assert(alts =~= seq!["+"@, "-"@, "/"@, "%"@]);
            assert(operator_of_symbol(alts[0]) == BinOpKind::Add);
            assert(operator_of_symbol(alts[1]) == BinOpKind::Sub);
            assert(operator_of_symbol(alts[2]) == BinOpKind::Div);
            assert(operator_of_symbol(alts[3]) == BinOpKind::Rem);
        },
        BinOpKind::Div => {
            assert(alts =~= seq!["+"@, "-"@, "*"@, "%"@]);
            assert(operator_of_symbol(alts[0]) == BinOpKind::Add);
            assert(operator_of_symbol(alts[1]) == BinOpKind::Sub);
            assert(operator_of_symbol(alts[2]) == BinOpKind::Mul);
            assert(operator_of_symbol(alts[3]) == BinOpKind::Rem);
        },
        BinOpKind::Rem => {
            assert(alts =~= seq!["+"@, "-"@, "*"@, "/"@]);
            assert(operator_of_symbol(alts[0]) == BinOpKind::Add);
            assert(operator_of_symbol(alts[1]) == BinOpKind::Sub);
            assert(operator_of_symbol(alts[2]) == BinOpKind::Mul);
            assert(operator_of_symbol(alts[3]) == BinOpKind::Div);
        },
        BinOpKind::BitXor => {
            assert(alts =~= seq!["&"@, "|"@]);
            assert(operator_of_symbol(alts[0]) == BinOpKind::BitAnd);
            assert(operator_of_symbol(alts[1]) == BinOpKind::BitOr);
        },
        BinOpKind::BitAnd => {
            assert(alts =~= seq!["^"@, "|"@]);
            assert(operator_of_symbol(alts[0]) == BinOpKind::BitXor);
            assert(operator_of_symbol(alts[1]) == BinOpKind::BitOr);
        },
        BinOpKind::BitOr => {
            assert(alts =~= seq!["^"@, "&"@]);
            assert(operator_of_symbol(alts[0]) == BinOpKind::BitXor);
            assert(operator_of_symbol(alts[1]) == BinOpKind::BitAnd);
        },
        BinOpKind::Eq => {
            assert(alts =~= seq!["<"@, "<="@, "!="@, ">="@, ">"@]);
            assert(operator_of_symbol(alts[0]) == BinOpKind::Lt);
            assert(operator_of_symbol(alts[1]) == BinOpKind::Le);
            assert(operator_of_symbol(alts[2]) == BinOpKind::Ne);
            assert(operator_of_symbol(alts[3]) == BinOpKind::Ge);
            assert(operator_of_symbol(alts[4]) == BinOpKind::Gt);
        },
        BinOpKind::Lt => {
            assert(alts =~= seq!["=="@, "<="@, "!="@, ">="@, ">"@]);
            assert(operator_of_symbol(alts[0]) == BinOpKind::Eq);
            assert(operator_of_symbol(alts[1]) == BinOpKind::Le);
            assert(operator_of_symbol(alts[2]) == BinOpKind::Ne);
            assert(operator_of_symbol(alts[3]) == BinOpKind::Ge);
            assert(operator_of_symbol(alts[4]) == BinOpKind::Gt);
        },
        BinOpKind::Le => {
            assert(alts =~= seq!["=="@, "<"@, "!="@, ">="@, ">"@]);
            assert(operator_of_symbol(alts[0]) == BinOpKind::Eq);
            assert(operator_of_symbol(alts[1]) == BinOpKind::Lt);
            assert(operator_of_symbol(alts[2]) == BinOpKind::Ne);
            assert(operator_of_symbol(alts[3]) == BinOpKind::Ge);
            assert(operator_of_symbol(alts[4]) == BinOpKind::Gt);
        },
        BinOpKind::Ne => {
            assert(alts =~= seq!["=="@, "<"@, "<="@, ">="@, ">"@]);
            assert(operator_of_symbol(alts[0]) == BinOpKind::Eq);
            assert(operator_of_symbol(alts[1]) == BinOpKind::Lt);
            assert(operator_of_symbol(alts[2]) == BinOpKind::Le);
            assert(operator_of_symbol(alts[3]) == BinOpKind::Ge);
            assert(operator_of_symbol(alts[4]) == BinOpKind::Gt);
        },
        BinOpKind::Ge => {
            assert(alts =~= seq!["=="@, "<"@, "<="@, "!="@, ">"@]);
            assert(operator_of_symbol(alts[0]) == BinOpKind::Eq);
            assert(operator_of_symbol(alts[1]) == BinOpKind::Lt);
            assert(operator_of_symbol(alts[2]) == BinOpKind::Le);
            assert(operator_of_symbol(alts[3]) == BinOpKind::Ne);
            assert(operator_of_symbol(alts[4]) == BinOpKind::Gt);
        },
        BinOpKind::Gt => {
            assert(alts =~= seq!["=="@, "<"@, "<="@, "!="@, ">="@]);
            assert(operator_of_symbol(alts[0]) == BinOpKind::Eq);
            assert(operator_of_symbol(alts[1]) == BinOpKind::Lt);
            assert(operator_of_symbol(alts[2]) == BinOpKind::Le);
            assert(operator_of_symbol(alts[3]) == BinOpKind::Ne);
            assert(operator_of_symbol(alts[4]) == BinOpKind::Ge);
        },
        BinOpKind::Other => {},
    }
}

} // verus!
