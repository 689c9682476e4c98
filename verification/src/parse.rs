//! Recognising statements, and finding the smallest group of lines around a
//! given line that forms one statement.

use crate::text::{chars_of, crlf, join, join_range, string_of, texts};
use syn::{Expr, Item, ReturnType, Stmt};
use vstd::prelude::*;

verus! {

/// What the mutation rules read of a parsed statement.
pub enum StmtShape {
    /// The text is not one Rust statement.
    Unparsable,
    /// A `let` binding.
    Local,
    /// A `const` item.
    ConstItem,
    /// A function item: whether it declares no return type, and its name.
    FnItem(bool, String),
    /// An expression statement `f(..);` calling a function: the first
    /// segment of the callee's path, if the callee is a path.
    Call(Option<String>),
    /// A statement `return ..;`.
    Return,
    /// Any other statement.
    Other,
}

/// The mathematical form of a [`StmtShape`].
pub enum StmtShapeView {
    Unparsable,
    Local,
    ConstItem,
    FnItem(bool, Seq<char>),
    Call(Option<Seq<char>>),
    Return,
    Other,
}

impl View for StmtShape {
    type V = StmtShapeView;

    open spec fn view(&self) -> StmtShapeView {
        match self {
            StmtShape::Unparsable => StmtShapeView::Unparsable,
            StmtShape::Local => StmtShapeView::Local,
            StmtShape::ConstItem => StmtShapeView::ConstItem,
            StmtShape::FnItem(unit, name) => StmtShapeView::FnItem(*unit, name@),
            StmtShape::Call(head) => StmtShapeView::Call(
                match head {
                    Some(h) => Some(h@),
                    None => None,
                },
            ),
            StmtShape::Return => StmtShapeView::Return,
            StmtShape::Other => StmtShapeView::Other,
        }
    }
}

/// How `syn` reads `text` as one statement (`syn::parse_str::<syn::Stmt>`).
pub uninterp spec fn parsed_statement(text: Seq<char>) -> StmtShapeView;

/// Parses `text` with `syn::parse_str::<syn::Stmt>` and reports the shape of
/// the statement. The contract claims only that the shape depends on the text
/// alone; which texts `syn` accepts and how it reads them is not stated.
#[verifier::external_body]
fn parse_statement(text: &str) -> (shape: StmtShape)
    ensures
        shape@ == parsed_statement(text@),
{
    match syn::parse_str::<Stmt>(text) {
        Ok(Stmt::Local(_)) => StmtShape::Local,
        Ok(Stmt::Item(Item::Const(_))) => StmtShape::ConstItem,
        Ok(Stmt::Item(Item::Fn(f))) => StmtShape::FnItem(
            matches!(f.sig.output, ReturnType::Default),
            f.sig.ident.to_string(),
        ),
        Ok(Stmt::Semi(Expr::Call(c), _)) => StmtShape::Call(match *c.func {
            Expr::Path(p) => p.path.segments.first().map(|s| s.ident.to_string()),
            _ => None,
        }),
        Ok(Stmt::Semi(Expr::Return(_), _)) => StmtShape::Return,
        Ok(_) => StmtShape::Other,
        Err(_) => StmtShape::Unparsable,
    }
}

/// The shape of the statement held by the characters `text`.
pub fn statement_shape(text: &Vec<char>) -> (shape: StmtShape)
    ensures
        shape@ == parsed_statement(text@),
{
    let s = string_of(text);
    parse_statement(s.as_str())
}

/// True when `text` is one Rust statement.
pub open spec fn parses(text: Seq<char>) -> bool {
    !(parsed_statement(text) is Unparsable)
}

/// The text of lines `start..end`, joined with CRLF.
pub open spec fn window_text(lines: Seq<Seq<char>>, start: int, end: int) -> Seq<char> {
    join(lines.subrange(start, end), crlf())
}

/// The search for a parsable window around line `n` (counted from 1),
/// trying window lengths `j` from 1 up to the number of lines and, for each
/// length, the windows `[n + i - j, n + i)` for `i` from 0 up; `(0, len)`
/// when none parses.
pub open spec fn first_parsable_window(lines: Seq<Seq<char>>, n: int, j: int, i: int) -> (int, int)
    decreases lines.len() + 1 - j, j - i,
{
    let len = lines.len() as int;
    if j > len || j < 1 || i < 0 {
        (0, len)
    } else if i >= j {
        first_parsable_window(lines, n, j + 1, 0)
    } else if n + i >= j && n + i <= len && parses(window_text(lines, n + i - j, n + i)) {
        (n + i - j, n + i)
    } else {
        first_parsable_window(lines, n, j, i + 1)
    }
}

/// The smallest window of lines around line `n` (counted from 1) that parses
/// as a statement; `(0, len)` when `n` names no line or no window around it
/// parses.
pub open spec fn min_parsable_window(lines: Seq<Seq<char>>, n: int) -> (int, int) {
    if n > lines.len() {
        (0, lines.len() as int)
    } else {
        first_parsable_window(lines, n, 1, 0)
    }
}

/// The texts of a vector of string slices.
pub open spec fn str_texts(v: Seq<&str>) -> Seq<Seq<char>> {
    Seq::new(v.len(), |i: int| v[i]@)
}

/// The characters of each string slice.
pub fn texts_of_strs(v: &Vec<&str>) -> (r: Vec<Vec<char>>)
    ensures
        texts(r@) == str_texts(v@),
{
    let mut out: Vec<Vec<char>> = Vec::new();
    let mut k: usize = 0;
    while k < v.len()
        invariant
            k <= v.len(),
            texts(out@) == str_texts(v@).take(k as int),
        decreases v.len() - k,
    {
        let line = chars_of(v[k]);
        let ghost before = out@;
        out.push(line);
        assert(texts(out@) =~= texts(before).push(v@[k as int]@));
        k += 1;
        assert(texts(out@) =~= str_texts(v@).take(k as int));
    }
    assert(str_texts(v@).take(k as int) =~= str_texts(v@));
    out
}

/// With no line before line `n == 0`, no window is ever tried.
proof fn lemma_no_window_at_zero(lines: Seq<Seq<char>>, j: int, i: int)
    ensures
        first_parsable_window(lines, 0, j, i) == (0int, lines.len() as int),
    decreases lines.len() + 1 - j, j - i,
{
    let len = lines.len() as int;
    if j > len || j < 1 || i < 0 {
    } else if i >= j {
        lemma_no_window_at_zero(lines, j + 1, 0);
    } else {
        lemma_no_window_at_zero(lines, j, i + 1);
    }
}

/// The window `[a, b)` of `len` lines holds line `n` (counted from 1).
pub open spec fn holds_line(len: int, n: int, a: int, b: int) -> bool {
    0 <= a < n <= b <= len
}

/// Window `[a1, b1)` comes before `[a2, b2)` in the search order: it is
/// shorter, or as long and ends earlier.
pub open spec fn tried_before(a1: int, b1: int, a2: int, b2: int) -> bool {
    b1 - a1 < b2 - a2 || (b1 - a1 == b2 - a2 && b1 < b2)
}

/// Window `[a, b)` around line `n` comes no earlier than the window of
/// length `j` that ends at line `n + i`.
pub open spec fn not_before(n: int, a: int, b: int, j: int, i: int) -> bool {
    b - a > j || (b - a == j && b - n >= i)
}

proof fn lemma_first_window_scan(lines: Seq<Seq<char>>, n: int, j: int, i: int)
    requires
        1 <= j,
        0 <= i <= j,
        1 <= n <= lines.len(),
    ensures
        ({
            let len = lines.len() as int;
            let r = first_parsable_window(lines, n, j, i);
            &&& r == (0int, len) || (holds_line(len, n, r.0, r.1) && parses(
                window_text(lines, r.0, r.1),
            ))
            &&& forall|a: int, b: int|
                holds_line(len, n, a, b) && parses(#[trigger] window_text(lines, a, b))
                    && not_before(n, a, b, j, i) ==> holds_line(len, n, r.0, r.1) && parses(
                    window_text(lines, r.0, r.1),
                ) && !tried_before(a, b, r.0, r.1)
        }),
    decreases lines.len() + 1 - j, j - i,
{
    let len = lines.len() as int;
    if j > len {
    } else if i >= j {
        lemma_first_window_scan(lines, n, j + 1, 0);
    } else if n + i >= j && n + i <= len && parses(window_text(lines, n + i - j, n + i)) {
    } else {
        lemma_first_window_scan(lines, n, j, i + 1);
    }
}

/// The search returns the smallest window holding line `n` that parses as
/// a statement (among equally long ones, the one that ends first), and
/// `(0, len)` when `n` names no line or no window holding it parses.
pub proof fn lemma_min_parsable_window(lines: Seq<Seq<char>>, n: int)
    ensures
        ({
            let len = lines.len() as int;
            let r = min_parsable_window(lines, n);
            &&& (n < 1 || n > len) ==> r == (0int, len)
            &&& (forall|a: int, b: int|
                holds_line(len, n, a, b) ==> !parses(#[trigger] window_text(lines, a, b)))
                ==> r == (0int, len)
            &&& forall|a: int, b: int|
                holds_line(len, n, a, b) && parses(#[trigger] window_text(lines, a, b))
                    ==> holds_line(len, n, r.0, r.1) && parses(window_text(lines, r.0, r.1))
                    && !tried_before(a, b, r.0, r.1)
            &&& (1 <= n <= len && !parses(window_text(lines, r.0, r.1))) ==> forall|a: int, b: int|
                holds_line(len, n, a, b) ==> !parses(#[trigger] window_text(lines, a, b))
            &&& 0 <= r.0 <= r.1 <= len
        }),
{
    let len = lines.len() as int;
    if n < 1 {
        if n == 0 {
            lemma_no_window_at_zero(lines, 1, 0);
        } else {
            lemma_no_window_at_zero_neg(lines, n, 1, 0);
        }
    } else if n <= len {
        lemma_first_window_scan(lines, n, 1, 0);
        let r = min_parsable_window(lines, n);
        if (forall|a: int, b: int|
            holds_line(len, n, a, b) ==> !parses(#[trigger] window_text(lines, a, b))) {
            if r != (0int, len) {
                assert(!parses(window_text(lines, r.0, r.1)));
            }
        }
    }
}

/// No window is tried around a negative line either.
proof fn lemma_no_window_at_zero_neg(lines: Seq<Seq<char>>, n: int, j: int, i: int)
    requires
        n < 0,
    ensures
        first_parsable_window(lines, n, j, i) == (0int, lines.len() as int),
    decreases lines.len() + 1 - j, j - i,
{
    let len = lines.len() as int;
    if j > len || j < 1 || i < 0 {
    } else if i >= j {
        lemma_no_window_at_zero_neg(lines, n, j + 1, 0);
    } else {
        lemma_no_window_at_zero_neg(lines, n, j, i + 1);
    }
}

/// The smallest window of lines around line `num_line` (counted from 1) whose
/// text parses as one statement.
pub fn find_min_parsable_window(lines: &Vec<Vec<char>>, num_line: usize) -> (r: (usize, usize))
    ensures
        (r.0 as int, r.1 as int) == min_parsable_window(texts(lines@), num_line as int),
{
    let ghost ls = texts(lines@);
    let len = lines.len();
    let n = num_line;
    if n > len {
        return (0, len);
    }
    if n == 0 {
        proof {
            lemma_no_window_at_zero(ls, 1, 0);
        }
        return (0, len);
    }
    let sep = vec!['\r', '\n'];
    assert(sep@ == crlf());
    // `done` window lengths have been tried.
    let mut done: usize = 0;
    while done < len
        invariant
            done <= len,
            0 < n <= len == lines.len(),
            n == num_line,
            ls == texts(lines@),
            sep@ == crlf(),
            first_parsable_window(ls, n as int, 1, 0) == first_parsable_window(
                ls,
                n as int,
                done + 1,
                0,
            ),
        decreases len - done,
    {
        let j = done + 1;
        let mut i: usize = 0;
        while i < j
            invariant
                1 <= j <= len,
                j == done + 1,
                i <= j,
                0 < n <= len == lines.len(),
                n == num_line,
                ls == texts(lines@),
                sep@ == crlf(),
                first_parsable_window(ls, n as int, 1, 0) == first_parsable_window(
                    ls,
                    n as int,
                    j as int,
                    i as int,
                ),
            decreases j - i,
        {
            if i <= len - n && j - i <= n {
                let start = n - (j - i);
                let end = n + i;
                let text = join_range(lines, start, end, &sep);
                let shape = statement_shape(&text);
                match shape {
                    StmtShape::Unparsable => {},
                    _ => {
                        assert(text@ == window_text(ls, start as int, end as int));
                        assert(parses(text@));
                        assert(ls.len() == len);
                        assert(first_parsable_window(ls, n as int, j as int, i as int) == (
                            start as int,
                            end as int,
                        ));
                        return (start, end);
                    },
                }
            }
            i += 1;
        }
        done = j;
    }
    (0, len)
}

/// Gets the smallest group of consecutive lines around line `num_line`
/// (counted from 1) that parses as one statement: windows are tried from
/// the shortest, and among equally long ones from the one that ends first.
/// Returns `(0, splitted_file.len())` when `num_line` is 0 or greater than
/// the number of lines, or when no window holding the line parses
/// (see [`lemma_min_parsable_window`]).
pub fn find_min_parsable_lines(splitted_file: Vec<&str>, num_line: usize) -> (r: (usize, usize))
    ensures
        (r.0 as int, r.1 as int) == min_parsable_window(str_texts(splitted_file@), num_line as int),
        forall|a: int, b: int|
            holds_line(splitted_file.len() as int, num_line as int, a, b) && parses(
                #[trigger] window_text(str_texts(splitted_file@), a, b),
            ) ==> holds_line(splitted_file.len() as int, num_line as int, r.0 as int, r.1 as int)
                && parses(window_text(str_texts(splitted_file@), r.0 as int, r.1 as int)) && r.1
                - r.0 <= b - a,
{
    let lines = texts_of_strs(&splitted_file);
    proof {
        lemma_min_parsable_window(str_texts(splitted_file@), num_line as int);
    }
    find_min_parsable_window(&lines, num_line)
}

} // verus!
