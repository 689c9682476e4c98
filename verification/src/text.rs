//! Character-level text operations used to rewrite source lines.
//!
//! Text is handled as sequences of `char`; the spec functions below state
//! what the corresponding `str` operations of the standard library compute.

use vstd::prelude::*;

verus! {

/// `String::push` appends one character to the end of the string.
pub assume_specification[ String::push ](s: &mut String, ch: char)
    ensures
        final(s)@ == old(s)@.push(ch),
;

// ---------------------------------------------------------------------------
// Specifications
// ---------------------------------------------------------------------------

/// The line separator of the processed sources: carriage return, line feed.
pub open spec fn crlf() -> Seq<char> {
    seq!['\r', '\n']
}

/// True when `sep` occurs in `s` starting at index `i`.
pub open spec fn occurs_at(s: Seq<char>, sep: Seq<char>, i: int) -> bool {
    0 <= i && i + sep.len() <= s.len() && s.subrange(i, i + sep.len()) =~= sep
}

/// The pieces of `s[start..]` cut at the non-overlapping occurrences of
/// `sep`, searching from index `i` on (as `str::split` does from the left).
pub open spec fn split_scan(s: Seq<char>, sep: Seq<char>, start: int, i: int) -> Seq<Seq<char>>
    decreases s.len() - i,
{
    if sep.len() == 0 || i < start || start < 0 || i + sep.len() > s.len() {
        seq![s.subrange(start, s.len() as int)]
    } else if occurs_at(s, sep, i) {
        seq![s.subrange(start, i)] + split_scan(s, sep, i + sep.len(), i + sep.len())
    } else {
        split_scan(s, sep, start, i + 1)
    }
}

/// `s.split(sep)` for a non-empty separator: the pieces between
/// the occurrences of `sep`, found from the left without overlap.
pub open spec fn split_by(s: Seq<char>, sep: Seq<char>) -> Seq<Seq<char>> {
    split_scan(s, sep, 0, 0)
}

/// `parts.join(sep)`: the parts in order with `sep` between neighbours.
pub open spec fn join(parts: Seq<Seq<char>>, sep: Seq<char>) -> Seq<char>
    decreases parts.len(),
{
    if parts.len() == 0 {
        seq![]
    } else if parts.len() == 1 {
        parts[0]
    } else {
        join(parts.drop_last(), sep) + sep + parts.last()
    }
}

/// `char::is_whitespace`: the characters with the Unicode `White_Space` property.
pub open spec fn is_whitespace(c: char) -> bool {
    ||| ('\u{9}' <= c && c <= '\u{d}')
    ||| c == ' '
    ||| c == '\u{85}'
    ||| c == '\u{a0}'
    ||| c == '\u{1680}'
    ||| ('\u{2000}' <= c && c <= '\u{200a}')
    ||| c == '\u{2028}'
    ||| c == '\u{2029}'
    ||| c == '\u{202f}'
    ||| c == '\u{205f}'
    ||| c == '\u{3000}'
}

/// `str::trim_start`: `s` without its leading whitespace.
pub open spec fn trim_start(s: Seq<char>) -> Seq<char>
    decreases s.len(),
{
    if s.len() > 0 && is_whitespace(s[0]) {
        trim_start(s.drop_first())
    } else {
        s
    }
}

/// `str::trim_end`: `s` without its trailing whitespace.
pub open spec fn trim_end(s: Seq<char>) -> Seq<char>
    decreases s.len(),
{
    if s.len() > 0 && is_whitespace(s.last()) {
        trim_end(s.drop_last())
    } else {
        s
    }
}

/// `str::trim`: `s` without leading and trailing whitespace.
pub open spec fn trim(s: Seq<char>) -> Seq<char> {
    trim_end(trim_start(s))
}

/// `s.trim_end_matches(c)` for a single character `c`.
pub open spec fn trim_end_char(s: Seq<char>, c: char) -> Seq<char>
    decreases s.len(),
{
    if s.len() > 0 && s.last() == c {
        trim_end_char(s.drop_last(), c)
    } else {
        s
    }
}

/// `s.trim_start_matches(pat)` for a non-empty pattern: every leading
/// repetition of `pat` removed.
pub open spec fn trim_start_pattern(s: Seq<char>, pat: Seq<char>) -> Seq<char>
    decreases s.len(),
{
    if pat.len() > 0 && occurs_at(s, pat, 0) {
        trim_start_pattern(s.skip(pat.len() as int), pat)
    } else {
        s
    }
}

/// `char::len_utf8`: the number of bytes of the UTF-8 encoding of `c`.
pub open spec fn utf8_width(c: char) -> nat {
    if (c as u32) < 0x80 {
        1
    } else if (c as u32) < 0x800 {
        2
    } else if (c as u32) < 0x10000 {
        3
    } else {
        4
    }
}

/// The number of bytes of the UTF-8 encoding of `s` (`str::len`).
pub open spec fn utf8_len(s: Seq<char>) -> nat
    decreases s.len(),
{
    if s.len() == 0 {
        0
    } else {
        utf8_len(s.drop_last()) + utf8_width(s.last())
    }
}

/// True when byte offset `b` of the UTF-8 encoding of `s` is a character
/// boundary: some prefix of `s` encodes to exactly `b` bytes.
pub open spec fn is_char_offset(s: Seq<char>, b: int) -> bool {
    exists|k: int| 0 <= k <= s.len() && utf8_len(#[trigger] s.take(k)) == b
}

/// `&s[..b]`: the characters whose encoding is the first `b` bytes of `s`,
/// where `b` is a character boundary.
pub open spec fn byte_prefix(s: Seq<char>, b: int) -> Seq<char>
    recommends
        is_char_offset(s, b),
{
    s.take(choose|k: int| 0 <= k <= s.len() && utf8_len(#[trigger] s.take(k)) == b)
}

/// `" ".repeat(n)`.
pub open spec fn spaces(n: nat) -> Seq<char> {
    Seq::new(n, |i: int| ' ')
}

/// The decimal digit character for `d < 10`.
pub open spec fn digit_char(d: nat) -> char {
    if d == 0 {
        '0'
    } else if d == 1 {
        '1'
    } else if d == 2 {
        '2'
    } else if d == 3 {
        '3'
    } else if d == 4 {
        '4'
    } else if d == 5 {
        '5'
    } else if d == 6 {
        '6'
    } else if d == 7 {
        '7'
    } else if d == 8 {
        '8'
    } else {
        '9'
    }
}

/// The decimal representation of `n`, as `n.to_string()` writes it.
pub open spec fn decimal(n: nat) -> Seq<char>
    decreases n,
{
    if n < 10 {
        seq![digit_char(n)]
    } else {
        decimal(n / 10).push(digit_char(n % 10))
    }
}

/// The texts held by a vector of character vectors.
pub open spec fn texts(v: Seq<Vec<char>>) -> Seq<Seq<char>> {
    Seq::new(v.len(), |i: int| v[i]@)
}

// ---------------------------------------------------------------------------
// Lemmas
// ---------------------------------------------------------------------------

/// Joining a part in front of a non-empty list of parts.
pub proof fn lemma_join_prepend(a: Seq<char>, rest: Seq<Seq<char>>, sep: Seq<char>)
    requires
        rest.len() > 0,
    ensures
        join(seq![a] + rest, sep) == a + sep + join(rest, sep),
    decreases rest.len(),
{
    let all = seq![a] + rest;
    if rest.len() == 1 {
        assert(all.drop_last() =~= seq![a]);
        assert(rest.drop_last().len() == 0);
        assert(a + sep + rest[0] =~= join(seq![a], sep) + sep + all.last());
    } else {
        lemma_join_prepend(a, rest.drop_last(), sep);
        assert(all.drop_last() =~= seq![a] + rest.drop_last());
        assert(join(all, sep) =~= (a + sep + join(rest.drop_last(), sep)) + sep + rest.last());
    }
}

/// Joining one more part at the end of a list.
pub proof fn lemma_join_push(parts: Seq<Seq<char>>, p: Seq<char>, sep: Seq<char>)
    ensures
        join(parts.push(p), sep) == if parts.len() == 0 { p } else { join(parts, sep) + sep + p },
{
    assert(parts.push(p).drop_last() =~= parts);
}

/// Scanning on from `i` covers exactly `s[start..]`.
proof fn lemma_join_split_scan(s: Seq<char>, sep: Seq<char>, start: int, i: int)
    requires
        sep.len() > 0,
        0 <= start <= i,
        start <= s.len(),
    ensures
        split_scan(s, sep, start, i).len() > 0,
        join(split_scan(s, sep, start, i), sep) =~= s.subrange(start, s.len() as int),
    decreases s.len() - i,
{
    if i + sep.len() > s.len() {
    } else if occurs_at(s, sep, i) {
        let next = i + sep.len();
        lemma_join_split_scan(s, sep, next, next);
        let rest = split_scan(s, sep, next, next);
        lemma_join_prepend(s.subrange(start, i), rest, sep);
        assert(s.subrange(start, s.len() as int) =~= s.subrange(start, i) + sep + s.subrange(
            next,
            s.len() as int,
        ));
    } else {
        lemma_join_split_scan(s, sep, start, i + 1);
    }
}

/// Splitting at a separator and joining with it gives back the text.
pub proof fn lemma_join_split(s: Seq<char>, sep: Seq<char>)
    requires
        sep.len() > 0,
    ensures
        join(split_by(s, sep), sep) == s,
        split_by(s, sep).len() > 0,
{
    lemma_join_split_scan(s, sep, 0, 0);
    assert(s.subrange(0, s.len() as int) =~= s);
}

/// The encoding length of a concatenation is the sum of the lengths.
pub proof fn lemma_utf8_len_concat(a: Seq<char>, b: Seq<char>)
    ensures
        utf8_len(a + b) == utf8_len(a) + utf8_len(b),
    decreases b.len(),
{
    if b.len() == 0 {
        assert(a + b =~= a);
    } else {
        lemma_utf8_len_concat(a, b.drop_last());
        assert((a + b).drop_last() =~= a + b.drop_last());
    }
}

/// Every character takes at least one byte.
pub proof fn lemma_utf8_len_at_least_len(s: Seq<char>)
    ensures
        utf8_len(s) >= s.len(),
    decreases s.len(),
{
    if s.len() > 0 {
        lemma_utf8_len_at_least_len(s.drop_last());
    }
}

/// Longer prefixes have strictly longer encodings.
pub proof fn lemma_utf8_len_take_strict(s: Seq<char>, k1: int, k2: int)
    requires
        0 <= k1 < k2 <= s.len(),
    ensures
        utf8_len(s.take(k1)) < utf8_len(s.take(k2)),
    decreases k2 - k1,
{
    assert(s.take(k2).drop_last() =~= s.take(k2 - 1));
    if k1 < k2 - 1 {
        lemma_utf8_len_take_strict(s, k1, k2 - 1);
    }
}

/// The prefix encoding to `b` bytes, when `k` characters encode to `b` bytes.
pub proof fn lemma_byte_prefix_at(s: Seq<char>, k: int, b: int)
    requires
        0 <= k <= s.len(),
        utf8_len(s.take(k)) == b,
    ensures
        is_char_offset(s, b),
        byte_prefix(s, b) == s.take(k),
{
    assert(is_char_offset(s, b));
    let c = choose|j: int| 0 <= j <= s.len() && utf8_len(#[trigger] s.take(j)) == b;
    if c < k {
        lemma_utf8_len_take_strict(s, c, k);
    } else if k < c {
        lemma_utf8_len_take_strict(s, k, c);
    }
}


/// `utf8_len` is the length of the UTF-8 encoding that `str` holds.
pub proof fn lemma_utf8_len_encoding(s: Seq<char>)
    ensures
        utf8_len(s) == vstd::utf8::encode_utf8(s).len(),
    decreases s.len(),
{
    if s.len() > 0 {
        lemma_utf8_len_encoding(s.drop_first());
        lemma_utf8_len_concat(seq![s[0]], s.drop_first());
        assert(seq![s[0]] + s.drop_first() =~= s);
        assert(seq![s[0]].drop_last() =~= Seq::<char>::empty());
        vstd::utf8::char_is_scalar(s[0]);
        let v = s[0] as u32;
        let one = seq![s[0]];
        assert(one.last() == s[0]);
        assert(one.drop_last() =~= Seq::<char>::empty());
        assert(utf8_len(one.drop_last()) == 0);
        assert(utf8_len(one) == utf8_width(s[0]));
        assert(vstd::utf8::encode_scalar(v).len() == utf8_width(s[0]));
        assert(vstd::utf8::encode_utf8(s) == vstd::utf8::encode_scalar(v) + vstd::utf8::encode_utf8(
            s.drop_first(),
        ));
    }
}

/// Joining two non-empty lists of parts.
pub proof fn lemma_join_concat(p: Seq<Seq<char>>, q: Seq<Seq<char>>, sep: Seq<char>)
    requires
        p.len() > 0,
        q.len() > 0,
    ensures
        join(p + q, sep) == join(p, sep) + sep + join(q, sep),
    decreases q.len(),
{
    if q.len() == 1 {
        assert((p + q).drop_last() =~= p);
    } else {
        lemma_join_concat(p, q.drop_last(), sep);
        assert((p + q).drop_last() =~= p + q.drop_last());
        assert(join(p + q, sep) =~= join(p, sep) + sep + join(q.drop_last(), sep) + sep + q.last());
    }
}

/// A window of consecutive parts encodes to no more bytes than the joined whole.
pub proof fn lemma_join_window_len(parts: Seq<Seq<char>>, a: int, b: int, sep: Seq<char>)
    requires
        0 <= a <= b <= parts.len(),
    ensures
        utf8_len(join(parts.subrange(a, b), sep)) <= utf8_len(join(parts, sep)),
{
    let w = parts.subrange(a, b);
    if a == b {
        assert(w.len() == 0);
    } else {
        let head = parts.take(a);
        let tail = parts.skip(b);
        let hw = if a > 0 {
            lemma_join_concat(head, w, sep);
            lemma_utf8_len_concat(join(head, sep) + sep, join(w, sep));
            head + w
        } else {
            assert(head + w =~= w);
            w
        };
        assert(utf8_len(join(w, sep)) <= utf8_len(join(hw, sep)));
        if b < parts.len() {
            lemma_join_concat(hw, tail, sep);
            lemma_utf8_len_concat(join(hw, sep), sep + join(tail, sep));
            assert(join(hw, sep) + sep + join(tail, sep) =~= join(hw, sep) + (sep + join(tail, sep)));
        }
        assert(hw + tail =~= parts);
    }
}


/// The scan for a separator skips the indices where it does not occur.
pub proof fn lemma_split_scan_skip(s: Seq<char>, sep: Seq<char>, start: int, i: int, p: int)
    requires
        sep.len() > 0,
        0 <= start <= i <= p,
        forall|k: int| i <= k < p ==> !#[trigger] occurs_at(s, sep, k),
    ensures
        split_scan(s, sep, start, i) == split_scan(s, sep, start, p),
    decreases p - i,
{
    if i < p {
        if i + sep.len() > s.len() {
            if p + sep.len() > s.len() {
            }
        } else {
            assert(!occurs_at(s, sep, i));
            lemma_split_scan_skip(s, sep, start, i + 1, p);
        }
    }
}

/// Text without the separator is one piece.
pub proof fn lemma_split_scan_none(s: Seq<char>, sep: Seq<char>, start: int, i: int)
    requires
        sep.len() > 0,
        0 <= start <= i,
        start <= s.len(),
        forall|k: int| i <= k ==> !#[trigger] occurs_at(s, sep, k),
    ensures
        split_scan(s, sep, start, i) == seq![s.subrange(start, s.len() as int)],
{
    if i < s.len() {
        lemma_split_scan_skip(s, sep, start, i, s.len() as int);
    }
}

/// Splitting `a c b` at `c`, where neither `a` nor `b` holds `c`.
pub proof fn lemma_split_two(a: Seq<char>, c: char, b: Seq<char>)
    requires
        !a.contains(c),
        !b.contains(c),
    ensures
        split_by(a + seq![c] + b, seq![c]) == seq![a, b],
{
    let s = a + seq![c] + b;
    let sep = seq![c];
    assert forall|k: int| 0 <= k < a.len() implies !#[trigger] occurs_at(s, sep, k) by {
        if occurs_at(s, sep, k) {
            assert(s.subrange(k, k + 1)[0] == s[k]);
            assert(a[k] == c);
        }
    }
    lemma_split_scan_skip(s, sep, 0, 0, a.len() as int);
    let al = a.len() as int;
    assert(s.subrange(al, al + 1) =~= sep);
    assert forall|k: int| a.len() + 1 <= k implies !#[trigger] occurs_at(s, sep, k) by {
        if occurs_at(s, sep, k) {
            assert(s.subrange(k, k + 1)[0] == s[k]);
            assert(b[k - a.len() - 1] == c);
        }
    }
    lemma_split_scan_none(s, sep, al + 1, al + 1);
    assert(s.subrange(0, a.len() as int) =~= a);
    assert(s.subrange(al + 1, s.len() as int) =~= b);
    assert(seq![a] + seq![b] =~= seq![a, b]);
}

/// The decimal representation of a number is made of digits only.
pub proof fn lemma_decimal_digits(n: nat)
    ensures
        decimal(n).len() > 0,
        forall|k: int| 0 <= k < decimal(n).len() ==> '0' <= #[trigger] decimal(n)[k] <= '9',
    decreases n,
{
    if n >= 10 {
        lemma_decimal_digits(n / 10);
    }
}


/// The first piece of a split at a character holds no such character.
pub proof fn lemma_split_first_piece(s: Seq<char>, c: char, i: int)
    requires
        0 <= i <= s.len(),
        forall|k: int| 0 <= k < i ==> s[k] != c,
    ensures
        !split_scan(s, seq![c], 0, i)[0].contains(c),
    decreases s.len() - i,
{
    let sep = seq![c];
    if i + 1 > s.len() {
        let p = s.subrange(0, s.len() as int);
        assert forall|k: int| 0 <= k < p.len() implies p[k] != c by {
            assert(p[k] == s[k]);
        }
    } else if occurs_at(s, sep, i) {
        assert(s.subrange(i, i + 1)[0] == s[i]);
        let p = s.subrange(0, i);
        assert forall|k: int| 0 <= k < p.len() implies p[k] != c by {
            assert(p[k] == s[k]);
        }
    } else {
        assert(s[i] != c) by {
            if s[i] == c {
                assert(s.subrange(i, i + 1) =~= sep);
            }
        }
        lemma_split_first_piece(s, c, i + 1);
    }
}

/// No piece of a split at a character holds that character.
pub proof fn lemma_split_pieces_free(s: Seq<char>, c: char, start: int, i: int)
    requires
        0 <= start <= i <= s.len(),
        forall|k: int| start <= k < i ==> s[k] != c,
    ensures
        forall|m: int|
            0 <= m < split_scan(s, seq![c], start, i).len() ==> !(#[trigger] split_scan(
                s,
                seq![c],
                start,
                i,
            )[m]).contains(c),
    decreases s.len() - i,
{
    let sep = seq![c];
    let r = split_scan(s, sep, start, i);
    if i + 1 > s.len() {
        let p = s.subrange(start, s.len() as int);
        assert forall|k: int| 0 <= k < p.len() implies p[k] != c by {
            assert(p[k] == s[start + k]);
        }
        assert(!p.contains(c));
        assert(r =~= seq![p]);
        assert(r[0] == p);
        assert(forall|m: int| 0 <= m < r.len() ==> !(#[trigger] r[m]).contains(c));
    } else if occurs_at(s, sep, i) {
        assert(s.subrange(i, i + 1)[0] == s[i]);
        let p = s.subrange(start, i);
        assert forall|k: int| 0 <= k < p.len() implies p[k] != c by {
            assert(p[k] == s[start + k]);
        }
        assert(!p.contains(c));
        lemma_split_pieces_free(s, c, i + 1, i + 1);
        let rest = split_scan(s, sep, i + 1, i + 1);
        assert(r =~= seq![p] + rest);
        assert forall|m: int| 0 <= m < r.len() implies !(#[trigger] r[m]).contains(c) by {
            if m > 0 {
                assert(r[m] == rest[m - 1]);
            } else {
                assert(r[0] == p);
            }
        }
    } else {
        assert(s[i] != c) by {
            if s[i] == c {
                assert(s.subrange(i, i + 1) =~= sep);
            }
        }
        lemma_split_pieces_free(s, c, start, i + 1);
        assert(r == split_scan(s, sep, start, i + 1));
        assert(forall|m: int| 0 <= m < r.len() ==> !(#[trigger] r[m]).contains(c));
    }
}

/// `trim_end_char(s, c)` is a prefix of `s`.
pub proof fn lemma_trim_end_char_prefix(s: Seq<char>, c: char)
    ensures
        trim_end_char(s, c).len() <= s.len(),
        trim_end_char(s, c) =~= s.take(trim_end_char(s, c).len() as int),
    decreases s.len(),
{
    if s.len() > 0 && s.last() == c {
        lemma_trim_end_char_prefix(s.drop_last(), c);
    }
}

/// The text `trim_end_char(trim(s), c)` is a piece of `s`: every character
/// of it is one of `s`.
pub proof fn lemma_trimmed_value_within(s: Seq<char>, c: char, x: char)
    requires
        !s.contains(x),
    ensures
        !trim_end_char(trim(s), c).contains(x),
{
    lemma_trim_start_suffix(s);
    lemma_trim_end_prefix(trim_start(s));
    lemma_trim_end_char_prefix(trim(s), c);
    let ts = trim_start(s);
    let t = trim(s);
    let v = trim_end_char(t, c);
    if v.contains(x) {
        let k = choose|k: int| 0 <= k < v.len() && v[k] == x;
        assert(v[k] == t[k]);
        assert(t[k] == ts[k]);
        assert(ts[k] == s[s.len() - ts.len() + k]);
    }
}

/// Leading spaces are whitespace that `trim_start` removes.
pub proof fn lemma_trim_start_spaces(n: nat, x: Seq<char>)
    ensures
        trim_start(spaces(n) + x) == trim_start(x),
    decreases n,
{
    if n > 0 {
        let s = spaces(n) + x;
        assert(s[0] == ' ');
        assert(s.drop_first() =~= spaces((n - 1) as nat) + x);
        lemma_trim_start_spaces((n - 1) as nat, x);
    } else {
        assert(spaces(n) + x =~= x);
    }
}

/// A space takes one byte.
pub proof fn lemma_utf8_len_spaces(n: nat)
    ensures
        utf8_len(spaces(n)) == n,
    decreases n,
{
    if n > 0 {
        assert(spaces(n).drop_last() =~= spaces((n - 1) as nat));
        lemma_utf8_len_spaces((n - 1) as nat);
    }
}

/// `trim_end(s)` is a prefix of `s`.
pub proof fn lemma_trim_end_prefix(s: Seq<char>)
    ensures
        trim_end(s).len() <= s.len(),
        trim_end(s) =~= s.take(trim_end(s).len() as int),
    decreases s.len(),
{
    if s.len() > 0 && is_whitespace(s.last()) {
        lemma_trim_end_prefix(s.drop_last());
    }
}

/// `trim_start(s)` is a suffix of `s`.
pub proof fn lemma_trim_start_suffix(s: Seq<char>)
    ensures
        trim_start(s).len() <= s.len(),
        trim_start(s) =~= s.skip(s.len() - trim_start(s).len()),
    decreases s.len(),
{
    if s.len() > 0 && is_whitespace(s[0]) {
        lemma_trim_start_suffix(s.drop_first());
    }
}

/// A trimmed text has no whitespace to trim at either end.
pub proof fn lemma_trimmed(s: Seq<char>)
    requires
        trim(s) == s,
    ensures
        trim_start(s) == s,
        trim_end(s) == s,
{
    lemma_trim_start_suffix(s);
    lemma_trim_end_prefix(trim_start(s));
    assert(trim_start(s) =~= s);
}

// ---------------------------------------------------------------------------
// Executable operations
// ---------------------------------------------------------------------------

/// The characters of `s`, in order.
pub fn chars_of(s: &str) -> (r: Vec<char>)
    ensures
        r@ == s@,
{
    let mut out: Vec<char> = Vec::new();
    for c in it: s.chars()
        invariant
            out@ == it.seq().take(it.index()),
            it.seq() == s@,
    {
        out.push(c);
    }
    out
}

/// A `String` holding exactly the characters of `v`.
pub fn string_of(v: &Vec<char>) -> (r: String)
    ensures
        r@ == v@,
{
    let mut out = String::new();
    let mut i: usize = 0;
    while i < v.len()
        invariant
            i <= v.len(),
            out@ == v@.take(i as int),
        decreases v.len() - i,
    {
        out.push(v[i]);
        i += 1;
        assert(out@ =~= v@.take(i as int));
    }
    assert(v@.take(i as int) =~= v@);
    out
}

/// Appends `src[from..to]` to `out`.
pub fn append_range(out: &mut Vec<char>, src: &Vec<char>, from: usize, to: usize)
    requires
        from <= to <= src.len(),
    ensures
        final(out)@ == old(out)@ + src@.subrange(from as int, to as int),
{
    let mut i = from;
    while i < to
        invariant
            from <= i <= to <= src.len(),
            out@ == old(out)@ + src@.subrange(from as int, i as int),
        decreases to - i,
    {
        out.push(src[i]);
        i += 1;
        assert(out@ =~= old(out)@ + src@.subrange(from as int, i as int));
    }
}

/// Appends all of `src` to `out`.
pub fn append_all(out: &mut Vec<char>, src: &Vec<char>)
    ensures
        final(out)@ == old(out)@ + src@,
{
    append_range(out, src, 0, src.len());
    assert(src@.subrange(0, src@.len() as int) =~= src@);
}

/// `src[from..to]` as a new vector.
pub fn copy_range(src: &Vec<char>, from: usize, to: usize) -> (r: Vec<char>)
    requires
        from <= to <= src.len(),
    ensures
        r@ == src@.subrange(from as int, to as int),
{
    let mut out: Vec<char> = Vec::new();
    append_range(&mut out, src, from, to);
    assert(out@ =~= src@.subrange(from as int, to as int));
    out
}

/// True when `sep` occurs in `s` at index `i`.
pub fn occurs_at_exec(s: &Vec<char>, sep: &Vec<char>, i: usize) -> (r: bool)
    ensures
        r == occurs_at(s@, sep@, i as int),
{
    if i > s.len() || sep.len() > s.len() - i {
        return false;
    }
    let mut k: usize = 0;
    while k < sep.len()
        invariant
            k <= sep.len(),
            i + sep.len() <= s.len(),
            forall|m: int| 0 <= m < k ==> s@[i + m] == sep@[m],
        decreases sep.len() - k,
    {
        if s[i + k] != sep[k] {
            assert(s@.subrange(i as int, i + sep.len())[k as int] != sep@[k as int]);
            return false;
        }
        k += 1;
    }
    assert(s@.subrange(i as int, i + sep.len()) =~= sep@);
    true
}

/// `s.split(sep)` for a non-empty separator.
pub fn split_by_exec(s: &Vec<char>, sep: &Vec<char>) -> (r: Vec<Vec<char>>)
    requires
        sep.len() > 0,
    ensures
        texts(r@) == split_by(s@, sep@),
{
    let mut pieces: Vec<Vec<char>> = Vec::new();
    let mut start: usize = 0;
    let mut i: usize = 0;
    while i < s.len() && sep.len() <= s.len() - i
        invariant
            0 <= start <= i <= s.len(),
            sep.len() > 0,
            texts(pieces@) + split_scan(s@, sep@, start as int, i as int) == split_by(s@, sep@),
        decreases s.len() - i,
    {
        if occurs_at_exec(s, sep, i) {
            let piece = copy_range(s, start, i);
            let ghost before = texts(pieces@);
            pieces.push(piece);
            assert(texts(pieces@) =~= before.push(piece@));
            let ghost rest = split_scan(s@, sep@, (i + sep.len()) as int, (i + sep.len()) as int);
            assert(before + split_scan(s@, sep@, start as int, i as int) =~= texts(pieces@)
                + rest);
            i = i + sep.len();
            start = i;
        } else {
            i = i + 1;
        }
    }
    let last = copy_range(s, start, s.len());
    let ghost before = texts(pieces@);
    pieces.push(last);
    assert(texts(pieces@) =~= before + split_scan(s@, sep@, start as int, i as int));
    pieces
}

/// `parts[from..to].join(sep)`.
pub fn join_range(parts: &Vec<Vec<char>>, from: usize, to: usize, sep: &Vec<char>) -> (r: Vec<char>)
    requires
        from <= to <= parts.len(),
    ensures
        r@ == join(texts(parts@).subrange(from as int, to as int), sep@),
{
    let mut out: Vec<char> = Vec::new();
    let mut k = from;
    while k < to
        invariant
            from <= k <= to <= parts.len(),
            out@ == join(texts(parts@).subrange(from as int, k as int), sep@),
        decreases to - k,
    {
        let ghost done = texts(parts@).subrange(from as int, k as int);
        if k > from {
            append_all(&mut out, sep);
        }
        append_all(&mut out, &parts[k]);
        proof {
            lemma_join_push(done, texts(parts@)[k as int], sep@);
            assert(texts(parts@).subrange(from as int, k + 1) =~= done.push(
                texts(parts@)[k as int],
            ));
        }
        k += 1;
    }
    out
}

/// `c.is_whitespace()`.
pub fn is_whitespace_exec(c: char) -> (r: bool)
    ensures
        r == is_whitespace(c),
{
    ('\u{9}' <= c && c <= '\u{d}') || c == ' ' || c == '\u{85}' || c == '\u{a0}' || c
        == '\u{1680}' || ('\u{2000}' <= c && c <= '\u{200a}') || c == '\u{2028}' || c
        == '\u{2029}' || c == '\u{202f}' || c == '\u{205f}' || c == '\u{3000}'
}

/// `s.trim_start()`.
pub fn trim_start_exec(s: &Vec<char>) -> (r: Vec<char>)
    ensures
        r@ == trim_start(s@),
{
    let mut k: usize = 0;
    assert(s@.skip(0) =~= s@);
    while k < s.len() && is_whitespace_exec(s[k])
        invariant
            k <= s.len(),
            trim_start(s@) == trim_start(s@.skip(k as int)),
        decreases s.len() - k,
    {
        assert(s@.skip(k as int).drop_first() =~= s@.skip(k + 1));
        k += 1;
    }
    copy_range(s, k, s.len())
}

/// `s.trim_end()`.
pub fn trim_end_exec(s: &Vec<char>) -> (r: Vec<char>)
    ensures
        r@ == trim_end(s@),
{
    let mut k: usize = s.len();
    assert(s@.take(k as int) =~= s@);
    while k > 0 && is_whitespace_exec(s[k - 1])
        invariant
            k <= s.len(),
            trim_end(s@) == trim_end(s@.take(k as int)),
        decreases k,
    {
        assert(s@.take(k as int).drop_last() =~= s@.take(k - 1));
        k -= 1;
    }
    copy_range(s, 0, k)
}

/// `s.trim()`.
pub fn trim_exec(s: &Vec<char>) -> (r: Vec<char>)
    ensures
        r@ == trim(s@),
{
    let t = trim_start_exec(s);
    trim_end_exec(&t)
}

/// `s.trim_end_matches(c)`.
pub fn trim_end_char_exec(s: &Vec<char>, c: char) -> (r: Vec<char>)
    ensures
        r@ == trim_end_char(s@, c),
{
    let mut k: usize = s.len();
    assert(s@.take(k as int) =~= s@);
    while k > 0 && s[k - 1] == c
        invariant
            k <= s.len(),
            trim_end_char(s@, c) == trim_end_char(s@.take(k as int), c),
        decreases k,
    {
        assert(s@.take(k as int).drop_last() =~= s@.take(k - 1));
        k -= 1;
    }
    copy_range(s, 0, k)
}

/// `s.trim_start_matches(pat)` for a non-empty pattern.
pub fn trim_start_pattern_exec(s: &Vec<char>, pat: &Vec<char>) -> (r: Vec<char>)
    requires
        pat.len() > 0,
    ensures
        r@ == trim_start_pattern(s@, pat@),
{
    let mut k: usize = 0;
    assert(s@.skip(0) =~= s@);
    while k <= s.len() && pat.len() <= s.len() - k && occurs_at_exec(s, pat, k)
        invariant
            k <= s.len(),
            pat.len() > 0,
            trim_start_pattern(s@, pat@) == trim_start_pattern(s@.skip(k as int), pat@),
        decreases s.len() - k,
    {
        assert(s@.skip(k as int).subrange(0, pat@.len() as int) =~= s@.subrange(
            k as int,
            k + pat@.len(),
        ));
        assert(s@.skip(k as int).skip(pat@.len() as int) =~= s@.skip(k + pat@.len()));
        k += pat.len();
    }
    assert(!occurs_at(s@.skip(k as int), pat@, 0)) by {
        if occurs_at(s@.skip(k as int), pat@, 0) {
            assert(s@.skip(k as int).subrange(0, pat@.len() as int) =~= s@.subrange(
                k as int,
                k + pat@.len(),
            ));
        }
    }
    copy_range(s, k, s.len())
}

/// `c.len_utf8()`.
pub fn utf8_width_exec(c: char) -> (r: usize)
    ensures
        r == utf8_width(c),
{
    let v = c as u32;
    if v < 0x80 {
        1
    } else if v < 0x800 {
        2
    } else if v < 0x10000 {
        3
    } else {
        4
    }
}

/// The number of characters of `s` whose encoding is exactly the first `b`
/// bytes of the encoding of `s`, if `b` is a character boundary.
pub fn byte_offset_chars(s: &Vec<char>, b: usize) -> (r: Option<usize>)
    ensures
        r is Some <==> is_char_offset(s@, b as int),
        r matches Some(k) ==> k <= s.len() && byte_prefix(s@, b as int) == s@.take(k as int),
{
    let mut k: usize = 0;
    let mut acc: usize = 0;
    while acc < b && k < s.len()
        invariant
            k <= s.len(),
            acc <= b,
            acc == utf8_len(s@.take(k as int)),
        decreases s.len() - k,
    {
        let w = utf8_width_exec(s[k]);
        assert(s@.take(k + 1).drop_last() =~= s@.take(k as int));
        if w > b - acc {
            proof {
                assert forall|j: int| 0 <= j <= s.len() implies utf8_len(#[trigger] s@.take(j))
                    != b by {
                    if j <= k {
                        if j < k {
                            lemma_utf8_len_take_strict(s@, j, k as int);
                        }
                    } else {
                        if j > k + 1 {
                            lemma_utf8_len_take_strict(s@, k + 1, j);
                        }
                    }
                }
            }
            return None;
        }
        acc = acc + w;
        k = k + 1;
    }
    if acc == b {
        proof {
            lemma_byte_prefix_at(s@, k as int, b as int);
        }
        Some(k)
    } else {
        proof {
            assert(k == s.len());
            assert forall|j: int| 0 <= j <= s.len() implies utf8_len(#[trigger] s@.take(j))
                != b by {
                if j < k {
                    lemma_utf8_len_take_strict(s@, j, k as int);
                }
            }
        }
        None
    }
}

/// The number of bytes in the encoding of `s`.
pub fn utf8_len_exec(s: &Vec<char>) -> (r: usize)
    requires
        utf8_len(s@) <= usize::MAX,
    ensures
        r == utf8_len(s@),
{
    let mut k: usize = 0;
    let mut acc: usize = 0;
    while k < s.len()
        invariant
            k <= s.len(),
            acc == utf8_len(s@.take(k as int)),
            utf8_len(s@) <= usize::MAX,
        decreases s.len() - k,
    {
        assert(s@.take(k + 1).drop_last() =~= s@.take(k as int));
        proof {
            if k + 1 < s.len() {
                lemma_utf8_len_take_strict(s@, k + 1, s@.len() as int);
            }
            assert(s@.take(s@.len() as int) =~= s@);
        }
        acc = acc + utf8_width_exec(s[k]);
        k = k + 1;
    }
    assert(s@.take(k as int) =~= s@);
    acc
}

/// Appends `n` spaces to `out`.
pub fn push_spaces(out: &mut Vec<char>, n: usize)
    ensures
        final(out)@ == old(out)@ + spaces(n as nat),
{
    let mut i: usize = 0;
    while i < n
        invariant
            i <= n,
            out@ == old(out)@ + spaces(i as nat),
        decreases n - i,
    {
        out.push(' ');
        i += 1;
        assert(out@ =~= old(out)@ + spaces(i as nat));
    }
}

/// The decimal digit character for `d < 10`.
pub fn digit_char_exec(d: usize) -> (r: char)
    requires
        d < 10,
    ensures
        r == digit_char(d as nat),
{
    if d == 0 {
        '0'
    } else if d == 1 {
        '1'
    } else if d == 2 {
        '2'
    } else if d == 3 {
        '3'
    } else if d == 4 {
        '4'
    } else if d == 5 {
        '5'
    } else if d == 6 {
        '6'
    } else if d == 7 {
        '7'
    } else if d == 8 {
        '8'
    } else {
        '9'
    }
}

/// Appends the decimal representation of `n` to `out`.
pub fn push_decimal(out: &mut Vec<char>, n: usize)
    ensures
        final(out)@ == old(out)@ + decimal(n as nat),
    decreases n,
{
    if n < 10 {
        out.push(digit_char_exec(n));
        assert(out@ =~= old(out)@ + decimal(n as nat));
    } else {
        push_decimal(out, n / 10);
        out.push(digit_char_exec(n % 10));
        assert(out@ =~= old(out)@ + decimal(n as nat));
    }
}

/// True when `a` and `b` hold the same characters.
pub fn same_text(a: &Vec<char>, b: &Vec<char>) -> (r: bool)
    ensures
        r == (a@ == b@),
{
    if a.len() != b.len() {
        return false;
    }
    let mut k: usize = 0;
    while k < a.len()
        invariant
            k <= a.len() == b.len(),
            forall|m: int| 0 <= m < k ==> a@[m] == b@[m],
        decreases a.len() - k,
    {
        if a[k] != b[k] {
            return false;
        }
        k += 1;
    }
    assert(a@ =~= b@);
    true
}

/// The CRLF line separator.
pub fn crlf_exec() -> (r: Vec<char>)
    ensures
        r@ == crlf(),
{
    let r = vec!['\r', '\n'];
    assert(r@ =~= crlf());
    r
}

} // verus!
