use vstd::prelude::*;
use vstd::string::*;

use crate::graphs::directed::{DirectedEdge, DirectedGraph};
use crate::text::{chars_of, string_of};
use crate::graphs::graph::{ids_after_insert, ids_of, Graph, Node};
use crate::graphs::undirected::{UndirectedEdge, UndirectedGraph};

verus! {

/// Position of the first line feed at or after `i`, or the length of `t` if there is none.
pub open spec fn newline_at_or_after(t: Seq<char>, i: int) -> int
    decreases t.len() - i,
{
    if i < 0 || i >= t.len() || t[i] == '\n' {
        i
    } else {
        newline_at_or_after(t, i + 1)
    }
}

proof fn lemma_newline_after_start(t: Seq<char>, i: int)
    requires
        0 <= i,
    ensures
        i <= newline_at_or_after(t, i),
    decreases t.len() - i,
{
    if i < t.len() && t[i] != '\n' {
        lemma_newline_after_start(t, i + 1);
    }
}

/// A line without the carriage return that ended it, if it had one.
pub open spec fn strip_cr(s: Seq<char>) -> Seq<char> {
    if s.len() > 0 && s.last() == '\r' {
        s.drop_last()
    } else {
        s
    }
}

/// The lines of `t` from position `start` on: split at each line feed, a line that a line feed
/// ends loses one carriage return before it, and a line feed at the very end opens no line.
pub open spec fn lines_from(t: Seq<char>, start: int) -> Seq<Seq<char>>
    decreases t.len() - start,
    via lines_from_decreases
{
    if start < 0 || start >= t.len() {
        Seq::empty()
    } else {
        let k = newline_at_or_after(t, start);
        if k >= t.len() {
            seq![t.subrange(start, t.len() as int)]
        } else {
            seq![strip_cr(t.subrange(start, k))] + lines_from(t, k + 1)
        }
    }
}

#[via_fn]
proof fn lines_from_decreases(t: Seq<char>, start: int) {
    if 0 <= start {
        lemma_newline_after_start(t, start);
    }
}

/// The lines of a text.
pub open spec fn text_lines(t: Seq<char>) -> Seq<Seq<char>> {
    lines_from(t, 0)
}

/// The characters of each line.
pub open spec fn lines_view(lines: Seq<Vec<char>>) -> Seq<Seq<char>> {
    lines.map_values(|l: Vec<char>| l@)
}

/// The characters of `cs` from `from` to `to`.
fn copy_range(cs: &Vec<char>, from: usize, to: usize) -> (r: Vec<char>)
    requires
        from <= to <= cs@.len(),
    ensures
        r@ == cs@.subrange(from as int, to as int),
{
    let mut r: Vec<char> = Vec::new();
    let mut i = from;
    while i < to
        invariant
            from <= i <= to <= cs@.len(),
            r@ == cs@.subrange(from as int, i as int),
        decreases to - i,
    {
        r.push(cs[i]);
        i += 1;
        assert(r@ =~= cs@.subrange(from as int, i as int));
    }
    r
}

/// Splits a text into its lines.
fn split_lines(t: &Vec<char>) -> (r: Vec<Vec<char>>)
    ensures
        lines_view(r@) == text_lines(t@),
{
    let n = t.len();
    let mut out: Vec<Vec<char>> = Vec::new();
    let mut start: usize = 0;
    while start < n
        invariant
            n == t@.len(),
            start <= n,
            lines_view(out@) + lines_from(t@, start as int) == text_lines(t@),
        decreases n - start,
    {
        let ghost s0 = start as int;
        let mut k = start;
        while k < n && t[k] != '\n'
            invariant
                start <= k <= n,
                n == t@.len(),
                newline_at_or_after(t@, start as int) == newline_at_or_after(t@, k as int),
            decreases n - k,
        {
            k += 1;
        }
        let ghost before = out@;
        if k >= n {
            out.push(copy_range(t, start, n));
            start = n;
        } else {
            let end = if k > start && t[k - 1] == '\r' {
                k - 1
            } else {
                k
            };
            let line = copy_range(t, start, end);
            assert(line@ == strip_cr(t@.subrange(start as int, k as int))) by {
                if k > start && t@[k - 1] == '\r' {
                    assert(t@.subrange(start as int, k as int).drop_last() =~= line@);
                }
            }
            out.push(line);
            start = k + 1;
        }
        assert(lines_view(out@) =~= lines_view(before).push(out@.last()@));
        assert(lines_from(t@, s0) =~= seq![out@.last()@] + lines_from(t@, start as int));
        assert(lines_view(out@) + lines_from(t@, start as int) =~= lines_view(before) + lines_from(t@, s0));
    }
    assert(lines_view(out@) + lines_from(t@, start as int) =~= lines_view(out@));
    out
}

/// A character allowed in a node name: an ASCII letter or digit.
pub open spec fn is_name_char(c: char) -> bool {
    ('a' <= c && c <= 'z') || ('A' <= c && c <= 'Z') || ('0' <= c && c <= '9')
}

/// An ASCII digit.
pub open spec fn is_digit_char(c: char) -> bool {
    '0' <= c && c <= '9'
}

/// A non-empty run of ASCII digits.
pub open spec fn is_number(s: Seq<char>) -> bool {
    s.len() > 0 && forall|k: int| 0 <= k < s.len() ==> is_digit_char(#[trigger] s[k])
}

/// The value of a run of decimal digits.
pub open spec fn number_value(s: Seq<char>) -> nat
    decreases s.len(),
{
    if s.len() == 0 {
        0
    } else {
        number_value(s.drop_last()) * 10 + (s.last() as int - '0' as int) as nat
    }
}

/// End of the run of name characters of `l` that starts at `from`.
pub open spec fn name_run_end(l: Seq<char>, from: int) -> int
    decreases l.len() - from,
{
    if from < 0 || from >= l.len() || !is_name_char(l[from]) {
        from
    } else {
        name_run_end(l, from + 1)
    }
}

/// What stands between the two nodes of an edge line: "->" in a directed graph, "-" in an
/// undirected one.
pub open spec fn separator(directed: bool) -> Seq<char> {
    if directed {
        seq!['-', '>']
    } else {
        seq!['-']
    }
}

/// Whether all of `l` is an edge pattern `<name><separator><name>:<digits>`, where a name is a
/// non-empty run of ASCII letters and digits; if so, its three fields.
pub open spec fn split_edge_line(l: Seq<char>, directed: bool) -> Option<(Seq<char>, Seq<char>, Seq<char>)> {
    let sep = separator(directed);
    let i = name_run_end(l, 0);
    let k = i + sep.len();
    let j = name_run_end(l, k);
    if 0 < i && k < j && j < l.len() && l.subrange(i, k) == sep && l[j] == ':' && is_number(
        l.subrange(j + 1, l.len() as int),
    ) {
        Some((l.subrange(0, i), l.subrange(k, j), l.subrange(j + 1, l.len() as int)))
    } else {
        None
    }
}

/// Whether all of `l` is an edge pattern of a directed or of an undirected graph.
pub open spec fn is_edge_line(l: Seq<char>) -> bool {
    split_edge_line(l, true) is Some || split_edge_line(l, false) is Some
}

/// Whether some stretch of `l` is an edge pattern; text around it is allowed.
pub open spec fn contains_edge_pattern(l: Seq<char>) -> bool {
    exists|s: int, e: int| 0 <= s <= e <= l.len() && is_edge_line(l.subrange(s, e))
}

/// Position of the first occurrence of `pat` in `l` at or after `i`.
pub open spec fn find_from(l: Seq<char>, pat: Seq<char>, i: int) -> Option<int>
    decreases l.len() + 1 - i,
{
    if i < 0 || i + pat.len() > l.len() {
        None
    } else if l.subrange(i, i + pat.len()) == pat {
        Some(i)
    } else {
        find_from(l, pat, i + 1)
    }
}

/// What comes before the first `pat` in `l`, or all of `l`: the first part of a split at `pat`.
pub open spec fn first_part(l: Seq<char>, pat: Seq<char>) -> Seq<char> {
    match find_from(l, pat, 0) {
        Some(p) => l.subrange(0, p),
        None => l,
    }
}

/// The second part of a split of `l` at `pat`: what lies between the first and the second `pat`,
/// or after the first one; none if `pat` does not occur.
pub open spec fn second_part(l: Seq<char>, pat: Seq<char>) -> Option<Seq<char>> {
    match find_from(l, pat, 0) {
        Some(p) => Some(first_part(l.subrange(p + pat.len(), l.len() as int), pat)),
        None => None,
    }
}

proof fn lemma_find_from_first(l: Seq<char>, pat: Seq<char>, i: int)
    ensures
        find_from(l, pat, i) matches Some(p) ==> 0 <= i <= p && p + pat.len() <= l.len()
            && l.subrange(p, p + pat.len()) == pat,
    decreases l.len() + 1 - i,
{
    if 0 <= i && i + pat.len() <= l.len() && l.subrange(i, i + pat.len()) != pat {
        lemma_find_from_first(l, pat, i + 1);
    }
}

proof fn lemma_find_from_found(l: Seq<char>, pat: Seq<char>, i: int, p: int)
    requires
        0 <= i <= p,
        p + pat.len() <= l.len(),
        l.subrange(p, p + pat.len()) == pat,
    ensures
        find_from(l, pat, i) is Some,
    decreases p - i,
{
    if i < p && l.subrange(i, i + pat.len()) != pat {
        lemma_find_from_found(l, pat, i + 1, p);
    }
}

/// Whether a line holds "->", the mark of a directed edge.
pub open spec fn contains_arrow(l: Seq<char>) -> bool {
    find_from(l, seq!['-', '>'], 0) is Some
}

/// Whether a line holds "-".
pub open spec fn contains_dash(l: Seq<char>) -> bool {
    find_from(l, seq!['-'], 0) is Some
}

/// The fields of a line split at its first separator and the rest at its first colon: the first
/// node, the second node and the weight text; none if a split finds no second part.
pub open spec fn edge_fields(l: Seq<char>, directed: bool) -> Option<(Seq<char>, Seq<char>, Seq<char>)> {
    let sep = separator(directed);
    match second_part(l, sep) {
        None => None,
        Some(seg) => match second_part(seg, seq![':']) {
            None => None,
            Some(w) => Some((first_part(l, sep), first_part(seg, seq![':']), w)),
        },
    }
}

/// A `u16` written in decimal, with an optional leading '+'.
pub open spec fn parse_u16(s: Seq<char>) -> Option<u16> {
    let d = if s.len() > 0 && s[0] == '+' {
        s.drop_first()
    } else {
        s
    };
    if is_number(d) && number_value(d) <= u16::MAX {
        Some(number_value(d) as u16)
    } else {
        None
    }
}

/// The two node ids and the weight that a line of the given kind gives.
pub open spec fn line_edge(l: Seq<char>, directed: bool) -> Option<(Seq<char>, Seq<char>, u16)> {
    match edge_fields(l, directed) {
        Some((a, b, w)) => match parse_u16(w) {
            Some(v) => Some((a, b, v)),
            None => None,
        },
        None => None,
    }
}

/// An edge pattern starts at `s`: a name, the separator, a name, a colon and a digit.
spec fn pattern_at(l: Seq<char>, s: int, directed: bool) -> bool {
    let sep = separator(directed);
    let i = name_run_end(l, s);
    let k = i + sep.len();
    let j = name_run_end(l, k);
    s < i && k < j && j + 1 < l.len() && l.subrange(i, k) == sep && l[j] == ':' && is_digit_char(
        l[j + 1],
    )
}

proof fn lemma_name_run_bounds(l: Seq<char>, p: int)
    requires
        0 <= p,
    ensures
        p <= name_run_end(l, p),
        p <= l.len() ==> name_run_end(l, p) <= l.len(),
    decreases l.len() - p,
{
    if p < l.len() && is_name_char(l[p]) {
        lemma_name_run_bounds(l, p + 1);
    }
}

/// A run of name characters read inside `l[s..e]` ends where it ends in `l`, or at `e`.
proof fn lemma_name_run_in_stretch(l: Seq<char>, s: int, p: int, e: int)
    requires
        0 <= s <= p <= e <= l.len(),
    ensures
        name_run_end(l.subrange(s, e), p - s) == if name_run_end(l, p) < e {
            name_run_end(l, p) - s
        } else {
            e - s
        },
    decreases e - p,
{
    lemma_name_run_bounds(l, p);
    if p < e {
        assert(l.subrange(s, e)[p - s] == l[p]);
        if is_name_char(l[p]) {
            lemma_name_run_in_stretch(l, s, p + 1, e);
        }
    }
}

proof fn lemma_pattern_at_gives_edge_line(l: Seq<char>, s: int, directed: bool)
    requires
        0 <= s,
        pattern_at(l, s, directed),
    ensures
        ({
            let j = name_run_end(l, name_run_end(l, s) + separator(directed).len());
            &&& j + 2 <= l.len()
            &&& split_edge_line(l.subrange(s, j + 2), directed) is Some
        }),
{
    let sep = separator(directed);
    let i = name_run_end(l, s);
    let k = i + sep.len();
    let j = name_run_end(l, k);
    let e = j + 2;
    let sub = l.subrange(s, e);
    lemma_name_run_bounds(l, s);
    lemma_name_run_in_stretch(l, s, s, e);
    lemma_name_run_in_stretch(l, s, k, e);
    assert(name_run_end(sub, 0) == i - s);
    assert(name_run_end(sub, k - s) == j - s);
    assert(sub.subrange(i - s, k - s) =~= l.subrange(i, k));
    assert(sub[j - s] == l[j]);
    let rest = sub.subrange(j - s + 1, sub.len() as int);
    assert(rest.len() == 1 && rest[0] == l[j + 1]);
}

proof fn lemma_edge_line_gives_pattern_at(l: Seq<char>, s: int, e: int, directed: bool)
    requires
        0 <= s <= e <= l.len(),
        split_edge_line(l.subrange(s, e), directed) is Some,
    ensures
        pattern_at(l, s, directed),
{
    let sep = separator(directed);
    let sub = l.subrange(s, e);
    let i = name_run_end(l, s);
    lemma_name_run_bounds(l, s);
    lemma_name_run_in_stretch(l, s, s, e);
    assert(i < e);
    let k = i + sep.len();
    lemma_name_run_in_stretch(l, s, k, e);
    let j = name_run_end(l, k);
    assert(j < e);
    assert(sub.subrange(i - s, k - s) =~= l.subrange(i, k));
    assert(sub[j - s] == l[j]);
    let rest = sub.subrange(j - s + 1, sub.len() as int);
    assert(rest[0] == l[j + 1]);
}

proof fn lemma_number_grows(s: Seq<char>, k: int, m: int)
    requires
        0 <= k <= m <= s.len(),
    ensures
        number_value(s.subrange(0, k)) <= number_value(s.subrange(0, m)),
    decreases m - k,
{
    if k < m {
        lemma_number_grows(s, k, m - 1);
        assert(s.subrange(0, m).drop_last() =~= s.subrange(0, m - 1));
    }
}

/// Whether `c` may stand in a node name.
fn name_char(c: char) -> (r: bool)
    ensures
        r == is_name_char(c),
{
    ('a' <= c && c <= 'z') || ('A' <= c && c <= 'Z') || ('0' <= c && c <= '9')
}

/// End of the run of name characters that starts at `from`.
fn name_end(cs: &Vec<char>, from: usize) -> (r: usize)
    requires
        from <= cs@.len(),
    ensures
        r as int == name_run_end(cs@, from as int),
        from <= r <= cs@.len(),
{
    let mut i = from;
    while i < cs.len() && name_char(cs[i])
        invariant
            from <= i <= cs@.len(),
            name_run_end(cs@, from as int) == name_run_end(cs@, i as int),
        decreases cs@.len() - i,
    {
        i += 1;
    }
    i
}

/// The value of the digits from `from` to the end, if it fits in a `u16`.
fn parse_weight(cs: &Vec<char>, from: usize) -> (r: Option<u16>)
    requires
        from <= cs@.len(),
        is_number(cs@.subrange(from as int, cs@.len() as int)),
    ensures
        ({
            let v = number_value(cs@.subrange(from as int, cs@.len() as int));
            &&& r is Some <==> v <= u16::MAX
            &&& r matches Some(w) ==> w == v
        }),
{
    let ghost digits = cs@.subrange(from as int, cs@.len() as int);
    let mut value: u32 = 0;
    let mut i = from;
    while i < cs.len()
        invariant
            from <= i <= cs@.len(),
            digits == cs@.subrange(from as int, cs@.len() as int),
            is_number(digits),
            value == number_value(cs@.subrange(from as int, i as int)),
            value <= u16::MAX,
        decreases cs@.len() - i,
    {
        assert(is_digit_char(digits[i - from]));
        assert(cs@.subrange(from as int, i + 1).drop_last() =~= cs@.subrange(from as int, i as int));
        let d = (cs[i] as u32) - ('0' as u32);
        value = value * 10 + d;
        i += 1;
        if value > 65535 {
            proof {
                assert(digits.subrange(0, i - from) =~= cs@.subrange(from as int, i as int));
                assert(digits.subrange(0, digits.len() as int) =~= digits);
                lemma_number_grows(digits, i - from, digits.len() as int);
            }
            return None;
        }
    }
    assert(cs@.subrange(from as int, i as int) =~= digits);
    Some(value as u16)
}

/// Whether `c` is an ASCII digit.
fn digit_char(c: char) -> (r: bool)
    ensures
        r == is_digit_char(c),
{
    '0' <= c && c <= '9'
}

/// Whether an edge pattern of the given kind starts at `s`.
fn pattern_starts_at(cs: &Vec<char>, s: usize, directed: bool) -> (r: bool)
    requires
        s <= cs@.len(),
    ensures
        r == pattern_at(cs@, s as int, directed),
{
    let ghost l = cs@;
    let n = cs.len();
    let i = name_end(cs, s);
    if i == s {
        return false;
    }
    let k: usize;
    if directed {
        if i < n && i + 1 < n && cs[i] == '-' && cs[i + 1] == '>' {
            k = i + 2;
            assert(l.subrange(i as int, k as int) =~= separator(directed));
        } else {
            proof {
                if i + 1 < n {
                    assert(l.subrange(i as int, i + 2)[0] == l[i as int]);
                    assert(l.subrange(i as int, i + 2)[1] == l[i + 1]);
                } else {
                    lemma_name_run_bounds(l, i + 2);
                }
            }
            return false;
        }
    } else {
        if i < n && cs[i] == '-' {
            k = i + 1;
            assert(l.subrange(i as int, k as int) =~= separator(directed));
        } else {
            proof {
                if i < n {
                    assert(l.subrange(i as int, i + 1)[0] == l[i as int]);
                } else {
                    lemma_name_run_bounds(l, i + 1);
                }
            }
            return false;
        }
    }
    let j = name_end(cs, k);
    k < j && j < n && j + 1 < n && cs[j] == ':' && digit_char(cs[j + 1])
}

/// Whether a line holds an edge pattern of a directed or of an undirected graph somewhere.
fn validate_line_syntax(line: &str) -> (r: bool)
    ensures
        r == contains_edge_pattern(line@),
{
    let cs = chars_of(line);
    let ghost l = cs@;
    let n = cs.len();
    let mut s: usize = 0;
    while s < n
        invariant
            l == cs@,
            l == line@,
            n == l.len(),
            s <= n,
            forall|t: int| 0 <= t < s ==> !pattern_at(l, t, true) && !pattern_at(l, t, false),
        decreases n - s,
    {
        let directed_here = pattern_starts_at(&cs, s, true);
        let undirected_here = pattern_starts_at(&cs, s, false);
        if directed_here || undirected_here {
            proof {
                let d = if directed_here {
                    true
                } else {
                    false
                };
                assert(pattern_at(l, s as int, d));
                lemma_pattern_at_gives_edge_line(l, s as int, d);
                let i = name_run_end(l, s as int);
                let j = name_run_end(l, i + separator(d).len());
                lemma_name_run_bounds(l, s as int);
                lemma_name_run_bounds(l, i + separator(d).len());
                assert(is_edge_line(l.subrange(s as int, j + 2)));
                assert(0 <= s <= j + 2 <= l.len());
                assert(contains_edge_pattern(l));
            }
            return true;
        }
        s += 1;
    }
    proof {
        if contains_edge_pattern(l) {
            let (t, e) = choose|t: int, e: int|
                0 <= t <= e <= l.len() && is_edge_line(l.subrange(t, e));
            if split_edge_line(l.subrange(t, e), true) is Some {
                lemma_edge_line_gives_pattern_at(l, t, e, true);
            } else {
                lemma_edge_line_gives_pattern_at(l, t, e, false);
            }
            lemma_name_run_bounds(l, t);
        }
    }
    false
}

/// Whether `cs[i..]` starts with `pat`.
fn matches_at(cs: &Vec<char>, pat: &Vec<char>, i: usize) -> (r: bool)
    requires
        i + pat@.len() <= cs@.len(),
    ensures
        r == (cs@.subrange(i as int, i + pat@.len()) == pat@),
{
    let n = cs.len();
    let mut m: usize = 0;
    while m < pat.len()
        invariant
            n == cs@.len(),
            m <= pat@.len(),
            i + pat@.len() <= cs@.len(),
            forall|q: int| 0 <= q < m ==> cs@[i + q] == pat@[q],
        decreases pat@.len() - m,
    {
        if cs[i + m] != pat[m] {
            assert(cs@.subrange(i as int, i + pat@.len())[m as int] != pat@[m as int]);
            return false;
        }
        m += 1;
    }
    assert(cs@.subrange(i as int, i + pat@.len()) =~= pat@);
    true
}

/// Position of the first `pat` in `cs` at or after `from`.
fn find_in(cs: &Vec<char>, pat: &Vec<char>, from: usize) -> (r: Option<usize>)
    requires
        pat@.len() > 0,
    ensures
        match find_from(cs@, pat@, from as int) {
            Some(p) => r == Some(p as usize),
            None => r is None,
        },
{
    let n = cs.len();
    let mut i = from;
    while i <= n && pat.len() <= n - i
        invariant
            n == cs@.len(),
            pat@.len() > 0,
            from <= i,
            find_from(cs@, pat@, from as int) == find_from(cs@, pat@, i as int),
        decreases n + 1 - i,
    {
        if matches_at(cs, pat, i) {
            return Some(i);
        }
        i += 1;
    }
    None
}

/// A split of `cs` at `pat`: the first part, and the second part if `pat` occurs.
fn split_at_first(cs: &Vec<char>, pat: &Vec<char>) -> (r: (Vec<char>, Option<Vec<char>>))
    requires
        pat@.len() > 0,
    ensures
        r.0@ == first_part(cs@, pat@),
        r.1 is Some == second_part(cs@, pat@) is Some,
        r.1 matches Some(v) ==> v@ == second_part(cs@, pat@)->Some_0,
{
    let n = cs.len();
    match find_in(cs, pat, 0) {
        None => (copy_range(cs, 0, n), None),
        Some(p) => {
            proof {
                lemma_find_from_first(cs@, pat@, 0);
            }
            let first = copy_range(cs, 0, p);
            let rest = copy_range(cs, p + pat.len(), n);
            let second = match find_in(&rest, pat, 0) {
                None => rest,
                Some(q) => {
                    proof {
                        lemma_find_from_first(rest@, pat@, 0);
                    }
                    copy_range(&rest, 0, q)
                },
            };
            (first, Some(second))
        },
    }
}

/// The value of a decimal `u16` with an optional leading '+'.
fn parse_u16_text(cs: &Vec<char>) -> (r: Option<u16>)
    ensures
        r == parse_u16(cs@),
{
    let n = cs.len();
    let start: usize = if n > 0 && cs[0] == '+' {
        1
    } else {
        0
    };
    let ghost d = cs@.subrange(start as int, n as int);
    assert(d =~= if cs@.len() > 0 && cs@[0] == '+' {
        cs@.drop_first()
    } else {
        cs@
    });
    if start == n {
        return None;
    }
    let mut m = start;
    while m < n
        invariant
            start <= m <= n,
            n == cs@.len(),
            d == cs@.subrange(start as int, n as int),
            d == if cs@.len() > 0 && cs@[0] == '+' {
                cs@.drop_first()
            } else {
                cs@
            },
            forall|q: int| start <= q < m ==> is_digit_char(#[trigger] cs@[q]),
        decreases n - m,
    {
        if !digit_char(cs[m]) {
            assert(!is_digit_char(d[m - start]));
            return None;
        }
        m += 1;
    }
    assert forall|q: int| 0 <= q < d.len() implies is_digit_char(#[trigger] d[q]) by {
        assert(d[q] == cs@[q + start]);
    }
    parse_weight(cs, start)
}

/// Whether a line holds "->".
fn has_arrow(line: &str) -> (r: bool)
    ensures
        r == contains_arrow(line@),
{
    let arrow = vec!['-', '>'];
    assert(arrow@ =~= seq!['-', '>']);
    find_in(&chars_of(line), &arrow, 0).is_some()
}

/// Whether a line holds "-".
fn has_dash(line: &str) -> (r: bool)
    ensures
        r == contains_dash(line@),
{
    let dash = vec!['-'];
    assert(dash@ =~= seq!['-']);
    find_in(&chars_of(line), &dash, 0).is_some()
}

/// The two nodes and the weight of a line of the given kind: split at the first separator, then
/// the rest at its first colon; `None` if a split finds no second part or the weight is no `u16`.
fn convert_line_to_graph_data(line: &str, directed: bool) -> (r: Option<(Node, Node, u16)>)
    ensures
        r is Some <==> line_edge(line@, directed) is Some,
        r matches Some((a, b, w)) ==> (a@, b@, w) == line_edge(line@, directed)->Some_0,
{
    let cs = chars_of(line);
    let sep = if directed {
        vec!['-', '>']
    } else {
        vec!['-']
    };
    assert(sep@ =~= separator(directed));
    let colon = vec![':'];
    assert(colon@ =~= seq![':']);
    let (first, rest) = split_at_first(&cs, &sep);
    match rest {
        None => None,
        Some(seg) => {
            let (second, weight_text) = split_at_first(&seg, &colon);
            match weight_text {
                None => None,
                Some(wt) => match parse_u16_text(&wt) {
                    None => None,
                    Some(w) => Some((Node::new(string_of(&first)), Node::new(string_of(&second)), w)),
                },
            }
        },
    }
}

/// Whether two node ids are the endpoints of an edge given as (first, second, weight), in order
/// for a directed graph and in either order for an undirected one.
pub open spec fn same_pair(
    directed: bool,
    e: (Seq<char>, Seq<char>, u16),
    x: Seq<char>,
    y: Seq<char>,
) -> bool {
    if directed {
        e.0 == x && e.1 == y
    } else {
        (e.0 == x && e.1 == y) || (e.0 == y && e.1 == x)
    }
}

/// Whether some edge joins `x` and `y`.
pub open spec fn has_pair(
    directed: bool,
    es: Seq<(Seq<char>, Seq<char>, u16)>,
    x: Seq<char>,
    y: Seq<char>,
) -> bool {
    exists|i: int| 0 <= i < es.len() && same_pair(directed, es[i], x, y)
}

/// The endpoints and weights of directed edges.
pub open spec fn directed_edge_data(es: Seq<DirectedEdge>) -> Seq<(Seq<char>, Seq<char>, u16)> {
    es.map_values(|e: DirectedEdge| (e.from@, e.to@, e.weight))
}

/// The endpoints and weights of undirected edges.
pub open spec fn undirected_edge_data(es: Seq<UndirectedEdge>) -> Seq<(Seq<char>, Seq<char>, u16)> {
    es.map_values(|e: UndirectedEdge| (e.a_node@, e.b_node@, e.weight))
}

/// Message of the error for a file without lines.
pub open spec fn empty_file_message() -> Seq<char> {
    "The specified file is empty!"@
}

/// Message of the error for a first line that is no edge line.
pub open spec fn first_line_format_message() -> Seq<char> {
    "The first line of the input file is in a wrong format! Please use these formats: (directed) 'A->B:4' OR (undirected) A-B:46"@
}

/// Message of the error for a first line whose weight does not fit.
pub open spec fn first_line_convert_message(line: Seq<char>) -> Seq<char> {
    "Couldn't convert the first line "@ + line + " to valid edge data!"@
}

/// Message of the error for a later line that is no edge line of the file's kind.
pub open spec fn invalid_line_message(line: Seq<char>) -> Seq<char> {
    "Invalid line syntax on the line "@ + line
        + "! Please use only 'A->B:2' or 'A-B:5' to stay consistent!"@
}

/// Message of the error for a later line whose weight does not fit.
pub open spec fn unconvertible_line_message(line: Seq<char>) -> Seq<char> {
    "Couldn't convert line '"@ + line + "' to valid graph data!"@
}

/// The node ids and edges after one more line of the file: an empty line or an edge that joins
/// two joined nodes again changes nothing; a line with no edge pattern, or of the other kind (with
/// "->" in an undirected graph, without it in a directed one), is an error.
pub open spec fn add_line(
    directed: bool,
    st: (Seq<Seq<char>>, Seq<(Seq<char>, Seq<char>, u16)>),
    line: Seq<char>,
) -> Result<(Seq<Seq<char>>, Seq<(Seq<char>, Seq<char>, u16)>), Seq<char>> {
    if line.len() == 0 {
        Ok(st)
    } else if !contains_edge_pattern(line) || contains_arrow(line) != directed {
        Err(invalid_line_message(line))
    } else {
        match line_edge(line, directed) {
            None => Err(unconvertible_line_message(line)),
            Some(e) => if has_pair(directed, st.1, e.0, e.1) {
                Ok(st)
            } else {
                Ok((ids_after_insert(ids_after_insert(st.0, e.0), e.1), st.1.push(e)))
            },
        }
    }
}

/// The node ids and edges after the given lines, or the error of the first line that fails.
pub open spec fn add_lines(
    directed: bool,
    st: (Seq<Seq<char>>, Seq<(Seq<char>, Seq<char>, u16)>),
    lines: Seq<Seq<char>>,
) -> Result<(Seq<Seq<char>>, Seq<(Seq<char>, Seq<char>, u16)>), Seq<char>>
    decreases lines.len(),
{
    if lines.len() == 0 {
        Ok(st)
    } else {
        match add_lines(directed, st, lines.drop_last()) {
            Err(m) => Err(m),
            Ok(st1) => add_line(directed, st1, lines.last()),
        }
    }
}

/// The graph of the first line: its edge and its one or two nodes.
pub open spec fn first_line_graph(e: (Seq<char>, Seq<char>, u16)) -> (
    Seq<Seq<char>>,
    Seq<(Seq<char>, Seq<char>, u16)>,
) {
    (ids_after_insert(seq![e.0], e.1), seq![e])
}

/// Message of the error for a first line with an edge pattern but without "-".
pub open spec fn unknown_first_line_message() -> Seq<char> {
    "Couldn't convert the first line to a valid edge of a graph because of an unknown reason!"@
}

/// What a file describes: whether the graph is directed, which its first line decides, with its
/// node ids and edges; or the error message of the first line that fails.
pub open spec fn file_graph(text: Seq<char>) -> Result<
    (bool, (Seq<Seq<char>>, Seq<(Seq<char>, Seq<char>, u16)>)),
    Seq<char>,
> {
    let lines = text_lines(text);
    if lines.len() == 0 {
        Err(empty_file_message())
    } else if !contains_edge_pattern(lines[0]) {
        Err(first_line_format_message())
    } else if !contains_dash(lines[0]) {
        Err(unknown_first_line_message())
    } else {
        let directed = contains_arrow(lines[0]);
        match line_edge(lines[0], directed) {
            None => Err(first_line_convert_message(lines[0])),
            Some(e) => match add_lines(directed, first_line_graph(e), lines.drop_first()) {
                Err(m) => Err(m),
                Ok(st) => Ok((directed, st)),
            },
        }
    }
}

/// `res` holds one graph, well formed, of the given kind, with these node ids and edges.
pub open spec fn holds_graph(
    res: FileInputGraphResult,
    directed: bool,
    st: (Seq<Seq<char>>, Seq<(Seq<char>, Seq<char>, u16)>),
) -> bool {
    if directed {
        &&& res.undirected_graph is None
        &&& res.directed_graph matches Some(g) && g.wf() && ids_of(g.nodes@) == st.0
            && directed_edge_data(g.edges@) == st.1
    } else {
        &&& res.directed_graph is None
        &&& res.undirected_graph matches Some(g) && g.wf() && ids_of(g.nodes@) == st.0
            && undirected_edge_data(g.edges@) == st.1
    }
}

proof fn lemma_add_lines_error_stays(
    directed: bool,
    st: (Seq<Seq<char>>, Seq<(Seq<char>, Seq<char>, u16)>),
    lines: Seq<Seq<char>>,
    k: int,
    m: Seq<char>,
)
    requires
        0 <= k <= lines.len(),
        add_lines(directed, st, lines.subrange(0, k)) == Err::<
            (Seq<Seq<char>>, Seq<(Seq<char>, Seq<char>, u16)>),
            Seq<char>,
        >(m),
    ensures
        add_lines(directed, st, lines) == Err::<
            (Seq<Seq<char>>, Seq<(Seq<char>, Seq<char>, u16)>),
            Seq<char>,
        >(m),
    decreases lines.len() - k,
{
    if k < lines.len() {
        assert(lines.subrange(0, k + 1).drop_last() =~= lines.subrange(0, k));
        lemma_add_lines_error_stays(directed, st, lines, k + 1, m);
    } else {
        assert(lines.subrange(0, k) =~= lines);
    }
}

proof fn lemma_directed_pairs(es: Seq<DirectedEdge>, x: Seq<char>, y: Seq<char>)
    ensures
        crate::graphs::directed::has_directed_edge(es, x, y) == has_pair(true, directed_edge_data(es), x, y),
{
    let d = directed_edge_data(es);
    if crate::graphs::directed::has_directed_edge(es, x, y) {
        let i = choose|i: int| 0 <= i < es.len() && es[i].from@ == x && es[i].to@ == y;
        assert(same_pair(true, d[i], x, y));
    }
    if has_pair(true, d, x, y) {
        let i = choose|i: int| 0 <= i < d.len() && same_pair(true, d[i], x, y);
        assert(es[i].from@ == x && es[i].to@ == y);
    }
}

proof fn lemma_undirected_pairs(es: Seq<UndirectedEdge>, x: Seq<char>, y: Seq<char>)
    ensures
        crate::graphs::undirected::has_undirected_edge(es, x, y) == has_pair(false, undirected_edge_data(es), x, y),
{
    let d = undirected_edge_data(es);
    if crate::graphs::undirected::has_undirected_edge(es, x, y) {
        let i = choose|i: int| 0 <= i < es.len() && crate::graphs::undirected::joins(es[i], x, y);
        assert(same_pair(false, d[i], x, y));
    }
    if has_pair(false, d, x, y) {
        let i = choose|i: int| 0 <= i < d.len() && same_pair(false, d[i], x, y);
        assert(crate::graphs::undirected::joins(es[i], x, y));
    }
}

/// The result of reading a graph file: a directed or an undirected graph, never both.
#[derive(Debug)]
pub struct FileInputGraphResult {
    pub directed_graph: Option<DirectedGraph>,
    pub undirected_graph: Option<UndirectedGraph>,
}

impl FileInputGraphResult {
    /// Holds the graph that was read; fails if two graphs are given.
    pub fn new(
        directed_graph: Option<DirectedGraph>,
        undirected_graph: Option<UndirectedGraph>,
    ) -> (r: Option<Self>)
        ensures
            r is None <==> directed_graph is Some && undirected_graph is Some,
            r matches Some(res) ==> res.directed_graph == directed_graph && res.undirected_graph
                == undirected_graph,
    {
        if directed_graph.is_some() && undirected_graph.is_some() {
            return None;
        }
        Some(Self { directed_graph, undirected_graph })
    }
}

/// The error returned when a graph file cannot be read into a graph.
#[derive(Clone, Debug)]
pub struct InvalidDataInputError {
    /// What went wrong.
    pub message: String,
}

impl InvalidDataInputError {
    /// Creates the error with its message.
    pub fn new(message: String) -> (r: Self)
        ensures
            r.message == message,
    {
        Self { message }
    }
}

/// The error for a later line that is no edge line of the file's kind.
fn invalid_line_error(line: &str) -> (r: InvalidDataInputError)
    ensures
        r.message@ == invalid_line_message(line@),
{
    let mut m = String::from_str("Invalid line syntax on the line ");
    m.append(line);
    m.append("! Please use only 'A->B:2' or 'A-B:5' to stay consistent!");
    InvalidDataInputError::new(m)
}

/// The error for a later line whose weight does not fit.
fn unconvertible_line_error(line: &str) -> (r: InvalidDataInputError)
    ensures
        r.message@ == unconvertible_line_message(line@),
{
    let mut m = String::from_str("Couldn't convert line '");
    m.append(line);
    m.append("' to valid graph data!");
    InvalidDataInputError::new(m)
}

/// Adds to a directed graph the edges of the lines after the first, as `add_lines` describes.
fn add_directed_lines(initial: DirectedGraph, lines: &Vec<Vec<char>>) -> (r: Result<DirectedGraph, InvalidDataInputError>)
    requires
        initial.wf(),
        lines@.len() >= 1,
    ensures
        match add_lines(true, (ids_of(initial.nodes@), directed_edge_data(initial.edges@)), lines_view(lines@).drop_first()) {
            Err(m) => r is Err && r->Err_0.message@ == m,
            Ok(st) => r is Ok && r->Ok_0.wf() && ids_of(r->Ok_0.nodes@) == st.0 && directed_edge_data(
                r->Ok_0.edges@,
            ) == st.1,
        },
{
    let ghost init = (ids_of(initial.nodes@), directed_edge_data(initial.edges@));
    let ghost all = lines_view(lines@).drop_first();
    let mut graph = initial;
    let mut idx: usize = 1;
    while idx < lines.len()
        invariant
            1 <= idx <= lines@.len(),
            all == lines_view(lines@).drop_first(),
            init == (ids_of(initial.nodes@), directed_edge_data(initial.edges@)),
            graph.wf(),
            add_lines(true, init, all.subrange(0, idx - 1)) == Ok::<
                (Seq<Seq<char>>, Seq<(Seq<char>, Seq<char>, u16)>),
                Seq<char>,
            >((ids_of(graph.nodes@), directed_edge_data(graph.edges@))),
        decreases lines@.len() - idx,
    {
        let ghost st = (ids_of(graph.nodes@), directed_edge_data(graph.edges@));
        let line = string_of(&lines[idx]);
        proof {
            assert(all[idx - 1] == lines@[idx as int]@);
            assert(all.subrange(0, idx as int).drop_last() =~= all.subrange(0, idx - 1));
            assert(all.subrange(0, idx as int).last() == line@);
        }
        if lines[idx].len() == 0 {
            idx += 1;
            continue;
        }
        if !validate_line_syntax(line.as_str()) || !has_arrow(line.as_str()) {
            proof {
                lemma_add_lines_error_stays(true, init, all, idx as int, invalid_line_message(line@));
            }
            return Err(invalid_line_error(line.as_str()));
        }
        let (from, to, weight) = match convert_line_to_graph_data(line.as_str(), true) {
            Some(data) => data,
            None => {
                proof {
                    lemma_add_lines_error_stays(
                        true,
                        init,
                        all,
                        idx as int,
                        unconvertible_line_message(line@),
                    );
                }
                return Err(unconvertible_line_error(line.as_str()));
            },
        };
        let edge = DirectedEdge::new(from.duplicate(), to.duplicate(), weight);
        proof {
            lemma_directed_pairs(graph.edges@, from@, to@);
        }
        if graph.does_edge_already_exist(&edge) {
            idx += 1;
            continue;
        }
        let ghost fa = from@;
        let ghost tb = to@;
        let ghost ids0 = ids_of(graph.nodes@);
        graph.insert_node(from);
        let ghost ids1 = ids_of(graph.nodes@);
        assert(ids1.contains(fa)) by {
            if !ids0.contains(fa) {
                assert(ids1[ids0.len() as int] == fa);
            }
        }
        graph.insert_node(to);
        assert(ids_of(graph.nodes@).contains(fa) && ids_of(graph.nodes@).contains(tb)) by {
            let ids2 = ids_of(graph.nodes@);
            if !ids1.contains(tb) {
                assert(ids2[ids1.len() as int] == tb);
                let k = choose|k: int| 0 <= k < ids1.len() && ids1[k] == fa;
                assert(ids2[k] == fa);
            }
        }
        match graph.insert_edge(edge) {
            Some(err) => {
                return Err(InvalidDataInputError::new(err.message));
            },
            None => {},
        }
        assert(directed_edge_data(graph.edges@) =~= st.1.push((from@, to@, weight)));
        idx += 1;
    }
    assert(all.subrange(0, idx - 1) =~= all);
    Ok(graph)
}

/// Adds to a undirected graph the edges of the lines after the first, as `add_lines` describes.
fn add_undirected_lines(initial: UndirectedGraph, lines: &Vec<Vec<char>>) -> (r: Result<UndirectedGraph, InvalidDataInputError>)
    requires
        initial.wf(),
        lines@.len() >= 1,
    ensures
        match add_lines(false, (ids_of(initial.nodes@), undirected_edge_data(initial.edges@)), lines_view(lines@).drop_first()) {
            Err(m) => r is Err && r->Err_0.message@ == m,
            Ok(st) => r is Ok && r->Ok_0.wf() && ids_of(r->Ok_0.nodes@) == st.0 && undirected_edge_data(
                r->Ok_0.edges@,
            ) == st.1,
        },
{
    let ghost init = (ids_of(initial.nodes@), undirected_edge_data(initial.edges@));
    let ghost all = lines_view(lines@).drop_first();
    let mut graph = initial;
    let mut idx: usize = 1;
    while idx < lines.len()
        invariant
            1 <= idx <= lines@.len(),
            all == lines_view(lines@).drop_first(),
            init == (ids_of(initial.nodes@), undirected_edge_data(initial.edges@)),
            graph.wf(),
            add_lines(false, init, all.subrange(0, idx - 1)) == Ok::<
                (Seq<Seq<char>>, Seq<(Seq<char>, Seq<char>, u16)>),
                Seq<char>,
            >((ids_of(graph.nodes@), undirected_edge_data(graph.edges@))),
        decreases lines@.len() - idx,
    {
        let ghost st = (ids_of(graph.nodes@), undirected_edge_data(graph.edges@));
        let line = string_of(&lines[idx]);
        proof {
            assert(all[idx - 1] == lines@[idx as int]@);
            assert(all.subrange(0, idx as int).drop_last() =~= all.subrange(0, idx - 1));
            assert(all.subrange(0, idx as int).last() == line@);
        }
        if lines[idx].len() == 0 {
            idx += 1;
            continue;
        }
        if !validate_line_syntax(line.as_str()) || has_arrow(line.as_str()) {
            proof {
                lemma_add_lines_error_stays(false, init, all, idx as int, invalid_line_message(line@));
            }
            return Err(invalid_line_error(line.as_str()));
        }
        let (from, to, weight) = match convert_line_to_graph_data(line.as_str(), false) {
            Some(data) => data,
            None => {
                proof {
                    lemma_add_lines_error_stays(
                        false,
                        init,
                        all,
                        idx as int,
                        unconvertible_line_message(line@),
                    );
                }
                return Err(unconvertible_line_error(line.as_str()));
            },
        };
        let edge = UndirectedEdge::new(from.duplicate(), to.duplicate(), weight);
        proof {
            lemma_undirected_pairs(graph.edges@, from@, to@);
        }
        if graph.does_edge_already_exist(&edge) {
            idx += 1;
            continue;
        }
        let ghost fa = from@;
        let ghost tb = to@;
        let ghost ids0 = ids_of(graph.nodes@);
        graph.insert_node(from);
        let ghost ids1 = ids_of(graph.nodes@);
        assert(ids1.contains(fa)) by {
            if !ids0.contains(fa) {
                assert(ids1[ids0.len() as int] == fa);
            }
        }
        graph.insert_node(to);
        assert(ids_of(graph.nodes@).contains(fa) && ids_of(graph.nodes@).contains(tb)) by {
            let ids2 = ids_of(graph.nodes@);
            if !ids1.contains(tb) {
                assert(ids2[ids1.len() as int] == tb);
                let k = choose|k: int| 0 <= k < ids1.len() && ids1[k] == fa;
                assert(ids2[k] == fa);
            }
        }
        match graph.insert_edge(edge) {
            Some(err) => {
                return Err(InvalidDataInputError::new(err.message));
            },
            None => {},
        }
        assert(undirected_edge_data(graph.edges@) =~= st.1.push((from@, to@, weight)));
        idx += 1;
    }
    assert(all.subrange(0, idx - 1) =~= all);
    Ok(graph)
}

/// The error for a first line whose weight does not fit.
fn first_line_convert_error(line: &str) -> (r: InvalidDataInputError)
    ensures
        r.message@ == first_line_convert_message(line@),
{
    let mut m = String::from_str("Couldn't convert the first line ");
    m.append(line);
    m.append(" to valid edge data!");
    InvalidDataInputError::new(m)
}

/// The graph of the first line of a file, whose syntax decides whether the graph is directed.
fn determine_graph_from_first_line(first_line: &str) -> (r: Result<
    FileInputGraphResult,
    InvalidDataInputError,
>)
    ensures
        ({
            let l = first_line@;
            let directed = contains_arrow(l);
            if !contains_edge_pattern(l) {
                r is Err && r->Err_0.message@ == first_line_format_message()
            } else if !contains_dash(l) {
                r is Err && r->Err_0.message@ == unknown_first_line_message()
            } else {
                match line_edge(l, directed) {
                    None => r is Err && r->Err_0.message@ == first_line_convert_message(l),
                    Some(e) => r is Ok && holds_graph(r->Ok_0, directed, first_line_graph(e)),
                }
            }
        }),
{
    if !validate_line_syntax(first_line) {
        return Err(InvalidDataInputError::new(String::from_str(
            "The first line of the input file is in a wrong format! Please use these formats: (directed) 'A->B:4' OR (undirected) A-B:46",
        )));
    }
    if has_arrow(first_line) {
        proof {
            let l = first_line@;
            lemma_find_from_first(l, seq!['-', '>'], 0);
            let p = find_from(l, seq!['-', '>'], 0)->Some_0;
            assert(l.subrange(p, p + 1) =~= seq!['-']) by {
                assert(l.subrange(p, p + 2)[0] == l[p]);
            }
            lemma_find_from_found(l, seq!['-'], 0, p);
        }
        let mut graph = DirectedGraph::default();
        let (from, to, weight) = match convert_line_to_graph_data(first_line, graph.is_directed()) {
            Some(edge_data) => edge_data,
            None => {
                return Err(first_line_convert_error(first_line));
            },
        };
        let edge = DirectedEdge::new(from.duplicate(), to.duplicate(), weight);
        let ghost fa = from@;
        let ghost tb = to@;
        graph.insert_node(from);
        assert(ids_of(graph.nodes@) =~= seq![fa]);
        graph.insert_node(to);
        assert(ids_of(graph.nodes@).contains(fa) && ids_of(graph.nodes@).contains(tb)) by {
            if fa != tb {
                assert(ids_of(graph.nodes@)[0] == fa);
                assert(ids_of(graph.nodes@)[1] == tb);
            }
        }
        if let Some(err) = graph.insert_edge(edge) {
            return Err(InvalidDataInputError::new(err.message));
        }
        assert(directed_edge_data(graph.edges@) =~= seq![(fa, tb, weight)]);
        match FileInputGraphResult::new(Some(graph), None) {
            Some(result) => Ok(result),
            None => Err(InvalidDataInputError::new(String::from_str(
                "There can't be TWO graphs be generated at the same time!",
            ))),
        }
    } else if has_dash(first_line) {
        let mut graph = UndirectedGraph::default();
        let (from, to, weight) = match convert_line_to_graph_data(first_line, graph.is_directed()) {
            Some(edge_data) => edge_data,
            None => {
                return Err(first_line_convert_error(first_line));
            },
        };
        let edge = UndirectedEdge::new(from.duplicate(), to.duplicate(), weight);
        let ghost fa = from@;
        let ghost tb = to@;
        graph.insert_node(from);
        assert(ids_of(graph.nodes@) =~= seq![fa]);
        graph.insert_node(to);
        assert(ids_of(graph.nodes@).contains(fa) && ids_of(graph.nodes@).contains(tb)) by {
            if fa != tb {
                assert(ids_of(graph.nodes@)[0] == fa);
                assert(ids_of(graph.nodes@)[1] == tb);
            }
        }
        if let Some(err) = graph.insert_edge(edge) {
            return Err(InvalidDataInputError::new(err.message));
        }
        assert(undirected_edge_data(graph.edges@) =~= seq![(fa, tb, weight)]);
        match FileInputGraphResult::new(None, Some(graph)) {
            Some(result) => Ok(result),
            None => Err(InvalidDataInputError::new(String::from_str(
                "There can't be TWO graphs be generated at the same time!",
            ))),
        }
    } else {
        Err(InvalidDataInputError::new(String::from_str(
            "Couldn't convert the first line to a valid edge of a graph because of an unknown reason!",
        )))
    }
}

/// Reads a graph from the text of a file: one edge per line, `A->B:4` for a directed graph or
/// `A-B:4` for an undirected one, as the first line decides; empty lines and edges that join two
/// joined nodes again are skipped.
pub fn generate_graph_from_file(lines: String) -> (r: Result<FileInputGraphResult, InvalidDataInputError>)
    ensures
        match file_graph(lines@) {
            Err(m) => r is Err && r->Err_0.message@ == m,
            Ok((directed, st)) => r is Ok && holds_graph(r->Ok_0, directed, st),
        },
{
    let text = chars_of(lines.as_str());
    let all = split_lines(&text);
    if all.len() == 0 {
        return Err(InvalidDataInputError::new(String::from_str("The specified file is empty!")));
    }
    let first_line = string_of(&all[0]);
    assert(first_line@ == text_lines(lines@)[0]);
    let graph_result = match determine_graph_from_first_line(first_line.as_str()) {
        Ok(result) => result,
        Err(err) => {
            return Err(err);
        },
    };
    assert(lines_view(all@).drop_first() == text_lines(lines@).drop_first());
    if let Some(graph) = graph_result.directed_graph {
        match add_directed_lines(graph, &all) {
            Ok(graph) => Ok(FileInputGraphResult { directed_graph: Some(graph), undirected_graph: None }),
            Err(err) => Err(err),
        }
    } else if let Some(graph) = graph_result.undirected_graph {
        match add_undirected_lines(graph, &all) {
            Ok(graph) => Ok(FileInputGraphResult { directed_graph: None, undirected_graph: Some(graph) }),
            Err(err) => Err(err),
        }
    } else {
        Err(InvalidDataInputError::new(String::from_str(
            "Unexpected error whilem attempting to generate the graph!",
        )))
    }
}

} // verus!
