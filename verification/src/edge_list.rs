//! The edge-list file format: a line with the number of vertices, a line
//! with the number of edges, then one line per edge with its two endpoints.
use vstd::prelude::*;

verus! {

/// Why an edge-list file was refused.
#[derive(Debug, Clone, Copy, PartialEq, Eq)]
pub enum EdgeListError {
    /// The first line is missing or is not a single unsigned number.
    NumberOfVertices,
    /// The second line is missing or is not a single unsigned number.
    NumberOfEdges,
    /// Line `line` (counted from zero) does not start with two unsigned numbers.
    NodeId { line: usize },
    /// Line `line` (counted from zero) joins a vertex to itself.
    SelfLoop { line: usize },
    /// An endpoint is above `max_vertex_id`, so the graph cannot hold a
    /// table of its vertices.
    NodeIdTooLarge,
}

/// The ASCII white-space bytes: space, tab, line feed, vertical tab, form
/// feed and carriage return.
pub open spec fn is_space(b: u8) -> bool {
    b == 32 || (9 <= b && b <= 13)
}

/// The three bytes are, in UTF-8, one of the three-byte characters that
/// Unicode counts as white space: U+1680, U+2000 to U+200A, U+2028, U+2029,
/// U+202F, U+205F and U+3000.
pub open spec fn is_wide_space(a: u8, b: u8, c: u8) -> bool {
    ||| a == 0xE1 && b == 0x9A && c == 0x80
    ||| a == 0xE2 && b == 0x80 && ((0x80 <= c && c <= 0x8A) || c == 0xA8 || c == 0xA9 || c == 0xAF)
    ||| a == 0xE2 && b == 0x81 && c == 0x9F
    ||| a == 0xE3 && b == 0x80 && c == 0x80
}

/// The length in bytes of the white-space character that the UTF-8 text `s`
/// starts with, or zero when it starts with none: an ASCII white-space byte,
/// U+0085 or U+00A0 (two bytes), or a three-byte one (`is_wide_space`).
/// These are the characters that separate tokens.
pub open spec fn ws_len(s: Seq<u8>) -> nat {
    if s.len() >= 1 && is_space(s[0]) {
        1
    } else if s.len() >= 2 && s[0] == 0xC2 && (s[1] == 0x85 || s[1] == 0xA0) {
        2
    } else if s.len() >= 3 && is_wide_space(s[0], s[1], s[2]) {
        3
    } else {
        0
    }
}

/// An ASCII decimal digit.
pub open spec fn is_digit(b: u8) -> bool {
    48 <= b && b <= 57
}

/// The position of the first line feed in `s`, or its length.
pub open spec fn first_newline(s: Seq<u8>) -> nat
    decreases s.len(),
{
    if s.len() == 0 {
        0
    } else if s[0] == 10 {
        0
    } else {
        1 + first_newline(s.skip(1))
    }
}

/// The lines of `s`: the pieces between line feeds, without a last empty
/// piece after a final line feed.
pub open spec fn lines(s: Seq<u8>) -> Seq<Seq<u8>>
    decreases s.len(),
{
    if s.len() == 0 {
        seq![]
    } else {
        let e = first_newline(s);
        if e >= s.len() {
            seq![s]
        } else {
            seq![s.take(e as int)] + lines(s.skip(e as int + 1))
        }
    }
}

/// `s` without its leading white space.
pub open spec fn skip_ws(s: Seq<u8>) -> Seq<u8>
    decreases s.len(),
{
    if ws_len(s) > 0 {
        skip_ws(s.skip(ws_len(s) as int))
    } else {
        s
    }
}

/// The length in bytes of the run without white space at the start of `s`.
pub open spec fn token_len(s: Seq<u8>) -> nat
    decreases s.len(),
{
    if s.len() > 0 && ws_len(s) == 0 {
        1 + token_len(s.skip(1))
    } else {
        0
    }
}

/// The first token of `s` and what follows it, if `s` holds a token.
pub open spec fn first_token(s: Seq<u8>) -> Option<(Seq<u8>, Seq<u8>)> {
    let t = skip_ws(s);
    if t.len() == 0 {
        None
    } else {
        Some((t.take(token_len(t) as int), t.skip(token_len(t) as int)))
    }
}

/// The number written in decimal by the digits `s`.
pub open spec fn digits_value(s: Seq<u8>) -> nat
    decreases s.len(),
{
    if s.len() == 0 {
        0
    } else {
        digits_value(s.drop_last()) * 10 + (s.last() - 48) as nat
    }
}

/// Every byte of `s` is a digit.
pub open spec fn all_digits(s: Seq<u8>) -> bool {
    forall|i: int| 0 <= i < s.len() ==> #[trigger] is_digit(s[i])
}

/// An unsigned number: an optional `+`, then at least one decimal digit, of
/// a value that fits in a `usize`.
pub open spec fn parse_usize(tok: Seq<u8>) -> Option<usize> {
    let d = if tok.len() > 0 && tok[0] == 43 { tok.skip(1) } else { tok };
    if d.len() > 0 && all_digits(d) && digits_value(d) <= usize::MAX {
        Some(digits_value(d) as usize)
    } else {
        None
    }
}

/// A header line: exactly one token, an unsigned number.
pub open spec fn header_value(line: Seq<u8>) -> Option<usize> {
    match first_token(line) {
        Some((t, rest)) => if first_token(rest) is None { parse_usize(t) } else { None },
        None => None,
    }
}

/// An edge line: its first two tokens are unsigned numbers (further tokens
/// are ignored).
pub open spec fn edge_of_line(line: Seq<u8>) -> Option<(usize, usize)> {
    match first_token(line) {
        Some((t1, r1)) => match first_token(r1) {
            Some((t2, _)) => match (parse_usize(t1), parse_usize(t2)) {
                (Some(a), Some(b)) => Some((a, b)),
                _ => None,
            },
            None => None,
        },
        None => None,
    }
}

/// A valid edge line: two numbers that differ.
pub open spec fn line_ok(line: Seq<u8>) -> bool {
    edge_of_line(line) matches Some(e) && e.0 != e.1
}

/// The error of the first invalid edge line from index `i` on, if any.
pub open spec fn first_bad_line(ls: Seq<Seq<u8>>, i: int) -> Option<EdgeListError>
    decreases ls.len() - i,
{
    if i < 0 || i >= ls.len() {
        None
    } else if edge_of_line(ls[i]) is None {
        Some(EdgeListError::NodeId { line: i as usize })
    } else if !line_ok(ls[i]) {
        Some(EdgeListError::SelfLoop { line: i as usize })
    } else {
        first_bad_line(ls, i + 1)
    }
}

/// The edges written in an edge-list file, in file order.
pub open spec fn file_edges(s: Seq<u8>) -> Seq<(usize, usize)> {
    let ls = lines(s);
    Seq::new((ls.len() - 2) as nat, |i: int| edge_of_line(ls[i + 2]).unwrap())
}

/// How an edge-list file is refused, if it is.
pub open spec fn edge_list_error(s: Seq<u8>) -> Option<EdgeListError> {
    let ls = lines(s);
    if ls.len() < 1 || header_value(ls[0]) is None {
        Some(EdgeListError::NumberOfVertices)
    } else if ls.len() < 2 || header_value(ls[1]) is None {
        Some(EdgeListError::NumberOfEdges)
    } else if first_bad_line(ls, 2) is Some {
        first_bad_line(ls, 2)
    } else if exists|i: int| 0 <= i < file_edges(s).len()
        && (#[trigger] file_edges(s)[i].0 > max_vertex_id() || file_edges(s)[i].1 > max_vertex_id()) {
        Some(EdgeListError::NodeIdTooLarge)
    } else {
        None
    }
}

/// The directed pair `p` stands for an edge of `edges`, in one direction or
/// the other.
pub open spec fn in_both_directions(edges: Seq<(usize, usize)>, p: (usize, usize)) -> bool {
    exists|i: int| 0 <= i < edges.len() && (#[trigger] edges[i] == p || edges[i] == (p.1, p.0))
}

proof fn lemma_digits_prefix(s: Seq<u8>, k: int)
    requires
        0 <= k <= s.len(),
        all_digits(s),
    ensures
        digits_value(s.take(k)) <= digits_value(s),
    decreases s.len(),
{
    if k < s.len() {
        assert(s.take(k) =~= s.drop_last().take(k));
        assert(all_digits(s.drop_last())) by {
            assert forall|i: int| 0 <= i < s.drop_last().len() implies #[trigger] is_digit(s.drop_last()[i]) by {
                assert(is_digit(s[i]));
            }
        }
        lemma_digits_prefix(s.drop_last(), k);
    } else {
        assert(s.take(k) =~= s);
    }
}

/// The length of the white-space character at `s[j..end]` (see `ws_len`).
fn space_len(s: &[u8], j: usize, end: usize) -> (w: usize)
    requires
        j <= end <= s@.len(),
    ensures
        w == ws_len(s@.subrange(j as int, end as int)),
        w <= end - j,
{
    let ghost t = s@.subrange(j as int, end as int);
    if j < end && (s[j] == 32 || (9 <= s[j] && s[j] <= 13)) {
        assert(t[0] == s@[j as int]);
        return 1;
    }
    if end - j >= 2 && s[j] == 0xC2 && (s[j + 1] == 0x85 || s[j + 1] == 0xA0) {
        assert(t[0] == s@[j as int] && t[1] == s@[j + 1]);
        return 2;
    }
    if end - j >= 3 {
        let (a, b, c) = (s[j], s[j + 1], s[j + 2]);
        assert(t[0] == a && t[1] == b && t[2] == c);
        if (a == 0xE1 && b == 0x9A && c == 0x80)
            || (a == 0xE2 && b == 0x80 && ((0x80 <= c && c <= 0x8A) || c == 0xA8 || c == 0xA9 || c == 0xAF))
            || (a == 0xE2 && b == 0x81 && c == 0x9F)
            || (a == 0xE3 && b == 0x80 && c == 0x80) {
            return 3;
        }
    }
    proof {
        if t.len() >= 1 {
            assert(t[0] == s@[j as int]);
        }
        if t.len() >= 2 {
            assert(t[1] == s@[j + 1]);
        }
    }
    0
}

/// The end of the run of white space that starts at `i`, looking no further
/// than `end`.
fn skip_spaces(s: &[u8], i: usize, end: usize) -> (j: usize)
    requires
        i <= end <= s@.len(),
    ensures
        i <= j <= end,
        skip_ws(s@.subrange(i as int, end as int)) == s@.subrange(j as int, end as int),
{
    let mut j = i;
    let mut w = space_len(s, j, end);
    while w > 0
        invariant
            i <= j <= end <= s@.len(),
            w == ws_len(s@.subrange(j as int, end as int)),
            w <= end - j,
            skip_ws(s@.subrange(i as int, end as int)) == skip_ws(s@.subrange(j as int, end as int)),
        decreases end - j,
    {
        assert(s@.subrange(j as int, end as int).skip(w as int) =~= s@.subrange(j + w, end as int));
        j = j + w;
        w = space_len(s, j, end);
    }
    j
}

/// The end of the token that starts at `i`, looking no further than `end`.
fn scan_token(s: &[u8], i: usize, end: usize) -> (k: usize)
    requires
        i <= end <= s@.len(),
    ensures
        i <= k <= end,
        token_len(s@.subrange(i as int, end as int)) == k - i,
{
    let mut k = i;
    while k < end && space_len(s, k, end) == 0
        invariant
            i <= k <= end <= s@.len(),
            token_len(s@.subrange(i as int, end as int)) == (k - i) + token_len(s@.subrange(k as int, end as int)),
        decreases end - k,
    {
        assert(s@.subrange(k as int, end as int).skip(1) =~= s@.subrange(k + 1, end as int));
        k = k + 1;
    }
    k
}

/// The unsigned number written in `s[a..b]`, if it is one.
fn parse_number(s: &[u8], a: usize, b: usize) -> (r: Option<usize>)
    requires
        a <= b <= s@.len(),
    ensures
        r == parse_usize(s@.subrange(a as int, b as int)),
{
    let ghost tok = s@.subrange(a as int, b as int);
    let start = if a < b && s[a] == 43 { a + 1 } else { a };
    let ghost d = s@.subrange(start as int, b as int);
    assert(d =~= (if tok.len() > 0 && tok[0] == 43 { tok.skip(1) } else { tok }));
    if start == b {
        return None;
    }
    let mut value: usize = 0;
    let mut p = start;
    while p < b
        invariant
            start <= p <= b <= s@.len(),
            a <= start,
            d == s@.subrange(start as int, b as int),
            tok == s@.subrange(a as int, b as int),
            d == (if tok.len() > 0 && tok[0] == 43 { tok.skip(1) } else { tok }),
            d.len() > 0,
            forall|i: int| start <= i < p ==> #[trigger] is_digit(s@[i]),
            value == digits_value(s@.subrange(start as int, p as int)),
        decreases b - p,
    {
        let c = s[p];
        if !(48 <= c && c <= 57) {
            assert(!is_digit(d[p - start]));
            return None;
        }
        assert(s@.subrange(start as int, p + 1).drop_last() =~= s@.subrange(start as int, p as int));
        let ghost next = digits_value(s@.subrange(start as int, p + 1));
        let m = value.checked_mul(10);
        match m {
            None => {
                proof {
                    if all_digits(d) {
                        assert(s@.subrange(start as int, p + 1) =~= d.take(p + 1 - start));
                        lemma_digits_prefix(d, p + 1 - start);
                    }
                }
                return None;
            },
            Some(m) => {
                let t = m.checked_add((c - 48) as usize);
                match t {
                    None => {
                        proof {
                            if all_digits(d) {
                                assert(s@.subrange(start as int, p + 1) =~= d.take(p + 1 - start));
                                lemma_digits_prefix(d, p + 1 - start);
                            }
                        }
                        return None;
                    },
                    Some(t) => {
                        value = t;
                    },
                }
            },
        }
        p = p + 1;
    }
    assert(all_digits(d)) by {
        assert forall|i: int| 0 <= i < d.len() implies #[trigger] is_digit(d[i]) by {
            assert(d[i] == s@[start + i]);
        }
    }
    Some(value)
}

/// Where the first token of `s[i..end]` starts and ends, if there is one.
fn first_token_range(s: &[u8], i: usize, end: usize) -> (r: Option<(usize, usize)>)
    requires
        i <= end <= s@.len(),
    ensures
        r is None <==> first_token(s@.subrange(i as int, end as int)) is None,
        r matches Some((ts, te)) ==> {
            &&& i <= ts <= te <= end
            &&& first_token(s@.subrange(i as int, end as int)) == Some((s@.subrange(ts as int, te as int), s@.subrange(te as int, end as int)))
        },
{
    let ts = skip_spaces(s, i, end);
    if ts == end {
        return None;
    }
    let te = scan_token(s, ts, end);
    let ghost t = s@.subrange(ts as int, end as int);
    assert(t.take(te - ts) =~= s@.subrange(ts as int, te as int));
    assert(t.skip(te - ts) =~= s@.subrange(te as int, end as int));
    Some((ts, te))
}

/// The number on a header line `s[i..end]`, if it holds exactly one.
fn header_at(s: &[u8], i: usize, end: usize) -> (r: Option<usize>)
    requires
        i <= end <= s@.len(),
    ensures
        r == header_value(s@.subrange(i as int, end as int)),
{
    match first_token_range(s, i, end) {
        None => None,
        Some((ts, te)) => {
            match first_token_range(s, te, end) {
                Some(_) => None,
                None => parse_number(s, ts, te),
            }
        },
    }
}

/// The two numbers at the start of an edge line `s[i..end]`, if they are there.
fn edge_at(s: &[u8], i: usize, end: usize) -> (r: Option<(usize, usize)>)
    requires
        i <= end <= s@.len(),
    ensures
        r == edge_of_line(s@.subrange(i as int, end as int)),
{
    match first_token_range(s, i, end) {
        None => None,
        Some((t1s, t1e)) => {
            match first_token_range(s, t1e, end) {
                None => None,
                Some((t2s, t2e)) => {
                    let a = parse_number(s, t1s, t1e);
                    let b = parse_number(s, t2s, t2e);
                    match (a, b) {
                        (Some(a), Some(b)) => Some((a, b)),
                        _ => None,
                    }
                },
            }
        },
    }
}

/// The position of the first line feed at or after `start`, or the length.
fn find_newline(s: &[u8], start: usize) -> (e: usize)
    requires
        start <= s@.len(),
    ensures
        start <= e <= s@.len(),
        first_newline(s@.subrange(start as int, s@.len() as int)) == e - start,
        e < s@.len() ==> s@[e as int] == 10,
{
    let mut e = start;
    while e < s.len() && s[e] != 10
        invariant
            start <= e <= s@.len(),
            first_newline(s@.subrange(start as int, s@.len() as int)) == (e - start) + first_newline(s@.subrange(e as int, s@.len() as int)),
        decreases s@.len() - e,
    {
        assert(s@.subrange(e as int, s@.len() as int).skip(1) =~= s@.subrange(e + 1, s@.len() as int));
        e = e + 1;
    }
    e
}

proof fn lemma_lines_step(s: Seq<u8>, p: int, e: int)
    requires
        0 <= p < s.len(),
        p <= e <= s.len(),
        first_newline(s.subrange(p, s.len() as int)) == e - p,
    ensures
        lines(s.subrange(p, s.len() as int)) == seq![s.subrange(p, e)] + (if e < s.len() {
            lines(s.subrange(e + 1, s.len() as int))
        } else {
            Seq::<Seq<u8>>::empty()
        }),
{
    let t = s.subrange(p, s.len() as int);
    if e < s.len() {
        assert(t.take(e - p) =~= s.subrange(p, e));
        assert(t.skip(e - p + 1) =~= s.subrange(e + 1, s.len() as int));
    } else {
        assert(t =~= s.subrange(p, e));
        assert(seq![t] =~= seq![t] + Seq::<Seq<u8>>::empty());
    }
}

proof fn lemma_first_bad_skip(ls: Seq<Seq<u8>>, i: int, j: int)
    requires
        2 <= i <= j <= ls.len(),
        forall|k: int| i <= k < j ==> #[trigger] line_ok(ls[k]),
    ensures
        first_bad_line(ls, i) == first_bad_line(ls, j),
    decreases j - i,
{
    if i < j {
        lemma_first_bad_skip(ls, i + 1, j);
        assert(line_ok(ls[i]));
    }
}

proof fn lemma_no_bad_line_from(ls: Seq<Seq<u8>>, i: int, k: int)
    requires
        0 <= i <= k < ls.len(),
        first_bad_line(ls, i) is None,
    ensures
        line_ok(ls[k]),
    decreases k - i,
{
    if i < k {
        lemma_no_bad_line_from(ls, i + 1, k);
    }
}

/// A file that is accepted joins no vertex to itself, in either direction.
pub proof fn lemma_accepted_file_has_no_loops(s: Seq<u8>)
    requires
        edge_list_error(s) is None,
    ensures
        forall|p: (usize, usize)| #[trigger] in_both_directions(file_edges(s), p) ==> p.0 != p.1,
{
    let ls = lines(s);
    let es = file_edges(s);
    assert forall|p: (usize, usize)| #[trigger] in_both_directions(es, p) implies p.0 != p.1 by {
        let i = choose|i: int| 0 <= i < es.len() && (#[trigger] es[i] == p || es[i] == (p.1, p.0));
        lemma_no_bad_line_from(ls, 2, i + 2);
    }
}

/// The largest vertex identifier that a graph can hold: the graph keeps a
/// table with a `usize` entry per vertex and one more, whose size in bytes
/// must stay within `isize::MAX`.
pub open spec fn max_vertex_id() -> int {
    isize::MAX / 8 - 2
}

fn vertex_id_limit() -> (r: usize)
    ensures
        r == max_vertex_id(),
{
    (isize::MAX as usize) / 8 - 2
}

/// `s` is in strictly increasing order.
pub open spec fn increasing(s: Seq<usize>) -> bool {
    forall|i: int, j: int| 0 <= i < j < s.len() ==> #[trigger] s[i] < #[trigger] s[j]
}

/// `edges` is in strictly increasing lexicographic order (so it holds no pair
/// twice).
pub open spec fn strictly_sorted(edges: Seq<(usize, usize)>) -> bool {
    forall|i: int, j: int|
        0 <= i < j < edges.len() ==> #[trigger] pair_lt(edges[i], edges[j])
}

/// `a` comes before `b` in lexicographic order.
pub open spec fn pair_lt(a: (usize, usize), b: (usize, usize)) -> bool {
    a.0 < b.0 || (a.0 == b.0 && a.1 < b.1)
}

/// Adds `x` to an increasing row unless it is already there.
fn insert_sorted(row: &mut Vec<usize>, x: usize)
    requires
        increasing(old(row)@),
    ensures
        increasing(final(row)@),
        forall|y: usize| #[trigger] final(row)@.contains(y) <==> (old(row)@.contains(y) || y == x),
{
    let mut i: usize = 0;
    while i < row.len() && row[i] < x
        invariant
            i <= row@.len(),
            row@ == old(row)@,
            increasing(row@),
            forall|j: int| 0 <= j < i ==> row@[j] < x,
        decreases row@.len() - i,
    {
        i = i + 1;
    }
    if i < row.len() && row[i] == x {
        assert(row@.contains(x));
        return;
    }
    let ghost before = row@;
    row.insert(i, x);
    proof {
        assert forall|a: int, b: int| 0 <= a < b < row@.len() implies #[trigger] row@[a] < #[trigger] row@[b] by {
            if a < i && b == i {
            } else if a < i && b > i {
                assert(row@[b] == before[b - 1]);
                assert(before[a] < x);
                assert(before[b - 1] >= x || b - 1 < i);
            } else if a == i {
                assert(row@[b] == before[b - 1]);
                assert(before[b - 1] > x);
            } else if a > i {
                assert(row@[a] == before[a - 1] && row@[b] == before[b - 1]);
            }
        }
        assert forall|y: usize| #[trigger] row@.contains(y) <==> (before.contains(y) || y == x) by {
            if before.contains(y) {
                let k = choose|k: int| 0 <= k < before.len() && before[k] == y;
                if k < i {
                    assert(row@[k] == y);
                } else {
                    assert(row@[k + 1] == y);
                }
            }
            if y == x {
                assert(row@[i as int] == x);
            }
            if row@.contains(y) {
                let k = choose|k: int| 0 <= k < row@.len() && row@[k] == y;
                if k < i {
                    assert(before[k] == y);
                } else if k > i {
                    assert(before[k - 1] == y);
                }
            }
        }
    }
}

/// The file `s` has an edge line that joins a vertex to itself, and no bad
/// line before it: a file that the format forbids.
pub open spec fn has_self_loop_line(s: Seq<u8>) -> bool {
    edge_list_error(s) matches Some(EdgeListError::SelfLoop { .. })
}

/// Reads an edge-list file, which must have no self-loop line (see
/// `self_loop_line`): checks its two header lines and its edge lines, then
/// returns every edge in both directions, sorted, without repetitions.
pub fn parse_sorted_edges(text: &[u8]) -> (r: Result<Vec<(usize, usize)>, EdgeListError>)
    requires
        !has_self_loop_line(text@),
    ensures
        r is Ok <==> edge_list_error(text@) is None,
        r matches Err(e) ==> edge_list_error(text@) == Some(e),
        r matches Ok(v) ==> strictly_sorted(v@),
        r matches Ok(v) ==> forall|p: (usize, usize)| #[trigger] v@.contains(p) <==> in_both_directions(file_edges(text@), p),
{
    read_sorted_edges(text)
}

/// The line (counted from zero) of the first edge line that joins a vertex
/// to itself, when no bad line comes before it; `None` when the file has no
/// such line. Callers check this before `parse_sorted_edges`.
pub fn self_loop_line(text: &[u8]) -> (r: Option<usize>)
    ensures
        r is Some <==> has_self_loop_line(text@),
        r matches Some(line) ==> edge_list_error(text@) == Some(EdgeListError::SelfLoop { line }),
{
    match read_sorted_edges(text) {
        Err(EdgeListError::SelfLoop { line }) => Some(line),
        _ => None,
    }
}

/// Reads an edge-list file (see `parse_sorted_edges`), reporting a
/// self-loop line as an error.
pub(crate) fn read_sorted_edges(text: &[u8]) -> (r: Result<Vec<(usize, usize)>, EdgeListError>)
    ensures
        r is Ok <==> edge_list_error(text@) is None,
        r matches Err(e) ==> edge_list_error(text@) == Some(e),
        r matches Ok(v) ==> strictly_sorted(v@),
        r matches Ok(v) ==> forall|p: (usize, usize)| #[trigger] v@.contains(p) <==> in_both_directions(file_edges(text@), p),
{
    let ghost s = text@;
    let ghost ls = lines(s);
    let len = text.len();
    assert(s.subrange(0, len as int) =~= s);
    if len == 0 {
        return Err(EdgeListError::NumberOfVertices);
    }
    let e0 = find_newline(text, 0);
    proof { lemma_lines_step(s, 0, e0 as int); }
    assert(ls[0] == s.subrange(0, e0 as int));
    if header_at(text, 0, e0).is_none() {
        return Err(EdgeListError::NumberOfVertices);
    }
    let p1 = if e0 < len { e0 + 1 } else { len };
    if p1 >= len {
        proof {
            if e0 < len {
                assert(s.subrange(len as int, len as int) =~= Seq::<u8>::empty());
            }
        }
        return Err(EdgeListError::NumberOfEdges);
    }
    let e1 = find_newline(text, p1);
    proof { lemma_lines_step(s, p1 as int, e1 as int); }
    assert(ls[1] == s.subrange(p1 as int, e1 as int));
    if header_at(text, p1, e1).is_none() {
        return Err(EdgeListError::NumberOfEdges);
    }
    let mut pos = if e1 < len { e1 + 1 } else { len };
    proof {
        assert(s.subrange(len as int, len as int) =~= Seq::<u8>::empty());
        assert(ls =~= ls.subrange(0, 2) + lines(s.subrange(pos as int, len as int)));
    }
    let mut idx: usize = 2;
    let mut edges: Vec<(usize, usize)> = Vec::new();
    let mut max_node: usize = 0;
    let limit = vertex_id_limit();
    let mut too_large = false;
    while pos < len
        invariant
            len == s.len(),
            s == text@,
            ls == lines(s),
            2 <= idx <= pos <= len,
            idx <= ls.len(),
            ls =~= ls.subrange(0, idx as int) + lines(s.subrange(pos as int, len as int)),
            header_value(ls[0]) is Some,
            header_value(ls[1]) is Some,
            forall|k: int| 2 <= k < idx ==> #[trigger] line_ok(ls[k]),
            edges@ =~= Seq::new((idx - 2) as nat, |i: int| edge_of_line(ls[i + 2]).unwrap()),
            forall|k: int| 0 <= k < edges@.len() ==> (#[trigger] edges@[k]).0 <= max_node && edges@[k].1 <= max_node,
            limit == max_vertex_id(),
            too_large <==> exists|k: int| 0 <= k < edges@.len() && (#[trigger] edges@[k].0 > limit || edges@[k].1 > limit),
            edges@.len() == 0 ==> max_node == 0,
            edges@.len() > 0 ==> exists|k: int| 0 <= k < edges@.len() && (#[trigger] edges@[k].0 == max_node || edges@[k].1 == max_node),
        decreases len - pos,
    {
        let e = find_newline(text, pos);
        proof { lemma_lines_step(s, pos as int, e as int); }
        let ghost rest = lines(s.subrange(pos as int, len as int));
        assert(ls[idx as int] == s.subrange(pos as int, e as int));
        match edge_at(text, pos, e) {
            None => {
                proof {
                    lemma_first_bad_skip(ls, 2, idx as int);
                }
                return Err(EdgeListError::NodeId { line: idx });
            },
            Some((a, b)) => {
                if a == b {
                    proof {
                        lemma_first_bad_skip(ls, 2, idx as int);
                    }
                    return Err(EdgeListError::SelfLoop { line: idx });
                }
                let ghost old_edges = edges@;
                edges.push((a, b));
                if a > limit || b > limit {
                    too_large = true;
                }
                if a > max_node {
                    max_node = a;
                }
                if b > max_node {
                    max_node = b;
                }
                proof {
                    assert(edges@[edges@.len() - 1] == (a, b));
                    assert forall|k: int| 0 <= k < old_edges.len() implies edges@[k] == old_edges[k] by {}
                    if old_edges.len() > 0 && max_node != a && max_node != b {
                        let k = choose|k: int| 0 <= k < old_edges.len() && (#[trigger] old_edges[k].0 == max_node || old_edges[k].1 == max_node);
                        assert(edges@[k] == old_edges[k]);
                    }
                }
            },
        }
        let next = if e < len { e + 1 } else { len };
        proof {
            assert(s.subrange(len as int, len as int) =~= Seq::<u8>::empty());
            assert(ls =~= ls.subrange(0, idx + 1) + lines(s.subrange(next as int, len as int)));
        }
        pos = next;
        idx = idx + 1;
    }
    proof {
        assert(s.subrange(len as int, len as int) =~= Seq::<u8>::empty());
        assert(ls.len() == idx);
        lemma_first_bad_skip(ls, 2, idx as int);
        assert(file_edges(s) =~= edges@);
    }
    if too_large {
        return Err(EdgeListError::NodeIdTooLarge);
    }
    proof {
        if edges@.len() > 0 {
            let k = choose|k: int| 0 <= k < edges@.len() && (#[trigger] edges@[k].0 == max_node || edges@[k].1 == max_node);
        }
    }
    let n: usize = if edges.len() == 0 { 0 } else { max_node + 1 };
    let mut rows: Vec<Vec<usize>> = Vec::new();
    let mut u: usize = 0;
    while u < n
        invariant
            u <= n,
            rows@.len() == u,
            forall|w: int| 0 <= w < u ==> (#[trigger] rows@[w])@.len() == 0,
        decreases n - u,
    {
        rows.push(Vec::new());
        u = u + 1;
    }
    let mut k: usize = 0;
    while k < edges.len()
        invariant
            k <= edges@.len(),
            rows@.len() == n,
            forall|i: int| 0 <= i < edges@.len() ==> (#[trigger] edges@[i]).0 < n && edges@[i].1 < n,
            forall|w: int| 0 <= w < n ==> increasing((#[trigger] rows@[w])@),
            forall|w: usize, x: usize| w < n ==> (#[trigger] rows@[w as int]@.contains(x)
                <==> in_both_directions(edges@.take(k as int), (w, x))),
        decreases edges@.len() - k,
    {
        let (a, b) = edges[k];
        let ghost rows0 = rows@;
        insert_sorted(&mut rows[a], b);
        let ghost rows1 = rows@;
        insert_sorted(&mut rows[b], a);
        proof {
            assert forall|w: usize, x: usize| w < n implies (#[trigger] rows@[w as int]@.contains(x)
                <==> in_both_directions(edges@.take(k + 1), (w, x))) by {
                let e2 = edges@.take(k + 1);
                assert(e2[k as int] == (a, b));
                if in_both_directions(edges@.take(k as int), (w, x)) {
                    let i = choose|i: int| 0 <= i < edges@.take(k as int).len() && (#[trigger] edges@.take(k as int)[i] == (w, x) || edges@.take(k as int)[i] == (x, w));
                    assert(e2[i] == edges@.take(k as int)[i]);
                }
                if in_both_directions(e2, (w, x)) {
                    let i = choose|i: int| 0 <= i < e2.len() && (#[trigger] e2[i] == (w, x) || e2[i] == (x, w));
                    if i < k {
                        assert(edges@.take(k as int)[i] == e2[i]);
                    }
                }
            }
        }
        k = k + 1;
    }
    assert(edges@.take(edges@.len() as int) =~= edges@);
    let mut out: Vec<(usize, usize)> = Vec::new();
    let mut u: usize = 0;
    while u < n
        invariant
            u <= n,
            rows@.len() == n,
            forall|w: int| 0 <= w < n ==> increasing((#[trigger] rows@[w])@),
            strictly_sorted(out@),
            out@.len() > 0 ==> out@[out@.len() - 1].0 < u,
            forall|p: (usize, usize)| #[trigger] out@.contains(p) <==> (p.0 < u && rows@[p.0 as int]@.contains(p.1)),
        decreases n - u,
    {
        let row = &rows[u];
        let mut j: usize = 0;
        while j < row.len()
            invariant
                u < n,
                rows@.len() == n,
                row@ == rows@[u as int]@,
                j <= row@.len(),
                increasing(row@),
                strictly_sorted(out@),
                out@.len() > 0 ==> (out@[out@.len() - 1].0 < u || (out@[out@.len() - 1].0 == u && j > 0
                    && out@[out@.len() - 1].1 == row@[j - 1])),
                j > 0 ==> out@.len() > 0 && out@[out@.len() - 1] == (u, row@[j - 1]),
                forall|p: (usize, usize)| #[trigger] out@.contains(p) <==> ((p.0 < u && rows@[p.0 as int]@.contains(p.1))
                    || (p.0 == u && row@.take(j as int).contains(p.1))),
            decreases row@.len() - j,
        {
            let ghost out0 = out@;
            out.push((u, row[j]));
            proof {
                assert forall|a: int, b: int| 0 <= a < b < out@.len() implies #[trigger] pair_lt(out@[a], out@[b]) by {
                    if b == out@.len() - 1 && a < b {
                        if a < out0.len() - 1 {
                            assert(pair_lt(out0[a], out0[out0.len() - 1]));
                        }
                    }
                }
                assert forall|p: (usize, usize)| #[trigger] out@.contains(p) <==> ((p.0 < u && rows@[p.0 as int]@.contains(p.1))
                    || (p.0 == u && row@.take(j + 1).contains(p.1))) by {
                    if out0.contains(p) {
                        let i = choose|i: int| 0 <= i < out0.len() && out0[i] == p;
                        assert(out@[i] == p);
                    }
                    if p.0 == u && row@.take(j as int).contains(p.1) {
                        let i = choose|i: int| 0 <= i < row@.take(j as int).len() && #[trigger] row@.take(j as int)[i] == p.1;
                        assert(row@.take(j + 1)[i] == p.1);
                    }
                    if p.0 == u && row@.take(j + 1).contains(p.1) {
                        let i = choose|i: int| 0 <= i < row@.take(j + 1).len() && #[trigger] row@.take(j + 1)[i] == p.1;
                        if i < j {
                            assert(row@.take(j as int)[i] == p.1);
                        } else {
                            assert(out@[out@.len() - 1] == p);
                        }
                    }
                    if out@.contains(p) {
                        let i = choose|i: int| 0 <= i < out@.len() && out@[i] == p;
                        if i < out0.len() {
                            assert(out0[i] == p);
                        } else {
                            assert(row@.take(j + 1)[j as int] == row@[j as int]);
                        }
                    }
                }
            }
            j = j + 1;
        }
        proof {
            assert(row@.take(row@.len() as int) =~= row@);
        }
        u = u + 1;
    }
    proof {
        assert forall|p: (usize, usize)| #[trigger] out@.contains(p) <==> in_both_directions(file_edges(text@), p) by {
            if in_both_directions(edges@, p) {
                let i = choose|i: int| 0 <= i < edges@.len() && (#[trigger] edges@[i] == p || edges@[i] == (p.1, p.0));
                assert(edges@[i].0 < n && edges@[i].1 < n);
            }
        }
    }
    Ok(out)
}

} // verus!
