//! Reading a graph from its edge list.
//!
//! The text holds one edge per line: two node ids, non-negative decimal
//! integers, separated by blanks. A line that names one node twice adds no
//! edge. The ids are renumbered from zero by subtracting the smallest one, and
//! must then cover `0..n` without a gap; each edge is set in both directions.
use vstd::prelude::*;
use vstd::set_lib::{set_int_range, lemma_int_range, lemma_len_subset};
use crate::topology::{Topology, is_adjacency, rows_view, lemma_rows_view};

verus! {

/// Why an edge list was refused.
#[derive(Clone, Copy, Debug, PartialEq, Eq)]
pub enum EdgeListError {
    /// A line does not hold exactly two tokens.
    WrongTokenCount,
    /// A token is not a non-negative integer that fits in `usize`.
    InvalidNumber,
    /// The node ids, renumbered from the smallest, leave a gap.
    IdGap,
}

pub open spec fn is_line_feed(b: u8) -> bool {
    b == 10
}

/// Space, tab, vertical tab, form feed and carriage return.
pub open spec fn is_blank(b: u8) -> bool {
    b == 32 || b == 9 || b == 11 || b == 12 || b == 13
}

pub open spec fn is_digit(b: u8) -> bool {
    48 <= b <= 57
}

/// The first index from `i` on at which `t` holds a line feed, or its length.
pub open spec fn line_end(t: Seq<u8>, i: int) -> int
    decreases t.len() - i,
{
    if i < 0 || i >= t.len() || is_line_feed(t[i]) {
        i
    } else {
        line_end(t, i + 1)
    }
}

/// The first index in `i..end` at which `t` holds a blank, or `end`.
pub open spec fn token_end(t: Seq<u8>, i: int, end: int) -> int
    decreases end - i,
{
    if i < 0 || i >= end || is_blank(t[i]) {
        i
    } else {
        token_end(t, i + 1, end)
    }
}

/// A line ends at or after its start, and within the text.
pub proof fn lemma_line_end(t: Seq<u8>, i: int)
    requires
        0 <= i <= t.len(),
    ensures
        i <= line_end(t, i) <= t.len(),
    decreases t.len() - i,
{
    if i < t.len() && !is_line_feed(t[i]) {
        lemma_line_end(t, i + 1);
    }
}

/// A token ends at or after its start, and within its line.
pub proof fn lemma_token_end(t: Seq<u8>, i: int, end: int)
    requires
        0 <= i <= end,
    ensures
        i <= token_end(t, i, end) <= end,
    decreases end - i,
{
    if i < end && !is_blank(t[i]) {
        lemma_token_end(t, i + 1, end);
    }
}

/// The tokens of `t[i..end]`: its maximal runs of bytes that are not blank.
pub open spec fn tokens(t: Seq<u8>, i: int, end: int) -> Seq<Seq<u8>>
    decreases end - i,
{
    if i < 0 || i >= end {
        seq![]
    } else if is_blank(t[i]) {
        tokens(t, i + 1, end)
    } else {
        proof {
            lemma_token_end(t, i + 1, end);
        }
        seq![t.subrange(i, token_end(t, i + 1, end))] + tokens(t, token_end(t, i + 1, end), end)
    }
}

/// The number written by a string of decimal digits.
pub open spec fn digits_value(s: Seq<u8>) -> nat
    decreases s.len(),
{
    if s.len() == 0 {
        0
    } else {
        digits_value(s.drop_last()) * 10 + (s.last() - 48) as nat
    }
}

/// A node id: decimal digits only, at least one, for a value that fits `usize`.
pub open spec fn is_id(s: Seq<u8>) -> bool {
    &&& s.len() > 0
    &&& forall|k: int| 0 <= k < s.len() ==> is_digit(#[trigger] s[k])
    &&& digits_value(s) <= usize::MAX
}

/// What the line `t[i..end]` says: an edge, nothing (both ids equal), or why
/// it is malformed.
pub open spec fn line_edge(t: Seq<u8>, i: int, end: int) -> Result<
    Option<(usize, usize)>,
    EdgeListError,
> {
    let toks = tokens(t, i, end);
    if toks.len() != 2 {
        Err(EdgeListError::WrongTokenCount)
    } else if !is_id(toks[0]) || !is_id(toks[1]) {
        Err(EdgeListError::InvalidNumber)
    } else if digits_value(toks[0]) == digits_value(toks[1]) {
        Ok(None)
    } else {
        Ok(Some((digits_value(toks[0]) as usize, digits_value(toks[1]) as usize)))
    }
}

/// `front` followed by the edges of `rest`, or the error of `rest`.
pub open spec fn prepend(
    front: Seq<(usize, usize)>,
    rest: Result<Seq<(usize, usize)>, EdgeListError>,
) -> Result<Seq<(usize, usize)>, EdgeListError> {
    match rest {
        Ok(es) => Ok(front + es),
        Err(e) => Err(e),
    }
}

/// The edges of the lines that start at `i` or later, in order, or the error
/// of the first malformed one. A final line feed ends the last line; it does
/// not open an empty one.
pub open spec fn edges_from(t: Seq<u8>, i: int) -> Result<Seq<(usize, usize)>, EdgeListError>
    decreases t.len() + 1 - i,
    via edges_from_decreases
{
    if i < 0 || i >= t.len() {
        Ok(seq![])
    } else {
        let rest = edges_from(t, line_end(t, i) + 1);
        match line_edge(t, i, line_end(t, i)) {
            Err(e) => Err(e),
            Ok(None) => rest,
            Ok(Some(edge)) => prepend(seq![edge], rest),
        }
    }
}

#[via_fn]
proof fn edges_from_decreases(t: Seq<u8>, i: int) {
    if 0 <= i < t.len() {
        lemma_line_end(t, i);
    }
}

/// The edges that the whole text lists.
pub open spec fn edge_list(t: Seq<u8>) -> Result<Seq<(usize, usize)>, EdgeListError> {
    edges_from(t, 0)
}

/// The ids that the edges name.
pub open spec fn ids(es: Seq<(usize, usize)>) -> Set<int>
    decreases es.len(),
{
    if es.len() == 0 {
        Set::empty()
    } else {
        ids(es.drop_last()).insert(es.last().0 as int).insert(es.last().1 as int)
    }
}

pub open spec fn min(a: int, b: int) -> int {
    if a <= b {
        a
    } else {
        b
    }
}

pub open spec fn max(a: int, b: int) -> int {
    if a >= b {
        a
    } else {
        b
    }
}

/// The smallest id named (`usize::MAX` for no edge).
pub open spec fn lowest_id(es: Seq<(usize, usize)>) -> int
    decreases es.len(),
{
    if es.len() == 0 {
        usize::MAX as int
    } else {
        min(min(lowest_id(es.drop_last()), es.last().0 as int), es.last().1 as int)
    }
}

/// The largest id named (`0` for no edge).
pub open spec fn highest_id(es: Seq<(usize, usize)>) -> int
    decreases es.len(),
{
    if es.len() == 0 {
        0
    } else {
        max(max(highest_id(es.drop_last()), es.last().0 as int), es.last().1 as int)
    }
}

/// The number of nodes: the ids from the lowest to the highest.
pub open spec fn node_count(es: Seq<(usize, usize)>) -> int {
    if es.len() == 0 {
        0
    } else {
        highest_id(es) - lowest_id(es) + 1
    }
}

/// The ids named are exactly those from the lowest to the highest.
pub open spec fn ids_contiguous(es: Seq<(usize, usize)>) -> bool {
    ids(es) == set_int_range(lowest_id(es), lowest_id(es) + node_count(es))
}

/// The edge joins the ids `a` and `b`, in either direction.
pub open spec fn joins(e: (usize, usize), a: int, b: int) -> bool {
    (e.0 == a && e.1 == b) || (e.0 == b && e.1 == a)
}

/// The adjacency matrix of the edges, the ids renumbered from the lowest.
pub open spec fn edge_matrix(es: Seq<(usize, usize)>) -> Seq<Seq<bool>> {
    Seq::new(
        node_count(es) as nat,
        |i: int|
            Seq::new(
                node_count(es) as nat,
                |j: int|
                    exists|k: int|
                        0 <= k < es.len() && joins(
                            #[trigger] es[k],
                            lowest_id(es) + i,
                            lowest_id(es) + j,
                        ),
            ),
    )
}

/// What reading the text gives: the topology of its edges, or why it is refused.
pub open spec fn parsed(t: Seq<u8>) -> Result<Seq<Seq<bool>>, EdgeListError> {
    match edge_list(t) {
        Err(e) => Err(e),
        Ok(es) => if ids_contiguous(es) {
            Ok(edge_matrix(es))
        } else {
            Err(EdgeListError::IdGap)
        },
    }
}

fn is_blank_byte(b: u8) -> (r: bool)
    ensures
        r == is_blank(b),
{
    b == 32 || b == 9 || b == 11 || b == 12 || b == 13
}

fn find_line_end(text: &[u8], i: usize) -> (e: usize)
    requires
        i <= text@.len(),
    ensures
        e == line_end(text@, i as int),
        i <= e <= text@.len(),
{
    let mut e = i;
    while e < text.len() && text[e] != 10
        invariant
            i <= e <= text@.len(),
            line_end(text@, i as int) == line_end(text@, e as int),
        decreases text@.len() - e,
    {
        e = e + 1;
    }
    e
}

/// Counts the tokens of `text[start..end]` and gives the ranges of the first two.
fn split_line(text: &[u8], start: usize, end: usize) -> (r: (usize, (usize, usize), (usize, usize)))
    requires
        start <= end <= text@.len(),
    ensures
        r.0 == tokens(text@, start as int, end as int).len(),
        r.0 >= 1 ==> start <= r.1.0 < r.1.1 <= end && text@.subrange(r.1.0 as int, r.1.1 as int)
            == tokens(text@, start as int, end as int)[0],
        r.0 >= 2 ==> r.1.1 <= r.2.0 < r.2.1 <= end && text@.subrange(r.2.0 as int, r.2.1 as int)
            == tokens(text@, start as int, end as int)[1],
{
    let ghost t = text@;
    let ghost mut seen: Seq<Seq<u8>> = seq![];
    let mut count: usize = 0;
    let mut first: (usize, usize) = (0, 0);
    let mut second: (usize, usize) = (0, 0);
    let mut p = start;
    while p < end
        invariant
            start <= p <= end <= t.len(),
            t == text@,
            tokens(t, start as int, end as int) == seen + tokens(t, p as int, end as int),
            count == seen.len(),
            count <= p - start,
            count >= 1 ==> start <= first.0 < first.1 <= p && t.subrange(first.0 as int, first.1 as int)
                == seen[0],
            count >= 2 ==> first.1 <= second.0 < second.1 <= p && t.subrange(second.0 as int, second.1 as int)
                == seen[1],
        decreases end - p,
    {
        if is_blank_byte(text[p]) {
            p = p + 1;
        } else {
            let mut q = p + 1;
            while q < end && !is_blank_byte(text[q])
                invariant
                    p < q <= end <= t.len(),
                    t == text@,
                    token_end(t, p + 1, end as int) == token_end(t, q as int, end as int),
                decreases end - q,
            {
                q = q + 1;
            }
            let ghost before = seen;
            proof {
                seen = seen.push(t.subrange(p as int, q as int));
                assert(tokens(t, p as int, end as int) == seq![t.subrange(p as int, q as int)]
                    + tokens(t, q as int, end as int));
                assert(seen + tokens(t, q as int, end as int) =~= before + (seq![
                    t.subrange(p as int, q as int),
                ] + tokens(t, q as int, end as int)));
            }
            if count == 0 {
                first = (p, q);
            } else if count == 1 {
                second = (p, q);
            }
            count = count + 1;
            p = q;
        }
    }
    proof {
        assert(seen + tokens(t, p as int, end as int) =~= seen);
    }
    (count, first, second)
}

proof fn lemma_prefix_value_le(s: Seq<u8>, j: int)
    requires
        0 <= j <= s.len(),
    ensures
        digits_value(s.take(j)) <= digits_value(s),
    decreases s.len(),
{
    if j < s.len() {
        lemma_prefix_value_le(s.drop_last(), j);
        assert(s.drop_last().take(j) =~= s.take(j));
    } else {
        assert(s.take(j) =~= s);
    }
}

/// Reads the node id written in `text[start..end]`.
fn parse_id(text: &[u8], start: usize, end: usize) -> (r: Option<usize>)
    requires
        start <= end <= text@.len(),
    ensures
        r is Some <==> is_id(text@.subrange(start as int, end as int)),
        r is Some ==> r->Some_0 == digits_value(text@.subrange(start as int, end as int)),
{
    let ghost s = text@.subrange(start as int, end as int);
    if start == end {
        return None;
    }
    let mut value: usize = 0;
    let mut overflow = false;
    let mut k = start;
    while k < end
        invariant
            start <= k <= end <= text@.len(),
            s == text@.subrange(start as int, end as int),
            forall|a: int| 0 <= a < k - start ==> is_digit(#[trigger] s[a]),
            !overflow ==> value == digits_value(s.take(k - start)),
            overflow ==> digits_value(s.take(k - start)) > usize::MAX,
        decreases end - k,
    {
        let b = text[k];
        if b < 48 || b > 57 {
            assert(!is_digit(s[k - start]));
            return None;
        }
        proof {
            assert(s.take(k - start + 1).drop_last() =~= s.take(k - start));
        }
        if !overflow {
            match value.checked_mul(10) {
                Some(tens) => match tens.checked_add((b - 48) as usize) {
                    Some(next) => {
                        value = next;
                    },
                    None => {
                        overflow = true;
                    },
                },
                None => {
                    overflow = true;
                },
            }
        }
        k = k + 1;
    }
    proof {
        assert(s.take(end - start) =~= s);
    }
    if overflow {
        None
    } else {
        Some(value)
    }
}

/// Reads one line, `text[start..end]`.
fn parse_line(text: &[u8], start: usize, end: usize) -> (r: Result<Option<(usize, usize)>, EdgeListError>)
    requires
        start <= end <= text@.len(),
    ensures
        r == line_edge(text@, start as int, end as int),
        r matches Ok(Some(_)) ==> end - start >= 2,
{
    let (count, first, second) = split_line(text, start, end);
    if count != 2 {
        return Err(EdgeListError::WrongTokenCount);
    }
    let u = parse_id(text, first.0, first.1);
    let v = parse_id(text, second.0, second.1);
    match (u, v) {
        (Some(u), Some(v)) => {
            if u == v {
                Ok(None)
            } else {
                Ok(Some((u, v)))
            }
        },
        _ => Err(EdgeListError::InvalidNumber),
    }
}

/// No id lies outside the range from the lowest to the highest.
pub proof fn lemma_ids_within(es: Seq<(usize, usize)>)
    ensures
        forall|x: int| #[trigger]
            ids(es).contains(x) ==> lowest_id(es) <= x <= highest_id(es),
        forall|k: int|
            0 <= k < es.len() ==> lowest_id(es) <= (#[trigger] es[k]).0 <= highest_id(es)
                && lowest_id(es) <= es[k].1 <= highest_id(es),
    decreases es.len(),
{
    if es.len() > 0 {
        let rest = es.drop_last();
        lemma_ids_within(rest);
        assert forall|x: int| #[trigger] ids(es).contains(x) implies lowest_id(es) <= x
            <= highest_id(es) by {
            if ids(rest).contains(x) {
                assert(lowest_id(rest) <= x <= highest_id(rest));
            }
        }
        assert forall|k: int| 0 <= k < es.len() implies lowest_id(es) <= (#[trigger] es[k]).0
            <= highest_id(es) && lowest_id(es) <= es[k].1 <= highest_id(es) by {
            if k < es.len() - 1 {
                assert(es[k] == rest[k]);
            }
        }
    }
}

/// Each edge names at most two ids.
pub proof fn lemma_ids_len(es: Seq<(usize, usize)>)
    ensures
        ids(es).finite(),
        ids(es).len() <= 2 * es.len(),
    decreases es.len(),
{
    if es.len() > 0 {
        let rest = es.drop_last();
        lemma_ids_len(rest);
        let once = ids(rest).insert(es.last().0 as int);
        vstd::set::axiom_set_insert_len(ids(rest), es.last().0 as int);
        vstd::set::axiom_set_insert_len(once, es.last().1 as int);
    }
}

/// When the ids are contiguous, the matrix has one row for each distinct id.
pub proof fn lemma_node_count_is_id_count(es: Seq<(usize, usize)>)
    requires
        ids_contiguous(es),
    ensures
        node_count(es) == ids(es).len(),
{
    lemma_ids_within(es);
    if es.len() > 0 {
        assert(lowest_id(es) <= es[0].0 <= highest_id(es));
    }
    lemma_int_range(lowest_id(es), lowest_id(es) + node_count(es));
}

/// The matrix of edges that each join two distinct ids is symmetric and has
/// no self-loop.
pub proof fn lemma_edge_matrix_is_adjacency(es: Seq<(usize, usize)>)
    requires
        forall|k: int| 0 <= k < es.len() ==> (#[trigger] es[k]).0 != es[k].1,
    ensures
        is_adjacency(edge_matrix(es)),
{
    let m = edge_matrix(es);
    let lo = lowest_id(es);
    assert forall|i: int, j: int| 0 <= i < m.len() && 0 <= j < m.len() implies #[trigger] m[i][j]
        == m[j][i] by {
        if m[i][j] {
            let k = choose|k: int| 0 <= k < es.len() && joins(#[trigger] es[k], lo + i, lo + j);
            assert(joins(es[k], lo + j, lo + i));
        }
        if m[j][i] {
            let k = choose|k: int| 0 <= k < es.len() && joins(#[trigger] es[k], lo + j, lo + i);
            assert(joins(es[k], lo + i, lo + j));
        }
    }
    assert forall|i: int| 0 <= i < m.len() implies !#[trigger] m[i][i] by {
        if m[i][i] {
            let k = choose|k: int| 0 <= k < es.len() && joins(#[trigger] es[k], lo + i, lo + i);
        }
    }
}

/// Reads the edges of all lines, in order.
fn read_edges(text: &[u8]) -> (r: Result<Vec<(usize, usize)>, EdgeListError>)
    ensures
        match edge_list(text@) {
            Ok(es) => r is Ok && r->Ok_0@ == es,
            Err(e) => r == Err::<Vec<(usize, usize)>, EdgeListError>(e),
        },
        r is Ok ==> 2 * r->Ok_0@.len() <= text@.len(),
        r is Ok ==> forall|k: int|
            0 <= k < r->Ok_0@.len() ==> (#[trigger] r->Ok_0@[k]).0 != r->Ok_0@[k].1,
{
    let ghost t = text@;
    let mut edges: Vec<(usize, usize)> = Vec::new();
    let mut i: usize = 0;
    while i < text.len()
        invariant
            t == text@,
            i <= t.len(),
            edge_list(t) == prepend(edges@, edges_from(t, i as int)),
            2 * edges@.len() <= i,
            forall|k: int| 0 <= k < edges@.len() ==> (#[trigger] edges@[k]).0 != edges@[k].1,
        decreases t.len() - i,
    {
        let e = find_line_end(text, i);
        let ghost rest = edges_from(t, e + 1);
        assert(edges_from(t, i as int) == match line_edge(t, i as int, e as int) {
            Err(err) => Err(err),
            Ok(None) => rest,
            Ok(Some(edge)) => prepend(seq![edge], rest),
        });
        match parse_line(text, i, e) {
            Err(err) => {
                return Err(err);
            },
            Ok(None) => {},
            Ok(Some(edge)) => {
                let ghost before = edges@;
                edges.push(edge);
                proof {
                    if rest is Ok {
                        assert(before + (seq![edge] + rest->Ok_0) =~= edges@ + rest->Ok_0);
                    }
                }
            },
        }
        if e < text.len() {
            i = e + 1;
        } else {
            i = text.len();
        }
    }
    assert(edges@ + seq![] =~= edges@);
    Ok(edges)
}

fn all_false(n: usize) -> (r: Vec<bool>)
    ensures
        r@.len() == n,
        forall|j: int| 0 <= j < n ==> !#[trigger] r@[j],
{
    let mut r: Vec<bool> = Vec::new();
    let mut j: usize = 0;
    while j < n
        invariant
            j <= n,
            r@.len() == j,
            forall|a: int| 0 <= a < j ==> !#[trigger] r@[a],
        decreases n - j,
    {
        r.push(false);
        j = j + 1;
    }
    r
}

/// Renumbers the ids of the edges from the lowest and builds their matrix.
fn build_topology(edges: &Vec<(usize, usize)>) -> (r: Result<Topology, EdgeListError>)
    requires
        2 * edges@.len() <= usize::MAX,
        forall|k: int| 0 <= k < edges@.len() ==> (#[trigger] edges@[k]).0 != edges@[k].1,
    ensures
        ids_contiguous(edges@) ==> r is Ok && r->Ok_0@ == edge_matrix(edges@) && r->Ok_0.wf(),
        !ids_contiguous(edges@) ==> r == Err::<Topology, EdgeListError>(EdgeListError::IdGap),
{
    let ghost es = edges@;
    let len = edges.len();
    if len == 0 {
        let r = Topology::empty();
        assert(ids(es) =~= set_int_range(lowest_id(es), lowest_id(es) + node_count(es)));
        assert(r@ =~= edge_matrix(es));
        return Ok(r);
    }
    let mut lo: usize = usize::MAX;
    let mut hi: usize = 0;
    let mut k: usize = 0;
    while k < len
        invariant
            len == es.len(),
            es == edges@,
            k <= len,
            lo == lowest_id(es.take(k as int)),
            hi == highest_id(es.take(k as int)),
        decreases len - k,
    {
        assert(es.take(k + 1).drop_last() =~= es.take(k as int));
        let (u, v) = edges[k];
        if u < lo {
            lo = u;
        }
        if v < lo {
            lo = v;
        }
        if u > hi {
            hi = u;
        }
        if v > hi {
            hi = v;
        }
        k = k + 1;
    }
    assert(es.take(len as int) =~= es);
    proof {
        lemma_ids_within(es);
        lemma_ids_len(es);
        assert(lo <= es[0].0 <= hi);
    }
    if hi - lo >= 2 * len {
        proof {
            if ids_contiguous(es) {
                lemma_int_range(lo as int, hi + 1);
            }
        }
        return Err(EdgeListError::IdGap);
    }
    let n = hi - lo + 1;
    let mut seen = all_false(n);
    let mut k: usize = 0;
    while k < len
        invariant
            len == es.len(),
            es == edges@,
            k <= len,
            n == hi - lo + 1,
            lo == lowest_id(es),
            hi == highest_id(es),
            forall|a: int|
                0 <= a < es.len() ==> lo <= (#[trigger] es[a]).0 <= hi && lo <= es[a].1 <= hi,
            seen@.len() == n,
            forall|x: int| 0 <= x < n ==> #[trigger] seen@[x] == ids(es.take(k as int)).contains(lo + x),
        decreases len - k,
    {
        assert(es.take(k + 1).drop_last() =~= es.take(k as int));
        assert(es.take(k + 1).last() == es[k as int]);
        let (u, v) = edges[k];
        seen.set(u - lo, true);
        seen.set(v - lo, true);
        k = k + 1;
    }
    assert(es.take(len as int) =~= es);
    let mut x: usize = 0;
    while x < n
        invariant
            len == es.len(),
            es == edges@,
            len > 0,
            n == hi - lo + 1,
            lo == lowest_id(es),
            hi == highest_id(es),
            seen@.len() == n,
            x <= n,
            forall|y: int| 0 <= y < n ==> #[trigger] seen@[y] == ids(es).contains(lo + y),
            forall|y: int| 0 <= y < x ==> #[trigger] seen@[y],
        decreases n - x,
    {
        if !seen[x] {
            assert(!ids(es).contains(lo + x));
            assert(set_int_range(lo as int, lo + node_count(es)).contains(lo + x));
            assert(!ids_contiguous(es));
            return Err(EdgeListError::IdGap);
        }
        x = x + 1;
    }
    proof {
        assert forall|y: int| #[trigger]
            set_int_range(lo as int, lo + node_count(es)).contains(y) implies ids(es).contains(y) by {
            assert(seen@[y - lo] == ids(es).contains(lo + (y - lo)));
        }
        assert(ids(es) =~= set_int_range(lowest_id(es), lowest_id(es) + node_count(es)));
    }
    let ghost m = edge_matrix(es);
    let mut rows: Vec<Vec<bool>> = Vec::new();
    let mut i: usize = 0;
    while i < n
        invariant
            len == es.len(),
            es == edges@,
            n == hi - lo + 1,
            n == node_count(es),
            lo == lowest_id(es),
            m == edge_matrix(es),
            i <= n,
            rows@.len() == i,
            forall|a: int| 0 <= a < i ==> (#[trigger] rows@[a])@ == m[a],
            forall|a: int|
                0 <= a < es.len() ==> lo <= (#[trigger] es[a]).0 <= hi && lo <= es[a].1 <= hi,
        decreases n - i,
    {
        let mut row = all_false(n);
        let mut k: usize = 0;
        while k < len
            invariant
                len == es.len(),
                es == edges@,
                n == hi - lo + 1,
                i < n,
                k <= len,
                row@.len() == n,
                forall|a: int|
                    0 <= a < es.len() ==> lo <= (#[trigger] es[a]).0 <= hi && lo <= es[a].1 <= hi,
                forall|j: int|
                    0 <= j < n ==> #[trigger] row@[j] == exists|a: int|
                        0 <= a < k && joins(#[trigger] es[a], lo + i, lo + j),
            decreases len - k,
        {
            let ghost prev = row@;
            let (u, v) = edges[k];
            if u - lo == i {
                row.set(v - lo, true);
            }
            if v - lo == i {
                row.set(u - lo, true);
            }
            proof {
                assert forall|j: int| 0 <= j < n implies #[trigger] row@[j] == exists|a: int|
                    0 <= a < k + 1 && joins(#[trigger] es[a], lo + i, lo + j) by {
                    if joins(es[k as int], lo + i, lo + j) {
                        assert(row@[j]);
                    } else if prev[j] {
                        let a = choose|a: int| 0 <= a < k && joins(#[trigger] es[a], lo + i, lo + j);
                        assert(row@[j]);
                    } else {
                        assert(!row@[j]);
                        if exists|a: int| 0 <= a < k + 1 && joins(#[trigger] es[a], lo + i, lo + j) {
                            let a = choose|a: int|
                                0 <= a < k + 1 && joins(#[trigger] es[a], lo + i, lo + j);
                            assert(a == k);
                        }
                    }
                }
            }
            k = k + 1;
        }
        assert(row@ =~= m[i as int]);
        rows.push(row);
        i = i + 1;
    }
    proof {
        lemma_rows_view(rows@);
        assert(rows_view(rows@) =~= m);
        lemma_edge_matrix_is_adjacency(es);
    }
    Ok(Topology::from_rows(rows))
}

/// Reads an edge list: one edge per line, two node ids separated by blanks.
/// The ids are renumbered from the lowest; a line naming one id twice adds
/// no edge. Fails on the first line that does not hold exactly two tokens or
/// holds one that is not a number, and when the ids leave a gap.
pub fn parse_edge_list(text: &[u8]) -> (r: Result<Topology, EdgeListError>)
    ensures
        match parsed(text@) {
            Ok(m) => r is Ok && r->Ok_0@ == m && r->Ok_0.wf(),
            Err(e) => r == Err::<Topology, EdgeListError>(e),
        },
{
    let size = text.len();
    match read_edges(text) {
        Ok(edges) => {
            assert(2 * edges@.len() <= size);
            build_topology(&edges)
        },
        Err(e) => Err(e),
    }
}

} // verus!
