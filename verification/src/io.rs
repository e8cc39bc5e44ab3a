//! Decoding patterns and host graphs from text.
//!
//! Patterns arrive as graph6-style directed-graph strings, decoded through
//! the `graph6_rs` crate behind a trusted boundary and checked here.  Host
//! graphs arrive as whitespace-separated 1-indexed numeric edge lists, one
//! `u v` arc per line, parsed and validated entirely in this module: a zero
//! vertex id is rejected, blank lines are skipped, and self-loops are kept
//! or dropped as requested.

use vstd::prelude::*;

use crate::bitgraph::{lemma_grid_index, Bitgraph};

use vstd::string::StringSliceAdditionalSpecFns;

verus! {

/// Why a piece of input text was rejected.
#[derive(Clone, Copy, Debug, PartialEq, Eq, Structural)]
pub enum GraphError {
    /// The text is not a well-formed graph6 directed graph.
    BadGraph6,
    /// An edge line holds only one field.
    MissingField,
    /// A field is not a decimal number fitting 32 bits.
    BadNumber,
    /// A vertex id 0 appeared; vertex ids are 1-indexed.
    ZeroIndexed,
    /// The vertex count is too large for an adjacency matrix.
    TooLarge,
    /// The pattern has more vertices than the trie's depth.
    PatternTooDeep,
    /// The pattern carries a self-loop.
    LoopedPattern,
    /// Some pattern vertex has no edge to any earlier vertex.
    DisconnectedPattern,
}

impl GraphError {
    /// The exact text of each failure account.
    pub open spec fn spec_message(self) -> Seq<char> {
        match self {
            GraphError::BadGraph6 => "invalid graph6 directed-graph text"@,
            GraphError::MissingField => "an edge line must name two vertices"@,
            GraphError::BadNumber => "a vertex id must be a decimal number below 2^32"@,
            GraphError::ZeroIndexed => "found a node index 0; please use 1-indexed node indices"@,
            GraphError::TooLarge => "the graph is too large for an adjacency matrix"@,
            GraphError::PatternTooDeep => "the pattern has more vertices than the trie admits"@,
            GraphError::LoopedPattern => "patterns may not carry self-loops"@,
            GraphError::DisconnectedPattern => "every pattern vertex must connect to an earlier one"@,
        }
    }

    /// A human-readable account of the failure.
    pub fn message(&self) -> (r: String)
        ensures
            r@ == self.spec_message(),
    {
        match self {
            GraphError::BadGraph6 => String::from_str("invalid graph6 directed-graph text"),
            GraphError::MissingField => String::from_str(
                "an edge line must name two vertices",
            ),
            GraphError::BadNumber => String::from_str(
                "a vertex id must be a decimal number below 2^32",
            ),
            GraphError::ZeroIndexed => String::from_str(
                "found a node index 0; please use 1-indexed node indices",
            ),
            GraphError::TooLarge => String::from_str(
                "the graph is too large for an adjacency matrix",
            ),
            GraphError::PatternTooDeep => String::from_str(
                "the pattern has more vertices than the trie admits",
            ),
            GraphError::LoopedPattern => String::from_str(
                "patterns may not carry self-loops",
            ),
            GraphError::DisconnectedPattern => String::from_str(
                "every pattern vertex must connect to an earlier one",
            ),
        }
    }
}

/// What `graph6_rs` decodes from a directed graph6 byte string: the vertex
/// count and the row-major bit vector, if the text is well formed.
pub uninterp spec fn d6_digraph_of(s: Seq<u8>) -> Option<(usize, Seq<usize>)>;

/// The graph6 text `graph6_rs` produces for a flattened bit matrix.
pub uninterp spec fn graph6_of(bits: Seq<usize>, n: int, dir: bool) -> Seq<char>;

/// Relies on `graph6_rs::DiGraph::from_d6`: decodes a directed graph6
/// string into its vertex count and its 0/1 bit vector, a function of the
/// text alone.  The decoder takes the size from its second byte minus 63,
/// rejecting only values below zero and the multi-byte marker, so counts up
/// to 192 can come back and callers bound them themselves.  It reads the
/// first two bytes unconditionally, so shorter inputs are excluded.
#[verifier::external_body]
fn parse_digraph6(repr: &str) -> (r: Option<(usize, Vec<usize>)>)
    requires
        repr.spec_bytes().len() >= 2,
    ensures
        ({
            let m = d6_digraph_of(repr.spec_bytes());
            match r {
                Some(p) => m is Some && p.0 == m.unwrap().0 && p.1@ == m.unwrap().1
                    && forall|i: int| 0 <= i < p.1@.len() ==> (#[trigger] p.1@[i]) <= 1,
                None => m is None,
            }
        }),
{
    match graph6_rs::DiGraph::from_d6(repr) {
        Ok(g) => Some((g.n, g.bit_vec)),
        Err(_) => None,
    }
}

/// Relies on `graph6_rs::write_graph6`: encodes a 0/1 bit matrix of side
/// `n` (at most 62, the single-byte size limit) as graph6 text, a function
/// of its arguments alone.  The undirected writer takes the upper triangle,
/// whose size formula underflows at `n == 0`, so that case is excluded.
#[verifier::external_body]
fn write_digraph6(bit_vec: Vec<usize>, n: usize, is_dir: bool) -> (r: String)
    requires
        bit_vec@.len() == n * n,
        n <= 62,
        is_dir || n >= 1,
        forall|i: int| 0 <= i < bit_vec@.len() ==> (#[trigger] bit_vec@[i]) <= 1,
    ensures
        r@ == graph6_of(bit_vec@, n as int, is_dir),
{
    graph6_rs::write_graph6(bit_vec, n, is_dir)
}

/// The graph6 label of a pattern graph.  An empty undirected graph has no
/// graph6 text, so it is excluded.
pub fn pattern_label(graph: &Bitgraph) -> (r: String)
    requires
        graph.wf(),
        graph.n <= 62,
        graph.is_dir || graph.n >= 1,
    ensures
        r@ == graph6_of(
            Seq::new((graph.n * graph.n) as nat, |k: int| if graph.edge(k / graph.n as int, k % graph.n as int) { 1usize } else { 0usize }),
            graph.n as int,
            graph.is_dir,
        ),
{
    let bits = graph.as_bitvec();
    proof {
        let n = graph.n as int;
        let model = Seq::new(
            (graph.n * graph.n) as nat,
            |k: int| if graph.edge(k / n, k % n) { 1usize } else { 0usize },
        );
        assert forall|k: int| 0 <= k < bits@.len() implies bits@[k] == model[k] by {
            let u = k / n;
            let v = k % n;
            if n > 0 {
                assert(0 <= v < n) by (nonlinear_arith)
                    requires n > 0, v == k % n;
                assert(k == u * n + v) by (nonlinear_arith)
                    requires n > 0, u == k / n, v == k % n;
                assert(0 <= u < n) by (nonlinear_arith)
                    requires n > 0, 0 <= k < n * n, u == k / n;
            }
        }
        assert(bits@ =~= model);
    }
    write_digraph6(bits, graph.n_nodes(), graph.is_dir())
}

/// Decodes one graph6 directed-graph line into a [`Bitgraph`].  Succeeds
/// exactly when the text decodes, its vertex count fits the single-byte
/// graph6 size limit, and its bit vector covers the full `n * n` matrix;
/// the graph then has an edge wherever the bit vector holds a one.
pub fn load_repr(repr: &str) -> (r: Result<Bitgraph, GraphError>)
    ensures
        r is Ok <==> (repr.spec_bytes().len() >= 2 && d6_digraph_of(repr.spec_bytes()) is Some
            && {
            let d = d6_digraph_of(repr.spec_bytes()).unwrap();
            d.0 <= 62 && d.1.len() == d.0 * d.0
        }),
        r is Err ==> r->Err_0 == GraphError::BadGraph6,
        r is Ok ==> {
            let d = d6_digraph_of(repr.spec_bytes()).unwrap();
            let g = r->Ok_0;
            &&& g.wf()
            &&& g.n == d.0
            &&& g.is_dir
            &&& forall|u: int, v: int|
                0 <= u < g.n && 0 <= v < g.n ==> (#[trigger] g.edge(u, v) <==> d.1[u * d.0 + v]
                    == 1)
        },
{
    if repr.as_bytes().len() < 2 {
        return Err(GraphError::BadGraph6);
    }
    let parsed = parse_digraph6(repr);
    match parsed {
        None => Err(GraphError::BadGraph6),
        Some((n, bits)) => {
            if n > 62 {
                return Err(GraphError::BadGraph6);
            }
            proof {
                assert(n * n <= 3844) by (nonlinear_arith)
                    requires n <= 62;
            }
            if bits.len() != n * n {
                return Err(GraphError::BadGraph6);
            }
            let mut edges: Vec<(usize, usize)> = Vec::new();
            let mut u: usize = 0;
            while u < n
                invariant
                    n <= 62,
                    n * n <= usize::MAX,
                    bits@.len() == n * n,
                    u <= n,
                    forall|t: int|
                        0 <= t < edges@.len() ==> (#[trigger] edges@[t]).0 < n && edges@[t].1 < n,
                    forall|a: int, b: int|
                        #![trigger edges@.contains((a as usize, b as usize))]
                        0 <= a < n && 0 <= b < n ==> (edges@.contains((a as usize, b as usize))
                            <==> (a < u && bits@[a * n + b] == 1)),
                decreases n - u,
            {
                let mut v: usize = 0;
                while v < n
                    invariant
                        n <= 62,
                        n * n <= usize::MAX,
                        bits@.len() == n * n,
                        u < n,
                        v <= n,
                        forall|t: int|
                            0 <= t < edges@.len() ==> (#[trigger] edges@[t]).0 < n && edges@[t].1
                                < n,
                        forall|a: int, b: int|
                            #![trigger edges@.contains((a as usize, b as usize))]
                            0 <= a < n && 0 <= b < n ==> (edges@.contains((a as usize, b as usize))
                                <==> ((a < u || (a == u && b < v)) && bits@[a * n + b] == 1)),
                    decreases n - v,
                {
                    proof {
                        lemma_grid_index(n as int, u as int, v as int);
                    }
                    let ghost pre = edges@;
                    if bits[u * n + v] == 1 {
                        edges.push((u, v));
                        proof {
                            assert forall|a: int, b: int|
                                #![trigger edges@.contains((a as usize, b as usize))]
                                0 <= a < n && 0 <= b < n implies (edges@.contains(
                                (a as usize, b as usize),
                            ) <==> ((a < u || (a == u && b < v + 1)) && bits@[a * n + b] == 1))
                                by {
                                lemma_grid_index(n as int, a, b);
                                if a == u as int && b == v as int {
                                    assert(edges@[edges@.len() - 1] == (a as usize, b as usize));
                                } else {
                                    if edges@.contains((a as usize, b as usize)) {
                                        let t = choose|t: int|
                                            0 <= t < edges@.len() && edges@[t] == (
                                            a as usize,
                                            b as usize,
                                            );
                                        if t < pre.len() {
                                            assert(pre[t] == (a as usize, b as usize));
                                            assert(pre.contains((a as usize, b as usize)));
                                        }
                                    }
                                    if pre.contains((a as usize, b as usize)) {
                                        let t = choose|t: int|
                                            0 <= t < pre.len() && pre[t] == (
                                            a as usize,
                                            b as usize,
                                            );
                                        assert(edges@[t] == (a as usize, b as usize));
                                    }
                                }
                            }
                        }
                    } else {
                        proof {
                            assert forall|a: int, b: int|
                                #![trigger edges@.contains((a as usize, b as usize))]
                                0 <= a < n && 0 <= b < n implies (edges@.contains(
                                (a as usize, b as usize),
                            ) <==> ((a < u || (a == u && b < v + 1)) && bits@[a * n + b] == 1))
                                by {
                                lemma_grid_index(n as int, a, b);
                            }
                        }
                    }
                    v += 1;
                }
                u += 1;
            }
            let g = Bitgraph::from_edges(n, true, &edges);
            proof {
                assert forall|a: int, b: int|
                    0 <= a < n && 0 <= b < n implies (#[trigger] g.edge(a, b) <==> d6_digraph_of(
                    repr.spec_bytes(),
                ).unwrap().1[a * n + b] == 1) by {
                    assert(g.edge(a, b) <==> edges@.contains((a as usize, b as usize)));
                }
            }
            Ok(g)
        },
    }
}


/// The bytes treated as blanks between fields (space, tab, carriage
/// return).
pub open spec fn is_ws(b: u8) -> bool {
    b == 32 || b == 9 || b == 13
}

pub open spec fn is_digit(b: u8) -> bool {
    48 <= b <= 57
}

/// The first position at or after `i` holding a line feed, or the end.
pub open spec fn next_newline(s: Seq<u8>, i: int) -> int
    decreases s.len() - i,
{
    if i >= s.len() {
        s.len() as int
    } else if s[i] == 10 {
        i
    } else {
        next_newline(s, i + 1)
    }
}

pub proof fn lemma_next_newline_bounds(s: Seq<u8>, i: int)
    requires
        0 <= i <= s.len(),
    ensures
        i <= next_newline(s, i) <= s.len(),
        next_newline(s, i) < s.len() ==> s[next_newline(s, i)] == 10,
    decreases s.len() - i,
{
    if i < s.len() && s[i] != 10 {
        lemma_next_newline_bounds(s, i + 1);
    }
}

/// The first position in `[i, end)` holding a non-blank byte, or `end`.
pub open spec fn skip_ws(s: Seq<u8>, i: int, end: int) -> int
    decreases end - i,
{
    if i >= end {
        end
    } else if is_ws(s[i]) {
        skip_ws(s, i + 1, end)
    } else {
        i
    }
}

/// The end of the field starting at `i`: the first blank at or after it
/// within `[i, end)`, or `end`.
pub open spec fn token_end(s: Seq<u8>, i: int, end: int) -> int
    decreases end - i,
{
    if i >= end {
        end
    } else if is_ws(s[i]) {
        i
    } else {
        token_end(s, i + 1, end)
    }
}

pub proof fn lemma_skip_ws_bounds(s: Seq<u8>, i: int, end: int)
    requires
        0 <= i <= end,
    ensures
        i <= skip_ws(s, i, end) <= end,
    decreases end - i,
{
    if i < end && is_ws(s[i]) {
        lemma_skip_ws_bounds(s, i + 1, end);
    }
}

pub proof fn lemma_token_end_bounds(s: Seq<u8>, i: int, end: int)
    requires
        0 <= i <= end,
    ensures
        i <= token_end(s, i, end) <= end,
    decreases end - i,
{
    if i < end && !is_ws(s[i]) {
        lemma_token_end_bounds(s, i + 1, end);
    }
}

/// The decimal value of the digits `s[i .. j]`.
pub open spec fn digits_val(s: Seq<u8>, i: int, j: int) -> int
    decreases j - i,
{
    if j <= i {
        0
    } else {
        digits_val(s, i, j - 1) * 10 + (s[j - 1] - 48)
    }
}

pub open spec fn all_digits(s: Seq<u8>, i: int, j: int) -> bool {
    forall|t: int| i <= t < j ==> is_digit(#[trigger] s[t])
}

pub proof fn lemma_digits_val_nonneg(s: Seq<u8>, i: int, j: int)
    requires
        all_digits(s, i, j),
    ensures
        digits_val(s, i, j) >= 0,
    decreases j - i,
{
    if j > i {
        lemma_digits_val_nonneg(s, i, j - 1);
    }
}

/// The value of a digit run only grows as digits are appended.
pub proof fn lemma_digits_val_monotone(s: Seq<u8>, i: int, t: int, j: int)
    requires
        i <= t <= j,
        all_digits(s, i, j),
    ensures
        digits_val(s, i, t) <= digits_val(s, i, j),
    decreases j - t,
{
    if t < j {
        lemma_digits_val_monotone(s, i, t, j - 1);
        lemma_digits_val_nonneg(s, i, j - 1);
    }
}

/// The numeric field `s[i .. j]` as a 32-bit value: defined when the field
/// is nonempty, all digits, and fits.
pub open spec fn spec_field_u32(s: Seq<u8>, i: int, j: int) -> Option<u32> {
    if i < j && all_digits(s, i, j) && digits_val(s, i, j) <= u32::MAX {
        Some(digits_val(s, i, j) as u32)
    } else {
        None
    }
}

/// One line of a numeric edge list: blank lines yield nothing; otherwise the
/// first two blank-separated fields must be decimal vertex ids, both
/// nonzero (ids are 1-indexed).  A self-loop yields nothing unless loops
/// are kept; otherwise the pair, converted to 0-indexed ids.  Bytes after
/// the second field are ignored.
pub open spec fn spec_parse_line(s: Seq<u8>, start: int, end: int, include_loops: bool) -> Result<
    Option<(u32, u32)>,
    GraphError,
> {
    let a0 = skip_ws(s, start, end);
    if a0 >= end {
        Ok(None)
    } else {
        let a1 = token_end(s, a0, end);
        match spec_field_u32(s, a0, a1) {
            None => Err(GraphError::BadNumber),
            Some(u) => {
                let b0 = skip_ws(s, a1, end);
                if b0 >= end {
                    Err(GraphError::MissingField)
                } else {
                    let b1 = token_end(s, b0, end);
                    match spec_field_u32(s, b0, b1) {
                        None => Err(GraphError::BadNumber),
                        Some(v) => {
                            if u == 0 || v == 0 {
                                Err(GraphError::ZeroIndexed)
                            } else if u == v && !include_loops {
                                Ok(None)
                            } else {
                                Ok(Some(((u - 1) as u32, (v - 1) as u32)))
                            }
                        },
                    }
                }
            },
        }
    }
}

/// The whole edge list from position `i` on: the concatenation of every
/// line's edge, or the first error.
pub open spec fn spec_parse_edges(s: Seq<u8>, i: int, include_loops: bool) -> Result<
    Seq<(u32, u32)>,
    GraphError,
>
    decreases s.len() + 1 - i,
    when 0 <= i
    via spec_parse_edges_dec
{
    if i >= s.len() {
        Ok(Seq::empty())
    } else {
        let j = next_newline(s, i);
        match spec_parse_line(s, i, j, include_loops) {
            Err(e) => Err(e),
            Ok(opt) => match spec_parse_edges(s, j + 1, include_loops) {
                Err(e) => Err(e),
                Ok(rest) => Ok(
                    match opt {
                        Some(e) => seq![e] + rest,
                        None => rest,
                    },
                ),
            },
        }
    }
}

#[via_fn]
proof fn spec_parse_edges_dec(s: Seq<u8>, i: int, include_loops: bool) {
    if i < s.len() {
        lemma_next_newline_bounds(s, i);
    }
}

/// One more vertex than the largest 0-indexed endpoint, or zero with no
/// edges.
pub open spec fn spec_graph_order(edges: Seq<(u32, u32)>) -> int
    decreases edges.len(),
{
    if edges.len() == 0 {
        0
    } else {
        let rest = spec_graph_order(edges.drop_last());
        let e = edges.last();
        let m = if e.0 >= e.1 {
            e.0 as int + 1
        } else {
            e.1 as int + 1
        };
        if m >= rest {
            m
        } else {
            rest
        }
    }
}

pub proof fn lemma_graph_order_bounds(edges: Seq<(u32, u32)>)
    ensures
        0 <= spec_graph_order(edges) <= u32::MAX + 1,
        forall|t: int|
            0 <= t < edges.len() ==> (#[trigger] edges[t]).0 < spec_graph_order(edges)
                && edges[t].1 < spec_graph_order(edges),
    decreases edges.len(),
{
    if edges.len() > 0 {
        lemma_graph_order_bounds(edges.drop_last());
        assert forall|t: int|
            0 <= t < edges.len() implies (#[trigger] edges[t]).0 < spec_graph_order(edges)
            && edges[t].1 < spec_graph_order(edges) by {
            if t < edges.len() - 1 {
                assert(edges.drop_last()[t] == edges[t]);
            }
        }
    }
}


/// Parses the fields of one line exactly as [`spec_parse_line`] describes.
#[verifier::loop_isolation(false)]
fn parse_line(s: &Vec<u8>, start: usize, end: usize, include_loops: bool) -> (r: Result<
    Option<(u32, u32)>,
    GraphError,
>)
    requires
        start <= end <= s@.len(),
    ensures
        r == spec_parse_line(s@, start as int, end as int, include_loops),
{
    proof {
        lemma_skip_ws_bounds(s@, start as int, end as int);
    }
    let mut a0: usize = start;
    while a0 < end && (s[a0] == 32 || s[a0] == 9 || s[a0] == 13)
        invariant
            start <= a0 <= end,
            skip_ws(s@, start as int, end as int) == skip_ws(s@, a0 as int, end as int),
        decreases end - a0,
    {
        a0 += 1;
    }
    proof {
        assert(skip_ws(s@, a0 as int, end as int) == a0);
    }
    if a0 >= end {
        return Ok(None);
    }
    let (a1, fu) = parse_field(s, a0, end);
    let u = match fu {
        None => {
            return Err(GraphError::BadNumber);
        },
        Some(u) => u,
    };
    proof {
        lemma_token_end_bounds(s@, a0 as int, end as int);
        lemma_skip_ws_bounds(s@, a1 as int, end as int);
    }
    let mut b0: usize = a1;
    while b0 < end && (s[b0] == 32 || s[b0] == 9 || s[b0] == 13)
        invariant
            a1 <= b0 <= end,
            skip_ws(s@, a1 as int, end as int) == skip_ws(s@, b0 as int, end as int),
        decreases end - b0,
    {
        b0 += 1;
    }
    proof {
        assert(skip_ws(s@, b0 as int, end as int) == b0);
    }
    if b0 >= end {
        return Err(GraphError::MissingField);
    }
    let (_b1, fv) = parse_field(s, b0, end);
    let v = match fv {
        None => {
            return Err(GraphError::BadNumber);
        },
        Some(v) => v,
    };
    if u == 0 || v == 0 {
        Err(GraphError::ZeroIndexed)
    } else if u == v && !include_loops {
        Ok(None)
    } else {
        Ok(Some((u - 1, v - 1)))
    }
}

/// Scans the field starting at `i` and parses it as a 32-bit decimal.
#[verifier::loop_isolation(false)]
fn parse_field(s: &Vec<u8>, i: usize, end: usize) -> (r: (usize, Option<u32>))
    requires
        i <= end <= s@.len(),
        i < end,
        !is_ws(s@[i as int]),
    ensures
        r.0 == token_end(s@, i as int, end as int),
        r.1 == spec_field_u32(s@, i as int, r.0 as int),
{
    proof {
        lemma_token_end_bounds(s@, i as int, end as int);
    }
    let mut j: usize = i;
    while j < end && !(s[j] == 32 || s[j] == 9 || s[j] == 13)
        invariant
            i <= j <= end,
            token_end(s@, i as int, end as int) == token_end(s@, j as int, end as int),
        decreases end - j,
    {
        j += 1;
    }
    proof {
        assert(token_end(s@, j as int, end as int) == j);
    }
    let tok_end = j;
    let mut val: u64 = 0;
    let mut t: usize = i;
    while t < tok_end
        invariant
            i <= t <= tok_end,
            tok_end <= s@.len(),
            all_digits(s@, i as int, t as int),
            val == digits_val(s@, i as int, t as int),
            val <= u32::MAX,
        decreases tok_end - t,
    {
        let b = s[t];
        if b < 48 || b > 57 {
            proof {
                assert(!is_digit(s@[t as int]));
                assert(!all_digits(s@, i as int, tok_end as int));
            }
            return (tok_end, None);
        }
        let d = (b - 48) as u64;
        let w = val * 10 + d;
        proof {
            assert(all_digits(s@, i as int, t + 1));
            assert(digits_val(s@, i as int, t + 1) == digits_val(s@, i as int, t as int) * 10 + (
            s@[t as int] - 48));
        }
        if w > 0xFFFF_FFFFu64 {
            proof {
                lemma_digits_val_monotone_partial(s@, i as int, t + 1, tok_end as int);
            }
            return (tok_end, None);
        }
        val = w;
        t += 1;
    }
    proof {
        assert(i < tok_end);
    }
    (tok_end, Some(val as u32))
}

/// If an all-digit prefix already exceeds the 32-bit range, so does any
/// extension of it, whatever the remaining bytes are; and if some later byte
/// is not a digit, the whole run is not all digits.  Either way the field
/// has no 32-bit value.
proof fn lemma_digits_val_monotone_partial(s: Seq<u8>, i: int, t: int, j: int)
    requires
        i <= t <= j,
        all_digits(s, i, t),
        digits_val(s, i, t) > u32::MAX,
    ensures
        spec_field_u32(s, i, j) is None,
    decreases j - t,
{
    if all_digits(s, i, j) {
        lemma_digits_val_monotone(s, i, t, j);
    }
}

/// Parses a whitespace-separated 1-indexed numeric edge list into a graph.
/// Each nonblank line contributes one arc; the graph spans the vertices up
/// to the largest named id.  Fails exactly as the line grammar dictates, or
/// with `TooLarge` when the adjacency matrix cannot be allocated.
#[verifier::loop_isolation(false)]
pub fn load_numeric_graph_from_buffer(buffer: &Vec<u8>, include_loops: bool) -> (r: Result<
    Bitgraph,
    GraphError,
>)
    requires
        buffer@.len() < usize::MAX,
    ensures
        match spec_parse_edges(buffer@, 0, include_loops) {
            Err(e) => r == Err::<Bitgraph, GraphError>(e),
            Ok(es) => {
                let n = spec_graph_order(es);
                if n <= usize::MAX && n * n <= usize::MAX {
                    &&& r is Ok
                    &&& r->Ok_0.wf()
                    &&& r->Ok_0.n == n
                    &&& r->Ok_0.is_dir
                    &&& forall|a: int, b: int|
                        0 <= a < n && 0 <= b < n ==> (#[trigger] r->Ok_0.edge(a, b)
                            <==> es.contains((a as u32, b as u32)))
                } else {
                    r == Err::<Bitgraph, GraphError>(GraphError::TooLarge)
                }
            },
        },
{
    let len = buffer.len();
    let mut edges32: Vec<(u32, u32)> = Vec::new();
    let mut pos: usize = 0;
    while pos < len
        invariant
            len == buffer@.len(),
            pos <= len + 1,
            match spec_parse_edges(buffer@, pos as int, include_loops) {
                Ok(rest) => spec_parse_edges(buffer@, 0, include_loops) == Ok::<Seq<(u32, u32)>, GraphError>(edges32@ + rest),
                Err(e) => spec_parse_edges(buffer@, 0, include_loops) == Err::<
                    Seq<(u32, u32)>,
                    GraphError,
                >(e),
            },
        decreases len + 1 - pos,
    {
        proof {
            lemma_next_newline_bounds(buffer@, pos as int);
        }
        let mut j: usize = pos;
        while j < len && buffer[j] != 10
            invariant
                pos <= j <= len,
                next_newline(buffer@, pos as int) == next_newline(buffer@, j as int),
            decreases len - j,
        {
            j += 1;
        }
        proof {
            assert(next_newline(buffer@, j as int) == j);
        }
        let line = parse_line(buffer, pos, j, include_loops);
        let ghost pre = edges32@;
        match line {
            Err(e) => {
                return Err(e);
            },
            Ok(Some(e)) => {
                edges32.push(e);
            },
            Ok(None) => {},
        }
        proof {
            let sp = spec_parse_edges(buffer@, pos as int, include_loops);
            match spec_parse_edges(buffer@, j + 1, include_loops) {
                Ok(rest) => {
                    match spec_parse_line(buffer@, pos as int, j as int, include_loops) {
                        Ok(Some(e)) => {
                            assert(edges32@ == pre.push(e));
                            assert(pre.push(e) + rest =~= pre + (seq![e] + rest));
                        },
                        _ => {},
                    }
                },
                Err(_) => {},
            }
        }
        pos = j + 1;
    }
    proof {
        assert(spec_parse_edges(buffer@, pos as int, include_loops) == Ok::<
            Seq<(u32, u32)>,
            GraphError,
        >(Seq::empty()));
        assert(edges32@ + Seq::<(u32, u32)>::empty() =~= edges32@);
        lemma_graph_order_bounds(edges32@);
    }
    let n_edges = edges32.len();
    let mut order64: u64 = 0;
    let mut t: usize = 0;
    while t < n_edges
        invariant
            n_edges == edges32@.len(),
            t <= n_edges,
            order64 as int == spec_graph_order(edges32@.subrange(0, t as int)),
        decreases n_edges - t,
    {
        let (a, b) = edges32[t];
        let m: u64 = if a >= b {
            a as u64 + 1
        } else {
            b as u64 + 1
        };
        proof {
            assert(edges32@.subrange(0, t + 1).drop_last() =~= edges32@.subrange(0, t as int));
            assert(edges32@.subrange(0, t + 1).last() == (a, b));
        }
        if m > order64 {
            order64 = m;
        }
        t += 1;
    }
    proof {
        assert(edges32@.subrange(0, edges32@.len() as int) =~= edges32@);
    }
    if order64 > usize::MAX as u64 {
        return Err(GraphError::TooLarge);
    }
    let n = order64 as usize;
    match n.checked_mul(n) {
        None => Err(GraphError::TooLarge),
        Some(_sq) => {
            let mut edges: Vec<(usize, usize)> = Vec::new();
            let mut t2: usize = 0;
            while t2 < n_edges
                invariant
                    n_edges == edges32@.len(),
                    t2 <= n_edges,
                    n as int == spec_graph_order(edges32@),
                    edges@.len() == t2,
                    forall|k: int|
                        0 <= k < t2 ==> (#[trigger] edges@[k]) == (
                        edges32@[k].0 as usize,
                        edges32@[k].1 as usize,
                    ),
                decreases n_edges - t2,
            {
                let (a, b) = edges32[t2];
                edges.push((a as usize, b as usize));
                t2 += 1;
            }
            proof {
                lemma_graph_order_bounds(edges32@);
                assert forall|k: int|
                    0 <= k < edges@.len() implies (#[trigger] edges@[k]).0 < n && edges@[k].1 < n
                    by {
                    assert(edges32@[k].0 < n && edges32@[k].1 < n);
                }
            }
            let g = Bitgraph::from_edges(n, true, &edges);
            proof {
                lemma_graph_order_bounds(edges32@);
                assert forall|a: int, b: int|
                    0 <= a < n && 0 <= b < n implies (#[trigger] g.edge(a, b) <==> edges32@
                    .contains((a as u32, b as u32))) by {
                    assert(0 <= a <= u32::MAX && 0 <= b <= u32::MAX);
                    if g.edge(a, b) {
                        assert(edges@.contains((a as usize, b as usize)));
                        let k = choose|k: int|
                            0 <= k < edges@.len() && edges@[k] == (a as usize, b as usize);
                        assert(edges32@[k] == (a as u32, b as u32));
                    }
                    if edges32@.contains((a as u32, b as u32)) {
                        let k = choose|k: int|
                            0 <= k < edges32@.len() && edges32@[k] == (a as u32, b as u32);
                        assert(edges@[k] == (a as usize, b as usize));
                        assert(edges@.contains((a as usize, b as usize)));
                    }
                }
            }
            Ok(g)
        },
    }
}

} // verus!
