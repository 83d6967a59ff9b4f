//! Parsing of edge-list text lines.
//!
//! Each input line is split into whitespace-separated tokens. A single
//! integer token declares the vertex count (informational, last occurrence
//! wins), two integer tokens are an undirected edge, and a line with any
//! other token count or with a token that is not an integer is skipped.

use vstd::prelude::*;
use std::collections::HashMap;
use crate::graph::{add_edge, edge_added, has_edge};

verus! {

/// ASCII whitespace separating tokens.
pub open spec fn is_space(b: u8) -> bool {
    b == 32 || (9 <= b && b <= 13)
}

/// ASCII decimal digit.
pub open spec fn is_digit(b: u8) -> bool {
    48 <= b && b <= 57
}

/// The whitespace-separated tokens of `s` from position `i` on, given the
/// partial token `cur` read so far and the tokens `acc` already completed.
pub open spec fn tokens_from(s: Seq<u8>, i: int, cur: Seq<u8>, acc: Seq<Seq<u8>>) -> Seq<Seq<u8>>
    decreases s.len() - i,
{
    if i < 0 || i >= s.len() {
        if cur.len() > 0 {
            acc.push(cur)
        } else {
            acc
        }
    } else if is_space(s[i]) {
        tokens_from(
            s,
            i + 1,
            Seq::empty(),
            if cur.len() > 0 {
                acc.push(cur)
            } else {
                acc
            },
        )
    } else {
        tokens_from(s, i + 1, cur.push(s[i]), acc)
    }
}

/// The whitespace-separated tokens of `s`, in order.
pub open spec fn tokens(s: Seq<u8>) -> Seq<Seq<u8>> {
    tokens_from(s, 0, Seq::empty(), Seq::empty())
}

/// The value of a token read as a base-ten numeral.
pub open spec fn nat_val(t: Seq<u8>) -> nat
    decreases t.len(),
{
    if t.len() == 0 {
        0
    } else {
        nat_val(t.drop_last()) * 10 + (t.last() - 48) as nat
    }
}

/// A token made of decimal digits only (and at least one).
pub open spec fn is_nat_token(t: Seq<u8>) -> bool {
    t.len() > 0 && forall|i: int| 0 <= i < t.len() ==> is_digit(#[trigger] t[i])
}

/// A token that parses as a vertex identifier: digits only, with a value
/// that fits in `usize`.
pub open spec fn token_parses(t: Seq<u8>) -> bool {
    is_nat_token(t) && nat_val(t) <= usize::MAX as nat
}

/// What one input line directs the loader to do.
#[derive(Clone, Copy, Debug, PartialEq, Eq, Structural)]
pub enum Directive {
    /// A single integer token: declares the vertex count.
    VertexCount(usize),
    /// Two integer tokens: an undirected edge.
    Edge(usize, usize),
    /// No tokens at all.
    Blank,
    /// Any other token count, or a token that is not an integer.
    Malformed,
}

/// The directive denoted by a line.
pub open spec fn directive_of(s: Seq<u8>) -> Directive {
    let ts = tokens(s);
    if ts.len() == 0 {
        Directive::Blank
    } else if ts.len() == 1 && token_parses(ts[0]) {
        Directive::VertexCount(nat_val(ts[0]) as usize)
    } else if ts.len() == 2 && token_parses(ts[0]) && token_parses(ts[1]) {
        Directive::Edge(nat_val(ts[0]) as usize, nat_val(ts[1]) as usize)
    } else {
        Directive::Malformed
    }
}

/// A numeral is worth at least as much as any of its prefixes.
proof fn lemma_nat_val_take_le(s: Seq<u8>, k: int)
    requires
        0 <= k <= s.len(),
    ensures
        nat_val(s.take(k)) <= nat_val(s),
    decreases s.len() - k,
{
    if k == s.len() {
        assert(s.take(k) =~= s);
    } else {
        assert(s.take(k + 1).drop_last() =~= s.take(k));
        assert(s.take(k + 1).last() == s[k]);
        assert(nat_val(s.take(k + 1)) == nat_val(s.take(k)) * 10 + (s[k] - 48) as nat);
        lemma_nat_val_take_le(s, k + 1);
    }
}

fn space_byte(b: u8) -> (r: bool)
    ensures
        r == is_space(b),
{
    b == 32 || (9 <= b && b <= 13)
}

/// Splits a line into its whitespace-separated tokens, in order.
fn tokenize(line: &[u8]) -> (r: Vec<Vec<u8>>)
    ensures
        r@.len() == tokens(line@).len(),
        forall|j: int| 0 <= j < r@.len() ==> #[trigger] r@[j]@ == tokens(line@)[j],
{
    let mut toks: Vec<Vec<u8>> = Vec::new();
    let mut cur: Vec<u8> = Vec::new();
    let ghost mut acc_s: Seq<Seq<u8>> = Seq::empty();
    let mut i: usize = 0;
    proof {
        assert(cur@ =~= Seq::<u8>::empty());
        assert(toks@.len() == acc_s.len());
    }
    while i < line.len()
        invariant
            i <= line@.len(),
            tokens(line@) == tokens_from(line@, i as int, cur@, acc_s),
            toks@.len() == acc_s.len(),
            forall|j: int| 0 <= j < toks@.len() ==> #[trigger] toks@[j]@ == acc_s[j],
        decreases line@.len() - i,
    {
        let b = line[i];
        if space_byte(b) {
            if cur.len() > 0 {
                proof {
                    acc_s = acc_s.push(cur@);
                }
                toks.push(cur);
                cur = Vec::new();
            }
            proof {
                assert(cur@ =~= Seq::<u8>::empty());
            }
        } else {
            cur.push(b);
        }
        i += 1;
    }
    if cur.len() > 0 {
        proof {
            acc_s = acc_s.push(cur@);
        }
        toks.push(cur);
    }
    toks
}

/// Reads a token as a base-ten vertex identifier. Returns the value exactly
/// when the token is nonempty, all digits, and its value fits in `usize`.
fn parse_vertex(t: &[u8]) -> (r: Option<usize>)
    ensures
        r is Some <==> token_parses(t@),
        r matches Some(n) ==> n as nat == nat_val(t@),
{
    if t.len() == 0 {
        return None;
    }
    let mut acc: usize = 0;
    let mut i: usize = 0;
    while i < t.len()
        invariant
            i <= t@.len(),
            forall|j: int| 0 <= j < i ==> is_digit(#[trigger] t@[j]),
            acc as nat == nat_val(t@.take(i as int)),
        decreases t@.len() - i,
    {
        let b = t[i];
        if b < 48 || b > 57 {
            return None;
        }
        let dv = (b - 48) as usize;
        proof {
            assert(t@.take(i + 1).drop_last() =~= t@.take(i as int));
            assert(t@.take(i + 1).last() == t@[i as int]);
            assert(nat_val(t@.take(i + 1)) == nat_val(t@.take(i as int)) * 10 + (t@[i as int]
                - 48) as nat);
        }
        let wide: u128 = acc as u128 * 10 + dv as u128;
        if wide > usize::MAX as u128 {
            proof {
                lemma_nat_val_take_le(t@, i + 1);
            }
            return None;
        }
        acc = wide as usize;
        i += 1;
    }
    proof {
        assert(t@.take(t@.len() as int) =~= t@);
    }
    Some(acc)
}

/// Classifies one input line: a single integer token declares the vertex
/// count, two integer tokens are an undirected edge, a line with no tokens
/// is blank, and anything else is malformed.
pub fn parse_line(line: &[u8]) -> (r: Directive)
    ensures
        r == directive_of(line@),
{
    let toks = tokenize(line);
    if toks.len() == 0 {
        Directive::Blank
    } else if toks.len() == 1 {
        match parse_vertex(toks[0].as_slice()) {
            Some(n) => Directive::VertexCount(n),
            None => Directive::Malformed,
        }
    } else if toks.len() == 2 {
        let a = parse_vertex(toks[0].as_slice());
        let b = parse_vertex(toks[1].as_slice());
        match (a, b) {
            (Some(u), Some(v)) => Directive::Edge(u, v),
            _ => Directive::Malformed,
        }
    } else {
        Directive::Malformed
    }
}

/// Applies one input line to the graph being loaded: a vertex-count line
/// overwrites `vertices` (the last occurrence wins), an edge line inserts
/// the edge symmetrically into both endpoints' adjacency sequences, and
/// blank or malformed lines change nothing. Returns whether the line was
/// malformed, so the caller can report it.
pub fn load_line(graph: &mut HashMap<usize, Vec<usize>>, vertices: &mut usize, line: &[u8]) -> (malformed: bool)
    ensures
        malformed == (directive_of(line@) is Malformed),
        match directive_of(line@) {
            Directive::VertexCount(n) => final(graph)@ == old(graph)@ && *final(vertices) == n,
            Directive::Edge(u, v) => edge_added(old(graph)@, final(graph)@, u, v) && has_edge(
                final(graph)@,
                u,
                v,
            ) && has_edge(final(graph)@, v, u) && *final(vertices) == *old(vertices),
            Directive::Blank => final(graph)@ == old(graph)@ && *final(vertices) == *old(
                vertices,
            ),
            Directive::Malformed => final(graph)@ == old(graph)@ && *final(vertices) == *old(
                vertices,
            ),
        },
{
    match parse_line(line) {
        Directive::VertexCount(n) => {
            *vertices = n;
            false
        },
        Directive::Edge(u, v) => {
            add_edge(graph, u, v);
            false
        },
        Directive::Blank => false,
        Directive::Malformed => true,
    }
}

} // verus!
