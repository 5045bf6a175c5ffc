//! The edge canonicalizer.
//!
//! The canonical form of an edge `(from, to)` is the literal rendering
//! `"from" -> "to";`: both endpoints double-quoted, a single space on each
//! side of the arrow, a trailing semicolon. Two edges canonicalize to the
//! same bytes exactly when they render to the same bytes, so the canonical
//! line doubles as the deduplication key and as the output line.

use crate::scan::Edge;
use vstd::prelude::*;

verus! {

/// Double quote.
pub const QUOTE: u8 = 34;
/// Space.
pub const SPACE: u8 = 32;
/// Hyphen, first byte of the arrow.
pub const HYPHEN: u8 = 45;
/// Greater-than sign, second byte of the arrow.
pub const GREATER: u8 = 62;
/// Semicolon.
pub const SEMICOLON: u8 = 59;

/// The canonical line of the edge `(from, to)`.
pub open spec fn canon_line(from: Seq<u8>, to: Seq<u8>) -> Seq<u8> {
    seq![QUOTE] + from + seq![QUOTE, SPACE, HYPHEN, GREATER, SPACE, QUOTE] + to + seq![
        QUOTE,
        SEMICOLON,
    ]
}

/// Append all bytes of `src` to `dst`.
pub fn push_bytes(dst: &mut Vec<u8>, src: &[u8])
    ensures
        final(dst)@ == old(dst)@ + src@,
{
    proof {
        assert(dst@ =~= dst@ + src@.take(0));
    }
    let mut i: usize = 0;
    while i < src.len()
        invariant
            i <= src@.len(),
            dst@ == old(dst)@ + src@.take(i as int),
        decreases src@.len() - i,
    {
        dst.push(src[i]);
        proof {
            assert(dst@ =~= old(dst)@ + src@.take(i + 1));
        }
        i = i + 1;
    }
    proof {
        assert(src@.take(src@.len() as int) =~= src@);
    }
}

/// Render one raw edge as its canonical line.
pub fn canon_edge(e: &Edge) -> (r: Vec<u8>)
    ensures
        r@ == canon_line(e.from@, e.to@),
{
    let mut out: Vec<u8> = Vec::new();
    out.push(QUOTE);
    push_bytes(&mut out, e.from.as_slice());
    out.push(QUOTE);
    out.push(SPACE);
    out.push(HYPHEN);
    out.push(GREATER);
    out.push(SPACE);
    out.push(QUOTE);
    push_bytes(&mut out, e.to.as_slice());
    out.push(QUOTE);
    out.push(SEMICOLON);
    proof {
        assert(out@ =~= canon_line(e.from@, e.to@));
    }
    out
}

} // verus!
