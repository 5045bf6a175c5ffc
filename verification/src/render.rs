//! The graph writer's byte-exact description.
//!
//! The output is the fixed header line `digraph FunctionCalls {`, one
//! four-space-indented canonical line per edge, and the fixed footer `}`,
//! each line closed by a newline. An empty edge set renders as header and
//! footer alone.

use crate::canon::SPACE;
use vstd::prelude::*;

verus! {

/// Line feed.
pub const NEWLINE: u8 = 10;
/// Closing brace, the footer line's byte.
pub const BRACE_CLOSE: u8 = 125;

/// The header line `digraph FunctionCalls {` with its newline.
pub open spec fn header_bytes() -> Seq<u8> {
    seq![
        100u8,
        105,
        103,
        114,
        97,
        112,
        104,
        32,
        70,
        117,
        110,
        99,
        116,
        105,
        111,
        110,
        67,
        97,
        108,
        108,
        115,
        32,
        123,
        10,
    ]
}

/// The footer line `}` with its newline.
pub open spec fn footer_bytes() -> Seq<u8> {
    seq![BRACE_CLOSE, NEWLINE]
}

/// The body of the graph: each line indented by four spaces and closed by
/// a newline, in sequence order.
pub open spec fn rendered_lines(lines: Seq<Seq<u8>>) -> Seq<u8>
    decreases lines.len(),
{
    if lines.len() == 0 {
        Seq::empty()
    } else {
        seq![SPACE, SPACE, SPACE, SPACE] + lines.first() + seq![NEWLINE] + rendered_lines(
            lines.drop_first(),
        )
    }
}

/// The whole graph description for a sequence of edge lines.
pub open spec fn rendered(lines: Seq<Seq<u8>>) -> Seq<u8> {
    header_bytes() + rendered_lines(lines) + footer_bytes()
}

/// Appending a line to the sequence appends its rendering to the body.
proof fn lemma_rendered_lines_push(lines: Seq<Seq<u8>>, l: Seq<u8>)
    ensures
        rendered_lines(lines.push(l)) == rendered_lines(lines) + (seq![SPACE, SPACE, SPACE, SPACE]
            + l + seq![NEWLINE]),
    decreases lines.len(),
{
    reveal_with_fuel(rendered_lines, 3);
    let line_block = seq![SPACE, SPACE, SPACE, SPACE] + l + seq![NEWLINE];
    if lines.len() == 0 {
        assert(lines.push(l).first() == l);
        assert(lines.push(l).drop_first() =~= Seq::<Seq<u8>>::empty());
        assert(rendered_lines(lines.push(l)) =~= rendered_lines(lines) + line_block);
    } else {
        assert(lines.push(l).first() == lines.first());
        assert(lines.push(l).drop_first() =~= lines.drop_first().push(l));
        lemma_rendered_lines_push(lines.drop_first(), l);
        assert(rendered_lines(lines.push(l)) =~= rendered_lines(lines) + line_block);
    }
}

/// Render the deduplicated edge lines as the full graph description.
pub fn render_graph(lines: &Vec<Vec<u8>>) -> (r: Vec<u8>)
    ensures
        r@ == rendered(crate::views(lines@)),
{
    let mut out: Vec<u8> = Vec::new();
    out.push(100);
    out.push(105);
    out.push(103);
    out.push(114);
    out.push(97);
    out.push(112);
    out.push(104);
    out.push(32);
    out.push(70);
    out.push(117);
    out.push(110);
    out.push(99);
    out.push(116);
    out.push(105);
    out.push(111);
    out.push(110);
    out.push(67);
    out.push(97);
    out.push(108);
    out.push(108);
    out.push(115);
    out.push(32);
    out.push(123);
    out.push(NEWLINE);
    proof {
        assert(out@ =~= header_bytes() + rendered_lines(crate::views(lines@).take(0)));
    }
    let mut i: usize = 0;
    while i < lines.len()
        invariant
            i <= lines@.len(),
            out@ == header_bytes() + rendered_lines(crate::views(lines@).take(i as int)),
        decreases lines@.len() - i,
    {
        let ghost done = crate::views(lines@).take(i as int);
        let ghost prev = out@;
        out.push(SPACE);
        out.push(SPACE);
        out.push(SPACE);
        out.push(SPACE);
        push_line(&mut out, &lines[i]);
        out.push(NEWLINE);
        proof {
            lemma_rendered_lines_push(done, lines@[i as int]@);
            assert(done.push(lines@[i as int]@) =~= crate::views(lines@).take(i + 1));
            assert(out@ =~= prev + (seq![SPACE, SPACE, SPACE, SPACE] + lines@[i as int]@ + seq![
                NEWLINE,
            ]));
            assert(out@ =~= header_bytes() + rendered_lines(crate::views(lines@).take(i + 1)));
        }
        i = i + 1;
    }
    out.push(BRACE_CLOSE);
    out.push(NEWLINE);
    proof {
        assert(crate::views(lines@).take(lines@.len() as int) =~= crate::views(lines@));
        assert(out@ =~= rendered(crate::views(lines@)));
    }
    out
}

/// Append one line's bytes to the output.
fn push_line(dst: &mut Vec<u8>, src: &Vec<u8>)
    ensures
        final(dst)@ == old(dst)@ + src@,
{
    crate::canon::push_bytes(dst, src.as_slice());
}

} // verus!
