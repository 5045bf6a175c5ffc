//! The call-site extractor.
//!
//! A call site is a substring of the shape `Owner::Member(`: an identifier,
//! a double-colon separator, a second identifier and an opening parenthesis,
//! where the match must begin at a word boundary. Identifiers are ASCII
//! letters, digits and underscores, never starting with a digit. The scan
//! walks the text left to right, takes the leftmost match, and resumes
//! after each match's parenthesis, so matches never overlap.

use vstd::prelude::*;

verus! {

/// Opening parenthesis.
pub const PAREN_OPEN: u8 = 40;
/// Colon.
pub const COLON: u8 = 58;

/// A byte that may continue an identifier: an ASCII letter, digit or underscore.
pub open spec fn is_ident_byte(c: u8) -> bool {
    (65 <= c && c <= 90) || (97 <= c && c <= 122) || (48 <= c && c <= 57) || c == 95
}

/// A byte that may start an identifier: an ASCII letter or underscore.
pub open spec fn is_ident_start_byte(c: u8) -> bool {
    (65 <= c && c <= 90) || (97 <= c && c <= 122) || c == 95
}

/// Executable test for `is_ident_byte`.
pub fn ident_byte(c: u8) -> (r: bool)
    ensures
        r == is_ident_byte(c),
{
    (65 <= c && c <= 90) || (97 <= c && c <= 122) || (48 <= c && c <= 57) || c == 95
}

/// Executable test for `is_ident_start_byte`.
pub fn ident_start_byte(c: u8) -> (r: bool)
    ensures
        r == is_ident_start_byte(c),
{
    (65 <= c && c <= 90) || (97 <= c && c <= 122) || c == 95
}

/// First position at or after `p` that does not continue an identifier.
pub open spec fn ident_run_end(t: Seq<u8>, p: int) -> int
    decreases t.len() - p when 0 <= p <= t.len()
{
    if p == t.len() {
        p
    } else if is_ident_byte(t[p]) {
        ident_run_end(t, p + 1)
    } else {
        p
    }
}

/// The identifier run from `p` is a well-delimited block: it stays inside the
/// text, holds identifier bytes only, and stops right before a non-identifier
/// byte or the end of the text.
pub proof fn lemma_ident_run_end(t: Seq<u8>, p: int)
    requires
        0 <= p <= t.len(),
    ensures
        p <= ident_run_end(t, p) <= t.len(),
        forall|k: int| p <= k < ident_run_end(t, p) ==> is_ident_byte(t[k]),
        ident_run_end(t, p) < t.len() ==> !is_ident_byte(t[ident_run_end(t, p)]),
    decreases t.len() - p,
{
    if p < t.len() && is_ident_byte(t[p]) {
        lemma_ident_run_end(t, p + 1);
    }
}

/// End of the callee match that starts at position `p`, if there is one:
/// the position of the opening parenthesis that follows
/// `Owner::Member`. The callee text itself is `t[p .. end]`.
pub open spec fn callee_end(t: Seq<u8>, p: int) -> Option<int> {
    if !(0 <= p < t.len() && is_ident_start_byte(t[p])) {
        None
    } else {
        let a = ident_run_end(t, p);
        if a + 2 < t.len() && t[a] == COLON && t[a + 1] == COLON && is_ident_start_byte(
            t[a + 2],
        ) {
            let b = ident_run_end(t, a + 2);
            if b < t.len() && t[b] == PAREN_OPEN {
                Some(b)
            } else {
                None
            }
        } else {
            None
        }
    }
}

/// A match is at least four bytes wide and ends inside the text.
pub proof fn lemma_callee_end_bounds(t: Seq<u8>, p: int, b: int)
    requires
        0 <= p <= t.len(),
        callee_end(t, p) == Some(b),
    ensures
        p + 4 <= b < t.len(),
        t[b] == PAREN_OPEN,
{
    lemma_ident_run_end(t, p);
    let a = ident_run_end(t, p);
    lemma_ident_run_end(t, a + 2);
}

/// A match may only start where no identifier byte immediately precedes.
pub open spec fn at_word_boundary(t: Seq<u8>, p: int) -> bool {
    p == 0 || !is_ident_byte(t[p - 1])
}

/// The callee texts of all matches at or after position `p`, leftmost first,
/// each match consumed through its parenthesis before the scan resumes.
pub open spec fn callees_from(t: Seq<u8>, p: int) -> Seq<Seq<u8>>
    decreases t.len() - p when 0 <= p <= t.len()
    via callees_from_decreases
{
    if p >= t.len() {
        Seq::empty()
    } else if at_word_boundary(t, p) && callee_end(t, p) is Some {
        seq![t.subrange(p, callee_end(t, p)->Some_0)] + callees_from(
            t,
            callee_end(t, p)->Some_0 + 1,
        )
    } else {
        callees_from(t, p + 1)
    }
}

#[via_fn]
proof fn callees_from_decreases(t: Seq<u8>, p: int) {
    if p < t.len() && at_word_boundary(t, p) && callee_end(t, p) is Some {
        lemma_callee_end_bounds(t, p, callee_end(t, p)->Some_0);
    }
}

/// The callees of a whole text: all matches from its start.
pub open spec fn spec_callees(t: Seq<u8>) -> Seq<Seq<u8>> {
    callees_from(t, 0)
}

/// Executable identifier-run scan.
fn run_end(t: &[u8], p: usize) -> (r: usize)
    requires
        p <= t@.len(),
    ensures
        r == ident_run_end(t@, p as int),
        p <= r <= t@.len(),
    decreases t@.len() - p,
{
    if p < t.len() && ident_byte(t[p]) {
        run_end(t, p + 1)
    } else {
        p
    }
}

/// Executable match test at one position.
fn find_callee_end(t: &[u8], p: usize) -> (r: Option<usize>)
    requires
        p <= t@.len(),
    ensures
        match r {
            Some(b) => callee_end(t@, p as int) == Some(b as int),
            None => callee_end(t@, p as int) is None,
        },
{
    if p < t.len() && ident_start_byte(t[p]) {
        let a = run_end(t, p);
        if t.len() >= 3 && a < t.len() - 2 && t[a] == COLON && t[a + 1] == COLON && ident_start_byte(
            t[a + 2],
        ) {
            let b = run_end(t, a + 2);
            if b < t.len() && t[b] == PAREN_OPEN {
                Some(b)
            } else {
                None
            }
        } else {
            None
        }
    } else {
        None
    }
}

/// Copy of the byte range `[i, j)` of a slice.
pub(crate) fn copy_range(t: &[u8], i: usize, j: usize) -> (r: Vec<u8>)
    requires
        i <= j <= t@.len(),
    ensures
        r@ == t@.subrange(i as int, j as int),
{
    let mut out: Vec<u8> = Vec::new();
    let mut k: usize = i;
    while k < j
        invariant
            i <= k <= j <= t@.len(),
            out@ == t@.subrange(i as int, k as int),
        decreases j - k,
    {
        out.push(t[k]);
        proof {
            assert(out@ =~= t@.subrange(i as int, k + 1));
        }
        k = k + 1;
    }
    out
}

/// A raw call-graph edge: the scanning file's unit name and the qualified
/// callee it calls.
pub struct Edge {
    pub from: Vec<u8>,
    pub to: Vec<u8>,
}

impl View for Edge {
    type V = (Seq<u8>, Seq<u8>);

    open spec fn view(&self) -> (Seq<u8>, Seq<u8>) {
        (self.from@, self.to@)
    }
}

/// Sequence of the views of a sequence of edges.
pub open spec fn edge_views(s: Seq<Edge>) -> Seq<(Seq<u8>, Seq<u8>)> {
    s.map_values(|e: Edge| e@)
}

/// The raw edges of one scanned file: every callee found in the text,
/// each attributed to the file's unit name.
pub open spec fn spec_edges(unit: Seq<u8>, text: Seq<u8>) -> Seq<(Seq<u8>, Seq<u8>)> {
    Seq::new(spec_callees(text).len(), |i: int| (unit, spec_callees(text)[i]))
}

/// Scan a text for call sites and return the callee text of each match,
/// leftmost first.
pub fn scan_callees(text: &[u8]) -> (r: Vec<Vec<u8>>)
    ensures
        crate::views(r@) == spec_callees(text@),
{
    let mut out: Vec<Vec<u8>> = Vec::new();
    let mut p: usize = 0;
    while p < text.len()
        invariant
            p <= text@.len(),
            spec_callees(text@) == crate::views(out@) + callees_from(text@, p as int),
        decreases text@.len() - p,
    {
        let boundary = p == 0 || !ident_byte(text[p - 1]);
        if boundary {
            match find_callee_end(text, p) {
                Some(b) => {
                    proof {
                        lemma_callee_end_bounds(text@, p as int, b as int);
                    }
                    let callee = copy_range(text, p, b);
                    let ghost prev = crate::views(out@);
                    out.push(callee);
                    proof {
                        assert(crate::views(out@) =~= prev + seq![text@.subrange(
                            p as int,
                            b as int,
                        )]);
                        assert(crate::views(out@) + callees_from(text@, b + 1) =~= prev
                            + callees_from(text@, p as int));
                    }
                    p = b + 1;
                },
                None => {
                    p = p + 1;
                },
            }
        } else {
            p = p + 1;
        }
    }
    proof {
        assert(crate::views(out@) =~= crate::views(out@) + callees_from(text@, p as int));
    }
    out
}

/// Extract the raw edges of one file: scan its text for call sites and
/// attribute every callee to the file's unit name.
pub fn extract_edges(unit: &[u8], text: &[u8]) -> (r: Vec<Edge>)
    ensures
        edge_views(r@) == spec_edges(unit@, text@),
{
    let ghost cs = spec_callees(text@);
    let mut callees = scan_callees(text);
    let mut out: Vec<Edge> = Vec::new();
    let ghost mut k = 0int;
    proof {
        assert(crate::views(callees@) =~= cs.skip(0));
    }
    while callees.len() > 0
        invariant
            cs == spec_callees(text@),
            0 <= k <= cs.len(),
            crate::views(callees@) == cs.skip(k),
            edge_views(out@) == spec_edges(unit@, text@).take(k),
        decreases callees@.len(),
    {
        let ghost prev_callees = callees@;
        let ghost prev_out = edge_views(out@);
        proof {
            assert(crate::views(prev_callees).len() == prev_callees.len());
            assert(k < cs.len());
        }
        let to = callees.remove(0);
        let from = copy_range(unit, 0, unit.len());
        proof {
            assert(crate::views(prev_callees)[0] == prev_callees[0]@);
            assert(to@ == cs[k]);
            assert(from@ =~= unit@);
            assert(callees@ =~= prev_callees.subrange(1, prev_callees.len() as int));
            assert forall|j: int| 0 <= j < callees@.len() implies crate::views(callees@)[j]
                == crate::views(prev_callees)[j + 1] by {
                assert(callees@[j] == prev_callees[j + 1]);
            }
            assert(crate::views(callees@) =~= cs.skip(k + 1));
        }
        out.push(Edge { from, to });
        proof {
            assert(edge_views(out@) =~= prev_out.push((unit@, cs[k])));
            assert(spec_edges(unit@, text@).len() == cs.len());
            assert(spec_edges(unit@, text@)[k] == (unit@, cs[k]));
            assert(spec_edges(unit@, text@).take(k + 1) =~= spec_edges(unit@, text@).take(k).push(
                (unit@, cs[k]),
            ));
        }
        proof {
            k = k + 1;
        }
    }
    proof {
        assert(cs.skip(k).len() == 0);
        assert(edge_views(out@) =~= spec_edges(unit@, text@));
    }
    out
}

/// Law: a text that holds no colon byte holds no double-colon separator,
/// so it yields no callees at all.
pub proof fn lemma_no_colon_no_calls(t: Seq<u8>, p: int)
    requires
        0 <= p <= t.len(),
        forall|i: int| 0 <= i < t.len() ==> t[i] != COLON,
    ensures
        callees_from(t, p).len() == 0,
    decreases t.len() - p,
{
    if p < t.len() {
        if at_word_boundary(t, p) && callee_end(t, p) is Some {
            lemma_ident_run_end(t, p);
            let a = ident_run_end(t, p);
            assert(t[a] == COLON);
            assert(false);
        }
        lemma_no_colon_no_calls(t, p + 1);
    }
}

} // verus!
