//! Extraction of a static call graph from source text.
//!
//! The library scans file contents for qualified call sites of the shape
//! `Owner::Member(`, turns each into a graph edge from the scanned file's
//! unit name to the qualified callee, canonicalizes every edge into its
//! output line, deduplicates and sorts the lines, and renders the final
//! graph description. All stages are specified and verified; directory
//! traversal and file input/output live outside the library.

pub mod canon;
pub mod dedup;
pub mod names;
pub mod order;
pub mod render;
pub mod scan;

use vstd::prelude::*;

verus! {

/// Sequence of the views of a sequence of byte vectors.
pub open spec fn views(s: Seq<Vec<u8>>) -> Seq<Seq<u8>> {
    s.map_values(|v: Vec<u8>| v@)
}

/// One scanned source file, reduced to what the extraction reads: its
/// unit name (the file name without its suffix) and its full text.
pub struct SourceFile {
    pub unit: Vec<u8>,
    pub text: Vec<u8>,
}

impl View for SourceFile {
    type V = (Seq<u8>, Seq<u8>);

    open spec fn view(&self) -> (Seq<u8>, Seq<u8>) {
        (self.unit@, self.text@)
    }
}

/// Sequence of the views of a sequence of source files.
pub open spec fn file_views(s: Seq<SourceFile>) -> Seq<(Seq<u8>, Seq<u8>)> {
    s.map_values(|f: SourceFile| f@)
}

/// The canonical edge lines of one file, in match order.
pub open spec fn file_lines(unit: Seq<u8>, text: Seq<u8>) -> Seq<Seq<u8>> {
    Seq::new(
        scan::spec_callees(text).len(),
        |i: int| canon::canon_line(unit, scan::spec_callees(text)[i]),
    )
}

/// All canonical edge lines of a run, files in scan order, matches in
/// text order, duplicates still present.
pub open spec fn all_lines(files: Seq<(Seq<u8>, Seq<u8>)>) -> Seq<Seq<u8>>
    decreases files.len(),
{
    if files.len() == 0 {
        Seq::empty()
    } else {
        file_lines(files.first().0, files.first().1) + all_lines(files.drop_first())
    }
}

/// The full graph description of a run: all edge lines, deduplicated and
/// sorted, between the fixed header and footer.
pub open spec fn dot_output(files: Seq<(Seq<u8>, Seq<u8>)>) -> Seq<u8> {
    render::rendered(dedup::deduped(all_lines(files)))
}

/// Scanning one more file appends its lines to the run's line sequence.
proof fn lemma_all_lines_push(files: Seq<(Seq<u8>, Seq<u8>)>, f: (Seq<u8>, Seq<u8>))
    ensures
        all_lines(files.push(f)) == all_lines(files) + file_lines(f.0, f.1),
    decreases files.len(),
{
    reveal_with_fuel(all_lines, 3);
    if files.len() == 0 {
        assert(files.push(f).drop_first() =~= Seq::<(Seq<u8>, Seq<u8>)>::empty());
        assert(all_lines(files.push(f)) =~= all_lines(files) + file_lines(f.0, f.1));
    } else {
        assert(files.push(f).first() == files.first());
        assert(files.push(f).drop_first() =~= files.drop_first().push(f));
        lemma_all_lines_push(files.drop_first(), f);
        assert(all_lines(files.push(f)) =~= all_lines(files) + file_lines(f.0, f.1));
    }
}

/// A line occurs in a run exactly when some scanned file yields it.
proof fn lemma_all_lines_membership(files: Seq<(Seq<u8>, Seq<u8>)>, l: Seq<u8>)
    ensures
        all_lines(files).contains(l) <==> exists|i: int|
            0 <= i < files.len() && file_lines(files[i].0, files[i].1).contains(l),
    decreases files.len(),
{
    broadcast use vstd::seq_lib::lemma_seq_concat_contains_all_elements;

    if files.len() == 0 {
    } else {
        lemma_all_lines_membership(files.drop_first(), l);
        if all_lines(files).contains(l) {
            if file_lines(files.first().0, files.first().1).contains(l) {
                assert(files[0] == files.first());
            } else {
                let i = choose|i: int|
                    0 <= i < files.drop_first().len() && file_lines(
                        files.drop_first()[i].0,
                        files.drop_first()[i].1,
                    ).contains(l);
                assert(files[i + 1] == files.drop_first()[i]);
            }
        }
        if exists|i: int| 0 <= i < files.len() && file_lines(files[i].0, files[i].1).contains(l) {
            let i = choose|i: int|
                0 <= i < files.len() && file_lines(files[i].0, files[i].1).contains(l);
            if i == 0 {
                assert(files[0] == files.first());
            } else {
                assert(files.drop_first()[i - 1] == files[i]);
                assert(all_lines(files.drop_first()).contains(l));
            }
        }
    }
}

/// Law: every line of the deduplicated graph stems from one of the
/// scanned files, as the canonical form of a callee found in that file's
/// text and attributed to that file's unit name. No line comes from
/// anywhere else; in particular none from a file the walk never handed in.
pub proof fn lemma_lines_from_scanned_files(files: Seq<(Seq<u8>, Seq<u8>)>, l: Seq<u8>)
    requires
        dedup::deduped(all_lines(files)).contains(l),
    ensures
        exists|i: int, j: int|
            0 <= i < files.len() && 0 <= j < scan::spec_callees(files[i].1).len() && l
                == canon::canon_line(files[i].0, scan::spec_callees(files[i].1)[j]),
{
    dedup::lemma_deduped_props(all_lines(files));
    assert(dedup::deduped(all_lines(files)).to_set().contains(l));
    assert(all_lines(files).contains(l));
    lemma_all_lines_membership(files, l);
    let i = choose|i: int|
        0 <= i < files.len() && file_lines(files[i].0, files[i].1).contains(l);
    let j = choose|j: int|
        0 <= j < file_lines(files[i].0, files[i].1).len() && file_lines(files[i].0, files[i].1)[j]
            == l;
    assert(l == canon::canon_line(files[i].0, scan::spec_callees(files[i].1)[j]));
}

/// Law: conversely, every call site found in a scanned file reaches the
/// deduplicated graph: its canonical line is among the output lines.
pub proof fn lemma_scanned_call_in_output(files: Seq<(Seq<u8>, Seq<u8>)>, i: int, j: int)
    requires
        0 <= i < files.len(),
        0 <= j < scan::spec_callees(files[i].1).len(),
    ensures
        dedup::deduped(all_lines(files)).contains(
            canon::canon_line(files[i].0, scan::spec_callees(files[i].1)[j]),
        ),
{
    let l = canon::canon_line(files[i].0, scan::spec_callees(files[i].1)[j]);
    assert(file_lines(files[i].0, files[i].1)[j] == l);
    assert(file_lines(files[i].0, files[i].1).contains(l));
    lemma_all_lines_membership(files, l);
    assert(all_lines(files).contains(l));
    dedup::lemma_deduped_props(all_lines(files));
    assert(all_lines(files).to_set().contains(l));
    assert(dedup::deduped(all_lines(files)).contains(l));
}

/// Law: the output is a function of which file contents were scanned,
/// not of the order the walk found them in; any traversal order yields
/// byte-identical output.
pub proof fn lemma_output_order_independent(
    files1: Seq<(Seq<u8>, Seq<u8>)>,
    files2: Seq<(Seq<u8>, Seq<u8>)>,
)
    requires
        files1.to_multiset() == files2.to_multiset(),
    ensures
        dot_output(files1) == dot_output(files2),
{
    files1.to_multiset_ensures();
    files2.to_multiset_ensures();
    assert forall|l: Seq<u8>| all_lines(files1).contains(l) implies all_lines(files2).contains(
        l,
    ) by {
        lemma_all_lines_membership(files1, l);
        lemma_all_lines_membership(files2, l);
        let i = choose|i: int|
            0 <= i < files1.len() && file_lines(files1[i].0, files1[i].1).contains(l);
        assert(files1.contains(files1[i]));
        assert(files1.to_multiset().count(files1[i]) > 0);
        assert(files2.to_multiset().count(files1[i]) > 0);
        assert(files2.contains(files1[i]));
        let k = choose|k: int| 0 <= k < files2.len() && files2[k] == files1[i];
    }
    assert forall|l: Seq<u8>| all_lines(files2).contains(l) implies all_lines(files1).contains(
        l,
    ) by {
        lemma_all_lines_membership(files1, l);
        lemma_all_lines_membership(files2, l);
        let i = choose|i: int|
            0 <= i < files2.len() && file_lines(files2[i].0, files2[i].1).contains(l);
        assert(files2.contains(files2[i]));
        assert(files2.to_multiset().count(files2[i]) > 0);
        assert(files1.to_multiset().count(files2[i]) > 0);
        assert(files1.contains(files2[i]));
        let k = choose|k: int| 0 <= k < files1.len() && files1[k] == files2[i];
    }
    assert(all_lines(files1).to_set() =~= all_lines(files2).to_set());
    dedup::lemma_dedup_order_independent(all_lines(files1), all_lines(files2));
}

/// Run the whole pipeline over the scanned files: extract every call
/// site, canonicalize, deduplicate, sort, and render the graph
/// description.
pub fn generate_dot(files: &Vec<SourceFile>) -> (out: Vec<u8>)
    ensures
        out@ == dot_output(file_views(files@)),
{
    let mut lines: Vec<Vec<u8>> = Vec::new();
    let mut i: usize = 0;
    proof {
        assert(file_views(files@).take(0) =~= Seq::<(Seq<u8>, Seq<u8>)>::empty());
        assert(views(lines@) =~= all_lines(file_views(files@).take(0)));
    }
    while i < files.len()
        invariant
            i <= files@.len(),
            views(lines@) == all_lines(file_views(files@).take(i as int)),
        decreases files@.len() - i,
    {
        let ghost fv = file_views(files@)[i as int];
        let edges = scan::extract_edges(files[i].unit.as_slice(), files[i].text.as_slice());
        proof {
            assert(fv == (files@[i as int].unit@, files@[i as int].text@));
        }
        let mut j: usize = 0;
        while j < edges.len()
            invariant
                j <= edges@.len(),
                fv == file_views(files@)[i as int],
                i < files@.len(),
                scan::edge_views(edges@) == scan::spec_edges(fv.0, fv.1),
                views(lines@) == all_lines(file_views(files@).take(i as int)) + file_lines(
                    fv.0,
                    fv.1,
                ).take(j as int),
            decreases edges@.len() - j,
        {
            let ghost prev = views(lines@);
            let line = canon::canon_edge(&edges[j]);
            proof {
                assert(scan::edge_views(edges@).len() == edges@.len());
                assert(scan::edge_views(edges@)[j as int] == edges@[j as int]@);
                assert(scan::spec_edges(fv.0, fv.1)[j as int] == (
                    fv.0,
                    scan::spec_callees(fv.1)[j as int],
                ));
                assert(edges@[j as int]@ == (fv.0, scan::spec_callees(fv.1)[j as int]));
                assert(edges@[j as int].from@ == fv.0);
                assert(edges@[j as int].to@ == scan::spec_callees(fv.1)[j as int]);
                assert(file_lines(fv.0, fv.1)[j as int] == canon::canon_line(
                    fv.0,
                    scan::spec_callees(fv.1)[j as int],
                ));
                assert(line@ == file_lines(fv.0, fv.1)[j as int]);
            }
            lines.push(line);
            proof {
                assert(views(lines@) =~= prev.push(line@));
                assert(file_lines(fv.0, fv.1).take(j + 1) =~= file_lines(fv.0, fv.1).take(
                    j as int,
                ).push(line@));
                assert(views(lines@) =~= all_lines(file_views(files@).take(i as int)) + file_lines(
                    fv.0,
                    fv.1,
                ).take(j + 1));
            }
            j = j + 1;
        }
        proof {
            lemma_all_lines_push(file_views(files@).take(i as int), fv);
            assert(file_views(files@).take(i as int).push(fv) =~= file_views(files@).take(i + 1));
            assert(file_lines(fv.0, fv.1).take(edges@.len() as int) =~= file_lines(fv.0, fv.1));
            assert(views(lines@) =~= all_lines(file_views(files@).take(i + 1)));
        }
        i = i + 1;
    }
    proof {
        assert(file_views(files@).take(files@.len() as int) =~= file_views(files@));
    }
    let deduped_lines = dedup::dedup_lines(lines);
    render::render_graph(&deduped_lines)
}

} // verus!
