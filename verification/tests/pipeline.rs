use callgraph::SourceFile;

fn file(unit: &[u8], text: &[u8]) -> SourceFile {
    SourceFile { unit: unit.to_vec(), text: text.to_vec() }
}

#[test]
fn empty_input_renders_bare_graph() {
    let out = callgraph::generate_dot(&Vec::new());
    assert_eq!(out, b"digraph FunctionCalls {\n}\n".to_vec());
}

#[test]
fn fixture_two_identical_calls_collapse_to_one_line() {
    let files = vec![file(b"Foo", b"Bar::baz(1);\nBar::baz(2);")];
    let out = callgraph::generate_dot(&files);
    assert_eq!(
        out,
        b"digraph FunctionCalls {\n    \"Foo\" -> \"Bar::baz\";\n}\n".to_vec()
    );
}

#[test]
fn same_callee_from_two_files_keeps_both_edges() {
    let files = vec![file(b"A", b"X::y(1);"), file(b"B", b"X::y(2);")];
    let out = callgraph::generate_dot(&files);
    assert_eq!(
        out,
        b"digraph FunctionCalls {\n    \"A\" -> \"X::y\";\n    \"B\" -> \"X::y\";\n}\n".to_vec()
    );
}

#[test]
fn scan_order_does_not_change_output() {
    let forward = vec![
        file(b"A", b"X::y(1); Z::w();"),
        file(b"B", b"X::y(2);"),
        file(b"C", b"Q::r(0);"),
    ];
    let backward = vec![
        file(b"C", b"Q::r(0);"),
        file(b"B", b"X::y(2);"),
        file(b"A", b"X::y(1); Z::w();"),
    ];
    let out1 = callgraph::generate_dot(&forward);
    let out2 = callgraph::generate_dot(&backward);
    assert_eq!(out1, out2);
}

#[test]
fn edge_lines_come_out_sorted() {
    let files = vec![file(b"b", b"Z::z();"), file(b"a", b"Y::y();")];
    let out = callgraph::generate_dot(&files);
    assert_eq!(
        out,
        b"digraph FunctionCalls {\n    \"a\" -> \"Y::y\";\n    \"b\" -> \"Z::z\";\n}\n".to_vec()
    );
}

#[test]
fn bare_calls_yield_no_edges() {
    let files = vec![file(b"Foo", b"foo(1); bar(baz(2));")];
    let out = callgraph::generate_dot(&files);
    assert_eq!(out, b"digraph FunctionCalls {\n}\n".to_vec());
}
