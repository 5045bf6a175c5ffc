use callgraph::scan;

fn callees(text: &[u8]) -> Vec<Vec<u8>> {
    scan::scan_callees(text)
}

#[test]
fn qualified_call_is_extracted() {
    assert_eq!(callees(b"Bar::baz(1);"), vec![b"Bar::baz".to_vec()]);
}

#[test]
fn every_occurrence_is_extracted() {
    assert_eq!(
        callees(b"Bar::baz(1);\nBar::baz(2);"),
        vec![b"Bar::baz".to_vec(), b"Bar::baz".to_vec()]
    );
}

#[test]
fn extraction_attributes_all_edges_to_the_unit() {
    let edges = scan::extract_edges(b"Foo", b"A::b(); C::d();");
    assert_eq!(edges.len(), 2);
    assert_eq!(edges[0].from, b"Foo".to_vec());
    assert_eq!(edges[0].to, b"A::b".to_vec());
    assert_eq!(edges[1].from, b"Foo".to_vec());
    assert_eq!(edges[1].to, b"C::d".to_vec());
}

#[test]
fn bare_call_is_not_extracted() {
    assert_eq!(callees(b"foo(1);"), Vec::<Vec<u8>>::new());
}

#[test]
fn call_without_parenthesis_is_not_extracted() {
    assert_eq!(callees(b"Bar::baz;"), Vec::<Vec<u8>>::new());
}

#[test]
fn match_must_start_at_word_boundary() {
    assert_eq!(callees(b"9Bar::baz(1);"), Vec::<Vec<u8>>::new());
}

#[test]
fn letter_prefix_joins_the_owner() {
    assert_eq!(callees(b"xBar::baz(1);"), vec![b"xBar::baz".to_vec()]);
}

#[test]
fn longer_chain_matches_its_tail() {
    assert_eq!(callees(b"A::b::c(1);"), vec![b"b::c".to_vec()]);
}

#[test]
fn member_must_not_start_with_a_digit() {
    assert_eq!(callees(b"Bar::9x(1);"), Vec::<Vec<u8>>::new());
}

#[test]
fn space_breaks_the_separator() {
    assert_eq!(callees(b"Bar ::baz(1);"), Vec::<Vec<u8>>::new());
}

#[test]
fn digits_and_underscores_continue_identifiers() {
    assert_eq!(callees(b"a1_x::b2_y(0);"), vec![b"a1_x::b2_y".to_vec()]);
}

#[test]
fn punctuation_is_a_word_boundary() {
    assert_eq!(callees(b"$obj=Bar::baz(1);"), vec![b"Bar::baz".to_vec()]);
}

#[test]
fn scan_resumes_after_a_match() {
    assert_eq!(
        callees(b"A::b(C::d(1));"),
        vec![b"A::b".to_vec(), b"C::d".to_vec()]
    );
}
