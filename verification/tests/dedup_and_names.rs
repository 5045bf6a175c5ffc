use callgraph::canon;
use callgraph::dedup;
use callgraph::names;
use callgraph::scan::Edge;

fn lines(raw: &[&[u8]]) -> Vec<Vec<u8>> {
    raw.iter().map(|l| l.to_vec()).collect()
}

#[test]
fn canonical_line_is_the_quoted_arrow_form() {
    let e = Edge { from: b"A".to_vec(), to: b"B::c".to_vec() };
    assert_eq!(canon::canon_edge(&e), b"\"A\" -> \"B::c\";".to_vec());
}

#[test]
fn dedup_sorts_and_removes_duplicates() {
    let input = lines(&[b"b", b"a", b"b", b"c", b"a"]);
    assert_eq!(dedup::dedup_lines(input), lines(&[b"a", b"b", b"c"]));
}

#[test]
fn dedup_of_empty_input_is_empty() {
    assert_eq!(dedup::dedup_lines(Vec::new()), Vec::<Vec<u8>>::new());
}

#[test]
fn dedup_twice_equals_dedup_once() {
    let input = lines(&[b"z", b"m", b"z", b"a"]);
    let once = dedup::dedup_lines(input.clone());
    let twice = dedup::dedup_lines(dedup::dedup_lines(input));
    assert_eq!(once, twice);
}

#[test]
fn dedup_ignores_input_order() {
    let one = dedup::dedup_lines(lines(&[b"x", b"y", b"x"]));
    let other = dedup::dedup_lines(lines(&[b"y", b"x", b"y", b"y"]));
    assert_eq!(one, other);
}

#[test]
fn a_proper_prefix_sorts_first() {
    let input = lines(&[b"ab", b"a", b"abc"]);
    assert_eq!(dedup::dedup_lines(input), lines(&[b"a", b"ab", b"abc"]));
}

#[test]
fn insert_unique_keeps_the_sequence_sorted() {
    let sorted = lines(&[b"a", b"c"]);
    let with_b = dedup::insert_unique(sorted, b"b".to_vec());
    assert_eq!(with_b, lines(&[b"a", b"b", b"c"]));
    let unchanged = dedup::insert_unique(with_b.clone(), b"b".to_vec());
    assert_eq!(unchanged, with_b);
}

#[test]
fn dependency_directories_are_pruned() {
    assert!(!names::enter_dir(b"vendor"));
    assert!(!names::enter_dir(b"node_modules"));
    assert!(names::enter_dir(b"src"));
    assert!(names::enter_dir(b"vendored"));
}

#[test]
fn only_the_suffixed_files_are_scanned() {
    assert!(names::is_source_file_name(b"index.php"));
    assert!(names::is_source_file_name(b"a.php"));
    assert!(names::is_source_file_name(b"x.tar.php"));
    assert!(!names::is_source_file_name(b".php"));
    assert!(!names::is_source_file_name(b"note.txt"));
    assert!(!names::is_source_file_name(b"php"));
}

#[test]
fn unit_name_strips_the_suffix() {
    assert_eq!(names::unit_name(b"index.php"), b"index".to_vec());
    assert_eq!(names::unit_name(b"x.tar.php"), b"x.tar".to_vec());
}
