//! Scenario tests for the attribution engine.

use jj_annotate::{
    get_annotation_for_file, AnnotateError, AnnotateResults, CommitId, CommitNode, FileEntry,
    GraphEdge, GraphEdgeType,
};

fn cid(name: &str) -> CommitId {
    CommitId { bytes: name.as_bytes().to_vec() }
}

fn file(content: &str) -> FileEntry {
    FileEntry::File { content: content.as_bytes().to_vec() }
}

fn direct(target: usize) -> GraphEdge {
    GraphEdge { target, edge_type: GraphEdgeType::Direct }
}

fn missing() -> GraphEdge {
    GraphEdge { target: 0, edge_type: GraphEdgeType::Missing }
}

fn node(name: &str, entry: FileEntry, edges: Vec<GraphEdge>) -> CommitNode {
    CommitNode { commit_id: cid(name), entry, edges }
}

fn expect(results: &AnnotateResults, want: &[(&str, &str)]) {
    assert_eq!(results.file_annotations.len(), want.len());
    for (i, (id, line)) in want.iter().enumerate() {
        assert_eq!(results.file_annotations[i].0, cid(id), "commit at line {}", i);
        assert_eq!(results.file_annotations[i].1, line.as_bytes().to_vec(), "bytes at line {}", i);
    }
}

#[test]
fn s1_single_commit_add() {
    let nodes = vec![node("A", file("x\ny\nz\n"), vec![missing()])];
    let results = get_annotation_for_file(&nodes).unwrap();
    expect(&results, &[("A", "x\n"), ("A", "y\n"), ("A", "z\n")]);
}

#[test]
fn s2_modify_middle() {
    let nodes = vec![
        node("B", file("x\nY\nz\n"), vec![direct(1)]),
        node("A", file("x\ny\nz\n"), vec![missing()]),
    ];
    let results = get_annotation_for_file(&nodes).unwrap();
    expect(&results, &[("A", "x\n"), ("B", "Y\n"), ("A", "z\n")]);
}

#[test]
fn s3_pure_insertion() {
    let nodes = vec![
        node("B", file("x\ny\nz\n"), vec![direct(1)]),
        node("A", file("x\nz\n"), vec![missing()]),
    ];
    let results = get_annotation_for_file(&nodes).unwrap();
    expect(&results, &[("A", "x\n"), ("B", "y\n"), ("A", "z\n")]);
}

#[test]
fn s4_diamond_merge() {
    let nodes = vec![
        node("D", file("x\ny\nz\n"), vec![direct(1), direct(2)]),
        node("B", file("x\ny\n"), vec![direct(3)]),
        node("C", file("x\nz\n"), vec![direct(3)]),
        node("A", file("x\n"), vec![missing()]),
    ];
    let results = get_annotation_for_file(&nodes).unwrap();
    expect(&results, &[("A", "x\n"), ("B", "y\n"), ("C", "z\n")]);
}

#[test]
fn s5_file_absent_in_parent() {
    // The parent commit does not touch the file, so the revset filter
    // reports the edge as missing.
    let nodes = vec![node("B", file("a\nb\n"), vec![missing()])];
    let results = get_annotation_for_file(&nodes).unwrap();
    expect(&results, &[("B", "a\n"), ("B", "b\n")]);
}

#[test]
fn s5_parent_with_absent_file_in_slice() {
    // The same history, with the parent delivered in the slice and the file
    // absent there: the parent has no lines, so nothing propagates.
    let nodes = vec![
        node("B", file("a\nb\n"), vec![direct(1)]),
        node("A", FileEntry::Absent, vec![missing()]),
    ];
    let results = get_annotation_for_file(&nodes).unwrap();
    expect(&results, &[("B", "a\n"), ("B", "b\n")]);
}

#[test]
fn s6_no_trailing_newline() {
    let nodes = vec![
        node("B", file("a\nB"), vec![direct(1)]),
        node("A", file("a\nb"), vec![missing()]),
    ];
    let results = get_annotation_for_file(&nodes).unwrap();
    expect(&results, &[("A", "a\n"), ("B", "B")]);
}

#[test]
fn absent_path_empty_results() {
    let nodes = vec![node("A", FileEntry::Absent, vec![missing()])];
    let results = get_annotation_for_file(&nodes).unwrap();
    expect(&results, &[]);
}

#[test]
fn empty_file_empty_results() {
    let nodes = vec![node("A", file(""), vec![missing()])];
    let results = get_annotation_for_file(&nodes).unwrap();
    expect(&results, &[]);
}

#[test]
fn non_file_entry_treated_as_absent() {
    let nodes = vec![node("A", FileEntry::Other, vec![missing()])];
    let results = get_annotation_for_file(&nodes).unwrap();
    expect(&results, &[]);
}

#[test]
fn deep_chain_attribution() {
    let nodes = vec![
        node("C", file("a\nb\nc\n"), vec![direct(1)]),
        node("B", file("a\nb\n"), vec![direct(2)]),
        node("A", file("a\n"), vec![missing()]),
    ];
    let results = get_annotation_for_file(&nodes).unwrap();
    expect(&results, &[("A", "a\n"), ("B", "b\n"), ("C", "c\n")]);
}

#[test]
fn identical_files_attribute_to_ancestor() {
    let nodes = vec![
        node("B", file("p\nq\n"), vec![direct(1)]),
        node("A", file("p\nq\n"), vec![missing()]),
    ];
    let results = get_annotation_for_file(&nodes).unwrap();
    expect(&results, &[("A", "p\n"), ("A", "q\n")]);
}

#[test]
fn conflict_content_is_annotated() {
    let materialized = "<<<\nx\n===\ny\n>>>\n";
    let nodes = vec![node(
        "M",
        FileEntry::Conflict { materialized: materialized.as_bytes().to_vec() },
        vec![missing()],
    )];
    let results = get_annotation_for_file(&nodes).unwrap();
    expect(
        &results,
        &[("M", "<<<\n"), ("M", "x\n"), ("M", "===\n"), ("M", "y\n"), ("M", ">>>\n")],
    );
}

#[test]
fn content_preservation_concat() {
    let content = "one\ntwo\n\nfour";
    let nodes = vec![
        node("B", file(content), vec![direct(1)]),
        node("A", file("one\nfour"), vec![missing()]),
    ];
    let results = get_annotation_for_file(&nodes).unwrap();
    let mut concat: Vec<u8> = Vec::new();
    for (_, line) in &results.file_annotations {
        concat.extend_from_slice(line);
    }
    assert_eq!(concat, content.as_bytes().to_vec());
}

#[test]
fn totality_every_line_attributed() {
    let nodes = vec![
        node("C", file("1\n2\n3\n4\n5\n"), vec![direct(1)]),
        node("B", file("1\n9\n5\n"), vec![direct(2)]),
        node("A", file("1\n"), vec![missing()]),
    ];
    let results = get_annotation_for_file(&nodes).unwrap();
    assert_eq!(results.file_annotations.len(), 5);
    for (id, _) in &results.file_annotations {
        assert!(!id.bytes.is_empty());
    }
}

#[test]
fn annotate_twice_identical() {
    let nodes = vec![
        node("B", file("x\nY\nz\n"), vec![direct(1)]),
        node("A", file("x\ny\nz\n"), vec![missing()]),
    ];
    let first = get_annotation_for_file(&nodes).unwrap();
    let second = get_annotation_for_file(&nodes).unwrap();
    assert_eq!(first.file_annotations, second.file_annotations);
}

#[test]
fn unreadable_start_errors() {
    let nodes = vec![node("A", FileEntry::Unreadable, vec![missing()])];
    let err = get_annotation_for_file(&nodes).unwrap_err();
    let AnnotateError::BackendRead { commit_id } = err;
    assert_eq!(commit_id, cid("A"));
}

#[test]
fn unreadable_parent_errors() {
    let nodes = vec![
        node("B", file("x\n"), vec![direct(1)]),
        node("A", FileEntry::Unreadable, vec![missing()]),
    ];
    let err = get_annotation_for_file(&nodes).unwrap_err();
    let AnnotateError::BackendRead { commit_id } = err;
    assert_eq!(commit_id, cid("A"));
}

#[test]
fn unreadable_entry_never_opened_is_ignored() {
    // The walk only opens parents it is led to; an unreadable entry behind
    // a missing edge is never read.
    let nodes = vec![
        node("B", file("x\n"), vec![missing()]),
        node("A", FileEntry::Unreadable, vec![missing()]),
    ];
    let results = get_annotation_for_file(&nodes).unwrap();
    expect(&results, &[("B", "x\n")]);
}

#[test]
fn collision_keeps_first_claim() {
    // Both merge sides trace a (duplicated) line to the same line of the
    // common ancestor. The first writer keeps its claim on the ancestor's
    // line; the blocked line stays with the side that carried it and is
    // attributed there, so every line still gets exactly one owner.
    let nodes = vec![
        node("D", file("s\ns\n"), vec![direct(1), direct(2)]),
        node("B", file("s\n"), vec![direct(3)]),
        node("C", file("x\ns\n"), vec![direct(3)]),
        node("A", file("s\n"), vec![missing()]),
    ];
    let results = get_annotation_for_file(&nodes).unwrap();
    expect(&results, &[("A", "s\n"), ("C", "s\n")]);
}

#[test]
fn diamond_with_shared_line_keeps_first_writer() {
    // Both sides of the merge carry the shared first line; the first parent
    // edge claims it, and attribution still reaches the common ancestor.
    let nodes = vec![
        node("D", file("x\na\nb\n"), vec![direct(1), direct(2)]),
        node("B", file("x\na\n"), vec![direct(3)]),
        node("C", file("x\nb\n"), vec![direct(3)]),
        node("A", file("x\n"), vec![missing()]),
    ];
    let results = get_annotation_for_file(&nodes).unwrap();
    expect(&results, &[("A", "x\n"), ("B", "a\n"), ("C", "b\n")]);
}
