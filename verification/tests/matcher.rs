//! Tests for line segmentation, the line-pair matcher, and the engine's
//! smaller building blocks.

use jj_annotate::lines::{bytes_eq, split_lines};
use jj_annotate::{
    convert_to_results, get_file_contents, get_initial_commit_line_map, get_same_line_map,
    mark_lines_from_original, process_commits, process_files_in_commits, AnnotateError, CommitId,
    CommitNode, FileEntry, GraphEdge, GraphEdgeType, OriginalLineMap, Source,
};

fn bytes(s: &str) -> Vec<u8> {
    s.as_bytes().to_vec()
}

fn cid(name: &str) -> CommitId {
    CommitId { bytes: name.as_bytes().to_vec() }
}

#[test]
fn split_lines_basic() {
    let lines = split_lines(&bytes("a\nbc\n"));
    assert_eq!(lines, vec![bytes("a\n"), bytes("bc\n")]);
}

#[test]
fn split_lines_no_trailing_newline() {
    let lines = split_lines(&bytes("a\nbc"));
    assert_eq!(lines, vec![bytes("a\n"), bytes("bc")]);
}

#[test]
fn split_lines_empty() {
    let lines = split_lines(&bytes(""));
    assert!(lines.is_empty());
}

#[test]
fn split_lines_blank_lines() {
    let lines = split_lines(&bytes("\n\nx\n"));
    assert_eq!(lines, vec![bytes("\n"), bytes("\n"), bytes("x\n")]);
}

#[test]
fn bytes_eq_basic() {
    assert!(bytes_eq(&bytes("abc"), &bytes("abc")));
    assert!(!bytes_eq(&bytes("abc"), &bytes("abd")));
    assert!(!bytes_eq(&bytes("abc"), &bytes("ab")));
    assert!(bytes_eq(&bytes(""), &bytes("")));
}

#[test]
fn same_line_map_modify_middle() {
    let map = get_same_line_map(&bytes("x\nY\nz\n"), &bytes("x\ny\nz\n"));
    assert_eq!(map, vec![(0, 0), (2, 2)]);
}

#[test]
fn same_line_map_identical_is_identity() {
    let map = get_same_line_map(&bytes("x\ny\nz\n"), &bytes("x\ny\nz\n"));
    assert_eq!(map, vec![(0, 0), (1, 1), (2, 2)]);
}

#[test]
fn same_line_map_insertion() {
    let map = get_same_line_map(&bytes("x\ny\nz\n"), &bytes("x\nz\n"));
    assert_eq!(map, vec![(0, 0), (2, 1)]);
}

#[test]
fn same_line_map_empty_parent() {
    let map = get_same_line_map(&bytes("x\ny\n"), &bytes(""));
    assert!(map.is_empty());
}

#[test]
fn same_line_map_moved_line() {
    // A line that moved past another is still matched once, preserving
    // order: only one of the two crossing lines can stay aligned.
    let map = get_same_line_map(&bytes("b\na\n"), &bytes("a\nb\n"));
    assert_eq!(map, vec![(1, 0)]);
}

#[test]
fn same_line_map_repeated_lines() {
    let map = get_same_line_map(&bytes("x\nx\n"), &bytes("x\n"));
    assert_eq!(map, vec![(0, 0)]);
}

#[test]
fn same_line_map_no_trailing_newline() {
    let map = get_same_line_map(&bytes("a\nB"), &bytes("a\nb"));
    assert_eq!(map, vec![(0, 0)]);
}

#[test]
fn process_files_matches_texts() {
    let current = Source { line_map: vec![None, None], text: bytes("a\nb\n"), live: 0 };
    let parent = Source { line_map: vec![None], text: bytes("a\n"), live: 0 };
    let map = process_files_in_commits(&current, &parent);
    assert_eq!(map, vec![(0, 0)]);
}

#[test]
fn get_file_contents_variants() {
    let id = cid("A");
    assert_eq!(get_file_contents(&id, &FileEntry::Absent).unwrap(), bytes(""));
    assert_eq!(get_file_contents(&id, &FileEntry::Other).unwrap(), bytes(""));
    assert_eq!(
        get_file_contents(&id, &FileEntry::File { content: bytes("hi\n") }).unwrap(),
        bytes("hi\n")
    );
    assert_eq!(
        get_file_contents(&id, &FileEntry::Conflict { materialized: bytes("c\n") }).unwrap(),
        bytes("c\n")
    );
    let AnnotateError::BackendRead { commit_id } =
        get_file_contents(&id, &FileEntry::Unreadable).unwrap_err();
    assert_eq!(commit_id, cid("A"));
}

#[test]
fn source_load_counts_lines() {
    let node = CommitNode {
        commit_id: cid("A"),
        entry: FileEntry::File { content: bytes("a\nb\nc") },
        edges: vec![],
    };
    let source = Source::load(&node).unwrap();
    assert_eq!(source.text, bytes("a\nb\nc"));
    assert_eq!(source.line_map, vec![None, None, None]);
    assert_eq!(source.live, 0);
}

#[test]
fn source_load_absent_has_no_lines() {
    let node = CommitNode { commit_id: cid("A"), entry: FileEntry::Absent, edges: vec![] };
    let source = Source::load(&node).unwrap();
    assert!(source.text.is_empty());
    assert!(source.line_map.is_empty());
}

#[test]
fn initial_commit_line_map_is_identity() {
    let source = Source { line_map: vec![None, None], text: bytes("a\nb\n"), live: 0 };
    let map = get_initial_commit_line_map(source, 2, 3);
    assert_eq!(map.slots.len(), 3);
    let start = map.slots[0].as_ref().unwrap();
    assert_eq!(start.line_map, vec![Some(0), Some(1)]);
    assert_eq!(start.live, 2);
    assert!(map.slots[1].is_none());
    assert!(map.slots[2].is_none());
}

#[test]
fn process_commits_attributes_line_owners() {
    // The walk's intermediate result maps each original line to the index
    // of its owning node.
    let nodes = vec![
        CommitNode {
            commit_id: cid("B"),
            entry: FileEntry::File { content: bytes("x\nY\nz\n") },
            edges: vec![GraphEdge { target: 1, edge_type: GraphEdgeType::Direct }],
        },
        CommitNode {
            commit_id: cid("A"),
            entry: FileEntry::File { content: bytes("x\ny\nz\n") },
            edges: vec![GraphEdge { target: 0, edge_type: GraphEdgeType::Missing }],
        },
    ];
    let source = Source::load(&nodes[0]).unwrap();
    let olm = process_commits(&nodes, source, 3).unwrap();
    assert_eq!(olm.slots, vec![Some(1), Some(0), Some(1)]);
    assert_eq!(olm.filled, 3);
    let results = convert_to_results(&nodes, &olm, &bytes("x\nY\nz\n"));
    assert_eq!(results.file_annotations[0].0, cid("A"));
    assert_eq!(results.file_annotations[1].0, cid("B"));
    assert_eq!(results.file_annotations[2].0, cid("A"));
}

#[test]
fn mark_lines_records_leftovers() {
    let mut olm = OriginalLineMap::new(3);
    let commit_lines = vec![Some(2), None, Some(0)];
    mark_lines_from_original(&mut olm, 7, &commit_lines);
    assert_eq!(olm.slots, vec![Some(7), None, Some(7)]);
    assert_eq!(olm.filled, 2);
}
