//! Line-origin attribution ("annotate" / "blame") for a file in a
//! version-controlled repository.
//!
//! Given the starting revision's file content and the path-filtered slice of
//! its ancestry (the commits that touch the file, in reverse-topological
//! order, with their parent edges), the engine determines, for every line of
//! the file at the starting revision, the earliest commit that introduced
//! that exact line.

pub mod lines;
pub mod diff;
pub mod model;
pub mod walk;
pub mod engine;
pub mod laws;
pub mod config_list;
pub mod git_init;

pub use engine::{
    AnnotateResults, CommitSourceMap, OriginalLineMap, Source, convert_to_results,
    get_annotation_for_file, get_file_contents, get_initial_commit_line_map,
    mark_lines_from_original, process_commit, process_commits, process_files_in_commits,
};
pub use model::{AnnotateError, CommitId, CommitNode, FileEntry, GraphEdge, GraphEdgeType};
pub use diff::get_same_line_map;
pub use config_list::{
    AnnotatedValue, ConfigTemplateLanguage, ConfigTemplateProperty, config_template_language,
};
pub use git_init::{GitInitArgs, GitInitError, GitInitMode};
