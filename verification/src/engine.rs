//! The executable attribution engine.
//!
//! Each function is verified to compute exactly what the spec-level
//! interpreter in `model` describes; the walk's invariants in `walk` then
//! give totality, content preservation and reachability of the result.

use vstd::prelude::*;
use vstd::pervasive::unreached;
use crate::lines::{clone_bytes, line_seq, split_lines};
use crate::diff::{get_same_line_map, lemma_same_line_pairs};
use crate::model::{
    AnnotateError, CommitId, CommitNode, EngineState, FileEntry, SourceModel, annotate_spec,
    apply_edge, apply_edges_from, drain_from, entry_bytes, entry_readable, init_state,
    lemma_entry_count_exists, lemma_entry_count_two, lemma_some_count_bounds,
    lemma_some_count_member, lemma_some_count_update, lemma_srcs_count_nonneg,
    lemma_srcs_count_update, load_spec, matcher_pairs, merge_pairs_from, move_pair, project,
    run_nodes, some_count, srcs_count, step_node, wf_graph,
};
use crate::walk::{
    lemma_apply_edge_inv, lemma_init_inv, lemma_run_props, lemma_step_inv, owner_bit, src_wf,
    state_inv, walk_inv,
};

verus! {

/// Annotation results for a specific file.
///
/// For each entry, the commit id is the id of the originator of the line and
/// the bytes are the line itself, including its trailing newline (except
/// possibly for the file's final line). The vector is ordered by appearance
/// in the file.
#[derive(Debug, Clone)]
pub struct AnnotateResults {
    /// An array of annotation results ordered by line.
    pub file_annotations: Vec<(CommitId, Vec<u8>)>,
}

impl View for AnnotateResults {
    type V = Seq<(Seq<u8>, Seq<u8>)>;

    open spec fn view(&self) -> Seq<(Seq<u8>, Seq<u8>)> {
        Seq::new(
            self.file_annotations@.len(),
            |l: int| (self.file_annotations@[l].0@, self.file_annotations@[l].1@),
        )
    }
}

/// The mathematical reading of a dense line map: each present entry as the
/// original line number it holds.
pub open spec fn lmap_view(v: Seq<Option<usize>>) -> Seq<Option<int>> {
    Seq::new(
        v.len(),
        |k: int|
            match v[k] {
                Some(u) => Some(u as int),
                None => None,
            },
    )
}

/// Line mapping and file content at a certain commit: the file's bytes at
/// that commit, and, per line of that version, the original line (in the
/// starting revision) it still accounts for, if any. `live` caches how many
/// entries are present.
#[derive(Debug)]
pub struct Source {
    /// Per line of `text`, the original line it accounts for.
    pub line_map: Vec<Option<usize>>,
    /// File content at the current commit.
    pub text: Vec<u8>,
    /// Number of present entries of `line_map`.
    pub live: usize,
}

impl View for Source {
    type V = SourceModel;

    open spec fn view(&self) -> SourceModel {
        SourceModel { text: self.text@, lmap: lmap_view(self.line_map@) }
    }
}

/// The `live` cache agrees with the line map.
pub open spec fn source_live_ok(s: Source) -> bool {
    s.live as int == some_count(s@.lmap)
}

/// A map from nodes of the slice to their pending sources: slot `j` carries
/// the source of node `j` while that node still accounts for original lines.
#[derive(Debug)]
pub struct CommitSourceMap {
    pub slots: Vec<Option<Source>>,
}

impl View for CommitSourceMap {
    type V = Seq<Option<SourceModel>>;

    open spec fn view(&self) -> Seq<Option<SourceModel>> {
        Seq::new(
            self.slots@.len(),
            |j: int|
                match self.slots@[j] {
                    Some(s) => Some(s@),
                    None => None,
                },
        )
    }
}

/// Every present source keeps its `live` cache accurate.
pub open spec fn csm_wf(m: CommitSourceMap) -> bool {
    forall|j: int|
        0 <= j < m.slots@.len() && (#[trigger] m.slots@[j]) is Some ==> source_live_ok(
            m.slots@[j]->0,
        )
}

/// A map from original lines to the node each one is attributed to; `filled`
/// caches how many lines are attributed so far.
#[derive(Debug)]
pub struct OriginalLineMap {
    pub slots: Vec<Option<usize>>,
    pub filled: usize,
}

impl View for OriginalLineMap {
    type V = Seq<Option<int>>;

    open spec fn view(&self) -> Seq<Option<int>> {
        lmap_view(self.slots@)
    }
}

/// The `filled` cache agrees with the slots.
pub open spec fn olm_wf(m: OriginalLineMap) -> bool {
    m.filled as int == some_count(m@)
}

impl OriginalLineMap {
    /// An attribution map for `n` original lines, none attributed yet.
    pub fn new(n: usize) -> (r: Self)
        ensures
            r@ == Seq::new(n as nat, |l: int| None::<int>),
            olm_wf(r),
            r.filled == 0,
    {
        let mut slots: Vec<Option<usize>> = Vec::new();
        let mut i: usize = 0;
        while i < n
            invariant
                0 <= i <= n,
                slots@.len() == i,
                forall|l: int| 0 <= l < i ==> #[trigger] slots@[l] is None,
            decreases n - i,
        {
            slots.push(None);
            i = i + 1;
        }
        let r = OriginalLineMap { slots, filled: 0 };
        proof {
            assert(r@ =~= Seq::new(n as nat, |l: int| None::<int>));
            crate::model::lemma_entry_count_none(r@, 0);
        }
        r
    }
}

/// Takes the source at slot `i` out of the map, leaving the slot empty.
fn take_slot(slots: &mut Vec<Option<Source>>, i: usize) -> (r: Option<Source>)
    requires
        i < old(slots)@.len(),
    ensures
        final(slots)@ == old(slots)@.update(i as int, None),
        r == old(slots)@[i as int],
{
    let s = slots.remove(i);
    slots.insert(i, None);
    proof {
        assert(slots@ =~= old(slots)@.update(i as int, None));
    }
    s
}

/// The file loader's decision on a tree entry: absent paths and non-file
/// values yield empty content, regular files their bytes, conflicted files
/// their materialised bytes; an unreadable entry is the one failure, cited
/// with the commit's id.
pub fn get_file_contents(commit_id: &CommitId, entry: &FileEntry) -> (r: Result<
    Vec<u8>,
    AnnotateError,
>)
    ensures
        entry_readable(*entry) ==> (r matches Ok(c) && c@ == entry_bytes(*entry)),
        !entry_readable(*entry) ==> (r matches Err(AnnotateError::BackendRead { commit_id: cid })
            && cid@ == commit_id@),
{
    match entry {
        FileEntry::Absent => Ok(Vec::new()),
        FileEntry::File { content } => Ok(clone_bytes(content)),
        FileEntry::Conflict { materialized } => Ok(clone_bytes(materialized)),
        FileEntry::Other => Ok(Vec::new()),
        FileEntry::Unreadable => Err(
            AnnotateError::BackendRead { commit_id: commit_id.clone() },
        ),
    }
}

impl Source {
    /// Loads the file's state at one node of the slice, with no line
    /// accounted for yet.
    pub fn load(node: &CommitNode) -> (r: Result<Self, AnnotateError>)
        ensures
            entry_readable(node.entry) ==> (r matches Ok(s) && s@ == load_spec(node.entry)
                && source_live_ok(s)),
            !entry_readable(node.entry) ==> (r matches Err(
                AnnotateError::BackendRead { commit_id: cid },
            ) && cid@ == node.commit_id@),
    {
        let text = match get_file_contents(&node.commit_id, &node.entry) {
            Ok(t) => t,
            Err(e) => {
                return Err(e);
            },
        };
        let n = split_lines(&text).len();
        let mut line_map: Vec<Option<usize>> = Vec::new();
        let mut i: usize = 0;
        while i < n
            invariant
                0 <= i <= n,
                line_map@.len() == i,
                forall|k: int| 0 <= k < i ==> #[trigger] line_map@[k] is None,
            decreases n - i,
        {
            line_map.push(None);
            i = i + 1;
        }
        let s = Source { line_map, text, live: 0 };
        proof {
            assert(s@.lmap =~= Seq::new(line_seq(entry_bytes(node.entry)).len(), |k: int| None::<
                int,
            >));
            crate::model::lemma_entry_count_none(s@.lmap, 0);
        }
        Ok(s)
    }
}

/// Builds the walk's starting source map: the starting node (index 0) holds
/// `source` with the identity line map over the file's `num_lines` lines; no
/// other node has a source yet.
pub fn get_initial_commit_line_map(source: Source, num_lines: usize, n_nodes: usize) -> (r:
    CommitSourceMap)
    requires
        n_nodes >= 1,
        source_live_ok(source),
        source@.lmap.len() == num_lines,
        forall|k: int| 0 <= k < source@.lmap.len() ==> #[trigger] source@.lmap[k] is None,
    ensures
        csm_wf(r),
        r@.len() == n_nodes,
        r@ == Seq::new(
            n_nodes as nat,
            |j: int|
                if j == 0 {
                    Some(
                        SourceModel {
                            text: source@.text,
                            lmap: Seq::new(num_lines as nat, |k: int| Some(k)),
                        },
                    )
                } else {
                    None
                },
        ),
{
    let ghost text0 = source@.text;
    let mut source = source;
    let mut i: usize = 0;
    proof {
        crate::model::lemma_entry_count_none(source@.lmap, 0);
    }
    while i < num_lines
        invariant
            0 <= i <= num_lines,
            source@.text == text0,
            source@.lmap.len() == num_lines,
            source.live == i,
            forall|k: int| 0 <= k < i ==> #[trigger] source@.lmap[k] == Some(k),
            forall|k: int| i <= k < num_lines ==> #[trigger] source@.lmap[k] is None,
            some_count(source@.lmap) == i,
        decreases num_lines - i,
    {
        let ghost prev = source@.lmap;
        proof {
            lemma_some_count_update(prev, i as int, Some(i as int));
        }
        source.line_map.set(i, Some(i));
        source.live = source.live + 1;
        proof {
            assert(source@.lmap =~= prev.update(i as int, Some(i as int)));
        }
        i = i + 1;
    }
    let mut slots: Vec<Option<Source>> = Vec::new();
    let ghost start_model = source@;
    slots.push(Some(source));
    let mut j: usize = 1;
    while j < n_nodes
        invariant
            1 <= j <= n_nodes,
            slots@.len() == j,
            slots@[0] is Some,
            slots@[0]->0@ == start_model,
            source_live_ok(slots@[0]->0),
            forall|k: int| 1 <= k < j ==> #[trigger] slots@[k] is None,
        decreases n_nodes - j,
    {
        slots.push(None);
        j = j + 1;
    }
    let r = CommitSourceMap { slots };
    proof {
        assert(start_model.lmap =~= Seq::new(num_lines as nat, |k: int| Some(k)));
        assert(r@ =~~= Seq::new(
            n_nodes as nat,
            |j: int|
                if j == 0 {
                    Some(
                        SourceModel {
                            text: start_model.text,
                            lmap: Seq::new(num_lines as nat, |k: int| Some(k)),
                        },
                    )
                } else {
                    None
                },
        ));
    }
    r
}

/// Once every parent of a commit has been examined, any leftover entries of
/// its line map are lines that originated at that commit: record each one in
/// the attribution map.
pub fn mark_lines_from_original(
    original_line_map: &mut OriginalLineMap,
    commit: usize,
    commit_lines: &Vec<Option<usize>>,
)
    requires
        olm_wf(*old(original_line_map)),
        forall|k: int|
            0 <= k < commit_lines@.len() && (#[trigger] commit_lines@[k]) is Some
                ==> commit_lines@[k]->0 < old(original_line_map)@.len()
                    && old(original_line_map)@[commit_lines@[k]->0 as int] is None,
        forall|k1: int, k2: int|
            0 <= k1 < k2 < commit_lines@.len() && (#[trigger] commit_lines@[k1]) is Some
                && (#[trigger] commit_lines@[k2]) is Some
                ==> commit_lines@[k1]->0 != commit_lines@[k2]->0,
    ensures
        olm_wf(*final(original_line_map)),
        final(original_line_map)@ == drain_from(
            old(original_line_map)@,
            lmap_view(commit_lines@),
            commit as int,
            0,
        ),
        final(original_line_map)@.len() == old(original_line_map)@.len(),
{
    let ghost lines0 = lmap_view(commit_lines@);
    let ghost olm0 = original_line_map@;
    let mut k: usize = 0;
    while k < commit_lines.len()
        invariant
            0 <= k <= commit_lines@.len(),
            commit_lines@.len() == lines0.len(),
            lines0 == lmap_view(commit_lines@),
            olm_wf(*original_line_map),
            original_line_map@.len() == olm0.len(),
            drain_from(olm0, lines0, commit as int, 0) == drain_from(
                original_line_map@,
                lines0,
                commit as int,
                k as int,
            ),
            forall|k2: int|
                k <= k2 < lines0.len() && (#[trigger] lines0[k2]) is Some
                    ==> 0 <= lines0[k2]->0 < original_line_map@.len()
                        && original_line_map@[lines0[k2]->0] is None,
            forall|k1: int, k2: int|
                0 <= k1 < k2 < lines0.len() && (#[trigger] lines0[k1]) is Some
                    && (#[trigger] lines0[k2]) is Some ==> lines0[k1]->0 != lines0[k2]->0,
        decreases commit_lines@.len() - k,
    {
        match commit_lines[k] {
            Some(l) => {
                let cap = original_line_map.slots.len();
                proof {
                    assert(lines0[k as int] == Some(l as int));
                    assert(original_line_map@[l as int] is None);
                    assert(original_line_map@.len() == cap);
                    lemma_some_count_update(original_line_map@, l as int, Some(commit as int));
                    lemma_some_count_bounds(original_line_map@);
                    crate::model::lemma_some_count_member(
                        original_line_map@.update(l as int, Some(commit as int)),
                        l as int,
                    );
                    lemma_some_count_bounds(
                        original_line_map@.update(l as int, Some(commit as int)),
                    );
                }
                let ghost before = original_line_map@;
                original_line_map.slots.set(l, Some(commit));
                original_line_map.filled = original_line_map.filled + 1;
                proof {
                    assert(original_line_map@ =~= before.update(l as int, Some(commit as int)));
                    assert forall|k2: int|
                        k + 1 <= k2 < lines0.len() && (#[trigger] lines0[k2]) is Some implies
                        0 <= lines0[k2]->0 < original_line_map@.len()
                            && original_line_map@[lines0[k2]->0] is None by {
                        assert(lines0[k as int] is Some);
                        assert(lines0[k2]->0 != lines0[k as int]->0);
                    }
                }
            },
            None => {
                proof {
                    assert(lines0[k as int] is None);
                }
            },
        }
        k = k + 1;
    }
}

/// For a given commit of the slice, compares its version of the file with
/// each direct parent's version, moving the line mapping of every line in
/// common over to the parent; a parent that ends up carrying nothing is
/// dropped from the source map. After all parents are examined, any leftover
/// entries are lines original to this commit and are recorded in the
/// attribution map.
#[verifier::rlimit(30)]
pub fn process_commit(
    nodes: &Vec<CommitNode>,
    i: usize,
    original_line_map: &mut OriginalLineMap,
    commit_source_map: &mut CommitSourceMap,
) -> (r: Result<(), AnnotateError>)
    requires
        wf_graph(nodes@),
        i < nodes@.len(),
        olm_wf(*old(original_line_map)),
        csm_wf(*old(commit_source_map)),
        old(commit_source_map)@.len() == nodes@.len(),
        state_inv(
            nodes@,
            EngineState { olm: old(original_line_map)@, srcs: old(commit_source_map)@ },
            i as int,
        ),
    ensures
        olm_wf(*final(original_line_map)),
        csm_wf(*final(commit_source_map)),
        final(commit_source_map)@.len() == nodes@.len(),
        final(original_line_map)@.len() == old(original_line_map)@.len(),
        (r matches Ok(()) ==> (step_node(
            nodes@,
            EngineState { olm: old(original_line_map)@, srcs: old(commit_source_map)@ },
            i as int,
        ) == Ok::<EngineState, int>(
            EngineState {
                olm: final(original_line_map)@,
                srcs: final(commit_source_map)@,
            },
        ) && state_inv(
            nodes@,
            EngineState {
                olm: final(original_line_map)@,
                srcs: final(commit_source_map)@,
            },
            i + 1,
        ))),
        (r matches Err(AnnotateError::BackendRead { commit_id: cid }) ==> (step_node(
            nodes@,
            EngineState { olm: old(original_line_map)@, srcs: old(commit_source_map)@ },
            i as int,
        ) matches Err(j) && 0 <= j < nodes@.len() && cid@ == nodes@[j].commit_id@)),
{
    let ghost st0 = EngineState { olm: original_line_map@, srcs: commit_source_map@ };
    let cur_opt = take_slot(&mut commit_source_map.slots, i);
    proof {
        assert(commit_source_map@ =~= st0.srcs.update(i as int, None));
    }
    match cur_opt {
        None => {
            proof {
                assert(st0.srcs[i as int] is None);
                assert(commit_source_map@ =~= st0.srcs);
                lemma_step_inv(nodes@, st0, i as int);
            }
            Ok(())
        },
        Some(mut current_source) => {
            let ghost child0 = current_source@;
            let ghost srcs0 = commit_source_map@;
            proof {
                assert(st0.srcs[i as int] == Some(child0));
                assert(source_live_ok(current_source)) by {
                    assert(old(commit_source_map).slots@[i as int] is Some);
                }
                assert forall|l: int| 0 <= l < st0.olm.len() implies owner_bit(st0.olm[l])
                    + crate::model::entry_count(child0.lmap, l) + #[trigger] srcs_count(
                    srcs0,
                    l,
                ) == 1 by {
                    assert(owner_bit(st0.olm[l]) + srcs_count(st0.srcs, l) == 1);
                    lemma_srcs_count_update(st0.srcs, i as int, None, l);
                }
                assert(walk_inv(nodes@, st0.olm, child0, srcs0, i as int));
            }
            let edges_len = nodes[i].edges.len();
            let mut e: usize = 0;
            while e < edges_len
                invariant
                    wf_graph(nodes@),
                    i < nodes@.len(),
                    edges_len == nodes@[i as int].edges@.len(),
                    0 <= e <= edges_len,
                    st0 == (EngineState {
                        olm: old(original_line_map)@,
                        srcs: old(commit_source_map)@,
                    }),
                    st0.srcs[i as int] == Some(child0),
                    srcs0 == st0.srcs.update(i as int, None),
                    original_line_map@ == st0.olm,
                    olm_wf(*original_line_map),
                    commit_source_map@.len() == nodes@.len(),
                    csm_wf(*commit_source_map),
                    source_live_ok(current_source),
                    walk_inv(
                        nodes@,
                        st0.olm,
                        current_source@,
                        commit_source_map@,
                        i as int,
                    ),
                    apply_edges_from(nodes@, child0, srcs0, i as int, 0) == apply_edges_from(
                        nodes@,
                        current_source@,
                        commit_source_map@,
                        i as int,
                        e as int,
                    ),
                decreases edges_len - e,
            {
                let edge = nodes[i].edges[e];
                let ghost cur_e = current_source@;
                let ghost srcs_e = commit_source_map@;
                proof {
                    assert(nodes@[i as int].edges@[e as int] == edge);
                    lemma_apply_edge_inv(nodes@, st0.olm, cur_e, srcs_e, i as int, e as int);
                }
                match edge.edge_type {
                    crate::model::GraphEdgeType::Missing => {
                        proof {
                            assert(apply_edge(nodes@, cur_e, srcs_e, i as int, e as int)
                                == Ok::<(SourceModel, Seq<Option<SourceModel>>), int>(
                                (cur_e, srcs_e),
                            ));
                        }
                    },
                    crate::model::GraphEdgeType::Direct => {
                        let p = edge.target;
                        proof {
                            assert(i < p < nodes@.len());
                        }
                        if commit_source_map.slots[p].is_none() {
                            match Source::load(&nodes[p]) {
                                Err(err) => {
                                    proof {
                                        assert(srcs_e[p as int] is None);
                                        assert(apply_edge(
                                            nodes@,
                                            cur_e,
                                            srcs_e,
                                            i as int,
                                            e as int,
                                        ) == Err::<(SourceModel, Seq<Option<SourceModel>>), int>(
                                            p as int,
                                        ));
                                        assert(apply_edges_from(
                                            nodes@,
                                            child0,
                                            srcs0,
                                            i as int,
                                            0,
                                        ) == Err::<(SourceModel, Seq<Option<SourceModel>>), int>(
                                            p as int,
                                        ));
                                        assert(step_node(nodes@, st0, i as int)
                                            == Err::<EngineState, int>(p as int));
                                    }
                                    return Err(err);
                                },
                                Ok(loaded) => {
                                    commit_source_map.slots.set(p, Some(loaded));
                                    proof {
                                        assert(commit_source_map@ =~= srcs_e.update(
                                            p as int,
                                            Some(load_spec(nodes@[p as int].entry)),
                                        ));
                                    }
                                },
                            }
                        }
                        let ghost psrc = if srcs_e[p as int] is Some {
                            srcs_e[p as int]->0
                        } else {
                            load_spec(nodes@[p as int].entry)
                        };
                        proof {
                            assert(commit_source_map@[p as int] == Some(psrc));
                            assert(commit_source_map@ =~= srcs_e.update(p as int, Some(psrc)));
                        }
                        let par_opt = take_slot(&mut commit_source_map.slots, p);
                        let mut parent_source = match par_opt {
                            Some(ps) => ps,
                            None => unreached(),
                        };
                        proof {
                            assert(parent_source@ == psrc);
                            assert(commit_source_map@ =~= srcs_e.update(p as int, None));
                        }
                        let same_line_map = process_files_in_commits(
                            &current_source,
                            &parent_source,
                        );
                        let ghost pairs = matcher_pairs(cur_e.text, psrc.text);
                        proof {
                            lemma_same_line_pairs(line_seq(cur_e.text), line_seq(psrc.text));
                            if srcs_e[p as int] is Some {
                                assert(src_wf(nodes@, p as int, psrc, st0.olm.len() as int));
                            }
                            assert(psrc.lmap.len() == line_seq(psrc.text).len());
                            assert(cur_e.lmap.len() == line_seq(cur_e.text).len());
                        }
                        let ghost clm0 = current_source@.lmap;
                        let ghost plm0 = parent_source@.lmap;
                        let mut t: usize = 0;
                        while t < same_line_map.len()
                            invariant
                                0 <= t <= same_line_map@.len(),
                                same_line_map@.len() == pairs.len(),
                                forall|x: int|
                                    0 <= x < pairs.len()
                                        ==> #[trigger] same_line_map@[x].0 == pairs[x].0
                                            && same_line_map@[x].1 == pairs[x].1,
                                forall|x: int|
                                    0 <= x < pairs.len()
                                        ==> 0 <= #[trigger] pairs[x].0 < clm0.len()
                                            && 0 <= pairs[x].1 < plm0.len(),
                                current_source@.text == cur_e.text,
                                parent_source@.text == psrc.text,
                                current_source@.lmap.len() == clm0.len(),
                                parent_source@.lmap.len() == plm0.len(),
                                source_live_ok(current_source),
                                source_live_ok(parent_source),
                                merge_pairs_from(clm0, plm0, pairs, 0) == merge_pairs_from(
                                    current_source@.lmap,
                                    parent_source@.lmap,
                                    pairs,
                                    t as int,
                                ),
                            decreases same_line_map@.len() - t,
                        {
                            let pr = same_line_map[t];
                            let ck = pr.0;
                            let pm = pr.1;
                            let ghost clm_t = current_source@.lmap;
                            let ghost plm_t = parent_source@.lmap;
                            proof {
                                assert(pairs[t as int].0 == ck && pairs[t as int].1 == pm);
                            }
                            let cval = current_source.line_map[ck];
                            match cval {
                                Some(l) => {
                                    if parent_source.line_map[pm].is_none() {
                                        let pcap = parent_source.line_map.len();
                                        proof {
                                            assert(clm_t[ck as int] == Some(l as int));
                                            assert(plm_t[pm as int] is None);
                                            lemma_some_count_update(
                                                plm_t,
                                                pm as int,
                                                Some(l as int),
                                            );
                                            lemma_some_count_bounds(
                                                plm_t.update(pm as int, Some(l as int)),
                                            );
                                            lemma_some_count_update(clm_t, ck as int, None);
                                            lemma_some_count_member(clm_t, ck as int);
                                            lemma_some_count_bounds(clm_t);
                                        }
                                        parent_source.line_map.set(pm, Some(l));
                                        parent_source.live = parent_source.live + 1;
                                        current_source.line_map.set(ck, None);
                                        current_source.live = current_source.live - 1;
                                        proof {
                                            assert(current_source@.lmap =~= clm_t.update(
                                                ck as int,
                                                None,
                                            ));
                                            assert(parent_source@.lmap =~= plm_t.update(
                                                pm as int,
                                                Some(l as int),
                                            ));
                                            assert(move_pair(clm_t, plm_t, ck as int, pm as int)
                                                == (current_source@.lmap, parent_source@.lmap));
                                        }
                                    } else {
                                        proof {
                                            assert(plm_t[pm as int] is Some);
                                            assert(move_pair(clm_t, plm_t, ck as int, pm as int)
                                                == (clm_t, plm_t));
                                        }
                                    }
                                },
                                None => {
                                    proof {
                                        assert(clm_t[ck as int] is None);
                                        assert(move_pair(clm_t, plm_t, ck as int, pm as int)
                                            == (clm_t, plm_t));
                                    }
                                },
                            }
                            t = t + 1;
                        }
                        let ghost cp = merge_pairs_from(clm0, plm0, pairs, 0);
                        proof {
                            assert(cp == (current_source@.lmap, parent_source@.lmap));
                        }
                        if parent_source.live == 0 {
                            proof {
                                assert(some_count(cp.1) == 0);
                                assert(commit_source_map@ =~= srcs_e.update(p as int, None));
                            }
                        } else {
                            let ghost pmodel = SourceModel { text: psrc.text, lmap: cp.1 };
                            proof {
                                assert(some_count(cp.1) != 0);
                                assert(parent_source@ =~= pmodel);
                            }
                            commit_source_map.slots.set(p, Some(parent_source));
                            proof {
                                assert(commit_source_map@ =~= srcs_e.update(
                                    p as int,
                                    Some(pmodel),
                                ));
                            }
                        }
                        proof {
                            assert(apply_edge(nodes@, cur_e, srcs_e, i as int, e as int)
                                == Ok::<(SourceModel, Seq<Option<SourceModel>>), int>(
                                (current_source@, commit_source_map@),
                            ));
                        }
                    },
                }
                e = e + 1;
            }
            proof {
                assert(apply_edges_from(nodes@, child0, srcs0, i as int, 0)
                    == Ok::<(SourceModel, Seq<Option<SourceModel>>), int>(
                    (current_source@, commit_source_map@),
                ));
                let cur = current_source@;
                let csm = commit_source_map@;
                assert forall|k: int|
                    0 <= k < current_source.line_map@.len()
                        && (#[trigger] current_source.line_map@[k]) is Some implies
                    current_source.line_map@[k]->0 < original_line_map@.len()
                        && original_line_map@[current_source.line_map@[k]->0 as int] is None by {
                    let v = current_source.line_map@[k]->0 as int;
                    assert(cur.lmap[k] == Some(v));
                    lemma_entry_count_exists(cur.lmap, v);
                    assert(owner_bit(st0.olm[v]) + crate::model::entry_count(cur.lmap, v)
                        + srcs_count(csm, v) == 1);
                    lemma_srcs_count_nonneg(csm, v);
                    crate::model::lemma_entry_count_bounds(cur.lmap, v);
                }
                assert forall|k1: int, k2: int|
                    0 <= k1 < k2 < current_source.line_map@.len()
                        && (#[trigger] current_source.line_map@[k1]) is Some
                        && (#[trigger] current_source.line_map@[k2]) is Some implies
                    current_source.line_map@[k1]->0 != current_source.line_map@[k2]->0 by {
                    let v1 = current_source.line_map@[k1]->0 as int;
                    let v2 = current_source.line_map@[k2]->0 as int;
                    if v1 == v2 {
                        assert(cur.lmap[k1] == Some(v1));
                        assert(cur.lmap[k2] == Some(v1));
                        lemma_entry_count_two(cur.lmap, k1, k2, v1);
                        assert(owner_bit(st0.olm[v1]) + crate::model::entry_count(cur.lmap, v1)
                            + srcs_count(csm, v1) == 1);
                        lemma_srcs_count_nonneg(csm, v1);
                    }
                }
            }

            mark_lines_from_original(original_line_map, i, &current_source.line_map);
            proof {
                assert(step_node(nodes@, st0, i as int) == Ok::<EngineState, int>(
                    EngineState { olm: original_line_map@, srcs: commit_source_map@ },
                ));
                lemma_step_inv(nodes@, st0, i as int);
            }
            Ok(())
        },
    }
}

/// The matching line pairs between two versions of the same file, as held by
/// a child commit's source and one of its parents' sources.
pub fn process_files_in_commits(current_source: &Source, parent_source: &Source) -> (r: Vec<
    (usize, usize),
>)
    ensures
        ({
            let pairs = matcher_pairs(current_source@.text, parent_source@.text);
            &&& r@.len() == pairs.len()
            &&& forall|i: int| 0 <= i < r@.len()
                ==> #[trigger] r@[i].0 == pairs[i].0 && r@[i].1 == pairs[i].1
        }),
{
    get_same_line_map(&current_source.text, &parent_source.text)
}

/// Starting at the starting commit, computes changes at each commit of the
/// slice relative to its direct parents, updating the mappings as it goes,
/// and stopping early once every original line is attributed. Returns the
/// final map that says where each line of the original came from.
pub fn process_commits(
    nodes: &Vec<CommitNode>,
    starting_source: Source,
    num_lines: usize,
) -> (r: Result<OriginalLineMap, AnnotateError>)
    requires
        wf_graph(nodes@),
        nodes@.len() >= 1,
        entry_readable(nodes@[0].entry),
        source_live_ok(starting_source),
        starting_source@ == load_spec(nodes@[0].entry),
        num_lines == line_seq(entry_bytes(nodes@[0].entry)).len(),
    ensures
        (r matches Ok(olm) ==> (run_nodes(nodes@, init_state(nodes@), 0) matches Ok(stf)
            && olm@ == stf.olm && olm_wf(olm))),
        (r matches Err(AnnotateError::BackendRead { commit_id: cid }) ==> (run_nodes(
            nodes@,
            init_state(nodes@),
            0,
        ) matches Err(j) && 0 <= j < nodes@.len() && cid@ == nodes@[j].commit_id@)),
{
    let ghost st_init = init_state(nodes@);
    let mut commit_source_map = get_initial_commit_line_map(
        starting_source,
        num_lines,
        nodes.len(),
    );
    let mut original_line_map = OriginalLineMap::new(num_lines);
    proof {
        assert(commit_source_map@ =~~= st_init.srcs);
        assert(original_line_map@ =~= st_init.olm);
        lemma_init_inv(nodes@);
    }
    let mut i: usize = 0;
    while i < nodes.len()
        invariant
            wf_graph(nodes@),
            nodes@.len() >= 1,
            0 <= i <= nodes@.len(),
            st_init == init_state(nodes@),
            olm_wf(original_line_map),
            csm_wf(commit_source_map),
            commit_source_map@.len() == nodes@.len(),
            original_line_map@.len() == num_lines,
            state_inv(
                nodes@,
                EngineState { olm: original_line_map@, srcs: commit_source_map@ },
                i as int,
            ),
            run_nodes(nodes@, st_init, 0) == run_nodes(
                nodes@,
                EngineState { olm: original_line_map@, srcs: commit_source_map@ },
                i as int,
            ),
        decreases nodes@.len() - i,
    {
        let ghost st_i = EngineState { olm: original_line_map@, srcs: commit_source_map@ };
        match process_commit(nodes, i, &mut original_line_map, &mut commit_source_map) {
            Err(err) => {
                proof {
                    assert(run_nodes(nodes@, st_i, i as int) == run_nodes(nodes@, st_init, 0));
                }
                return Err(err);
            },
            Ok(()) => {},
        }
        let ghost st_n = EngineState { olm: original_line_map@, srcs: commit_source_map@ };
        if original_line_map.filled >= num_lines {
            proof {
                assert(some_count(st_n.olm) >= st_n.olm.len());
                assert(run_nodes(nodes@, st_i, i as int) == Ok::<EngineState, int>(st_n));
            }
            return Ok(original_line_map);
        }
        proof {
            assert(some_count(st_n.olm) < st_n.olm.len());
            assert(run_nodes(nodes@, st_i, i as int) == run_nodes(nodes@, st_n, i + 1));
        }
        i = i + 1;
    }
    proof {
        assert(run_nodes(
            nodes@,
            EngineState { olm: original_line_map@, srcs: commit_source_map@ },
            i as int,
        ) == Ok::<EngineState, int>(
            EngineState { olm: original_line_map@, srcs: commit_source_map@ },
        ));
    }
    Ok(original_line_map)
}

/// Takes the final original line map and the original contents, and
/// annotates each line of the file with the commit it is attributed to.
pub fn convert_to_results(
    nodes: &Vec<CommitNode>,
    original_line_map: &OriginalLineMap,
    original_contents: &Vec<u8>,
) -> (r: AnnotateResults)
    requires
        original_line_map@.len() == line_seq(original_contents@).len(),
        forall|l: int|
            0 <= l < original_line_map@.len() ==> (#[trigger] original_line_map@[l]) is Some
                && 0 <= original_line_map@[l]->0 < nodes@.len(),
    ensures
        r@.len() == original_line_map@.len(),
        forall|l: int|
            0 <= l < r@.len() ==> #[trigger] r@[l].0 == nodes@[original_line_map@[l]->0].commit_id@
                && r@[l].1 == line_seq(original_contents@)[l],
{
    let lines = split_lines(original_contents);
    let mut file_annotations: Vec<(CommitId, Vec<u8>)> = Vec::new();
    let mut l: usize = 0;
    while l < lines.len()
        invariant
            0 <= l <= lines@.len(),
            lines.deep_view() == line_seq(original_contents@),
            original_line_map@.len() == lines@.len(),
            forall|x: int|
                0 <= x < original_line_map@.len() ==> (#[trigger] original_line_map@[x]) is Some
                    && 0 <= original_line_map@[x]->0 < nodes@.len(),
            file_annotations@.len() == l,
            forall|x: int|
                0 <= x < l ==> #[trigger] file_annotations@[x].0@
                    == nodes@[original_line_map@[x]->0].commit_id@
                    && file_annotations@[x].1@ == line_seq(original_contents@)[x],
        decreases lines@.len() - l,
    {
        match original_line_map.slots[l] {
            Some(idx) => {
                proof {
                    assert(original_line_map@[l as int] == Some(idx as int));
                }
                let commit_id = nodes[idx].commit_id.clone();
                let line = clone_bytes(&lines[l]);
                proof {
                    assert(lines@[l as int]@ == line_seq(original_contents@)[l as int]);
                }
                file_annotations.push((commit_id, line));
            },
            None => {
                proof {
                    assert(original_line_map@[l as int] is Some);
                }
                unreached()
            },
        }
        l = l + 1;
    }
    AnnotateResults { file_annotations }
}

/// Gets line-by-line annotations for a file, given the path-filtered slice
/// of the starting commit's ancestry (`nodes[0]` being the starting commit).
/// If the file is absent at the starting commit, returns empty results.
pub fn get_annotation_for_file(nodes: &Vec<CommitNode>) -> (r: Result<
    AnnotateResults,
    AnnotateError,
>)
    requires
        wf_graph(nodes@),
        nodes@.len() >= 1,
    ensures
        (r matches Ok(res) ==> (annotate_spec(nodes@) matches Ok(rs) && res@ == rs
            && res@.len() == line_seq(entry_bytes(nodes@[0].entry)).len())),
        (r matches Err(AnnotateError::BackendRead { commit_id: cid }) ==> (annotate_spec(nodes@)
            matches Err(j) && 0 <= j < nodes@.len() && cid@ == nodes@[j].commit_id@
            && !entry_readable(nodes@[j].entry))),
        (forall|j: int| 0 <= j < nodes@.len() ==> entry_readable(#[trigger] nodes@[j].entry))
            ==> r is Ok,
{
    proof {
        if forall|j: int| 0 <= j < nodes@.len() ==> entry_readable(#[trigger] nodes@[j].entry) {
            crate::laws::lemma_annotation_success(nodes@);
        }
    }
    let source = match Source::load(&nodes[0]) {
        Ok(s) => s,
        Err(e) => {
            proof {
                assert(annotate_spec(nodes@) == Err::<Seq<(Seq<u8>, Seq<u8>)>, int>(0));
            }
            return Err(e);
        },
    };
    let original_contents = clone_bytes(&source.text);
    let num_lines = source.line_map.len();
    proof {
        assert(num_lines == line_seq(entry_bytes(nodes@[0].entry)).len());
        lemma_init_inv(nodes@);
        lemma_run_props(nodes@, init_state(nodes@), 0);
    }
    let original_line_map = match process_commits(nodes, source, num_lines) {
        Ok(olm) => olm,
        Err(e) => {
            return Err(e);
        },
    };
    let results = convert_to_results(nodes, &original_line_map, &original_contents);
    proof {
        let stf = run_nodes(nodes@, init_state(nodes@), 0)->Ok_0;
        assert(results@ =~~= project(nodes@, stf.olm));
    }
    Ok(results)
}

} // verus!
