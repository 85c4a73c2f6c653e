//! The input model of the attribution engine, and the mathematical semantics
//! of the attribution walk.
//!
//! The engine consumes the path-filtered slice of the starting commit's
//! ancestry as plain data: one node per commit that touches the file (plus
//! the starting commit itself), delivered in reverse-topological order, each
//! node carrying the commit id, the file's state at that commit, and the
//! commit's parent edges. A parent edge is `Direct` when the parent belongs
//! to the slice (its index, which is larger than the child's by
//! reverse-topological order), and `Missing` when the revset filter omitted
//! the parent; missing edges are never traversed.
//!
//! The second half of this file defines the walk itself as a spec-level
//! interpreter. The executable engine is verified to compute exactly what
//! this interpreter describes, which both pins its behaviour completely and
//! makes it deterministic.

use vstd::prelude::*;
use crate::lines::line_seq;

verus! {

/// Identifier of a commit, as an opaque byte string.
#[derive(Debug, PartialEq, Eq)]
pub struct CommitId {
    pub bytes: Vec<u8>,
}

impl View for CommitId {
    type V = Seq<u8>;

    open spec fn view(&self) -> Seq<u8> {
        self.bytes@
    }
}

/// The failure the engine can surface: a file content that could not be
/// read from the store (or a conflict that could not be materialised),
/// cited with the commit whose file was being opened.
#[derive(Debug, PartialEq, Eq)]
pub enum AnnotateError {
    BackendRead { commit_id: CommitId },
}

impl Clone for CommitId {
    fn clone(&self) -> (res: Self)
        ensures
            res@ == self@,
    {
        CommitId { bytes: crate::lines::clone_bytes(&self.bytes) }
    }
}

/// The state of the annotated file in one commit's tree, after conflict
/// materialisation.
///
/// `Conflict` carries the canonical byte stream that the conflict
/// materialiser produced (a single buffer with conflict markers); `Other`
/// stands for a tree value that is neither absent nor a regular file nor a
/// file conflict (a directory, a symlink, ...), which the engine treats as
/// absent. `Unreadable` stands for a file whose content could not be read
/// from the store; the walk aborts if and only if it tries to open one.
#[derive(Debug, Clone)]
pub enum FileEntry {
    Absent,
    File { content: Vec<u8> },
    Conflict { materialized: Vec<u8> },
    Other,
    Unreadable,
}

/// Classification of a parent edge, following the revset driver: `Missing`
/// edges point outside the filtered slice and are skipped entirely.
#[derive(Debug, Clone, Copy, PartialEq, Eq)]
pub enum GraphEdgeType {
    Direct,
    Missing,
}

/// A parent edge of a node; `target` indexes the parent's node when the edge
/// is `Direct`, and is meaningless when the edge is `Missing`.
#[derive(Debug, Clone, Copy)]
pub struct GraphEdge {
    pub target: usize,
    pub edge_type: GraphEdgeType,
}

/// One commit of the path-filtered ancestry slice.
#[derive(Debug, Clone)]
pub struct CommitNode {
    pub commit_id: CommitId,
    pub entry: FileEntry,
    pub edges: Vec<GraphEdge>,
}

/// Whether the file's content at this entry can be read.
pub open spec fn entry_readable(e: FileEntry) -> bool {
    !(e is Unreadable)
}

/// The byte content the file loader yields for an entry: file content,
/// materialised conflict content, or empty for an absent or non-file value.
pub open spec fn entry_bytes(e: FileEntry) -> Seq<u8> {
    match e {
        FileEntry::File { content } => content@,
        FileEntry::Conflict { materialized } => materialized@,
        _ => Seq::empty(),
    }
}

/// Well-formedness of the slice: nodes are in reverse-topological order, so
/// every direct parent edge points strictly forward, at a valid node.
pub open spec fn wf_graph(nodes: Seq<CommitNode>) -> bool {
    forall|i: int, e: int|
        0 <= i < nodes.len() && 0 <= e < nodes[i].edges@.len()
            && (#[trigger] nodes[i].edges@[e]).edge_type is Direct
            ==> i < nodes[i].edges@[e].target < nodes.len()
}

/// Reachability from the starting node (index 0) along direct parent edges.
pub open spec fn reaches(nodes: Seq<CommitNode>, j: int) -> bool
    decreases j,
{
    j == 0 || exists|i: int, e: int|
        0 <= i < j && 0 <= e < nodes[i].edges@.len()
            && (#[trigger] nodes[i].edges@[e]).edge_type is Direct
            && nodes[i].edges@[e].target == j && reaches(nodes, i)
}

/// The per-commit record of the walk: the file's bytes at that commit, and a
/// dense map from line numbers of that version to the original line (in the
/// starting revision) each one still accounts for.
#[verifier::ext_equal]
pub struct SourceModel {
    pub text: Seq<u8>,
    pub lmap: Seq<Option<int>>,
}

/// The mutable state of the walk: the original-line attribution map (per
/// original line, the index of the node it is attributed to, once known) and
/// the per-node pending sources.
#[verifier::ext_equal]
pub struct EngineState {
    pub olm: Seq<Option<int>>,
    pub srcs: Seq<Option<SourceModel>>,
}

/// How many entries of `lmap` hold exactly the original line `val`.
pub open spec fn entry_count(lmap: Seq<Option<int>>, val: int) -> int
    decreases lmap.len(),
{
    if lmap.len() == 0 {
        0
    } else {
        (if lmap[0] == Some(val) { 1int } else { 0int }) + entry_count(lmap.drop_first(), val)
    }
}

/// How many entries of `lmap` are present at all.
pub open spec fn some_count(lmap: Seq<Option<int>>) -> int
    decreases lmap.len(),
{
    if lmap.len() == 0 {
        0
    } else {
        (if lmap[0] is Some { 1int } else { 0int }) + some_count(lmap.drop_first())
    }
}

/// How many pending entries across all live sources hold `val`.
pub open spec fn srcs_count(srcs: Seq<Option<SourceModel>>, val: int) -> int
    decreases srcs.len(),
{
    if srcs.len() == 0 {
        0
    } else {
        (match srcs[0] {
            Some(s) => entry_count(s.lmap, val),
            None => 0int,
        }) + srcs_count(srcs.drop_first(), val)
    }
}

pub proof fn lemma_entry_count_bounds(lmap: Seq<Option<int>>, val: int)
    ensures
        0 <= entry_count(lmap, val) <= lmap.len(),
    decreases lmap.len(),
{
    if lmap.len() > 0 {
        lemma_entry_count_bounds(lmap.drop_first(), val);
    }
}

pub proof fn lemma_some_count_bounds(lmap: Seq<Option<int>>)
    ensures
        0 <= some_count(lmap) <= lmap.len(),
    decreases lmap.len(),
{
    if lmap.len() > 0 {
        lemma_some_count_bounds(lmap.drop_first());
    }
}

/// Pointwise effect of updating one slot on the two counters.
pub proof fn lemma_entry_count_update(lmap: Seq<Option<int>>, k: int, v: Option<int>, val: int)
    requires
        0 <= k < lmap.len(),
    ensures
        entry_count(lmap.update(k, v), val) == entry_count(lmap, val)
            - (if lmap[k] == Some(val) { 1int } else { 0int })
            + (if v == Some(val) { 1int } else { 0int }),
    decreases lmap.len(),
{
    if k == 0 {
        assert(lmap.update(0, v).drop_first() =~= lmap.drop_first());
    } else {
        assert(lmap.update(k, v).drop_first() =~= lmap.drop_first().update(k - 1, v));
        lemma_entry_count_update(lmap.drop_first(), k - 1, v, val);
    }
}

pub proof fn lemma_some_count_update(lmap: Seq<Option<int>>, k: int, v: Option<int>)
    requires
        0 <= k < lmap.len(),
    ensures
        some_count(lmap.update(k, v)) == some_count(lmap)
            - (if lmap[k] is Some { 1int } else { 0int })
            + (if v is Some { 1int } else { 0int }),
    decreases lmap.len(),
{
    if k == 0 {
        assert(lmap.update(0, v).drop_first() =~= lmap.drop_first());
    } else {
        assert(lmap.update(k, v).drop_first() =~= lmap.drop_first().update(k - 1, v));
        lemma_some_count_update(lmap.drop_first(), k - 1, v);
    }
}

/// An original line is counted somewhere in `lmap` exactly when some slot
/// holds it.
pub proof fn lemma_entry_count_exists(lmap: Seq<Option<int>>, val: int)
    ensures
        entry_count(lmap, val) > 0 <==> exists|k: int|
            0 <= k < lmap.len() && lmap[k] == Some(val),
    decreases lmap.len(),
{
    lemma_entry_count_bounds(lmap, val);
    if lmap.len() > 0 {
        lemma_entry_count_exists(lmap.drop_first(), val);
        lemma_entry_count_bounds(lmap.drop_first(), val);
        if entry_count(lmap, val) > 0 {
            if lmap[0] == Some(val) {
                assert(0 <= 0 < lmap.len() && lmap[0] == Some(val));
            } else {
                let k = choose|k: int|
                    0 <= k < lmap.drop_first().len() && lmap.drop_first()[k] == Some(val);
                assert(lmap[k + 1] == Some(val));
            }
        }
        if exists|k: int| 0 <= k < lmap.len() && lmap[k] == Some(val) {
            let k = choose|k: int| 0 <= k < lmap.len() && lmap[k] == Some(val);
            if k > 0 {
                assert(lmap.drop_first()[k - 1] == Some(val));
            }
        }
    }
}

/// A map with no present entry counts nothing, for any original line.
pub proof fn lemma_some_count_zero(lmap: Seq<Option<int>>, val: int)
    requires
        some_count(lmap) == 0,
    ensures
        entry_count(lmap, val) == 0,
        forall|k: int| 0 <= k < lmap.len() ==> lmap[k] is None,
    decreases lmap.len(),
{
    if lmap.len() > 0 {
        lemma_some_count_bounds(lmap.drop_first());
        lemma_some_count_zero(lmap.drop_first(), val);
        assert forall|k: int| 0 <= k < lmap.len() implies lmap[k] is None by {
            if k > 0 {
                assert(lmap.drop_first()[k - 1] is None);
            }
        }
    }
}

/// An all-empty map counts nothing.
pub proof fn lemma_entry_count_none(lmap: Seq<Option<int>>, val: int)
    requires
        forall|k: int| 0 <= k < lmap.len() ==> lmap[k] is None,
    ensures
        entry_count(lmap, val) == 0,
        some_count(lmap) == 0,
    decreases lmap.len(),
{
    if lmap.len() > 0 {
        assert(lmap[0] is None);
        assert forall|k: int| 0 <= k < lmap.drop_first().len() implies
            lmap.drop_first()[k] is None by {
            assert(lmap[k + 1] is None);
        }
        lemma_entry_count_none(lmap.drop_first(), val);
    }
}

/// A full map (every slot present) has every slot present; conversely a map
/// whose present count equals its length is full.
pub proof fn lemma_some_count_full(lmap: Seq<Option<int>>)
    requires
        some_count(lmap) >= lmap.len(),
    ensures
        forall|k: int| 0 <= k < lmap.len() ==> lmap[k] is Some,
    decreases lmap.len(),
{
    if lmap.len() > 0 {
        lemma_some_count_bounds(lmap.drop_first());
        lemma_some_count_full(lmap.drop_first());
        assert forall|k: int| 0 <= k < lmap.len() implies lmap[k] is Some by {
            if k > 0 {
                assert(lmap.drop_first()[k - 1] is Some);
            }
        }
    }
}

/// A present slot makes the presence counter positive.
pub proof fn lemma_some_count_member(lmap: Seq<Option<int>>, k: int)
    requires
        0 <= k < lmap.len(),
        lmap[k] is Some,
    ensures
        some_count(lmap) >= 1,
    decreases lmap.len(),
{
    lemma_some_count_bounds(lmap.drop_first());
    if k > 0 {
        lemma_some_count_member(lmap.drop_first(), k - 1);
    }
}

/// Two distinct slots holding the same original line make its count at
/// least two.
pub proof fn lemma_entry_count_two(lmap: Seq<Option<int>>, k1: int, k2: int, val: int)
    requires
        0 <= k1 < k2 < lmap.len(),
        lmap[k1] == Some(val),
        lmap[k2] == Some(val),
    ensures
        entry_count(lmap, val) >= 2,
    decreases lmap.len(),
{
    if k1 == 0 {
        assert(lmap.drop_first()[k2 - 1] == Some(val));
        lemma_entry_count_exists(lmap.drop_first(), val);
    } else {
        assert(lmap.drop_first()[k1 - 1] == Some(val));
        assert(lmap.drop_first()[k2 - 1] == Some(val));
        lemma_entry_count_two(lmap.drop_first(), k1 - 1, k2 - 1, val);
    }
}

/// Effect of replacing one source on the cross-source counter.
pub proof fn lemma_srcs_count_update(
    srcs: Seq<Option<SourceModel>>,
    j: int,
    s: Option<SourceModel>,
    val: int,
)
    requires
        0 <= j < srcs.len(),
    ensures
        srcs_count(srcs.update(j, s), val) == srcs_count(srcs, val)
            - (match srcs[j] {
                Some(t) => entry_count(t.lmap, val),
                None => 0int,
            })
            + (match s {
                Some(t) => entry_count(t.lmap, val),
                None => 0int,
            }),
    decreases srcs.len(),
{
    if j == 0 {
        assert(srcs.update(0, s).drop_first() =~= srcs.drop_first());
    } else {
        assert(srcs.update(j, s).drop_first() =~= srcs.drop_first().update(j - 1, s));
        lemma_srcs_count_update(srcs.drop_first(), j - 1, s, val);
    }
}

/// Sources that are all absent count nothing.
pub proof fn lemma_srcs_count_none(srcs: Seq<Option<SourceModel>>, val: int)
    requires
        forall|j: int| 0 <= j < srcs.len() ==> srcs[j] is None,
    ensures
        srcs_count(srcs, val) == 0,
    decreases srcs.len(),
{
    if srcs.len() > 0 {
        assert(srcs[0] is None);
        assert forall|j: int| 0 <= j < srcs.drop_first().len() implies
            srcs.drop_first()[j] is None by {
            assert(srcs[j + 1] is None);
        }
        lemma_srcs_count_none(srcs.drop_first(), val);
    }
}

pub proof fn lemma_srcs_count_nonneg(srcs: Seq<Option<SourceModel>>, val: int)
    ensures
        srcs_count(srcs, val) >= 0,
    decreases srcs.len(),
{
    if srcs.len() > 0 {
        match srcs[0] {
            Some(s) => lemma_entry_count_bounds(s.lmap, val),
            None => (),
        }
        lemma_srcs_count_nonneg(srcs.drop_first(), val);
    }
}

/// If a live source holds `val` somewhere, the cross-source counter sees it.
pub proof fn lemma_srcs_count_member(srcs: Seq<Option<SourceModel>>, j: int, val: int)
    requires
        0 <= j < srcs.len(),
        srcs[j] is Some,
    ensures
        srcs_count(srcs, val) >= entry_count(srcs[j]->0.lmap, val),
    decreases srcs.len(),
{
    lemma_entry_count_bounds(srcs[j]->0.lmap, val);
    if j == 0 {
        lemma_srcs_count_nonneg(srcs.drop_first(), val);
    } else {
        lemma_srcs_count_member(srcs.drop_first(), j - 1, val);
        match srcs[0] {
            Some(s) => lemma_entry_count_bounds(s.lmap, val),
            None => (),
        }
    }
}

/// The source record a fresh load yields: the entry's bytes, with no line
/// accounted for yet.
pub open spec fn load_spec(e: FileEntry) -> SourceModel {
    SourceModel {
        text: entry_bytes(e),
        lmap: Seq::new(line_seq(entry_bytes(e)).len(), |k: int| None),
    }
}

/// Propagation of one matched line pair: the child's pending entry at `k`
/// moves to the parent's slot `m`, unless the parent slot is already claimed
/// (the first writer keeps its claim) or the child has nothing pending
/// there. An entry blocked by an earlier claim stays with the child, where a
/// later edge can still move it or the child commit is recorded as its
/// origin: a line is never lost, which keeps each original line with
/// exactly one owner.
pub open spec fn move_pair(
    child: Seq<Option<int>>,
    parent: Seq<Option<int>>,
    k: int,
    m: int,
) -> (Seq<Option<int>>, Seq<Option<int>>) {
    if 0 <= k < child.len() && 0 <= m < parent.len() && child[k] is Some && parent[m] is None {
        (child.update(k, None), parent.update(m, child[k]))
    } else {
        (child, parent)
    }
}

/// Propagation of all matched pairs from index `t` on, in order.
pub open spec fn merge_pairs_from(
    child: Seq<Option<int>>,
    parent: Seq<Option<int>>,
    pairs: Seq<(int, int)>,
    t: int,
) -> (Seq<Option<int>>, Seq<Option<int>>)
    decreases pairs.len() - t,
{
    if t < 0 || t >= pairs.len() {
        (child, parent)
    } else {
        let cp = move_pair(child, parent, pairs[t].0, pairs[t].1);
        merge_pairs_from(cp.0, cp.1, pairs, t + 1)
    }
}

/// The matched line pairs between a child's text and a parent's text.
pub open spec fn matcher_pairs(ctext: Seq<u8>, ptext: Seq<u8>) -> Seq<(int, int)> {
    crate::diff::same_line_pairs(line_seq(ctext), line_seq(ptext))
}

/// Processing of one parent edge of node `i`: a missing edge is skipped; a
/// direct edge ensures the parent has a source (loading it if need be, which
/// fails on an unreadable entry), propagates the matched pairs, and drops
/// the parent's source again if it ends up carrying nothing.
pub open spec fn apply_edge(
    nodes: Seq<CommitNode>,
    child: SourceModel,
    srcs: Seq<Option<SourceModel>>,
    i: int,
    e: int,
) -> Result<(SourceModel, Seq<Option<SourceModel>>), int> {
    let edge = nodes[i].edges@[e];
    if !(edge.edge_type is Direct) {
        Ok((child, srcs))
    } else {
        let p = edge.target as int;
        if srcs[p] is None && !entry_readable(nodes[p].entry) {
            Err(p)
        } else {
            let psrc = if srcs[p] is Some {
                srcs[p]->0
            } else {
                load_spec(nodes[p].entry)
            };
            let pairs = matcher_pairs(child.text, psrc.text);
            let cp = merge_pairs_from(child.lmap, psrc.lmap, pairs, 0);
            let srcs1 = if some_count(cp.1) == 0 {
                srcs.update(p, None)
            } else {
                srcs.update(p, Some(SourceModel { text: psrc.text, lmap: cp.1 }))
            };
            Ok((SourceModel { text: child.text, lmap: cp.0 }, srcs1))
        }
    }
}

/// Processing of the parent edges of node `i` from index `e` on, in order.
pub open spec fn apply_edges_from(
    nodes: Seq<CommitNode>,
    child: SourceModel,
    srcs: Seq<Option<SourceModel>>,
    i: int,
    e: int,
) -> Result<(SourceModel, Seq<Option<SourceModel>>), int>
    decreases nodes[i].edges@.len() - e,
{
    if e < 0 || e >= nodes[i].edges@.len() {
        Ok((child, srcs))
    } else {
        match apply_edge(nodes, child, srcs, i, e) {
            Err(j) => Err(j),
            Ok(cs) => apply_edges_from(nodes, cs.0, cs.1, i, e + 1),
        }
    }
}

/// Recording of the lines that remained with node `owner` after all its
/// edges were processed: each one is attributed to `owner`.
pub open spec fn drain_from(
    olm: Seq<Option<int>>,
    lmap: Seq<Option<int>>,
    owner: int,
    k: int,
) -> Seq<Option<int>>
    decreases lmap.len() - k,
{
    if k < 0 || k >= lmap.len() {
        olm
    } else {
        let olm1 = match lmap[k] {
            Some(val) => if 0 <= val < olm.len() {
                olm.update(val, Some(owner))
            } else {
                olm
            },
            None => olm,
        };
        drain_from(olm1, lmap, owner, k + 1)
    }
}

/// What draining does, slot by slot: an original line becomes attributed to
/// `owner` exactly when some pending entry held it; all other slots keep
/// their attribution.
pub proof fn lemma_drain_from_char(
    olm: Seq<Option<int>>,
    lmap: Seq<Option<int>>,
    owner: int,
    k: int,
)
    requires
        0 <= k <= lmap.len(),
    ensures
        drain_from(olm, lmap, owner, k).len() == olm.len(),
        forall|l: int| 0 <= l < olm.len() ==> #[trigger] drain_from(olm, lmap, owner, k)[l]
            == if exists|k2: int| k <= k2 < lmap.len() && lmap[k2] == Some(l) {
                Some(owner)
            } else {
                olm[l]
            },
    decreases lmap.len() - k,
{
    if k < lmap.len() {
        let olm1 = match lmap[k] {
            Some(val) => if 0 <= val < olm.len() {
                olm.update(val, Some(owner))
            } else {
                olm
            },
            None => olm,
        };
        lemma_drain_from_char(olm1, lmap, owner, k + 1);
        assert forall|l: int| 0 <= l < olm.len() implies
            #[trigger] drain_from(olm, lmap, owner, k)[l]
                == if exists|k2: int| k <= k2 < lmap.len() && lmap[k2] == Some(l) {
                    Some(owner)
                } else {
                    olm[l]
                } by {
            if exists|k2: int| k <= k2 < lmap.len() && lmap[k2] == Some(l) {
                let k2 = choose|k2: int| k <= k2 < lmap.len() && lmap[k2] == Some(l);
                if k2 == k {
                    if exists|k3: int| k + 1 <= k3 < lmap.len() && lmap[k3] == Some(l) {
                    } else {
                        assert(olm1[l] == Some(owner));
                    }
                } else {
                    assert(k + 1 <= k2 < lmap.len() && lmap[k2] == Some(l));
                }
            } else {
                assert(lmap[k] != Some(l));
                assert(olm1[l] == olm[l]);
                assert(forall|k3: int| k + 1 <= k3 < lmap.len() ==> lmap[k3] != Some(l));
            }
        }
    }
}

/// Processing of one node of the walk: a node with no pending source is
/// skipped; otherwise its source is taken out, each parent edge is
/// processed, and whatever lines remain are attributed to the node.
pub open spec fn step_node(nodes: Seq<CommitNode>, st: EngineState, i: int) -> Result<
    EngineState,
    int,
> {
    if st.srcs[i] is None {
        Ok(st)
    } else {
        let child = st.srcs[i]->0;
        let srcs0 = st.srcs.update(i, None);
        match apply_edges_from(nodes, child, srcs0, i, 0) {
            Err(j) => Err(j),
            Ok(cs) => Ok(
                EngineState { olm: drain_from(st.olm, cs.0.lmap, i, 0), srcs: cs.1 },
            ),
        }
    }
}

/// The walk over the nodes from index `i` on, stopping early as soon as
/// every original line is attributed.
pub open spec fn run_nodes(nodes: Seq<CommitNode>, st: EngineState, i: int) -> Result<
    EngineState,
    int,
>
    decreases nodes.len() - i,
{
    if i < 0 || i >= nodes.len() {
        Ok(st)
    } else {
        match step_node(nodes, st, i) {
            Err(j) => Err(j),
            Ok(st1) => if some_count(st1.olm) >= st1.olm.len() {
                Ok(st1)
            } else {
                run_nodes(nodes, st1, i + 1)
            },
        }
    }
}

/// The walk's starting state: nothing attributed, and the starting node
/// carrying the identity mapping over its own lines.
pub open spec fn init_state(nodes: Seq<CommitNode>) -> EngineState {
    let t0 = entry_bytes(nodes[0].entry);
    let n0 = line_seq(t0).len();
    EngineState {
        olm: Seq::new(n0, |l: int| None),
        srcs: Seq::new(
            nodes.len(),
            |j: int|
                if j == 0 {
                    Some(SourceModel { text: t0, lmap: Seq::new(n0, |k: int| Some(k)) })
                } else {
                    None
                },
        ),
    }
}

/// The final projection: each original line of the starting revision paired
/// with the commit id of the node it is attributed to.
pub open spec fn project(nodes: Seq<CommitNode>, olm: Seq<Option<int>>) -> Seq<(Seq<u8>, Seq<u8>)> {
    let t0 = entry_bytes(nodes[0].entry);
    Seq::new(olm.len(), |l: int| (nodes[olm[l]->0].commit_id@, line_seq(t0)[l]))
}

/// The whole engine: load the starting file, walk the slice, project the
/// attribution map; the result is an error exactly when a file the walk
/// opens is unreadable.
pub open spec fn annotate_spec(nodes: Seq<CommitNode>) -> Result<Seq<(Seq<u8>, Seq<u8>)>, int> {
    if !entry_readable(nodes[0].entry) {
        Err(0)
    } else {
        match run_nodes(nodes, init_state(nodes), 0) {
            Err(j) => Err(j),
            Ok(st) => Ok(project(nodes, st.olm)),
        }
    }
}

} // verus!
