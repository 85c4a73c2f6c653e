//! The engine's laws, stated and proved against the walk's semantics.
//!
//! `get_annotation_for_file`'s contract pins its result to `annotate_spec`,
//! so each law proved here about `annotate_spec` holds of the executable
//! engine as well.

use vstd::prelude::*;
use crate::lines::{lemma_line_seq_empty, lemma_line_seq_flatten, line_seq};
use crate::model::{
    CommitNode, EngineState, SourceModel, annotate_spec, apply_edge, apply_edges_from, drain_from,
    entry_bytes, entry_readable, init_state, lemma_entry_count_none,
    load_spec, matcher_pairs, merge_pairs_from, move_pair, project, reaches, run_nodes, some_count,
    step_node, wf_graph,
};
use crate::walk::{lemma_init_inv, lemma_run_props, state_inv};

verus! {

/// Totality: for any file at the starting commit, the results carry exactly
/// one entry per line of the file, and each entry's commit id is the id of a
/// commit of the slice.
pub proof fn lemma_annotation_totality(nodes: Seq<CommitNode>)
    requires
        wf_graph(nodes),
        nodes.len() >= 1,
    ensures
        (annotate_spec(nodes) matches Ok(rs) ==> rs.len() == line_seq(
            entry_bytes(nodes[0].entry),
        ).len() && forall|l: int|
            0 <= l < rs.len() ==> exists|j: int|
                0 <= j < nodes.len() && #[trigger] rs[l].0 == nodes[j].commit_id@),
{
    if annotate_spec(nodes) is Ok {
        lemma_init_inv(nodes);
        lemma_run_props(nodes, init_state(nodes), 0);
        let stf = run_nodes(nodes, init_state(nodes), 0)->Ok_0;
        let rs = annotate_spec(nodes)->Ok_0;
        assert forall|l: int| 0 <= l < rs.len() implies exists|j: int|
            0 <= j < nodes.len() && #[trigger] rs[l].0 == nodes[j].commit_id@ by {
            let j = stf.olm[l]->0;
            assert(0 <= j < nodes.len() && rs[l].0 == nodes[j].commit_id@);
        }
    }
}

/// Content preservation: concatenating the line bytes of the results gives
/// back exactly the file's bytes at the starting commit.
pub proof fn lemma_annotation_content(nodes: Seq<CommitNode>)
    requires
        wf_graph(nodes),
        nodes.len() >= 1,
    ensures
        (annotate_spec(nodes) matches Ok(rs) ==> rs.map_values(|p: (Seq<u8>, Seq<u8>)| p.1)
            .flatten() == entry_bytes(nodes[0].entry)),
{
    if annotate_spec(nodes) is Ok {
        lemma_init_inv(nodes);
        lemma_run_props(nodes, init_state(nodes), 0);
        let rs = annotate_spec(nodes)->Ok_0;
        let t0 = entry_bytes(nodes[0].entry);
        assert(rs.map_values(|p: (Seq<u8>, Seq<u8>)| p.1) =~= line_seq(t0));
        lemma_line_seq_flatten(t0);
    }
}

/// Reachability: every attributed commit id belongs to a commit of the
/// slice that the starting commit reaches along direct parent edges (the
/// starting commit's ancestor closure, restricted to commits that touch the
/// path).
pub proof fn lemma_annotation_reachable(nodes: Seq<CommitNode>)
    requires
        wf_graph(nodes),
        nodes.len() >= 1,
    ensures
        (annotate_spec(nodes) matches Ok(rs) ==> forall|l: int|
            0 <= l < rs.len() ==> exists|j: int|
                reaches(nodes, j) && 0 <= j < nodes.len() && #[trigger] rs[l].0
                    == nodes[j].commit_id@),
{
    if annotate_spec(nodes) is Ok {
        lemma_init_inv(nodes);
        lemma_run_props(nodes, init_state(nodes), 0);
        let stf = run_nodes(nodes, init_state(nodes), 0)->Ok_0;
        let rs = annotate_spec(nodes)->Ok_0;
        assert forall|l: int| 0 <= l < rs.len() implies exists|j: int|
            reaches(nodes, j) && 0 <= j < nodes.len() && #[trigger] rs[l].0
                == nodes[j].commit_id@ by {
            let j = stf.olm[l]->0;
            assert(reaches(nodes, j) && 0 <= j < nodes.len() && rs[l].0 == nodes[j].commit_id@);
        }
    }
}

/// Owed success: when every entry of the slice is readable, the engine
/// cannot fail; it fails exactly when it opens an unreadable entry.
pub proof fn lemma_annotation_success(nodes: Seq<CommitNode>)
    requires
        wf_graph(nodes),
        nodes.len() >= 1,
        forall|j: int| 0 <= j < nodes.len() ==> entry_readable(#[trigger] nodes[j].entry),
    ensures
        annotate_spec(nodes) is Ok,
{
    lemma_init_inv(nodes);
    lemma_run_props(nodes, init_state(nodes), 0);
}

/// Determinism: the engine's result is a function of the input slice alone;
/// two runs on the same inputs yield identical results.
pub proof fn lemma_annotation_deterministic(
    nodes: Seq<CommitNode>,
    r1: Result<Seq<(Seq<u8>, Seq<u8>)>, int>,
    r2: Result<Seq<(Seq<u8>, Seq<u8>)>, int>,
)
    requires
        r1 == annotate_spec(nodes),
        r2 == annotate_spec(nodes),
    ensures
        r1 == r2,
{
}

/// Propagation never un-claims a parent slot and never re-creates a child
/// entry.
proof fn lemma_merge_monotone(
    child: Seq<Option<int>>,
    parent: Seq<Option<int>>,
    pairs: Seq<(int, int)>,
    t: int,
)
    requires
        0 <= t <= pairs.len(),
    ensures
        forall|m: int|
            0 <= m < parent.len() && (#[trigger] parent[m]) is Some ==> merge_pairs_from(
                child,
                parent,
                pairs,
                t,
            ).1[m] is Some,
        forall|k: int|
            0 <= k < child.len() && (#[trigger] child[k]) is None ==> merge_pairs_from(
                child,
                parent,
                pairs,
                t,
            ).0[k] is None,
        forall|k: int|
            0 <= k < child.len() && (#[trigger] merge_pairs_from(child, parent, pairs, t).0[k])
                is Some ==> merge_pairs_from(child, parent, pairs, t).0[k] == child[k],
    decreases pairs.len() - t,
{
    if t < pairs.len() {
        let cp = move_pair(child, parent, pairs[t].0, pairs[t].1);
        lemma_merge_monotone(cp.0, cp.1, pairs, t + 1);
        assert forall|m: int|
            0 <= m < parent.len() && (#[trigger] parent[m]) is Some implies merge_pairs_from(
            child,
            parent,
            pairs,
            t,
        ).1[m] is Some by {
            assert(cp.1[m] is Some);
        }
        assert forall|k: int|
            0 <= k < child.len() && (#[trigger] child[k]) is None implies merge_pairs_from(
            child,
            parent,
            pairs,
            t,
        ).0[k] is None by {
            assert(cp.0[k] is None);
        }
        assert forall|k: int|
            0 <= k < child.len() && (#[trigger] merge_pairs_from(child, parent, pairs, t).0[k])
                is Some implies merge_pairs_from(child, parent, pairs, t).0[k] == child[k] by {
            assert(merge_pairs_from(child, parent, pairs, t).0[k] == merge_pairs_from(
                cp.0,
                cp.1,
                pairs,
                t + 1,
            ).0[k]);
            if cp.0[k] is None {
                assert(merge_pairs_from(cp.0, cp.1, pairs, t + 1).0[k] is None);
            } else {
                assert(merge_pairs_from(cp.0, cp.1, pairs, t + 1).0[k] == cp.0[k]);
                assert(cp.0[k] == child[k]);
            }
        }
    }
}

/// First writer wins: after propagating the matched pairs along one edge, a
/// matched line that still sits in the child has its matched parent slot
/// claimed (by an earlier writer). A line is never left behind while its
/// place in the parent stands free.
pub proof fn lemma_propagation_first_writer(
    child: Seq<Option<int>>,
    parent: Seq<Option<int>>,
    pairs: Seq<(int, int)>,
    t: int,
)
    requires
        0 <= t <= pairs.len(),
        forall|x: int|
            0 <= x < pairs.len() ==> 0 <= (#[trigger] pairs[x]).0 < child.len() && 0 <= pairs[x].1
                < parent.len(),
    ensures
        forall|x: int|
            t <= x < pairs.len() && merge_pairs_from(child, parent, pairs, t).0[(
            #[trigger] pairs[x]).0] is Some ==> merge_pairs_from(
                child,
                parent,
                pairs,
                t,
            ).1[pairs[x].1] is Some,
    decreases pairs.len() - t,
{
    if t < pairs.len() {
        let k = pairs[t].0;
        let m = pairs[t].1;
        let cp = move_pair(child, parent, k, m);
        lemma_propagation_first_writer(cp.0, cp.1, pairs, t + 1);
        lemma_merge_monotone(cp.0, cp.1, pairs, t + 1);
        let r = merge_pairs_from(child, parent, pairs, t);
        assert forall|x: int|
            t <= x < pairs.len() && r.0[(#[trigger] pairs[x]).0] is Some implies r.1[pairs[x].1]
            is Some by {
            if x == t {
                if child[k] is Some && parent[m] is None {
                    assert(cp.0[k] is None);
                } else if child[k] is None {
                    assert(cp.0[k] is None);
                } else {
                    assert(cp.1[m] is Some);
                }
            }
        }
    }
}

/// Earliest-owner propagation into a fresh parent: when the parent's slots
/// for the matched pairs are all free (as they are for a freshly loaded
/// parent), every matched line leaves the child. Only unmatched lines can
/// then be attributed to the child commit.
pub proof fn lemma_propagation_total_into_fresh(
    child: Seq<Option<int>>,
    parent: Seq<Option<int>>,
    pairs: Seq<(int, int)>,
    t: int,
)
    requires
        0 <= t <= pairs.len(),
        forall|x: int|
            0 <= x < pairs.len() ==> 0 <= (#[trigger] pairs[x]).0 < child.len() && 0 <= pairs[x].1
                < parent.len(),
        forall|x1: int, x2: int|
            0 <= x1 < x2 < pairs.len() ==> (#[trigger] pairs[x1]).1 != (#[trigger] pairs[x2]).1,
        forall|x: int| t <= x < pairs.len() ==> parent[(#[trigger] pairs[x]).1] is None,
    ensures
        forall|x: int|
            t <= x < pairs.len() ==> merge_pairs_from(child, parent, pairs, t).0[(
            #[trigger] pairs[x]).0] is None,
    decreases pairs.len() - t,
{
    if t < pairs.len() {
        let k = pairs[t].0;
        let m = pairs[t].1;
        let cp = move_pair(child, parent, k, m);
        assert forall|x: int| t + 1 <= x < pairs.len() implies cp.1[(
        #[trigger] pairs[x]).1] is None by {
            assert(pairs[x].1 != m);
        }
        lemma_propagation_total_into_fresh(cp.0, cp.1, pairs, t + 1);
        lemma_merge_monotone(cp.0, cp.1, pairs, t + 1);
        assert(cp.0[k] is None);
    }
}

/// Annotating an absent path yields empty results, and no error, provided
/// each file the walk must still open (the starting commit's direct parents
/// in the slice) is readable.
pub proof fn lemma_absent_path_empty(nodes: Seq<CommitNode>)
    requires
        wf_graph(nodes),
        nodes.len() >= 1,
        nodes[0].entry is Absent,
        forall|e: int|
            0 <= e < nodes[0].edges@.len() && (#[trigger] nodes[0].edges@[e]).edge_type is Direct
                ==> entry_readable(nodes[nodes[0].edges@[e].target as int].entry),
    ensures
        annotate_spec(nodes) == Ok::<Seq<(Seq<u8>, Seq<u8>)>, int>(Seq::empty()),
{
    let t0 = entry_bytes(nodes[0].entry);
    assert(t0.len() == 0);
    lemma_line_seq_empty(t0);
    let st0 = init_state(nodes);
    assert(st0.olm.len() == 0);
    let child = st0.srcs[0]->0;
    assert(child.lmap.len() == 0);
    let srcs0 = st0.srcs.update(0, None);
    assert forall|j: int| 0 <= j < srcs0.len() implies (#[trigger] srcs0[j]) is None by {}
    lemma_apply_edges_empty_child(nodes, child, srcs0, 0, 0);
    match apply_edges_from(nodes, child, srcs0, 0, 0) {
        Ok(cs) => {
            let st1 = EngineState { olm: drain_from(st0.olm, cs.0.lmap, 0, 0), srcs: cs.1 };
            assert(st1.olm == st0.olm);
            assert(step_node(nodes, st0, 0) == Ok::<EngineState, int>(st1));
            assert(some_count(st1.olm) >= st1.olm.len());
            assert(run_nodes(nodes, st0, 0) == Ok::<EngineState, int>(st1));
            assert(project(nodes, st1.olm) =~= Seq::<(Seq<u8>, Seq<u8>)>::empty());
        },
        Err(_) => {
            assert(false);
        },
    }
}

/// Earliest-owner attribution at a node: when a commit of the slice has a
/// single direct parent whose source is not yet live, every line that the
/// matcher traces to that parent moves on to it, and is therefore not
/// attributed to this commit; only lines the matcher cannot trace can be
/// attributed here.
pub proof fn lemma_single_parent_no_late_attribution(
    nodes: Seq<CommitNode>,
    st: EngineState,
    i: int,
    k: int,
    l: int,
)
    requires
        wf_graph(nodes),
        0 <= i < nodes.len(),
        state_inv(nodes, st, i),
        st.srcs[i] is Some,
        nodes[i].edges@.len() == 1,
        nodes[i].edges@[0].edge_type is Direct,
        st.srcs[nodes[i].edges@[0].target as int] is None,
        entry_readable(nodes[nodes[i].edges@[0].target as int].entry),
        0 <= k < st.srcs[i]->0.lmap.len(),
        st.srcs[i]->0.lmap[k] == Some(l),
        exists|x: int|
            0 <= x < matcher_pairs(
                st.srcs[i]->0.text,
                entry_bytes(nodes[nodes[i].edges@[0].target as int].entry),
            ).len() && (#[trigger] matcher_pairs(
                st.srcs[i]->0.text,
                entry_bytes(nodes[nodes[i].edges@[0].target as int].entry),
            )[x]).0 == k,
    ensures
        (step_node(nodes, st, i) matches Ok(st1) ==> st1.olm[l] != Some(i)),
{
    let child = st.srcs[i]->0;
    let p = nodes[i].edges@[0].target as int;
    let srcs0 = st.srcs.update(i, None);
    assert(i < p < nodes.len());
    let psrc = load_spec(nodes[p].entry);
    let pairs = matcher_pairs(child.text, psrc.text);
    crate::diff::lemma_same_line_pairs(line_seq(child.text), line_seq(psrc.text));
    assert(child.lmap.len() == line_seq(child.text).len());
    assert forall|x: int|
        0 <= x < pairs.len() implies 0 <= (#[trigger] pairs[x]).0 < child.lmap.len() && 0
        <= pairs[x].1 < psrc.lmap.len() by {}
    assert forall|x: int| 0 <= x < pairs.len() implies psrc.lmap[(
    #[trigger] pairs[x]).1] is None by {}
    lemma_propagation_total_into_fresh(child.lmap, psrc.lmap, pairs, 0);
    let cp = merge_pairs_from(child.lmap, psrc.lmap, pairs, 0);
    crate::walk::lemma_merge_pairs_counts(child.lmap, psrc.lmap, pairs, 0, 0);
    let x = choose|x: int| 0 <= x < pairs.len() && (#[trigger] pairs[x]).0 == k;
    assert(cp.0[k] is None);
    lemma_merge_monotone(child.lmap, psrc.lmap, pairs, 0);
    let child1 = SourceModel { text: child.text, lmap: cp.0 };
    let srcs1 = if some_count(cp.1) == 0 {
        srcs0.update(p, None)
    } else {
        srcs0.update(p, Some(SourceModel { text: psrc.text, lmap: cp.1 }))
    };
    assert(srcs0[p] is None);
    assert(apply_edge(nodes, child, srcs0, i, 0) == Ok::<
        (SourceModel, Seq<Option<SourceModel>>),
        int,
    >((child1, srcs1)));
    assert(apply_edges_from(nodes, child1, srcs1, i, 1) == Ok::<
        (SourceModel, Seq<Option<SourceModel>>),
        int,
    >((child1, srcs1)));
    assert(apply_edges_from(nodes, child, srcs0, i, 0) == Ok::<
        (SourceModel, Seq<Option<SourceModel>>),
        int,
    >((child1, srcs1)));
    {
        {
            crate::model::lemma_drain_from_char(st.olm, cp.0, i, 0);
            let olm1 = drain_from(st.olm, cp.0, i, 0);
            assert(0 <= l < st.olm.len());
            crate::model::lemma_entry_count_exists(child.lmap, l);
            crate::model::lemma_srcs_count_member(st.srcs, i, l);
            assert(crate::walk::owner_bit(st.olm[l]) + crate::model::srcs_count(st.srcs, l)
                == 1);
            crate::model::lemma_entry_count_bounds(child.lmap, l);
            assert(st.olm[l] is None);
            if exists|k2: int| 0 <= k2 < cp.0.len() && cp.0[k2] == Some(l) {
                let k2 = choose|k2: int| 0 <= k2 < cp.0.len() && cp.0[k2] == Some(l);
                assert(cp.0[k2] == child.lmap[k2]);
                if k2 != k {
                    if k2 < k {
                        crate::model::lemma_entry_count_two(child.lmap, k2, k, l);
                    } else {
                        crate::model::lemma_entry_count_two(child.lmap, k, k2, l);
                    }
                    assert(false);
                } else {
                    assert(false);
                }
            }
            assert(olm1[l] == st.olm[l]);
        }
    }
}

/// When a commit's sole direct parent holds an identical file (and its
/// source is not yet live), the matcher yields the identity mapping, every
/// pending line moves to the parent, and nothing is attributed to the
/// commit itself.
pub proof fn lemma_identical_parent_attributes_nothing(
    nodes: Seq<CommitNode>,
    st: EngineState,
    i: int,
)
    requires
        wf_graph(nodes),
        0 <= i < nodes.len(),
        state_inv(nodes, st, i),
        st.srcs[i] is Some,
        nodes[i].edges@.len() == 1,
        nodes[i].edges@[0].edge_type is Direct,
        st.srcs[nodes[i].edges@[0].target as int] is None,
        entry_readable(nodes[nodes[i].edges@[0].target as int].entry),
        entry_bytes(nodes[nodes[i].edges@[0].target as int].entry) == st.srcs[i]->0.text,
    ensures
        (step_node(nodes, st, i) matches Ok(st1) ==> forall|k: int, l: int|
            #![trigger st.srcs[i]->0.lmap[k], st1.olm[l]]
            0 <= k < st.srcs[i]->0.lmap.len() && st.srcs[i]->0.lmap[k] == Some(l)
                ==> st1.olm[l] != Some(i)),
{
    let child = st.srcs[i]->0;
    let p = nodes[i].edges@[0].target as int;
    let ls = line_seq(child.text);
    crate::diff::lemma_same_line_pairs_identity(ls);
    assert(child.lmap.len() == ls.len());
    if step_node(nodes, st, i) is Ok {
        let st1 = step_node(nodes, st, i)->Ok_0;
        assert forall|k: int, l: int|
            #![trigger child.lmap[k], st1.olm[l]]
            0 <= k < child.lmap.len() && child.lmap[k] == Some(l) implies st1.olm[l]
            != Some(i) by {
            assert(matcher_pairs(child.text, entry_bytes(nodes[p].entry))[k] == (k, k));
            lemma_single_parent_no_late_attribution(nodes, st, i, k, l);
        }
    }
}

/// A child with no pending lines moves nothing.
proof fn lemma_merge_pairs_empty_child(
    child: Seq<Option<int>>,
    parent: Seq<Option<int>>,
    pairs: Seq<(int, int)>,
    t: int,
)
    requires
        child.len() == 0,
    ensures
        merge_pairs_from(child, parent, pairs, t) == (child, parent),
    decreases pairs.len() - t,
{
    if 0 <= t < pairs.len() {
        lemma_merge_pairs_empty_child(child, parent, pairs, t + 1);
    }
}

/// Processing the edges of a node whose source holds no pending line leaves
/// no live source behind and cannot fail while every file it opens is
/// readable.
proof fn lemma_apply_edges_empty_child(
    nodes: Seq<CommitNode>,
    child: SourceModel,
    srcs: Seq<Option<SourceModel>>,
    i: int,
    e: int,
)
    requires
        wf_graph(nodes),
        0 <= i < nodes.len(),
        0 <= e <= nodes[i].edges@.len(),
        child.lmap.len() == 0,
        srcs.len() == nodes.len(),
        forall|j: int| 0 <= j < srcs.len() ==> (#[trigger] srcs[j]) is None,
        forall|e2: int|
            e <= e2 < nodes[i].edges@.len() && (#[trigger] nodes[i].edges@[e2]).edge_type
                is Direct ==> entry_readable(nodes[nodes[i].edges@[e2].target as int].entry),
    ensures
        (apply_edges_from(nodes, child, srcs, i, e) matches Ok(cs) && cs.0 == child
            && forall|j: int| 0 <= j < cs.1.len() ==> (#[trigger] cs.1[j]) is None),
    decreases nodes[i].edges@.len() - e,
{
    if e < nodes[i].edges@.len() {
        let edge = nodes[i].edges@[e];
        if edge.edge_type is Direct {
            let p = edge.target as int;
            let psrc = load_spec(nodes[p].entry);
            let pairs = matcher_pairs(child.text, psrc.text);
            lemma_merge_pairs_empty_child(child.lmap, psrc.lmap, pairs, 0);
            assert forall|k: int|
                0 <= k < psrc.lmap.len() implies (#[trigger] psrc.lmap[k]) is None by {}
            lemma_entry_count_none(psrc.lmap, 0);
            let srcs1 = srcs.update(p, None);
            assert forall|j: int| 0 <= j < srcs1.len() implies (#[trigger] srcs1[j]) is None by {}
            assert(apply_edge(nodes, child, srcs, i, e) == Ok::<
                (SourceModel, Seq<Option<SourceModel>>),
                int,
            >((child, srcs1)));
            lemma_apply_edges_empty_child(nodes, child, srcs1, i, e + 1);
        } else {
            lemma_apply_edges_empty_child(nodes, child, srcs, i, e + 1);
        }
    }
}

} // verus!
