//! Invariants of the attribution walk, and their preservation.
//!
//! The central invariant is uniqueness of ownership: at every moment, each
//! original line is accounted for exactly once, either by the attribution
//! map or by exactly one pending entry of one live source. Propagation moves
//! entries, draining attributes them, so the walk can neither lose a line
//! nor attribute one twice; when the slice is exhausted no live source
//! remains, so every original line has been attributed.

use vstd::prelude::*;
use crate::lines::line_seq;
use crate::model::{
    CommitNode, EngineState, SourceModel, apply_edge, apply_edges_from, drain_from, entry_bytes,
    entry_count, entry_readable, init_state, lemma_drain_from_char, lemma_entry_count_bounds,
    lemma_entry_count_exists, lemma_entry_count_none, lemma_entry_count_update,
    lemma_some_count_full, lemma_some_count_zero, lemma_srcs_count_none, lemma_srcs_count_nonneg,
    lemma_srcs_count_update, load_spec, matcher_pairs, merge_pairs_from, move_pair, reaches,
    run_nodes, some_count, srcs_count, step_node, wf_graph,
};

verus! {

/// 1 when an attribution slot is filled, else 0.
pub open spec fn owner_bit(o: Option<int>) -> int {
    if o is Some {
        1
    } else {
        0
    }
}

/// Well-formedness of a live source for node `j`: its text is what the file
/// loader yields for that node, its line map covers exactly its lines, and
/// every pending entry names a valid original line.
pub open spec fn src_wf(nodes: Seq<CommitNode>, j: int, s: SourceModel, n0: int) -> bool {
    &&& entry_readable(nodes[j].entry)
    &&& s.text == entry_bytes(nodes[j].entry)
    &&& s.lmap.len() == line_seq(s.text).len()
    &&& forall|k: int|
        0 <= k < s.lmap.len() && (#[trigger] s.lmap[k]) is Some ==> 0 <= s.lmap[k]->0 < n0
}

/// The invariant between two nodes of the walk: about to process node `i`,
/// every live source belongs to a node not yet processed, is well-formed and
/// reachable, and each original line has exactly one owner.
pub open spec fn state_inv(nodes: Seq<CommitNode>, st: EngineState, i: int) -> bool {
    &&& st.srcs.len() == nodes.len()
    &&& forall|j: int|
        0 <= j < st.srcs.len() && (#[trigger] st.srcs[j]) is Some
            ==> i <= j && src_wf(nodes, j, st.srcs[j]->0, st.olm.len() as int)
                && reaches(nodes, j)
    &&& forall|l: int|
        0 <= l < st.olm.len()
            ==> owner_bit(st.olm[l]) + #[trigger] srcs_count(st.srcs, l) == 1
    &&& forall|l: int|
        0 <= l < st.olm.len() && (#[trigger] st.olm[l]) is Some
            ==> 0 <= st.olm[l]->0 < nodes.len() && reaches(nodes, st.olm[l]->0)
}

/// The invariant in the middle of processing node `i`, while its source
/// (`child`) is taken out of the source map.
pub open spec fn walk_inv(
    nodes: Seq<CommitNode>,
    olm: Seq<Option<int>>,
    child: SourceModel,
    srcs: Seq<Option<SourceModel>>,
    i: int,
) -> bool {
    &&& srcs.len() == nodes.len()
    &&& src_wf(nodes, i, child, olm.len() as int)
    &&& reaches(nodes, i)
    &&& forall|j: int|
        0 <= j < srcs.len() && (#[trigger] srcs[j]) is Some
            ==> i < j && src_wf(nodes, j, srcs[j]->0, olm.len() as int) && reaches(nodes, j)
    &&& forall|l: int|
        0 <= l < olm.len()
            ==> owner_bit(olm[l]) + entry_count(child.lmap, l) + #[trigger] srcs_count(srcs, l)
                == 1
}

/// Propagation conserves, for every original line, the number of pending
/// entries that hold it, summed over the child and the parent.
pub proof fn lemma_merge_pairs_counts(
    child: Seq<Option<int>>,
    parent: Seq<Option<int>>,
    pairs: Seq<(int, int)>,
    t: int,
    val: int,
)
    requires
        0 <= t <= pairs.len(),
    ensures
        merge_pairs_from(child, parent, pairs, t).0.len() == child.len(),
        merge_pairs_from(child, parent, pairs, t).1.len() == parent.len(),
        entry_count(merge_pairs_from(child, parent, pairs, t).0, val)
            + entry_count(merge_pairs_from(child, parent, pairs, t).1, val)
            == entry_count(child, val) + entry_count(parent, val),
    decreases pairs.len() - t,
{
    if t < pairs.len() {
        let k = pairs[t].0;
        let m = pairs[t].1;
        let cp = move_pair(child, parent, k, m);
        if 0 <= k < child.len() && 0 <= m < parent.len() && child[k] is Some
            && parent[m] is None {
            lemma_entry_count_update(child, k, None, val);
            lemma_entry_count_update(parent, m, child[k], val);
        }
        lemma_merge_pairs_counts(cp.0, cp.1, pairs, t + 1, val);
    }
}

/// Processing one edge preserves the walk invariant, and can fail only on an
/// unreadable entry of the slice.
pub proof fn lemma_apply_edge_inv(
    nodes: Seq<CommitNode>,
    olm: Seq<Option<int>>,
    child: SourceModel,
    srcs: Seq<Option<SourceModel>>,
    i: int,
    e: int,
)
    requires
        wf_graph(nodes),
        0 <= i < nodes.len(),
        0 <= e < nodes[i].edges@.len(),
        walk_inv(nodes, olm, child, srcs, i),
    ensures
        (apply_edge(nodes, child, srcs, i, e) matches Err(j)
            ==> 0 <= j < nodes.len() && !entry_readable(nodes[j].entry)),
        (apply_edge(nodes, child, srcs, i, e) matches Ok(cs)
            ==> walk_inv(nodes, olm, cs.0, cs.1, i) && cs.0.text == child.text),
{
    let edge = nodes[i].edges@[e];
    if edge.edge_type is Direct {
        let p = edge.target as int;
        assert(i < p < nodes.len());
        if srcs[p] is None && !entry_readable(nodes[p].entry) {
            // the walk aborts, citing node `p`
        } else {
            let psrc = if srcs[p] is Some {
                srcs[p]->0
            } else {
                load_spec(nodes[p].entry)
            };
            if srcs[p] is None {
                assert forall|k: int|
                    0 <= k < psrc.lmap.len() implies (#[trigger] psrc.lmap[k]) is None by {}
                assert(src_wf(nodes, p, psrc, olm.len() as int));
                assert(reaches(nodes, p));
            } else {
                assert(src_wf(nodes, p, psrc, olm.len() as int));
            }
            let pairs = matcher_pairs(child.text, psrc.text);
            let cp = merge_pairs_from(child.lmap, psrc.lmap, pairs, 0);
            let child1 = SourceModel { text: child.text, lmap: cp.0 };
            let parent1 = SourceModel { text: psrc.text, lmap: cp.1 };
            let dropped = some_count(cp.1) == 0;
            let srcs1 = if dropped {
                srcs.update(p, None)
            } else {
                srcs.update(p, Some(parent1))
            };

            // lengths are preserved by propagation
            lemma_merge_pairs_counts(child.lmap, psrc.lmap, pairs, 0, 0);

            // pending values of the results were pending before
            assert forall|k: int|
                0 <= k < cp.0.len() && (#[trigger] cp.0[k]) is Some implies
                0 <= cp.0[k]->0 < olm.len() by {
                let v = cp.0[k]->0;
                lemma_entry_count_exists(cp.0, v);
                lemma_entry_count_bounds(cp.1, v);
                lemma_merge_pairs_counts(child.lmap, psrc.lmap, pairs, 0, v);
                lemma_entry_count_exists(child.lmap, v);
                lemma_entry_count_exists(psrc.lmap, v);
                lemma_entry_count_bounds(child.lmap, v);
                lemma_entry_count_bounds(psrc.lmap, v);
            }
            assert forall|k: int|
                0 <= k < cp.1.len() && (#[trigger] cp.1[k]) is Some implies
                0 <= cp.1[k]->0 < olm.len() by {
                let v = cp.1[k]->0;
                lemma_entry_count_exists(cp.1, v);
                lemma_entry_count_bounds(cp.0, v);
                lemma_merge_pairs_counts(child.lmap, psrc.lmap, pairs, 0, v);
                lemma_entry_count_exists(child.lmap, v);
                lemma_entry_count_exists(psrc.lmap, v);
                lemma_entry_count_bounds(child.lmap, v);
                lemma_entry_count_bounds(psrc.lmap, v);
            }
            assert(src_wf(nodes, i, child1, olm.len() as int));
            assert(src_wf(nodes, p, parent1, olm.len() as int));

            // ownership sums are conserved
            assert forall|l: int| 0 <= l < olm.len() implies
                owner_bit(olm[l]) + entry_count(child1.lmap, l)
                    + #[trigger] srcs_count(srcs1, l) == 1 by {
                assert(owner_bit(olm[l]) + entry_count(child.lmap, l)
                    + srcs_count(srcs, l) == 1);
                lemma_merge_pairs_counts(child.lmap, psrc.lmap, pairs, 0, l);
                if srcs[p] is None {
                    lemma_entry_count_none(psrc.lmap, l);
                }
                if dropped {
                    lemma_some_count_zero(cp.1, l);
                    lemma_srcs_count_update(srcs, p, None, l);
                } else {
                    lemma_srcs_count_update(srcs, p, Some(parent1), l);
                }
            }
            assert(walk_inv(nodes, olm, child1, srcs1, i));
        }
    }
}

/// Processing all remaining edges preserves the walk invariant.
pub proof fn lemma_apply_edges_inv(
    nodes: Seq<CommitNode>,
    olm: Seq<Option<int>>,
    child: SourceModel,
    srcs: Seq<Option<SourceModel>>,
    i: int,
    e: int,
)
    requires
        wf_graph(nodes),
        0 <= i < nodes.len(),
        0 <= e <= nodes[i].edges@.len(),
        walk_inv(nodes, olm, child, srcs, i),
    ensures
        (apply_edges_from(nodes, child, srcs, i, e) matches Err(j)
            ==> 0 <= j < nodes.len() && !entry_readable(nodes[j].entry)),
        (apply_edges_from(nodes, child, srcs, i, e) matches Ok(cs)
            ==> walk_inv(nodes, olm, cs.0, cs.1, i) && cs.0.text == child.text),
    decreases nodes[i].edges@.len() - e,
{
    if e < nodes[i].edges@.len() {
        lemma_apply_edge_inv(nodes, olm, child, srcs, i, e);
        match apply_edge(nodes, child, srcs, i, e) {
            Err(_) => (),
            Ok(cs) => {
                lemma_apply_edges_inv(nodes, olm, cs.0, cs.1, i, e + 1);
            },
        }
    }
}

/// Processing one node preserves the state invariant, keeps the attribution
/// map's size, and can fail only on an unreadable entry.
pub proof fn lemma_step_inv(nodes: Seq<CommitNode>, st: EngineState, i: int)
    requires
        wf_graph(nodes),
        0 <= i < nodes.len(),
        state_inv(nodes, st, i),
    ensures
        (step_node(nodes, st, i) matches Err(j)
            ==> 0 <= j < nodes.len() && !entry_readable(nodes[j].entry)),
        (step_node(nodes, st, i) matches Ok(st1)
            ==> state_inv(nodes, st1, i + 1) && st1.olm.len() == st.olm.len()),
{
    if st.srcs[i] is Some {
        let child = st.srcs[i]->0;
        let srcs0 = st.srcs.update(i, None);
        assert forall|l: int| 0 <= l < st.olm.len() implies
            owner_bit(st.olm[l]) + entry_count(child.lmap, l)
                + #[trigger] srcs_count(srcs0, l) == 1 by {
            assert(owner_bit(st.olm[l]) + srcs_count(st.srcs, l) == 1);
            lemma_srcs_count_update(st.srcs, i, None, l);
        }
        assert(walk_inv(nodes, st.olm, child, srcs0, i));
        lemma_apply_edges_inv(nodes, st.olm, child, srcs0, i, 0);
        match apply_edges_from(nodes, child, srcs0, i, 0) {
            Err(_) => (),
            Ok(cs) => {
                let olm1 = drain_from(st.olm, cs.0.lmap, i, 0);
                lemma_drain_from_char(st.olm, cs.0.lmap, i, 0);
                assert forall|l: int| 0 <= l < olm1.len() implies
                    owner_bit(olm1[l]) + #[trigger] srcs_count(cs.1, l) == 1 by {
                    assert(owner_bit(st.olm[l]) + entry_count(cs.0.lmap, l)
                        + srcs_count(cs.1, l) == 1);
                    lemma_entry_count_exists(cs.0.lmap, l);
                    lemma_entry_count_bounds(cs.0.lmap, l);
                    lemma_srcs_count_nonneg(cs.1, l);
                    if exists|k2: int| 0 <= k2 < cs.0.lmap.len() && cs.0.lmap[k2] == Some(l) {
                        assert(entry_count(cs.0.lmap, l) > 0);
                        assert(olm1[l] == Some(i));
                    } else {
                        assert(entry_count(cs.0.lmap, l) == 0);
                        assert(olm1[l] == st.olm[l]);
                    }
                }
                assert forall|l: int|
                    0 <= l < olm1.len() && (#[trigger] olm1[l]) is Some implies
                    0 <= olm1[l]->0 < nodes.len() && reaches(nodes, olm1[l]->0) by {
                    if olm1[l] == st.olm[l] {
                    } else {
                        assert(olm1[l] == Some(i));
                    }
                }
                assert(state_inv(
                    nodes,
                    EngineState { olm: olm1, srcs: cs.1 },
                    i + 1,
                ));
            },
        }
    }
}

/// Once every node of the slice is processed (or every line attributed), the
/// attribution map is total, and every owner is a reachable node.
pub proof fn lemma_run_props(nodes: Seq<CommitNode>, st: EngineState, i: int)
    requires
        wf_graph(nodes),
        0 <= i <= nodes.len(),
        state_inv(nodes, st, i),
    ensures
        (run_nodes(nodes, st, i) matches Err(j)
            ==> 0 <= j < nodes.len() && !entry_readable(nodes[j].entry)),
        (run_nodes(nodes, st, i) matches Ok(stf)
            ==> stf.olm.len() == st.olm.len()
                && forall|l: int|
                    0 <= l < stf.olm.len()
                        ==> (#[trigger] stf.olm[l]) is Some
                            && 0 <= stf.olm[l]->0 < nodes.len()
                            && reaches(nodes, stf.olm[l]->0)),
    decreases nodes.len() - i,
{
    if i >= nodes.len() {
        assert forall|l: int| 0 <= l < st.olm.len() implies (#[trigger] st.olm[l]) is Some by {
            assert(forall|j: int|
                0 <= j < st.srcs.len() ==> !((#[trigger] st.srcs[j]) is Some));
            lemma_srcs_count_none(st.srcs, l);
            assert(owner_bit(st.olm[l]) + srcs_count(st.srcs, l) == 1);
        }
    } else {
        lemma_step_inv(nodes, st, i);
        match step_node(nodes, st, i) {
            Err(_) => (),
            Ok(st1) => {
                if some_count(st1.olm) >= st1.olm.len() {
                    lemma_some_count_full(st1.olm);
                } else {
                    lemma_run_props(nodes, st1, i + 1);
                }
            },
        }
    }
}

/// The pending-entry count of the identity line map, shifted by `base`.
proof fn lemma_entry_count_range(n: int, base: int, val: int)
    requires
        n >= 0,
    ensures
        entry_count(Seq::new(n as nat, |k: int| Some(k + base)), val) == if base <= val < base
            + n {
            1int
        } else {
            0int
        },
    decreases n,
{
    let s = Seq::new(n as nat, |k: int| Some(k + base));
    if n > 0 {
        assert(s[0] == Some(base));
        assert(s.drop_first() =~= Seq::new((n - 1) as nat, |k: int| Some(k + (base + 1))));
        lemma_entry_count_range(n - 1, base + 1, val);
    }
}

/// The starting state satisfies the invariant: nothing is attributed and the
/// starting node owns each of its lines exactly once.
pub proof fn lemma_init_inv(nodes: Seq<CommitNode>)
    requires
        nodes.len() >= 1,
        entry_readable(nodes[0].entry),
    ensures
        state_inv(nodes, init_state(nodes), 0),
        init_state(nodes).olm.len() == line_seq(entry_bytes(nodes[0].entry)).len(),
{
    let t0 = entry_bytes(nodes[0].entry);
    let n0 = line_seq(t0).len() as int;
    let st = init_state(nodes);
    let ident = Seq::new(n0 as nat, |k: int| Some(k));
    assert(st.srcs[0] == Some(SourceModel { text: t0, lmap: ident }));
    assert forall|l: int| 0 <= l < st.olm.len() implies
        owner_bit(st.olm[l]) + #[trigger] srcs_count(st.srcs, l) == 1 by {
        assert(st.olm[l] is None);
        assert(st.srcs.drop_first() =~= Seq::new((nodes.len() - 1) as nat, |j: int| None));
        assert(forall|j: int|
            0 <= j < st.srcs.drop_first().len() ==> (#[trigger] st.srcs.drop_first()[j]) is None);
        lemma_srcs_count_none(st.srcs.drop_first(), l);
        assert(srcs_count(st.srcs, l) == entry_count(ident, l));
        assert(ident =~= Seq::new(n0 as nat, |k: int| Some(k + 0)));
        lemma_entry_count_range(n0, 0, l);
    }
    assert(src_wf(nodes, 0, st.srcs[0]->0, n0));
}

} // verus!
