//! Line-pair matching between two versions of a file.
//!
//! Given two byte buffers, the matcher produces the mapping
//! `{current_line -> parent_line}` for every line that is part of a matching
//! hunk under a line-granularity diff. The diff aligns the two line
//! sequences along a longest common subsequence, matching equal lines
//! eagerly and otherwise following the side that preserves the longer
//! common subsequence (preferring the current side on ties); maximal runs
//! of matched lines are its matching hunks. The mapping it yields preserves
//! order and is a partial injection, relates only lines with equal bytes,
//! and two identical buffers yield the identity mapping.

use vstd::prelude::*;
use crate::lines::{line_seq, split_lines, bytes_eq};

verus! {

/// Length of the longest common subsequence of the line sequences `a[i..]`
/// and `b[j..]`.
pub open spec fn lcs_len(a: Seq<Seq<u8>>, b: Seq<Seq<u8>>, i: int, j: int) -> int
    decreases a.len() - i, b.len() - j,
{
    if i < 0 || j < 0 || i >= a.len() || j >= b.len() {
        0
    } else if a[i] == b[j] {
        1 + lcs_len(a, b, i + 1, j + 1)
    } else {
        let down = lcs_len(a, b, i + 1, j);
        let right = lcs_len(a, b, i, j + 1);
        if down >= right {
            down
        } else {
            right
        }
    }
}

pub proof fn lemma_lcs_len_bounds(a: Seq<Seq<u8>>, b: Seq<Seq<u8>>, i: int, j: int)
    ensures
        0 <= lcs_len(a, b, i, j),
        lcs_len(a, b, i, j) <= a.len() - i || lcs_len(a, b, i, j) == 0,
        lcs_len(a, b, i, j) <= b.len() - j || lcs_len(a, b, i, j) == 0,
    decreases a.len() - i, b.len() - j,
{
    if 0 <= i < a.len() && 0 <= j < b.len() {
        if a[i] == b[j] {
            lemma_lcs_len_bounds(a, b, i + 1, j + 1);
        } else {
            lemma_lcs_len_bounds(a, b, i + 1, j);
            lemma_lcs_len_bounds(a, b, i, j + 1);
        }
    }
}

/// The matched line pairs chosen by the diff from position `(i, j)` on:
/// equal lines are matched at once; otherwise the walk advances on the side
/// whose remainder keeps the longer common subsequence, preferring the
/// current (first) side on ties.
pub open spec fn lcs_pairs_from(a: Seq<Seq<u8>>, b: Seq<Seq<u8>>, i: int, j: int) -> Seq<
    (int, int),
>
    decreases a.len() - i, b.len() - j,
{
    if i < 0 || j < 0 || i >= a.len() || j >= b.len() {
        Seq::empty()
    } else if a[i] == b[j] {
        seq![(i, j)] + lcs_pairs_from(a, b, i + 1, j + 1)
    } else if lcs_len(a, b, i + 1, j) >= lcs_len(a, b, i, j + 1) {
        lcs_pairs_from(a, b, i + 1, j)
    } else {
        lcs_pairs_from(a, b, i, j + 1)
    }
}

/// The matching line pairs between current lines `a` and parent lines `b`.
pub open spec fn same_line_pairs(a: Seq<Seq<u8>>, b: Seq<Seq<u8>>) -> Seq<(int, int)> {
    lcs_pairs_from(a, b, 0, 0)
}

/// The pairs the diff picks from `(i, j)` on stay at or after `(i, j)`, are
/// in range, strictly increasing on both sides, and relate equal lines.
pub proof fn lemma_lcs_pairs_props(a: Seq<Seq<u8>>, b: Seq<Seq<u8>>, i: int, j: int)
    ensures
        forall|x: int|
            0 <= x < lcs_pairs_from(a, b, i, j).len() ==> i <= (#[trigger] lcs_pairs_from(
                a,
                b,
                i,
                j,
            )[x]).0 < a.len() && j <= lcs_pairs_from(a, b, i, j)[x].1 < b.len()
                && a[lcs_pairs_from(a, b, i, j)[x].0] == b[lcs_pairs_from(a, b, i, j)[x].1],
        forall|x1: int, x2: int|
            0 <= x1 < x2 < lcs_pairs_from(a, b, i, j).len() ==> (#[trigger] lcs_pairs_from(
                a,
                b,
                i,
                j,
            )[x1]).0 < (#[trigger] lcs_pairs_from(a, b, i, j)[x2]).0 && lcs_pairs_from(
                a,
                b,
                i,
                j,
            )[x1].1 < lcs_pairs_from(a, b, i, j)[x2].1,
    decreases a.len() - i, b.len() - j,
{
    if i < 0 || j < 0 || i >= a.len() || j >= b.len() {
    } else if a[i] == b[j] {
        lemma_lcs_pairs_props(a, b, i + 1, j + 1);
        let ps = lcs_pairs_from(a, b, i, j);
        let rest = lcs_pairs_from(a, b, i + 1, j + 1);
        assert forall|x: int|
            0 <= x < ps.len() implies i <= (#[trigger] ps[x]).0 < a.len() && j <= ps[x].1
            < b.len() && a[ps[x].0] == b[ps[x].1] by {
            if x > 0 {
                assert(ps[x] == rest[x - 1]);
            }
        }
        assert forall|x1: int, x2: int|
            0 <= x1 < x2 < ps.len() implies (#[trigger] ps[x1]).0 < (#[trigger] ps[x2]).0
            && ps[x1].1 < ps[x2].1 by {
            assert(ps[x2] == rest[x2 - 1]);
            if x1 > 0 {
                assert(ps[x1] == rest[x1 - 1]);
            }
        }
    } else if lcs_len(a, b, i + 1, j) >= lcs_len(a, b, i, j + 1) {
        lemma_lcs_pairs_props(a, b, i + 1, j);
        let ps = lcs_pairs_from(a, b, i, j);
        assert forall|x: int|
            0 <= x < ps.len() implies i <= (#[trigger] ps[x]).0 < a.len() && j <= ps[x].1
            < b.len() && a[ps[x].0] == b[ps[x].1] by {
            assert(ps[x] == lcs_pairs_from(a, b, i + 1, j)[x]);
        }
        assert forall|x1: int, x2: int|
            0 <= x1 < x2 < ps.len() implies (#[trigger] ps[x1]).0 < (#[trigger] ps[x2]).0
            && ps[x1].1 < ps[x2].1 by {
            assert(ps[x1] == lcs_pairs_from(a, b, i + 1, j)[x1]);
            assert(ps[x2] == lcs_pairs_from(a, b, i + 1, j)[x2]);
        }
    } else {
        lemma_lcs_pairs_props(a, b, i, j + 1);
        let ps = lcs_pairs_from(a, b, i, j);
        assert forall|x: int|
            0 <= x < ps.len() implies i <= (#[trigger] ps[x]).0 < a.len() && j <= ps[x].1
            < b.len() && a[ps[x].0] == b[ps[x].1] by {
            assert(ps[x] == lcs_pairs_from(a, b, i, j + 1)[x]);
        }
        assert forall|x1: int, x2: int|
            0 <= x1 < x2 < ps.len() implies (#[trigger] ps[x1]).0 < (#[trigger] ps[x2]).0
            && ps[x1].1 < ps[x2].1 by {
            assert(ps[x1] == lcs_pairs_from(a, b, i, j + 1)[x1]);
            assert(ps[x2] == lcs_pairs_from(a, b, i, j + 1)[x2]);
        }
    }
}

/// The matching pairs are in range, strictly increasing on both sides, and
/// relate lines with equal bytes.
pub proof fn lemma_same_line_pairs(a: Seq<Seq<u8>>, b: Seq<Seq<u8>>)
    ensures
        forall|i: int| 0 <= i < same_line_pairs(a, b).len()
            ==> 0 <= #[trigger] same_line_pairs(a, b)[i].0 < a.len()
                && 0 <= same_line_pairs(a, b)[i].1 < b.len()
                && a[same_line_pairs(a, b)[i].0] == b[same_line_pairs(a, b)[i].1],
        forall|i: int, j: int| 0 <= i < j < same_line_pairs(a, b).len()
            ==> #[trigger] same_line_pairs(a, b)[i].0 < #[trigger] same_line_pairs(a, b)[j].0
                && same_line_pairs(a, b)[i].1 < same_line_pairs(a, b)[j].1,
{
    lemma_lcs_pairs_props(a, b, 0, 0);
}

/// Two identical line sequences are matched by the identity mapping.
pub proof fn lemma_same_line_pairs_identity(a: Seq<Seq<u8>>)
    ensures
        same_line_pairs(a, a).len() == a.len(),
        forall|i: int|
            0 <= i < a.len() ==> #[trigger] same_line_pairs(a, a)[i] == (i, i),
{
    lemma_lcs_pairs_identity(a, 0);
}

proof fn lemma_lcs_pairs_identity(a: Seq<Seq<u8>>, i: int)
    requires
        0 <= i <= a.len(),
    ensures
        lcs_pairs_from(a, a, i, i).len() == a.len() - i,
        forall|x: int|
            0 <= x < a.len() - i ==> #[trigger] lcs_pairs_from(a, a, i, i)[x] == (i + x, i + x),
    decreases a.len() - i,
{
    if i < a.len() {
        lemma_lcs_pairs_identity(a, i + 1);
        let ps = lcs_pairs_from(a, a, i, i);
        let rest = lcs_pairs_from(a, a, i + 1, i + 1);
        assert forall|x: int| 0 <= x < a.len() - i implies #[trigger] ps[x] == (i + x, i + x) by {
            if x > 0 {
                assert(ps[x] == rest[x - 1]);
            }
        }
    }
}

/// Against an empty line sequence nothing is matched.
pub proof fn lemma_same_line_pairs_empty(a: Seq<Seq<u8>>, b: Seq<Seq<u8>>)
    requires
        a.len() == 0 || b.len() == 0,
    ensures
        same_line_pairs(a, b).len() == 0,
{
}

/// For two files, get the ordered list of matching line pairs
/// `(current_line, parent_line)` for all lines in common.
#[verifier::rlimit(30)]
pub fn get_same_line_map(current_contents: &Vec<u8>, parent_contents: &Vec<u8>) -> (r: Vec<
    (usize, usize),
>)
    ensures
        ({
            let pairs = same_line_pairs(
                line_seq(current_contents@),
                line_seq(parent_contents@),
            );
            &&& r@.len() == pairs.len()
            &&& forall|i: int| 0 <= i < r@.len()
                ==> #[trigger] r@[i].0 == pairs[i].0 && r@[i].1 == pairs[i].1
        }),
{
    let a = split_lines(current_contents);
    let b = split_lines(parent_contents);
    let ghost ga = line_seq(current_contents@);
    let ghost gb = line_seq(parent_contents@);
    let n = a.len();
    let m = b.len();

    // Tabulate the common-subsequence lengths from the end backwards:
    // `table_rev[n - 1 - i][j]` holds the length for the suffixes starting
    // at line `i` of the current file and line `j` of the parent file.
    let mut table_rev: Vec<Vec<usize>> = Vec::new();
    let mut ii: usize = n;
    while ii > 0
        invariant
            0 <= ii <= n,
            n == ga.len(),
            m == gb.len(),
            a@.len() == n,
            b@.len() == m,
            a.deep_view() == ga,
            b.deep_view() == gb,
            table_rev@.len() == n - ii,
            forall|k: int| 0 <= k < n - ii ==> (#[trigger] table_rev@[k])@.len() == m,
            forall|k: int, jx: int|
                0 <= k < n - ii && 0 <= jx < m ==> (#[trigger] table_rev@[k]@[jx]) == lcs_len(
                    ga,
                    gb,
                    n - 1 - k,
                    jx,
                ),
        decreases ii,
    {
        let i = ii - 1;
        let mut row: Vec<usize> = Vec::new();
        let mut z: usize = 0;
        while z < m
            invariant
                0 <= z <= m,
                row@.len() == z,
            decreases m - z,
        {
            row.push(0);
            z = z + 1;
        }
        let mut jj: usize = m;
        while jj > 0
            invariant
                0 <= jj <= m,
                0 <= i < n,
                n == ga.len(),
                m == gb.len(),
                a@.len() == n,
                b@.len() == m,
                a.deep_view() == ga,
                b.deep_view() == gb,
                row@.len() == m,
                table_rev@.len() == n - 1 - i,
                forall|k: int| 0 <= k < n - 1 - i ==> (#[trigger] table_rev@[k])@.len() == m,
                forall|k: int, jx: int|
                    0 <= k < n - 1 - i && 0 <= jx < m ==> (#[trigger] table_rev@[k]@[jx])
                        == lcs_len(ga, gb, n - 1 - k, jx),
                forall|jx: int|
                    jj <= jx < m ==> (#[trigger] row@[jx]) == lcs_len(ga, gb, i as int, jx),
            decreases jj,
        {
            let j = jj - 1;
            proof {
                assert(a@[i as int]@ == ga[i as int]);
                assert(b@[j as int]@ == gb[j as int]);
                lemma_lcs_len_bounds(ga, gb, i + 1, j + 1);
                lemma_lcs_len_bounds(ga, gb, i + 1, j as int);
                lemma_lcs_len_bounds(ga, gb, i as int, j + 1);
            }
            let v: usize = if bytes_eq(&a[i], &b[j]) {
                let diag: usize = if i + 1 < n && j + 1 < m {
                    table_rev[n - i - 2][j + 1]
                } else {
                    0
                };
                proof {
                    assert(diag == lcs_len(ga, gb, i + 1, j + 1));
                }
                1 + diag
            } else {
                let down: usize = if i + 1 < n {
                    table_rev[n - i - 2][j]
                } else {
                    0
                };
                let right: usize = if j + 1 < m {
                    row[j + 1]
                } else {
                    0
                };
                proof {
                    assert(down == lcs_len(ga, gb, i + 1, j as int));
                    assert(right == lcs_len(ga, gb, i as int, j + 1));
                }
                if down >= right {
                    down
                } else {
                    right
                }
            };
            row.set(j, v);
            proof {
                assert(row@[j as int] == lcs_len(ga, gb, i as int, j as int));
            }
            jj = j;
        }
        table_rev.push(row);
        ii = i;
    }

    // Walk the table from the front, following the same decisions as the
    // tabulation, and emit the matched pairs in order.
    let ghost pairs0 = same_line_pairs(ga, gb);
    let mut r: Vec<(usize, usize)> = Vec::new();
    let mut i: usize = 0;
    let mut j: usize = 0;
    while i < n && j < m
        invariant
            0 <= i <= n,
            0 <= j <= m,
            n == ga.len(),
            m == gb.len(),
            a@.len() == n,
            b@.len() == m,
            a.deep_view() == ga,
            b.deep_view() == gb,
            table_rev@.len() == n,
            forall|k: int| 0 <= k < n ==> (#[trigger] table_rev@[k])@.len() == m,
            forall|k: int, jx: int|
                0 <= k < n && 0 <= jx < m ==> (#[trigger] table_rev@[k]@[jx]) == lcs_len(
                    ga,
                    gb,
                    n - 1 - k,
                    jx,
                ),
            pairs0 == same_line_pairs(ga, gb),
            pairs0.len() == r@.len() + lcs_pairs_from(ga, gb, i as int, j as int).len(),
            forall|x: int|
                0 <= x < r@.len() ==> #[trigger] pairs0[x] == (r@[x].0 as int, r@[x].1 as int),
            forall|x: int|
                0 <= x < lcs_pairs_from(ga, gb, i as int, j as int).len()
                    ==> #[trigger] pairs0[r@.len() + x] == lcs_pairs_from(
                        ga,
                        gb,
                        i as int,
                        j as int,
                    )[x],
        decreases n - i + m - j,
    {
        let ghost rem = lcs_pairs_from(ga, gb, i as int, j as int);
        proof {
            assert(a@[i as int]@ == ga[i as int]);
            assert(b@[j as int]@ == gb[j as int]);
        }
        if bytes_eq(&a[i], &b[j]) {
            let ghost rlen = r@.len();
            r.push((i, j));
            proof {
                let rest = lcs_pairs_from(ga, gb, i + 1, j + 1);
                assert(rem == seq![(i as int, j as int)] + rest);
                assert(rem[0] == (i as int, j as int));
                assert(pairs0[rlen as int + 0] == rem[0]);
                assert(pairs0[rlen as int] == (i as int, j as int));
                assert forall|x: int| 0 <= x < rest.len() implies #[trigger] pairs0[
                    r@.len() + x] == rest[x] by {
                    assert(pairs0[rlen + (x + 1)] == rem[x + 1]);
                    assert(rem[x + 1] == rest[x]);
                }
            }
            i = i + 1;
            j = j + 1;
        } else {
            let down: usize = if i + 1 < n {
                table_rev[n - i - 2][j]
            } else {
                0
            };
            let right: usize = if j + 1 < m {
                table_rev[n - i - 1][j + 1]
            } else {
                0
            };
            proof {
                lemma_lcs_len_bounds(ga, gb, i + 1, j as int);
                lemma_lcs_len_bounds(ga, gb, i as int, j + 1);
                assert(down == lcs_len(ga, gb, i + 1, j as int));
                assert(right == lcs_len(ga, gb, i as int, j + 1));
            }
            if down >= right {
                proof {
                    assert(rem == lcs_pairs_from(ga, gb, i + 1, j as int));
                }
                i = i + 1;
            } else {
                proof {
                    assert(rem == lcs_pairs_from(ga, gb, i as int, j + 1));
                }
                j = j + 1;
            }
        }
    }
    proof {
        assert(lcs_pairs_from(ga, gb, i as int, j as int).len() == 0);
    }
    r
}

} // verus!
