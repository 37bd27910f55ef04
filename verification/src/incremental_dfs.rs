//! The bidirectional composer: two half-budget searches, one from each
//! endpoint, and a join that stitches boundary partial paths meeting at a
//! common node into full answers.
//!
//! The half searches are exact, and the composer returns every forward-half
//! answer and every sound stitching of the two boundaries; everything it
//! returns is a valid simple interior path within the full budget. It does
//! not claim every full-budget answer: a path whose halves are unevenly long
//! can escape both boundaries, which is the strategy's documented partiality.

use crate::dfs::{copy_path, dfs_for_temp};
use crate::graph::Graph;
use crate::paths::{
    appears, branch_ok, conn, emitted_from, frontier_ok, fronted_from, grows_from, is_answer,
    lemma_branch_edges, lemma_branch_props, lemma_branch_target, lemma_conn_budget,
    lemma_conn_props, lemma_conn_to_branch, lemma_glue, lemma_rev_chain_conn, transposed,
};
use crate::GraphPath;
use std::collections::HashSet;
use vstd::prelude::*;

verus! {

/// One half search: from `u` toward `v` with budget `limit`, walking reverse
/// edges when `rev` holds. `total` gains exactly the completed interior
/// answers ([`is_answer`] over the chosen direction), and `part_answer`
/// exactly the boundary partial paths: simple walks of exactly `limit` hops
/// that have not reached `v`, kept for the join phase.
pub fn cal_part(
    u: i64,
    v: i64,
    limit: u32,
    graph: &Graph,
    total: &mut Vec<GraphPath>,
    part_answer: &mut Vec<GraphPath>,
    rev: bool,
)
    requires
        graph.wf(),
    ensures
        grows_from(old(total)@, final(total)@),
        grows_from(old(part_answer)@, final(part_answer)@),
        forall|j: int|
            old(total)@.len() <= j < final(total)@.len() ==> is_answer(
                graph.dir_view(rev),
                u,
                v,
                limit as nat,
                (#[trigger] final(total)@[j])@,
            ),
        forall|ans: Seq<i64>|
            #![trigger is_answer(graph.dir_view(rev), u, v, limit as nat, ans)]
            is_answer(graph.dir_view(rev), u, v, limit as nat, ans) ==> appears(
                final(total)@,
                old(total)@.len() as int,
                ans,
            ),
        forall|j: int|
            old(part_answer)@.len() <= j < final(part_answer)@.len() ==> frontier_ok(
                graph.dir_view(rev),
                u,
                v,
                limit as nat,
                Set::<i64>::empty().insert(u),
                (#[trigger] final(part_answer)@[j])@,
            ) && final(part_answer)@[j]@.last() != v,
        u != v ==> forall|w: Seq<i64>|
            #![trigger frontier_ok(graph.dir_view(rev), u, v, limit as nat, Set::<i64>::empty().insert(u), w)]
            frontier_ok(graph.dir_view(rev), u, v, limit as nat, Set::<i64>::empty().insert(u), w)
                && w.last() != v ==> appears(
                final(part_answer)@,
                old(part_answer)@.len() as int,
                w,
            ),
{
    let ghost g = graph.dir_view(rev);
    let ghost kk = limit as nat;
    let ghost banned0 = Set::<i64>::empty().insert(u);
    let ghost tlen0 = old(total)@.len() as int;
    let ghost plen0 = old(part_answer)@.len() as int;
    let ghost mt = Seq::<i64>::empty();
    if limit == 0 {
        if u == v {
            let empty_ans: GraphPath = Vec::new();
            total.push(empty_ans);
        }
        proof {
            if u == v {
                assert(total@.last()@ =~= mt);
                assert forall|ans: Seq<i64>|
                    #![trigger is_answer(g, u, v, kk, ans)]
                    is_answer(g, u, v, kk, ans) implies appears(total@, tlen0, ans) by {
                    assert(total@[total@.len() - 1]@ == ans);
                }
            } else {
                assert forall|ans: Seq<i64>|
                    #![trigger is_answer(g, u, v, kk, ans)]
                    is_answer(g, u, v, kk, ans) implies appears(total@, tlen0, ans) by {
                    assert(conn(g, u, v, kk, banned0, ans));
                    assert(false);
                }
            }
            assert forall|w: Seq<i64>|
                #![trigger frontier_ok(g, u, v, kk, banned0, w)]
                frontier_ok(g, u, v, kk, banned0, w) && w.last() != v implies appears(
                part_answer@,
                plen0,
                w,
            ) by {
                assert(w.len() == 0);
                assert(!branch_ok(g, u, v, kk, banned0, w));
            }
        }
        return ;
    }
    let mut path: GraphPath = Vec::new();
    let mut visit: HashSet<i64> = HashSet::new();
    visit.insert(u);
    let mut bnd: Vec<GraphPath> = Vec::new();
    dfs_for_temp(&mut path, u, v, limit, graph, total, &mut bnd, rev, &mut visit);
    let ghost tlen1 = total@.len() as int;
    let ghost bndv = bnd@;
    proof {
        if u != v {
            // The splitter's own emissions fit the full budget.
            assert forall|jj: int| tlen0 <= jj < total@.len() implies emitted_from_mid(
                g,
                u,
                v,
                limit as nat,
                banned0,
                (#[trigger] total@[jj])@,
            ) by {
                assert(emitted_from(g, u, v, (limit - 1) as nat, banned0, mt, total@[jj]@));
                let tc = choose|tc: Seq<i64>|
                    total@[jj]@ == mt + tc && #[trigger] conn(
                        g,
                        u,
                        v,
                        (limit - 1) as nat,
                        banned0,
                        tc,
                    );
                lemma_conn_props(g, u, v, (limit - 1) as nat, banned0, tc);
                lemma_conn_budget(g, u, v, (limit - 1) as nat, kk, banned0, tc);
                assert(mt + tc =~= tc);
            }
            // Its completeness, restated without the empty prefix.
            assert forall|tail: Seq<i64>|
                #![trigger conn(g, u, v, (limit - 1) as nat, banned0, tail)]
                conn(g, u, v, (limit - 1) as nat, banned0, tail) implies appears(
                total@,
                tlen0,
                tail,
            ) by {
                assert(appears(total@, tlen0, mt + tail));
                assert(mt + tail =~= tail);
            }
        }
        // Each captured boundary entry is a full-budget branch.
        if u != v {
            assert forall|j: int| 0 <= j < bndv.len() implies frontier_ok(
                g,
                u,
                v,
                kk,
                banned0,
                (#[trigger] bndv[j])@,
            ) && bndv[j]@.len() >= 1 by {
                assert(fronted_from(g, u, v, kk, banned0, mt, bndv[j]@));
                let w = choose|w: Seq<i64>|
                    bndv[j]@ == mt + w && #[trigger] frontier_ok(g, u, v, kk, banned0, w);
                lemma_branch_props(g, u, v, kk, banned0, w);
                assert(mt + w =~= w);
            }
        }
    }
    let mut j: usize = 0;
    while j < bnd.len()
        invariant
            graph.wf(),
            g == graph.dir_view(rev),
            kk == limit as nat,
            limit >= 1,
            banned0 == Set::<i64>::empty().insert(u),
            mt == Seq::<i64>::empty(),
            bndv == bnd@,
            0 <= j <= bndv.len(),
            tlen0 <= tlen1 <= total@.len(),
            tlen0 == old(total)@.len() as int,
            plen0 == old(part_answer)@.len() as int,
            grows_from(old(total)@, total@),
            grows_from(old(part_answer)@, part_answer@),
            u == v ==> bndv.len() == 0 && total@.len() == tlen0 + 1 && total@[tlen0]@ =~= mt,
            u != v ==> forall|jj: int|
                0 <= jj < bndv.len() ==> frontier_ok(g, u, v, kk, banned0, (#[trigger] bndv[jj])@)
                    && bndv[jj]@.len() >= 1,
            u != v ==> forall|jj: int|
                tlen0 <= jj < total@.len() ==> emitted_from_mid(
                    g,
                    u,
                    v,
                    limit as nat,
                    banned0,
                    (#[trigger] total@[jj])@,
                ),
            u != v ==> forall|tail: Seq<i64>|
                #![trigger conn(g, u, v, (limit - 1) as nat, banned0, tail)]
                conn(g, u, v, (limit - 1) as nat, banned0, tail) ==> appears(total@, tlen0, tail),
            // answers recovered from target-ending boundary entries so far
            u != v ==> forall|jj: int|
                0 <= jj < j && (#[trigger] bndv[jj])@.last() == v ==> appears(
                    total@,
                    tlen0,
                    bndv[jj]@.drop_last(),
                ),
            forall|jj: int|
                plen0 <= jj < part_answer@.len() ==> frontier_ok(
                    g,
                    u,
                    v,
                    kk,
                    banned0,
                    (#[trigger] part_answer@[jj])@,
                ) && part_answer@[jj]@.last() != v,
            u != v ==> forall|jj: int|
                0 <= jj < j && (#[trigger] bndv[jj])@.last() != v ==> appears(
                    part_answer@,
                    plen0,
                    bndv[jj]@,
                ),
        decreases bndv.len() - j,
    {
        let ghost tprev = total@;
        let ghost pprev = part_answer@;
        let entry = copy_path(&bnd[j]);
        let n = entry.len();
        assert(n >= 1);
        if entry[n - 1] == v {
            let mut ans = entry;
            ans.pop();
            total.push(ans);
            proof {
                assert(total@.last()@ == bndv[j as int]@.drop_last());
                if u != v {
                    lemma_branch_target(g, u, v, kk, kk, banned0, bndv[j as int]@);
                    assert(emitted_from_mid(g, u, v, limit as nat, banned0, total@.last()@));
                    assert forall|jj: int|
                        tlen0 <= jj < total@.len() implies emitted_from_mid(
                        g,
                        u,
                        v,
                        limit as nat,
                        banned0,
                        (#[trigger] total@[jj])@,
                    ) by {
                        if jj < tprev.len() {
                            assert(total@[jj] == tprev[jj]);
                        } else {
                            assert(total@[jj]@ == total@.last()@);
                        }
                    }
                    assert forall|tail: Seq<i64>|
                        #![trigger conn(g, u, v, (limit - 1) as nat, banned0, tail)]
                        conn(g, u, v, (limit - 1) as nat, banned0, tail) implies appears(
                        total@,
                        tlen0,
                        tail,
                    ) by {
                        let jj = choose|jj: int|
                            tlen0 <= jj < tprev.len() && (#[trigger] tprev[jj])@ == tail;
                        assert(total@[jj] == tprev[jj]);
                    }
                    assert forall|jj: int|
                        0 <= jj < j + 1 && (#[trigger] bndv[jj])@.last() == v implies appears(
                        total@,
                        tlen0,
                        bndv[jj]@.drop_last(),
                    ) by {
                        if jj < j {
                            let x = choose|x: int|
                                tlen0 <= x < tprev.len() && (#[trigger] tprev[x])@ == bndv[jj]@.drop_last();
                            assert(total@[x] == tprev[x]);
                        } else {
                            assert(total@[total@.len() - 1]@ == bndv[jj]@.drop_last());
                        }
                    }
                }
            }
        } else {
            part_answer.push(entry);
            proof {
                assert(part_answer@.last()@ == bndv[j as int]@);
                if u != v {
                    assert forall|jj: int|
                        0 <= jj < j + 1 && (#[trigger] bndv[jj])@.last() != v implies appears(
                        part_answer@,
                        plen0,
                        bndv[jj]@,
                    ) by {
                        if jj < j {
                            let x = choose|x: int|
                                plen0 <= x < pprev.len() && (#[trigger] pprev[x])@ == bndv[jj]@;
                            assert(part_answer@[x] == pprev[x]);
                        } else {
                            assert(part_answer@[part_answer@.len() - 1]@ == bndv[jj]@);
                        }
                    }
                }
            }
        }
        j = j + 1;
    }
    proof {
        if u == v {
            assert forall|ans: Seq<i64>|
                #![trigger is_answer(g, u, v, kk, ans)]
                is_answer(g, u, v, kk, ans) implies appears(total@, tlen0, ans) by {
                assert(total@[tlen0]@ == ans);
            }
            assert forall|jt: int| tlen0 <= jt < total@.len() implies is_answer(
                g,
                u,
                v,
                kk,
                (#[trigger] total@[jt])@,
            ) by {
                assert(jt == tlen0);
            }
        } else {
            assert forall|jt: int| tlen0 <= jt < total@.len() implies is_answer(
                g,
                u,
                v,
                kk,
                (#[trigger] total@[jt])@,
            ) by {
                assert(emitted_from_mid(g, u, v, limit as nat, banned0, total@[jt]@));
                let tc = choose|tc: Seq<i64>| #[trigger]
                    conn(g, u, v, kk, banned0, tc) && total@[jt]@ == tc;
            }
            assert forall|ans: Seq<i64>|
                #![trigger is_answer(g, u, v, kk, ans)]
                is_answer(g, u, v, kk, ans) implies appears(total@, tlen0, ans) by {
                assert(conn(g, u, v, kk, banned0, ans));
                lemma_conn_props(g, u, v, kk, banned0, ans);
                if ans.len() + 1 < limit {
                    lemma_conn_budget(g, u, v, kk, (limit - 1) as nat, banned0, ans);
                    assert(appears(total@, tlen0, ans));
                } else {
                    assert(ans.len() + 1 == limit);
                    lemma_conn_to_branch(g, u, v, kk, kk, banned0, ans);
                    let w = ans.push(v);
                    assert(frontier_ok(g, u, v, kk, banned0, w));
                    assert(appears(bndv, 0, mt + w));
                    assert(mt + w =~= w);
                    let jj = choose|jj: int| 0 <= jj < bndv.len() && (#[trigger] bndv[jj])@ == w;
                    assert(bndv[jj]@.last() == v);
                    assert(appears(total@, tlen0, w.drop_last()));
                    assert(w.drop_last() =~= ans);
                }
            }
            assert forall|w: Seq<i64>|
                #![trigger frontier_ok(g, u, v, kk, banned0, w)]
                frontier_ok(g, u, v, kk, banned0, w) && w.last() != v implies appears(
                part_answer@,
                plen0,
                w,
            ) by {
                assert(appears(bndv, 0, mt + w));
                assert(mt + w =~= w);
                let jj = choose|jj: int| 0 <= jj < bndv.len() && (#[trigger] bndv[jj])@ == w;
                assert(appears(part_answer@, plen0, bndv[jj]@));
            }
        }
    }
}

/// `ans` is a continuation `conn` admits over the whole budget (a naming aid
/// for the half search's bookkeeping).
pub open spec fn emitted_from_mid(
    g: crate::paths::AdjView,
    u: i64,
    v: i64,
    k: nat,
    banned: Set<i64>,
    ans: Seq<i64>,
) -> bool {
    exists|tc: Seq<i64>| #[trigger] conn(g, u, v, k, banned, tc) && ans == tc
}

/// The candidate interior path, by value, has no repeated node.
fn no_dup_check(c: &Vec<i64>) -> (b: bool)
    ensures
        b == c@.no_duplicates(),
{
    let mut i: usize = 0;
    while i < c.len()
        invariant
            0 <= i <= c@.len(),
            forall|x: int, y: int| 0 <= x < y < c@.len() && x < i ==> c@[x] != c@[y],
        decreases c@.len() - i,
    {
        let mut j: usize = i + 1;
        while j < c.len()
            invariant
                0 <= i < j <= c@.len(),
                forall|x: int, y: int| 0 <= x < y < c@.len() && x < i ==> c@[x] != c@[y],
                forall|y: int| i < y < j ==> c@[i as int] != c@[y],
            decreases c@.len() - j,
        {
            if c[i] == c[j] {
                return false;
            }
            j = j + 1;
        }
        i = i + 1;
    }
    true
}

/// Whether the path holds the given node.
fn contains_check(c: &Vec<i64>, x: i64) -> (b: bool)
    ensures
        b == c@.contains(x),
{
    let mut i: usize = 0;
    while i < c.len()
        invariant
            0 <= i <= c@.len(),
            forall|y: int| 0 <= y < i ==> c@[y] != x,
        decreases c@.len() - i,
    {
        if c[i] == x {
            assert(c@.contains(x));
            return true;
        }
        i = i + 1;
    }
    false
}

/// A stitching of a forward boundary entry `f` (from `u`) and a reverse
/// boundary entry `r` (from `v`) meeting at a common last node: the candidate
/// is `f` followed by the rest of `r` read backwards, it stays within `limit`
/// hops in all, and it is simple and clear of both endpoints.
pub open spec fn stitch_ok(
    f: Seq<i64>,
    r: Seq<i64>,
    u: i64,
    v: i64,
    limit: nat,
    c: Seq<i64>,
) -> bool {
    &&& f.len() >= 1
    &&& r.len() >= 1
    &&& f.last() == r.last()
    &&& c == f + r.drop_last().reverse()
    &&& f.len() + r.len() <= limit
    &&& u != v
    &&& c.no_duplicates()
    &&& !c.contains(u)
    &&& !c.contains(v)
}

/// Some pair of boundary entries stitches to `ans`.
pub open spec fn stitched_any(
    left: Seq<Vec<i64>>,
    right: Seq<Vec<i64>>,
    u: i64,
    v: i64,
    limit: nat,
    ans: Seq<i64>,
) -> bool {
    exists|e1: int, e2: int|
        #![trigger left[e1], right[e2]]
        0 <= e1 < left.len() && 0 <= e2 < right.len() && stitch_ok(
            left[e1]@,
            right[e2]@,
            u,
            v,
            limit,
            ans,
        )
}

/// The join phase of the bidirectional composer: pair every forward boundary
/// entry with every reverse boundary entry sharing its last node, concatenate
/// the forward entry with the reversed remainder of the reverse entry, and
/// keep exactly the candidates that stay simple and within the full budget.
pub fn join(
    left_part: &Vec<GraphPath>,
    right_part: &Vec<GraphPath>,
    u: i64,
    v: i64,
    limit: u32,
) -> (out: Vec<GraphPath>)
    ensures
        forall|j: int|
            0 <= j < out@.len() ==> stitched_any(
                left_part@,
                right_part@,
                u,
                v,
                limit as nat,
                (#[trigger] out@[j])@,
            ),
        forall|e1: int, e2: int|
            #![trigger left_part@[e1], right_part@[e2]]
            0 <= e1 < left_part@.len() && 0 <= e2 < right_part@.len() && stitch_ok(
                left_part@[e1]@,
                right_part@[e2]@,
                u,
                v,
                limit as nat,
                left_part@[e1]@ + right_part@[e2]@.drop_last().reverse(),
            ) ==> appears(
                out@,
                0,
                left_part@[e1]@ + right_part@[e2]@.drop_last().reverse(),
            ),
{
    let mut out: Vec<GraphPath> = Vec::new();
    let mut e1: usize = 0;
    while e1 < left_part.len()
        invariant
            0 <= e1 <= left_part@.len(),
            forall|j: int|
                0 <= j < out@.len() ==> stitched_any(
                    left_part@,
                    right_part@,
                    u,
                    v,
                    limit as nat,
                    (#[trigger] out@[j])@,
                ),
            forall|x1: int, x2: int|
                #![trigger left_part@[x1], right_part@[x2]]
                0 <= x1 < e1 && 0 <= x2 < right_part@.len() && stitch_ok(
                    left_part@[x1]@,
                    right_part@[x2]@,
                    u,
                    v,
                    limit as nat,
                    left_part@[x1]@ + right_part@[x2]@.drop_last().reverse(),
                ) ==> appears(
                    out@,
                    0,
                    left_part@[x1]@ + right_part@[x2]@.drop_last().reverse(),
                ),
        decreases left_part@.len() - e1,
    {
        let mut e2: usize = 0;
        while e2 < right_part.len()
            invariant
                0 <= e1 < left_part@.len(),
                0 <= e2 <= right_part@.len(),
                forall|j: int|
                    0 <= j < out@.len() ==> stitched_any(
                        left_part@,
                        right_part@,
                        u,
                        v,
                        limit as nat,
                        (#[trigger] out@[j])@,
                    ),
                forall|x1: int, x2: int|
                    #![trigger left_part@[x1], right_part@[x2]]
                    0 <= x1 < e1 && 0 <= x2 < right_part@.len() && stitch_ok(
                        left_part@[x1]@,
                        right_part@[x2]@,
                        u,
                        v,
                        limit as nat,
                        left_part@[x1]@ + right_part@[x2]@.drop_last().reverse(),
                    ) ==> appears(
                        out@,
                        0,
                        left_part@[x1]@ + right_part@[x2]@.drop_last().reverse(),
                    ),
                forall|x2: int|
                    #![trigger right_part@[x2]]
                    0 <= x2 < e2 && stitch_ok(
                        left_part@[e1 as int]@,
                        right_part@[x2]@,
                        u,
                        v,
                        limit as nat,
                        left_part@[e1 as int]@ + right_part@[x2]@.drop_last().reverse(),
                    ) ==> appears(
                        out@,
                        0,
                        left_part@[e1 as int]@ + right_part@[x2]@.drop_last().reverse(),
                    ),
            decreases right_part@.len() - e2,
        {
            let ghost outprev = out@;
            let f = &left_part[e1];
            let r = &right_part[e2];
            let fl = f.len();
            let rl = r.len();
            if fl >= 1 && rl >= 1 && u != v {
                if f[fl - 1] == r[rl - 1] && fl <= limit as usize && rl <= (limit as usize)
                    - fl {
                    let mut c = copy_path(f);
                    proof {
                        assert(c@.take(f@.len() as int) =~= f@);
                    }
                    let mut ri: usize = rl - 1;
                    while ri > 0
                        invariant
                            0 <= ri <= rl - 1,
                            rl == r@.len(),
                            rl >= 1,
                            c@.len() == f@.len() + (rl - 1 - ri),
                            c@.take(f@.len() as int) == f@,
                            forall|x: int|
                                f@.len() <= x < c@.len() ==> (#[trigger] c@[x]) == r@[rl - 1 - (x
                                    - f@.len()) - 1],
                        decreases ri,
                    {
                        c.push(r[ri - 1]);
                        ri = ri - 1;
                        proof {
                            assert(c@.take(f@.len() as int) =~= f@);
                        }
                    }
                    proof {
                        assert(c@ =~= f@ + r@.drop_last().reverse()) by {
                            assert(c@.len() == f@.len() + r@.drop_last().reverse().len());
                            let whole = f@ + r@.drop_last().reverse();
                            assert forall|x: int| 0 <= x < c@.len() implies c@[x] == whole[x] by {
                                if x < f@.len() {
                                    assert(c@.take(f@.len() as int)[x] == c@[x]);
                                } else {
                                    assert(c@[x] == r@[rl - 1 - (x - f@.len()) - 1]);
                                    assert(r@.drop_last().reverse()[x - f@.len()] == r@.drop_last()[
                                        (rl - 1) - 1 - (x - f@.len())]);
                                }
                            }
                        }
                    }
                    if no_dup_check(&c) {
                        if !contains_check(&c, u) && !contains_check(&c, v) {
                            proof {
                                assert(stitch_ok(
                                    left_part@[e1 as int]@,
                                    right_part@[e2 as int]@,
                                    u,
                                    v,
                                    limit as nat,
                                    c@,
                                ));
                            }
                            proof {
                                assert(stitched_any(
                                    left_part@,
                                    right_part@,
                                    u,
                                    v,
                                    limit as nat,
                                    c@,
                                ));
                            }
                            out.push(c);
                        }
                    }
                }
            }
            proof {
                assert forall|x1: int, x2: int|
                    #![trigger left_part@[x1], right_part@[x2]]
                    0 <= x1 < e1 && 0 <= x2 < right_part@.len() && stitch_ok(
                        left_part@[x1]@,
                        right_part@[x2]@,
                        u,
                        v,
                        limit as nat,
                        left_part@[x1]@ + right_part@[x2]@.drop_last().reverse(),
                    ) implies appears(
                    out@,
                    0,
                    left_part@[x1]@ + right_part@[x2]@.drop_last().reverse(),
                ) by {
                    let cc = left_part@[x1]@ + right_part@[x2]@.drop_last().reverse();
                    let jj = choose|jj: int|
                        0 <= jj < outprev.len() && (#[trigger] outprev[jj])@ == cc;
                    assert(out@[jj] == outprev[jj]);
                }
                assert forall|x2: int|
                    #![trigger right_part@[x2]]
                    0 <= x2 < e2 + 1 && stitch_ok(
                        left_part@[e1 as int]@,
                        right_part@[x2]@,
                        u,
                        v,
                        limit as nat,
                        left_part@[e1 as int]@ + right_part@[x2]@.drop_last().reverse(),
                    ) implies appears(
                    out@,
                    0,
                    left_part@[e1 as int]@ + right_part@[x2]@.drop_last().reverse(),
                ) by {
                    let cc = left_part@[e1 as int]@ + right_part@[x2]@.drop_last().reverse();
                    if x2 < e2 {
                        let jj = choose|jj: int|
                            0 <= jj < outprev.len() && (#[trigger] outprev[jj])@ == cc;
                        assert(out@[jj] == outprev[jj]);
                    } else {
                        assert(out@[out@.len() - 1]@ == cc);
                    }
                }
            }
            e2 = e2 + 1;
        }
        proof {
            // Fold this forward entry's completed row into the outer account.
            assert forall|x1: int, x2: int|
                #![trigger left_part@[x1], right_part@[x2]]
                0 <= x1 < e1 + 1 && 0 <= x2 < right_part@.len() && stitch_ok(
                    left_part@[x1]@,
                    right_part@[x2]@,
                    u,
                    v,
                    limit as nat,
                    left_part@[x1]@ + right_part@[x2]@.drop_last().reverse(),
                ) implies appears(
                out@,
                0,
                left_part@[x1]@ + right_part@[x2]@.drop_last().reverse(),
            ) by {
                if x1 == e1 as int {
                    assert(stitch_ok(
                        left_part@[e1 as int]@,
                        right_part@[x2]@,
                        u,
                        v,
                        limit as nat,
                        left_part@[e1 as int]@ + right_part@[x2]@.drop_last().reverse(),
                    ));
                }
            }
        }
        e1 = e1 + 1;
    }
    out
}

/// The whole composer: run the forward half from `u`, the reverse half from
/// `v`, keep the forward half's completed answers, and add every sound
/// stitching of the two boundaries. Everything appended to `result` is a
/// valid interior path from `u` to `v` of at most `limit` forward hops;
/// every answer within the forward half budget and every stitching that
/// meets [`stitch_ok`] is appended. Full-budget completeness is not claimed,
/// the composer being a partial strategy.
pub fn incremental_path(u: i64, v: i64, limit: u32, graph: &Graph, result: &mut Vec<GraphPath>)
    requires
        graph.wf(),
    ensures
        grows_from(old(result)@, final(result)@),
        forall|j: int|
            old(result)@.len() <= j < final(result)@.len() ==> is_answer(
                graph.dir_view(false),
                u,
                v,
                limit as nat,
                (#[trigger] final(result)@[j])@,
            ),
        forall|ans: Seq<i64>|
            #![trigger is_answer(graph.dir_view(false), u, v, (limit / 2 + limit % 2) as nat, ans)]
            is_answer(graph.dir_view(false), u, v, (limit / 2 + limit % 2) as nat, ans) ==> appears(
                final(result)@,
                old(result)@.len() as int,
                ans,
            ),
        forall|f: Seq<i64>, r: Seq<i64>|
            #![trigger frontier_ok(graph.dir_view(false), u, v, (limit / 2 + limit % 2) as nat, Set::<i64>::empty().insert(u), f), frontier_ok(graph.dir_view(true), v, u, (limit / 2 + limit % 2) as nat, Set::<i64>::empty().insert(v), r)]
            frontier_ok(
                graph.dir_view(false),
                u,
                v,
                (limit / 2 + limit % 2) as nat,
                Set::<i64>::empty().insert(u),
                f,
            ) && f.last() != v && frontier_ok(
                graph.dir_view(true),
                v,
                u,
                (limit / 2 + limit % 2) as nat,
                Set::<i64>::empty().insert(v),
                r,
            ) && r.last() != u && stitch_ok(
                f,
                r,
                u,
                v,
                limit as nat,
                f + r.drop_last().reverse(),
            ) ==> appears(
                final(result)@,
                old(result)@.len() as int,
                f + r.drop_last().reverse(),
            ),
{
    let ghost gf = graph.dir_view(false);
    let ghost gb = graph.dir_view(true);
    let ghost kk = limit as nat;
    let ghost len0 = old(result)@.len() as int;
    let ghost bu = Set::<i64>::empty().insert(u);
    let half = limit / 2 + limit % 2;
    let mut left_answer: Vec<GraphPath> = Vec::new();
    let mut left_boundary: Vec<GraphPath> = Vec::new();
    cal_part(u, v, half, graph, &mut left_answer, &mut left_boundary, false);
    let mut right_answer: Vec<GraphPath> = Vec::new();
    let mut right_boundary: Vec<GraphPath> = Vec::new();
    cal_part(v, u, half, graph, &mut right_answer, &mut right_boundary, true);
    let ghost la = left_answer@;
    let ghost lb = left_boundary@;
    let ghost rb = right_boundary@;
    // The forward half's completed answers are answers of the full search.
    proof {
        assert forall|j: int| 0 <= j < la.len() implies is_answer(
            gf,
            u,
            v,
            kk,
            (#[trigger] la[j])@,
        ) by {
            assert(is_answer(gf, u, v, half as nat, la[j]@));
            if u != v {
                assert(conn(gf, u, v, half as nat, bu, la[j]@));
                lemma_conn_props(gf, u, v, half as nat, bu, la[j]@);
                lemma_conn_budget(gf, u, v, half as nat, kk, bu, la[j]@);
            }
        }
    }
    result.append(&mut left_answer);
    let ghost len1 = result@.len() as int;
    let stitched = join(&left_boundary, &right_boundary, u, v, limit);
    let ghost st = stitched@;
    proof {
        // Every stitched candidate is a valid full answer.
        assert forall|j: int| 0 <= j < st.len() implies is_answer(
            gf,
            u,
            v,
            kk,
            (#[trigger] st[j])@,
        ) by {
            assert(stitched_any(lb, rb, u, v, kk, st[j]@));
            let (e1, e2) = choose|e1: int, e2: int|
                #![trigger lb[e1], rb[e2]]
                0 <= e1 < lb.len() && 0 <= e2 < rb.len() && stitch_ok(
                    lb[e1]@,
                    rb[e2]@,
                    u,
                    v,
                    kk,
                    st[j]@,
                );
            let f = lb[e1]@;
            let r = rb[e2]@;
            let c = st[j]@;
            assert(frontier_ok(gf, u, v, half as nat, bu, f) && f.last() != v);
            assert(frontier_ok(gb, v, u, half as nat, Set::<i64>::empty().insert(v), r));
            lemma_branch_props(gf, u, v, half as nat, bu, f);
            lemma_branch_props(gb, v, u, half as nat, Set::<i64>::empty().insert(v), r);
            lemma_branch_edges(gb, v, u, half as nat, Set::<i64>::empty().insert(v), r);
            lemma_branch_edges(gf, u, v, half as nat, bu, f);
            let tail2 = r.drop_last().reverse();
            let k2 = (kk - f.len()) as nat;
            // The reverse boundary, read backwards, connects f's last node
            // to v through forward edges.
            assert(conn(gf, r.last(), v, k2, bu.union(f.to_set()), tail2)) by {
                graph.lemma_wf_transposed();
                assert(transposed(graph.fwd(), graph.bwd()));
                assert forall|i: int|
                    0 <= i < r.len() - 1 implies !bu.union(f.to_set()).contains(#[trigger] r[i])
                        && r[i] != v by {
                    assert(r.drop_last()[i] == r[i]);
                    assert(r.drop_last().reverse()[r.len() - 2 - i] == r.drop_last()[i]);
                    assert(c == f + tail2);
                    assert(c[f.len() + (r.len() - 2 - i)] == tail2[r.len() - 2 - i]);
                    assert(c.contains(r[i]));
                    if r[i] == u {
                        assert(c.contains(u));
                        assert(false);
                    }
                    if f.to_set().contains(r[i]) {
                        let fi = choose|fi: int| 0 <= fi < f.len() && f[fi] == r[i];
                        assert(c[fi] == r[i]);
                        assert(c[fi] == c[f.len() + (r.len() - 2 - i)]);
                        assert(fi != f.len() + (r.len() - 2 - i));
                        assert(false);
                    }
                    if r[i] == v {
                        assert(c.contains(v));
                        assert(false);
                    }
                }
                assert(!bu.union(f.to_set()).contains(v)) by {
                    if v == u {
                        assert(false);
                    }
                    if f.to_set().contains(v) {
                        let fi = choose|fi: int| 0 <= fi < f.len() && f[fi] == v;
                        if fi < f.len() - 1 {
                            assert(f[fi] != v);
                        } else {
                            assert(f.last() == v);
                        }
                        assert(false);
                    }
                }
                assert(k2 >= r.len());
                lemma_rev_chain_conn(graph.fwd(), graph.bwd(), v, r, k2, bu.union(f.to_set()));
            }
            lemma_glue(gf, u, v, half as nat, bu, f, k2, tail2);
            assert(f.len() + k2 == kk);
            assert(conn(gf, u, v, kk, bu, c));
        }
    }
    let mut stitched_mut = stitched;
    let ghost before_st = result@;
    result.append(&mut stitched_mut);
    proof {
        assert forall|j: int| len0 <= j < result@.len() implies is_answer(
            gf,
            u,
            v,
            kk,
            (#[trigger] result@[j])@,
        ) by {
            if j < len1 {
                assert(result@[j] == la[j - len0]);
            } else {
                assert(result@[j] == st[j - len1]);
            }
        }
        let half_n = (limit / 2 + limit % 2) as nat;
        assert(half as nat == half_n);
        // Completeness of the forward half carries into the merged result.
        assert forall|ans: Seq<i64>|
            #![trigger is_answer(gf, u, v, half_n, ans)]
            is_answer(gf, u, v, half_n, ans) implies appears(result@, len0, ans) by {
            assert(appears(la, 0, ans));
            let jj = choose|jj: int| 0 <= jj < la.len() && (#[trigger] la[jj])@ == ans;
            assert(before_st[len0 + jj] == la[jj]);
            assert(result@[len0 + jj] == before_st[len0 + jj]);
        }
        // And so does every sound stitching of the two boundaries.
        assert forall|f: Seq<i64>, r: Seq<i64>|
            #![trigger frontier_ok(gf, u, v, half_n, bu, f), frontier_ok(gb, v, u, half_n, Set::<i64>::empty().insert(v), r)]
            frontier_ok(gf, u, v, half_n, bu, f) && f.last() != v && frontier_ok(
                gb,
                v,
                u,
                half_n,
                Set::<i64>::empty().insert(v),
                r,
            ) && r.last() != u && stitch_ok(
                f,
                r,
                u,
                v,
                kk,
                f + r.drop_last().reverse(),
            ) implies appears(result@, len0, f + r.drop_last().reverse()) by {
            let c = f + r.drop_last().reverse();
            assert(u != v);
            assert(appears(lb, 0, f));
            let e1 = choose|e1: int| 0 <= e1 < lb.len() && (#[trigger] lb[e1])@ == f;
            assert(appears(rb, 0, r));
            let e2 = choose|e2: int| 0 <= e2 < rb.len() && (#[trigger] rb[e2])@ == r;
            assert(stitch_ok(lb[e1]@, rb[e2]@, u, v, kk, lb[e1]@ + rb[e2]@.drop_last().reverse()));
            assert(appears(st, 0, lb[e1]@ + rb[e2]@.drop_last().reverse()));
            let jj = choose|jj: int| 0 <= jj < st.len() && (#[trigger] st[jj])@ == c;
            assert(result@[len1 + jj] == st[jj]);
        }
    }
}

} // verus!
