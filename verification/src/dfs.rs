//! The sequential bounded depth-first search: the algorithmic kernel every
//! executor bottoms out in, the frontier splitter that cuts a search short at
//! a shallow depth, and the continuation that resumes captured partial paths.

use crate::graph::Graph;
use crate::paths::{
    appears, branch_ok, chopped, conn, distinct_edges, emitted_from, emitted_through, fronted_from,
    fronted_through, frontier_ok, grows_from, has_edge, lemma_add_cancel, lemma_no_dup_last,
    lemma_resumed_distinct, lemma_take_step, lemma_to_set_split_last, nbrs_of, now_of,
    pairwise_distinct, resumed_before, resumed_origin_any, resumed_origin_ok, tail_head,
    uniform_length,
};
use crate::GraphPath;
use std::collections::HashSet;
use vstd::prelude::*;

verus! {

/// An element-wise copy of a path.
pub fn copy_path(p: &Vec<i64>) -> (r: Vec<i64>)
    ensures
        r@ == p@,
{
    let mut r: Vec<i64> = Vec::new();
    let mut i: usize = 0;
    while i < p.len()
        invariant
            0 <= i <= p@.len(),
            r@ == p@.take(i as int),
        decreases p@.len() - i,
    {
        r.push(p[i]);
        proof {
            assert(r@ =~= p@.take(i as int + 1));
        }
        i = i + 1;
    }
    proof {
        assert(r@ =~= p@);
    }
    r
}

/// Search outward from `now`, at most `k` further hops, looking for `target`.
///
/// `path` is the working path so far (its last element is `now`), `visit` the
/// nodes banned on this branch. Each answer appended to `result` is the
/// working path extended by a continuation that [`conn`] admits, with the
/// final `target` left off; and every continuation `conn` admits is appended.
/// Reaching `target` counts before the budget is looked at, so arriving on
/// the very last allowed hop still counts. `path` and `visit` come back
/// exactly as they went in.
pub fn dfs(
    now: i64,
    target: i64,
    k: u32,
    graph: &Graph,
    result: &mut Vec<GraphPath>,
    path: &mut GraphPath,
    rev: bool,
    visit: &mut HashSet<i64>,
)
    requires
        graph.wf(),
        old(path)@.len() > 0 ==> old(path)@.last() == now,
        !old(visit)@.contains(now),
    ensures
        final(visit)@ == old(visit)@,
        final(path)@ == old(path)@,
        grows_from(old(result)@, final(result)@),
        now == target ==> final(result)@.len() == old(result)@.len() + 1
            && final(result)@.last()@ == chopped(old(path)@),
        now != target && k == 0 ==> final(result)@ == old(result)@,
        now != target && k > 0 ==> forall|j: int|
            old(result)@.len() <= j < final(result)@.len() ==> emitted_from(
                graph.dir_view(rev),
                now,
                target,
                k as nat,
                old(visit)@.insert(now),
                old(path)@,
                (#[trigger] final(result)@[j])@,
            ),
        now != target && k > 0 ==> forall|tail: Seq<i64>|
            #![trigger conn(graph.dir_view(rev), now, target, k as nat, old(visit)@.insert(now), tail)]
            conn(graph.dir_view(rev), now, target, k as nat, old(visit)@.insert(now), tail)
                ==> appears(final(result)@, old(result)@.len() as int, old(path)@ + tail),
        distinct_edges(graph.dir_view(rev)) ==> pairwise_distinct(
            final(result)@,
            old(result)@.len() as int,
        ),
    decreases k,
{
    let ghost g = graph.dir_view(rev);
    let ghost p0 = old(path)@;
    let ghost len0 = old(result)@.len() as int;
    if now == target {
        let mut ans = copy_path(path);
        if ans.len() > 0 {
            ans.pop();
        }
        result.push(ans);
        return ;
    }
    if k == 0 {
        return ;
    }
    visit.insert(now);
    let ghost banned = old(visit)@.insert(now);
    let nexts = if rev {
        graph.in_v(now)
    } else {
        graph.out_v(now)
    };
    if let Some(nodes) = nexts {
        assert(nodes@ == nbrs_of(g, now));
        let mut i: usize = 0;
        while i < nodes.len()
            invariant
                graph.wf(),
                g == graph.dir_view(rev),
                nodes@ == nbrs_of(g, now),
                banned == old(visit)@.insert(now),
                !old(visit)@.contains(now),
                p0 == old(path)@,
                len0 == old(result)@.len() as int,
                now != target,
                k > 0,
                0 <= i <= nodes@.len(),
                visit@ == banned,
                path@ == p0,
                grows_from(old(result)@, result@),
                forall|j: int|
                    len0 <= j < result@.len() ==> emitted_from(
                        g,
                        now,
                        target,
                        k as nat,
                        banned,
                        p0,
                        (#[trigger] result@[j])@,
                    ),
                forall|tail: Seq<i64>|
                    #![trigger conn(g, now, target, k as nat, banned, tail)]
                    conn(g, now, target, k as nat, banned, tail) && nodes@.take(i as int).contains(
                        tail_head(tail, target),
                    ) ==> appears(result@, len0, p0 + tail),
                distinct_edges(g) ==> pairwise_distinct(result@, len0),
                distinct_edges(g) ==> forall|j: int|
                    len0 <= j < result@.len() ==> emitted_through(
                        g,
                        now,
                        target,
                        k as nat,
                        banned,
                        p0,
                        nodes@.take(i as int),
                        (#[trigger] result@[j])@,
                    ),
            decreases nodes@.len() - i,
        {
            let ghost prev = result@;
            let v = nodes[i];
            assert(nbrs_of(g, now).contains(v));
            if !visit.contains(&v) {
                path.push(v);
                dfs(v, target, k - 1, graph, result, path, rev, visit);
                path.pop();
                proof {
                    assert(path@ =~= p0);
                    assert(grows_from(old(result)@, result@));
                    // Lift what the recursive call did one level up.
                    if v == target {
                        let pushed = result@.last()@;
                        assert(pushed == chopped(p0.push(v)));
                        assert(p0.push(v).drop_last() =~= p0);
                        assert(conn(g, now, target, k as nat, banned, Seq::<i64>::empty()));
                        assert(p0 + Seq::<i64>::empty() =~= p0);
                        assert(emitted_from(g, now, target, k as nat, banned, p0, pushed));
                        assert forall|j: int| len0 <= j < result@.len() implies emitted_from(
                            g,
                            now,
                            target,
                            k as nat,
                            banned,
                            p0,
                            (#[trigger] result@[j])@,
                        ) by {
                            if j < prev.len() {
                                assert(result@[j] == prev[j]);
                            } else {
                                assert(result@[j]@ == pushed);
                            }
                        }
                    } else if k - 1 == 0 {
                        assert(result@ == prev);
                    } else {
                        assert forall|j: int| len0 <= j < result@.len() implies emitted_from(
                            g,
                            now,
                            target,
                            k as nat,
                            banned,
                            p0,
                            (#[trigger] result@[j])@,
                        ) by {
                            if j < prev.len() {
                                assert(result@[j] == prev[j]);
                            } else {
                                assert(emitted_from(
                                    g,
                                    v,
                                    target,
                                    (k - 1) as nat,
                                    banned.insert(v),
                                    p0.push(v),
                                    result@[j]@,
                                ));
                                let tc = choose|tc: Seq<i64>|
                                    result@[j]@ == p0.push(v) + tc && #[trigger] conn(
                                        g,
                                        v,
                                        target,
                                        (k - 1) as nat,
                                        banned.insert(v),
                                        tc,
                                    );
                                let tail = seq![v] + tc;
                                assert(tail[0] == v);
                                assert(tail.drop_first() =~= tc);
                                assert(p0 + tail =~= p0.push(v) + tc);
                                assert(conn(g, now, target, k as nat, banned, tail));
                            }
                        }
                    }
                    // Tails stepping onto v are now all in the result.
                    assert forall|tail: Seq<i64>|
                        #![trigger conn(g, now, target, k as nat, banned, tail)]
                        conn(g, now, target, k as nat, banned, tail) && nodes@.take(
                            i as int + 1,
                        ).contains(tail_head(tail, target)) implies appears(
                        result@,
                        len0,
                        p0 + tail,
                    ) by {
                        let hd = tail_head(tail, target);
                        if nodes@.take(i as int).contains(hd) {
                            let jj = choose|jj: int|
                                len0 <= jj < prev.len() && (#[trigger] prev[jj])@ == p0 + tail;
                            assert(result@[jj] == prev[jj]);
                        } else {
                            assert(nodes@.take(i as int + 1)[i as int] == v);
                            assert forall|ix: int|
                                0 <= ix < i + 1 && (#[trigger] nodes@.take(i as int + 1)[ix])
                                == hd implies hd == v || nodes@.take(i as int).contains(hd) by {
                                if ix < i {
                                    assert(nodes@.take(i as int)[ix] == hd);
                                }
                            }
                            let ix = choose|ix: int|
                                0 <= ix < nodes@.take(i as int + 1).len() && (#[trigger] nodes@.take(
                                    i as int + 1,
                                )[ix]) == hd;
                            assert(hd == v);
                            if tail.len() == 0 {
                                assert(v == target);
                                assert(p0 + tail =~= p0);
                                assert(appears(result@, len0, p0 + tail));
                            } else {
                                assert(tail[0] == v && v != target);
                                assert(conn(
                                    g,
                                    v,
                                    target,
                                    (k - 1) as nat,
                                    banned.insert(v),
                                    tail.drop_first(),
                                ));
                                assert(appears(
                                    result@,
                                    prev.len() as int,
                                    p0.push(v) + tail.drop_first(),
                                ));
                                assert(p0.push(v) + tail.drop_first() =~= p0 + tail);
                                assert(appears(result@, len0, p0 + tail));
                            }
                        }
                    }

                    // With duplicate-free adjacency no answer repeats.
                    if distinct_edges(g) {
                        assert(nodes@.no_duplicates());
                        assert(!nodes@.take(i as int).contains(v)) by {
                            if nodes@.take(i as int).contains(v) {
                                let ix = choose|ix: int|
                                    0 <= ix < i && (#[trigger] nodes@.take(i as int)[ix]) == v;
                                assert(nodes@[ix] == v && nodes@[i as int] == v);
                                assert(false);
                            }
                        }
                        assert forall|j: int| len0 <= j < result@.len() implies emitted_through(
                            g,
                            now,
                            target,
                            k as nat,
                            banned,
                            p0,
                            nodes@.take(i as int + 1),
                            (#[trigger] result@[j])@,
                        ) by {
                            if j < prev.len() {
                                assert(result@[j] == prev[j]);
                                let tl = choose|tl: Seq<i64>|
                                    prev[j]@ == p0 + tl && #[trigger] conn(
                                        g,
                                        now,
                                        target,
                                        k as nat,
                                        banned,
                                        tl,
                                    ) && nodes@.take(i as int).contains(tail_head(tl, target));
                                lemma_take_step(nodes@, i as int, tail_head(tl, target));
                            } else if v == target {
                                assert(result@[j]@ == chopped(p0.push(v)));
                                assert(result@[j]@ == p0);
                                assert(p0 + Seq::<i64>::empty() =~= p0);
                                lemma_take_step(nodes@, i as int, v);
                                assert(tail_head(Seq::<i64>::empty(), target) == v);
                                assert(conn(g, now, target, k as nat, banned, Seq::<i64>::empty()));
                            } else {
                                assert(emitted_from(
                                    g,
                                    v,
                                    target,
                                    (k - 1) as nat,
                                    banned.insert(v),
                                    p0.push(v),
                                    result@[j]@,
                                ));
                                let tc = choose|tc: Seq<i64>|
                                    result@[j]@ == p0.push(v) + tc && #[trigger] conn(
                                        g,
                                        v,
                                        target,
                                        (k - 1) as nat,
                                        banned.insert(v),
                                        tc,
                                    );
                                let tl = seq![v] + tc;
                                assert(tl[0] == v);
                                assert(tl.drop_first() =~= tc);
                                assert(p0 + tl =~= p0.push(v) + tc);
                                assert(conn(g, now, target, k as nat, banned, tl));
                                lemma_take_step(nodes@, i as int, v);
                                assert(nodes@.take(i as int + 1).contains(tail_head(tl, target)));
                            }
                        }
                        assert forall|j1: int, j2: int|
                            #![trigger result@[j1], result@[j2]]
                            len0 <= j1 < j2 < result@.len() implies result@[j1]@ != result@[j2]@ by {
                            if j2 < prev.len() {
                                assert(result@[j1] == prev[j1] && result@[j2] == prev[j2]);
                            } else if j1 >= prev.len() {
                                if v == target {
                                    assert(result@.len() == prev.len() + 1);
                                    assert(false);
                                } else if k - 1 == 0 {
                                    assert(false);
                                } else {
                                    assert(pairwise_distinct(result@, prev.len() as int));
                                }
                            } else {
                                assert(result@[j1] == prev[j1]);
                                let tl = choose|tl: Seq<i64>|
                                    prev[j1]@ == p0 + tl && #[trigger] conn(
                                        g,
                                        now,
                                        target,
                                        k as nat,
                                        banned,
                                        tl,
                                    ) && nodes@.take(i as int).contains(tail_head(tl, target));
                                let hd = tail_head(tl, target);
                                assert(hd != v);
                                if v == target {
                                    assert(result@[j2]@ == chopped(p0.push(v)));
                                    assert(result@[j2]@ == p0);
                                    if prev[j1]@ == p0 {
                                        assert(p0 + tl == p0 + Seq::<i64>::empty()) by {
                                            assert(p0 + Seq::<i64>::empty() =~= p0);
                                        }
                                        lemma_add_cancel(p0, tl, Seq::<i64>::empty());
                                        assert(tl.len() == 0);
                                        assert(hd == target);
                                        assert(false);
                                    }
                                } else if k - 1 == 0 {
                                    assert(false);
                                } else {
                                    assert(emitted_from(
                                        g,
                                        v,
                                        target,
                                        (k - 1) as nat,
                                        banned.insert(v),
                                        p0.push(v),
                                        result@[j2]@,
                                    ));
                                    let tc = choose|tc: Seq<i64>|
                                        result@[j2]@ == p0.push(v) + tc && #[trigger] conn(
                                            g,
                                            v,
                                            target,
                                            (k - 1) as nat,
                                            banned.insert(v),
                                            tc,
                                        );
                                    if prev[j1]@ == result@[j2]@ {
                                        assert(p0.push(v) + tc =~= p0 + (seq![v] + tc));
                                        assert(p0 + tl == p0 + (seq![v] + tc));
                                        lemma_add_cancel(p0, tl, seq![v] + tc);
                                        assert(tl[0] == v);
                                        assert(hd == v);
                                        assert(false);
                                    }
                                }
                            }
                        }
                    }
                }
            } else {
                proof {
                    assert(banned.contains(v));
                    assert forall|tail: Seq<i64>|
                        #![trigger conn(g, now, target, k as nat, banned, tail)]
                        conn(g, now, target, k as nat, banned, tail) && nodes@.take(
                            i as int + 1,
                        ).contains(tail_head(tail, target)) implies appears(
                        result@,
                        len0,
                        p0 + tail,
                    ) by {
                        let hd = tail_head(tail, target);
                        if nodes@.take(i as int).contains(hd) {
                        } else {
                            assert forall|ix: int|
                                0 <= ix < i + 1 && (#[trigger] nodes@.take(i as int + 1)[ix])
                                == hd implies hd == v || nodes@.take(i as int).contains(hd) by {
                                if ix < i {
                                    assert(nodes@.take(i as int)[ix] == hd);
                                }
                            }
                            let ix = choose|ix: int|
                                0 <= ix < nodes@.take(i as int + 1).len() && (#[trigger] nodes@.take(
                                    i as int + 1,
                                )[ix]) == hd;
                            assert(hd == v);
                            assert(!banned.contains(hd));
                            assert(false);
                        }
                    }

                    if distinct_edges(g) {
                        assert forall|j: int| len0 <= j < result@.len() implies emitted_through(
                            g,
                            now,
                            target,
                            k as nat,
                            banned,
                            p0,
                            nodes@.take(i as int + 1),
                            (#[trigger] result@[j])@,
                        ) by {
                            let tl = choose|tl: Seq<i64>|
                                result@[j]@ == p0 + tl && #[trigger] conn(
                                    g,
                                    now,
                                    target,
                                    k as nat,
                                    banned,
                                    tl,
                                ) && nodes@.take(i as int).contains(tail_head(tl, target));
                            lemma_take_step(nodes@, i as int, tail_head(tl, target));
                        }
                    }
                }
            }
            i = i + 1;
        }
        proof {
            assert(nodes@.take(nodes@.len() as int) =~= nodes@);
            assert forall|tail: Seq<i64>|
                #![trigger conn(g, now, target, k as nat, banned, tail)]
                conn(g, now, target, k as nat, banned, tail) implies appears(
                result@,
                len0,
                p0 + tail,
            ) by {
                assert(nbrs_of(g, now).contains(tail_head(tail, target)));
            }
        }
    } else {
        proof {
            assert forall|tail: Seq<i64>|
                #![trigger conn(g, now, target, k as nat, banned, tail)]
                conn(g, now, target, k as nat, banned, tail) implies appears(
                result@,
                len0,
                p0 + tail,
            ) by {
                assert(has_edge(g, now, tail_head(tail, target)));
                assert(nbrs_of(g, now) == Seq::<i64>::empty());
            }
        }
    }
    visit.remove(&now);
    proof {
        assert(visit@ =~= old(visit)@);
    }
}

/// The frontier splitter: the same traversal as [`dfs`], but the budget is
/// looked at first, and a branch whose budget ran out is captured whole into
/// `temp_result` instead of being discarded.
///
/// Answers found before the budget ran out go to `result` as in `dfs`; they
/// are exactly the continuations [`conn`] admits with one hop held back
/// (budget `k - 1`), since a branch that only reaches `target` on its final
/// hop is captured, not emitted. The captured entries are exactly the
/// working path extended by the branches [`frontier_ok`] admits: simple
/// walks of exactly `k` further hops avoiding `visit`. Unlike `dfs`, the
/// current node is expected to be in `visit` already; the caller puts the
/// start node there and this holds through the recursion.
pub fn dfs_for_temp(
    path: &mut GraphPath,
    start: i64,
    target: i64,
    k: u32,
    graph: &Graph,
    result: &mut Vec<GraphPath>,
    temp_result: &mut Vec<GraphPath>,
    rev: bool,
    visit: &mut HashSet<i64>,
)
    requires
        graph.wf(),
    ensures
        final(visit)@ == old(visit)@,
        final(path)@ == old(path)@,
        grows_from(old(result)@, final(result)@),
        grows_from(old(temp_result)@, final(temp_result)@),
        k == 0 ==> final(temp_result)@.len() == old(temp_result)@.len() + 1
            && final(temp_result)@.last()@ == old(path)@ && final(result)@ == old(result)@,
        k > 0 && now_of(old(path)@, start) == target ==> final(result)@.len() == old(
            result,
        )@.len() + 1 && final(result)@.last()@ == chopped(old(path)@) && final(temp_result)@ == old(
            temp_result,
        )@,
        k > 0 && now_of(old(path)@, start) != target ==> forall|j: int|
            old(result)@.len() <= j < final(result)@.len() ==> emitted_from(
                graph.dir_view(rev),
                now_of(old(path)@, start),
                target,
                (k - 1) as nat,
                old(visit)@,
                old(path)@,
                (#[trigger] final(result)@[j])@,
            ),
        k > 0 && now_of(old(path)@, start) != target ==> forall|tail: Seq<i64>|
            #![trigger conn(graph.dir_view(rev), now_of(old(path)@, start), target, (k - 1) as nat, old(visit)@, tail)]
            conn(
                graph.dir_view(rev),
                now_of(old(path)@, start),
                target,
                (k - 1) as nat,
                old(visit)@,
                tail,
            ) ==> appears(final(result)@, old(result)@.len() as int, old(path)@ + tail),
        k > 0 && now_of(old(path)@, start) != target ==> forall|j: int|
            old(temp_result)@.len() <= j < final(temp_result)@.len() ==> fronted_from(
                graph.dir_view(rev),
                now_of(old(path)@, start),
                target,
                k as nat,
                old(visit)@,
                old(path)@,
                (#[trigger] final(temp_result)@[j])@,
            ),
        k > 0 && now_of(old(path)@, start) != target ==> forall|u: Seq<i64>|
            #![trigger frontier_ok(graph.dir_view(rev), now_of(old(path)@, start), target, k as nat, old(visit)@, u)]
            frontier_ok(
                graph.dir_view(rev),
                now_of(old(path)@, start),
                target,
                k as nat,
                old(visit)@,
                u,
            ) ==> appears(final(temp_result)@, old(temp_result)@.len() as int, old(path)@ + u),
        distinct_edges(graph.dir_view(rev)) ==> pairwise_distinct(
            final(result)@,
            old(result)@.len() as int,
        ),
        distinct_edges(graph.dir_view(rev)) ==> pairwise_distinct(
            final(temp_result)@,
            old(temp_result)@.len() as int,
        ),
    decreases k,
{
    let ghost g = graph.dir_view(rev);
    let ghost p0 = old(path)@;
    let ghost vis0 = old(visit)@;
    let ghost len0 = old(result)@.len() as int;
    let ghost tlen0 = old(temp_result)@.len() as int;
    let now = if path.len() == 0 {
        start
    } else {
        path[path.len() - 1]
    };
    assert(now == now_of(p0, start));
    if k == 0 {
        temp_result.push(copy_path(path));
        return ;
    }
    if now == target {
        let mut ans = copy_path(path);
        if ans.len() > 0 {
            ans.pop();
        }
        result.push(ans);
        return ;
    }
    let nexts = if rev {
        graph.in_v(now)
    } else {
        graph.out_v(now)
    };
    if let Some(nodes) = nexts {
        assert(nodes@ == nbrs_of(g, now));
        let mut i: usize = 0;
        while i < nodes.len()
            invariant
                graph.wf(),
                g == graph.dir_view(rev),
                nodes@ == nbrs_of(g, now),
                now == now_of(p0, start),
                vis0 == old(visit)@,
                p0 == old(path)@,
                len0 == old(result)@.len() as int,
                tlen0 == old(temp_result)@.len() as int,
                now != target,
                k > 0,
                0 <= i <= nodes@.len(),
                visit@ == vis0,
                path@ == p0,
                grows_from(old(result)@, result@),
                grows_from(old(temp_result)@, temp_result@),
                forall|j: int|
                    len0 <= j < result@.len() ==> emitted_from(
                        g,
                        now,
                        target,
                        (k - 1) as nat,
                        vis0,
                        p0,
                        (#[trigger] result@[j])@,
                    ),
                forall|j: int|
                    tlen0 <= j < temp_result@.len() ==> fronted_from(
                        g,
                        now,
                        target,
                        k as nat,
                        vis0,
                        p0,
                        (#[trigger] temp_result@[j])@,
                    ),
                forall|tail: Seq<i64>|
                    #![trigger conn(g, now, target, (k - 1) as nat, vis0, tail)]
                    conn(g, now, target, (k - 1) as nat, vis0, tail) && nodes@.take(
                        i as int,
                    ).contains(tail_head(tail, target)) ==> appears(result@, len0, p0 + tail),
                forall|u: Seq<i64>|
                    #![trigger frontier_ok(g, now, target, k as nat, vis0, u)]
                    frontier_ok(g, now, target, k as nat, vis0, u) && nodes@.take(
                        i as int,
                    ).contains(u[0]) ==> appears(temp_result@, tlen0, p0 + u),
                distinct_edges(g) ==> pairwise_distinct(result@, len0),
                distinct_edges(g) ==> pairwise_distinct(temp_result@, tlen0),
                distinct_edges(g) ==> forall|j: int|
                    len0 <= j < result@.len() ==> emitted_through(
                        g,
                        now,
                        target,
                        (k - 1) as nat,
                        vis0,
                        p0,
                        nodes@.take(i as int),
                        (#[trigger] result@[j])@,
                    ),
                distinct_edges(g) ==> forall|j: int|
                    tlen0 <= j < temp_result@.len() ==> fronted_through(
                        g,
                        now,
                        target,
                        k as nat,
                        vis0,
                        p0,
                        nodes@.take(i as int),
                        (#[trigger] temp_result@[j])@,
                    ),
            decreases nodes@.len() - i,
        {
            let ghost prev = result@;
            let ghost tprev = temp_result@;
            let v = nodes[i];
            assert(nbrs_of(g, now).contains(v));
            if !visit.contains(&v) {
                visit.insert(v);
                path.push(v);
                dfs_for_temp(path, start, target, k - 1, graph, result, temp_result, rev, visit);
                path.pop();
                visit.remove(&v);
                proof {
                    assert(path@ =~= p0);
                    assert(visit@ =~= vis0);
                    assert(now_of(p0.push(v), start) == v);
                    assert(grows_from(old(result)@, result@));
                    assert(grows_from(old(temp_result)@, temp_result@));
                    // Lift the recursive call's guarantees one level up.
                    if k - 1 == 0 {
                        assert(result@ == prev);
                        let pushed = temp_result@.last()@;
                        assert(pushed == p0.push(v));
                        assert(frontier_ok(g, now, target, k as nat, vis0, seq![v]));
                        assert(p0 + seq![v] =~= p0.push(v));
                        assert(fronted_from(g, now, target, k as nat, vis0, p0, pushed));
                        assert forall|j: int| tlen0 <= j < temp_result@.len() implies fronted_from(
                            g,
                            now,
                            target,
                            k as nat,
                            vis0,
                            p0,
                            (#[trigger] temp_result@[j])@,
                        ) by {
                            if j < tprev.len() {
                                assert(temp_result@[j] == tprev[j]);
                            } else {
                                assert(temp_result@[j]@ == pushed);
                            }
                        }
                    } else if v == target {
                        assert(temp_result@ == tprev);
                        let pushed = result@.last()@;
                        assert(pushed == chopped(p0.push(v)));
                        assert(p0.push(v).drop_last() =~= p0);
                        assert(conn(g, now, target, (k - 1) as nat, vis0, Seq::<i64>::empty()));
                        assert(p0 + Seq::<i64>::empty() =~= p0);
                        assert(emitted_from(g, now, target, (k - 1) as nat, vis0, p0, pushed));
                        assert forall|j: int| len0 <= j < result@.len() implies emitted_from(
                            g,
                            now,
                            target,
                            (k - 1) as nat,
                            vis0,
                            p0,
                            (#[trigger] result@[j])@,
                        ) by {
                            if j < prev.len() {
                                assert(result@[j] == prev[j]);
                            } else {
                                assert(result@[j]@ == pushed);
                            }
                        }
                    } else {
                        assert forall|j: int| len0 <= j < result@.len() implies emitted_from(
                            g,
                            now,
                            target,
                            (k - 1) as nat,
                            vis0,
                            p0,
                            (#[trigger] result@[j])@,
                        ) by {
                            if j < prev.len() {
                                assert(result@[j] == prev[j]);
                            } else {
                                assert(emitted_from(
                                    g,
                                    v,
                                    target,
                                    (k - 2) as nat,
                                    vis0.insert(v),
                                    p0.push(v),
                                    result@[j]@,
                                ));
                                let tc = choose|tc: Seq<i64>|
                                    result@[j]@ == p0.push(v) + tc && #[trigger] conn(
                                        g,
                                        v,
                                        target,
                                        (k - 2) as nat,
                                        vis0.insert(v),
                                        tc,
                                    );
                                let tail = seq![v] + tc;
                                assert(tail[0] == v);
                                assert(tail.drop_first() =~= tc);
                                assert(p0 + tail =~= p0.push(v) + tc);
                                assert(conn(g, now, target, (k - 1) as nat, vis0, tail));
                            }
                        }
                        assert forall|j: int| tlen0 <= j < temp_result@.len() implies fronted_from(
                            g,
                            now,
                            target,
                            k as nat,
                            vis0,
                            p0,
                            (#[trigger] temp_result@[j])@,
                        ) by {
                            if j < tprev.len() {
                                assert(temp_result@[j] == tprev[j]);
                            } else {
                                assert(fronted_from(
                                    g,
                                    v,
                                    target,
                                    (k - 1) as nat,
                                    vis0.insert(v),
                                    p0.push(v),
                                    temp_result@[j]@,
                                ));
                                let uc = choose|uc: Seq<i64>|
                                    temp_result@[j]@ == p0.push(v) + uc && #[trigger] frontier_ok(
                                        g,
                                        v,
                                        target,
                                        (k - 1) as nat,
                                        vis0.insert(v),
                                        uc,
                                    );
                                let u = seq![v] + uc;
                                assert(u[0] == v);
                                assert(u.drop_first() =~= uc);
                                assert(p0 + u =~= p0.push(v) + uc);
                                assert(branch_ok(g, now, target, k as nat, vis0, u));
                                assert(frontier_ok(g, now, target, k as nat, vis0, u));
                            }
                        }
                    }
                    // Continuations stepping onto v are now all recorded.
                    assert forall|tail: Seq<i64>|
                        #![trigger conn(g, now, target, (k - 1) as nat, vis0, tail)]
                        conn(g, now, target, (k - 1) as nat, vis0, tail) && nodes@.take(
                            i as int + 1,
                        ).contains(tail_head(tail, target)) implies appears(
                        result@,
                        len0,
                        p0 + tail,
                    ) by {
                        let hd = tail_head(tail, target);
                        lemma_take_step(nodes@, i as int, hd);
                        if nodes@.take(i as int).contains(hd) {
                            let jj = choose|jj: int|
                                len0 <= jj < prev.len() && (#[trigger] prev[jj])@ == p0 + tail;
                            assert(result@[jj] == prev[jj]);
                        } else {
                            assert(hd == v);
                            if tail.len() == 0 {
                                assert(v == target && k - 1 >= 1);
                                assert(p0 + tail =~= p0);
                                assert(appears(result@, len0, p0 + tail));
                            } else {
                                assert(tail[0] == v && v != target && k - 1 >= 1);
                                assert(conn(
                                    g,
                                    v,
                                    target,
                                    (k - 2) as nat,
                                    vis0.insert(v),
                                    tail.drop_first(),
                                ));
                                assert(appears(
                                    result@,
                                    prev.len() as int,
                                    p0.push(v) + tail.drop_first(),
                                ));
                                assert(p0.push(v) + tail.drop_first() =~= p0 + tail);
                            }
                        }
                    }
                    assert forall|u: Seq<i64>|
                        #![trigger frontier_ok(g, now, target, k as nat, vis0, u)]
                        frontier_ok(g, now, target, k as nat, vis0, u) && nodes@.take(
                            i as int + 1,
                        ).contains(u[0]) implies appears(temp_result@, tlen0, p0 + u) by {
                        lemma_take_step(nodes@, i as int, u[0]);
                        if nodes@.take(i as int).contains(u[0]) {
                            let jj = choose|jj: int|
                                tlen0 <= jj < tprev.len() && (#[trigger] tprev[jj])@ == p0 + u;
                            assert(temp_result@[jj] == tprev[jj]);
                        } else {
                            assert(u[0] == v);
                            if k == 1 {
                                assert(u.len() == 1);
                                assert(u =~= seq![v]);
                                assert(p0 + u =~= p0.push(v));
                                assert(appears(temp_result@, tlen0, p0 + u));
                            } else {
                                assert(u.len() == k && u.len() >= 2);
                                assert(u[0] != target);
                                assert(branch_ok(
                                    g,
                                    v,
                                    target,
                                    (k - 1) as nat,
                                    vis0.insert(v),
                                    u.drop_first(),
                                ));
                                assert(frontier_ok(
                                    g,
                                    v,
                                    target,
                                    (k - 1) as nat,
                                    vis0.insert(v),
                                    u.drop_first(),
                                ));
                                assert(appears(
                                    temp_result@,
                                    tprev.len() as int,
                                    p0.push(v) + u.drop_first(),
                                ));
                                assert(p0.push(v) + u.drop_first() =~= p0 + u);
                            }
                        }
                    }

                    // With duplicate-free adjacency neither output repeats.
                    if distinct_edges(g) {
                        assert(nodes@.no_duplicates());
                        assert(!nodes@.take(i as int).contains(v)) by {
                            if nodes@.take(i as int).contains(v) {
                                let ix = choose|ix: int|
                                    0 <= ix < i && (#[trigger] nodes@.take(i as int)[ix]) == v;
                                assert(nodes@[ix] == v && nodes@[i as int] == v);
                                assert(false);
                            }
                        }
                        assert forall|j: int| len0 <= j < result@.len() implies emitted_through(
                            g,
                            now,
                            target,
                            (k - 1) as nat,
                            vis0,
                            p0,
                            nodes@.take(i as int + 1),
                            (#[trigger] result@[j])@,
                        ) by {
                            if j < prev.len() {
                                assert(result@[j] == prev[j]);
                                let tl = choose|tl: Seq<i64>|
                                    prev[j]@ == p0 + tl && #[trigger] conn(
                                        g,
                                        now,
                                        target,
                                        (k - 1) as nat,
                                        vis0,
                                        tl,
                                    ) && nodes@.take(i as int).contains(tail_head(tl, target));
                                lemma_take_step(nodes@, i as int, tail_head(tl, target));
                            } else if k - 1 == 0 {
                                assert(false);
                            } else if v == target {
                                assert(result@[j]@ == chopped(p0.push(v)));
                                assert(result@[j]@ == p0);
                                assert(p0 + Seq::<i64>::empty() =~= p0);
                                lemma_take_step(nodes@, i as int, v);
                                assert(tail_head(Seq::<i64>::empty(), target) == v);
                                assert(conn(
                                    g,
                                    now,
                                    target,
                                    (k - 1) as nat,
                                    vis0,
                                    Seq::<i64>::empty(),
                                ));
                            } else {
                                assert(emitted_from(
                                    g,
                                    v,
                                    target,
                                    (k - 2) as nat,
                                    vis0.insert(v),
                                    p0.push(v),
                                    result@[j]@,
                                ));
                                let tc = choose|tc: Seq<i64>|
                                    result@[j]@ == p0.push(v) + tc && #[trigger] conn(
                                        g,
                                        v,
                                        target,
                                        (k - 2) as nat,
                                        vis0.insert(v),
                                        tc,
                                    );
                                let tl = seq![v] + tc;
                                assert(tl[0] == v);
                                assert(tl.drop_first() =~= tc);
                                assert(p0 + tl =~= p0.push(v) + tc);
                                assert(conn(g, now, target, (k - 1) as nat, vis0, tl));
                                lemma_take_step(nodes@, i as int, v);
                                assert(nodes@.take(i as int + 1).contains(tail_head(tl, target)));
                            }
                        }
                        assert forall|j: int| tlen0 <= j < temp_result@.len() implies fronted_through(
                            g,
                            now,
                            target,
                            k as nat,
                            vis0,
                            p0,
                            nodes@.take(i as int + 1),
                            (#[trigger] temp_result@[j])@,
                        ) by {
                            if j < tprev.len() {
                                assert(temp_result@[j] == tprev[j]);
                                let ul = choose|ul: Seq<i64>|
                                    tprev[j]@ == p0 + ul && #[trigger] frontier_ok(
                                        g,
                                        now,
                                        target,
                                        k as nat,
                                        vis0,
                                        ul,
                                    ) && nodes@.take(i as int).contains(ul[0]);
                                lemma_take_step(nodes@, i as int, ul[0]);
                            } else if k - 1 == 0 {
                                assert(temp_result@[j]@ == p0.push(v));
                                assert(p0 + seq![v] =~= p0.push(v));
                                assert(frontier_ok(g, now, target, k as nat, vis0, seq![v]));
                                lemma_take_step(nodes@, i as int, v);
                                assert(nodes@.take(i as int + 1).contains(seq![v][0]));
                            } else {
                                assert(v != target);
                                assert(fronted_from(
                                    g,
                                    v,
                                    target,
                                    (k - 1) as nat,
                                    vis0.insert(v),
                                    p0.push(v),
                                    temp_result@[j]@,
                                ));
                                let uc = choose|uc: Seq<i64>|
                                    temp_result@[j]@ == p0.push(v) + uc && #[trigger] frontier_ok(
                                        g,
                                        v,
                                        target,
                                        (k - 1) as nat,
                                        vis0.insert(v),
                                        uc,
                                    );
                                let ul = seq![v] + uc;
                                assert(ul[0] == v);
                                assert(ul.drop_first() =~= uc);
                                assert(p0 + ul =~= p0.push(v) + uc);
                                assert(branch_ok(g, now, target, k as nat, vis0, ul));
                                assert(frontier_ok(g, now, target, k as nat, vis0, ul));
                                lemma_take_step(nodes@, i as int, v);
                                assert(nodes@.take(i as int + 1).contains(ul[0]));
                            }
                        }
                        assert forall|j1: int, j2: int|
                            #![trigger result@[j1], result@[j2]]
                            len0 <= j1 < j2 < result@.len() implies result@[j1]@ != result@[j2]@ by {
                            if j2 < prev.len() {
                                assert(result@[j1] == prev[j1] && result@[j2] == prev[j2]);
                            } else if j1 >= prev.len() {
                                if k - 1 == 0 {
                                    assert(false);
                                } else if v == target {
                                    assert(result@.len() == prev.len() + 1);
                                    assert(false);
                                } else {
                                    assert(pairwise_distinct(result@, prev.len() as int));
                                }
                            } else {
                                assert(result@[j1] == prev[j1]);
                                let tl = choose|tl: Seq<i64>|
                                    prev[j1]@ == p0 + tl && #[trigger] conn(
                                        g,
                                        now,
                                        target,
                                        (k - 1) as nat,
                                        vis0,
                                        tl,
                                    ) && nodes@.take(i as int).contains(tail_head(tl, target));
                                let hd = tail_head(tl, target);
                                assert(hd != v);
                                if k - 1 == 0 {
                                    assert(false);
                                } else if v == target {
                                    assert(result@[j2]@ == chopped(p0.push(v)));
                                    assert(result@[j2]@ == p0);
                                    if prev[j1]@ == p0 {
                                        assert(p0 + tl == p0 + Seq::<i64>::empty()) by {
                                            assert(p0 + Seq::<i64>::empty() =~= p0);
                                        }
                                        lemma_add_cancel(p0, tl, Seq::<i64>::empty());
                                        assert(tl.len() == 0);
                                        assert(hd == target);
                                        assert(false);
                                    }
                                } else {
                                    assert(emitted_from(
                                        g,
                                        v,
                                        target,
                                        (k - 2) as nat,
                                        vis0.insert(v),
                                        p0.push(v),
                                        result@[j2]@,
                                    ));
                                    let tc = choose|tc: Seq<i64>|
                                        result@[j2]@ == p0.push(v) + tc && #[trigger] conn(
                                            g,
                                            v,
                                            target,
                                            (k - 2) as nat,
                                            vis0.insert(v),
                                            tc,
                                        );
                                    if prev[j1]@ == result@[j2]@ {
                                        assert(p0.push(v) + tc =~= p0 + (seq![v] + tc));
                                        assert(p0 + tl == p0 + (seq![v] + tc));
                                        lemma_add_cancel(p0, tl, seq![v] + tc);
                                        assert(tl[0] == v);
                                        assert(hd == v);
                                        assert(false);
                                    }
                                }
                            }
                        }
                        assert forall|j1: int, j2: int|
                            #![trigger temp_result@[j1], temp_result@[j2]]
                            tlen0 <= j1 < j2 < temp_result@.len() implies temp_result@[j1]@
                            != temp_result@[j2]@ by {
                            if j2 < tprev.len() {
                                assert(temp_result@[j1] == tprev[j1] && temp_result@[j2]
                                    == tprev[j2]);
                            } else if j1 >= tprev.len() {
                                if k - 1 == 0 {
                                    assert(temp_result@.len() == tprev.len() + 1);
                                    assert(false);
                                } else if v == target {
                                    assert(false);
                                } else {
                                    assert(pairwise_distinct(temp_result@, tprev.len() as int));
                                }
                            } else {
                                assert(temp_result@[j1] == tprev[j1]);
                                let ul = choose|ul: Seq<i64>|
                                    tprev[j1]@ == p0 + ul && #[trigger] frontier_ok(
                                        g,
                                        now,
                                        target,
                                        k as nat,
                                        vis0,
                                        ul,
                                    ) && nodes@.take(i as int).contains(ul[0]);
                                assert(ul[0] != v);
                                if v == target && k - 1 > 0 {
                                    assert(false);
                                } else if k - 1 == 0 {
                                    assert(temp_result@[j2]@ == p0.push(v));
                                    if tprev[j1]@ == p0.push(v) {
                                        assert(p0 + seq![v] =~= p0.push(v));
                                        assert(p0 + ul == p0 + seq![v]);
                                        lemma_add_cancel(p0, ul, seq![v]);
                                        assert(ul[0] == v);
                                        assert(false);
                                    }
                                } else {
                                    assert(fronted_from(
                                        g,
                                        v,
                                        target,
                                        (k - 1) as nat,
                                        vis0.insert(v),
                                        p0.push(v),
                                        temp_result@[j2]@,
                                    ));
                                    let uc = choose|uc: Seq<i64>|
                                        temp_result@[j2]@ == p0.push(v) + uc && #[trigger] frontier_ok(
                                            g,
                                            v,
                                            target,
                                            (k - 1) as nat,
                                            vis0.insert(v),
                                            uc,
                                        );
                                    if tprev[j1]@ == temp_result@[j2]@ {
                                        assert(p0.push(v) + uc =~= p0 + (seq![v] + uc));
                                        assert(p0 + ul == p0 + (seq![v] + uc));
                                        lemma_add_cancel(p0, ul, seq![v] + uc);
                                        assert(ul[0] == v);
                                        assert(false);
                                    }
                                }
                            }
                        }
                    }
                }
            } else {
                proof {
                    assert(vis0.contains(v));
                    assert forall|tail: Seq<i64>|
                        #![trigger conn(g, now, target, (k - 1) as nat, vis0, tail)]
                        conn(g, now, target, (k - 1) as nat, vis0, tail) && nodes@.take(
                            i as int + 1,
                        ).contains(tail_head(tail, target)) implies appears(
                        result@,
                        len0,
                        p0 + tail,
                    ) by {
                        let hd = tail_head(tail, target);
                        lemma_take_step(nodes@, i as int, hd);
                        if !nodes@.take(i as int).contains(hd) {
                            assert(hd == v);
                            assert(!vis0.contains(hd));
                            assert(false);
                        }
                    }
                    assert forall|u: Seq<i64>|
                        #![trigger frontier_ok(g, now, target, k as nat, vis0, u)]
                        frontier_ok(g, now, target, k as nat, vis0, u) && nodes@.take(
                            i as int + 1,
                        ).contains(u[0]) implies appears(temp_result@, tlen0, p0 + u) by {
                        lemma_take_step(nodes@, i as int, u[0]);
                        if !nodes@.take(i as int).contains(u[0]) {
                            assert(u[0] == v);
                            assert(!vis0.contains(u[0]));
                            assert(false);
                        }
                    }

                    if distinct_edges(g) {
                        assert forall|j: int| len0 <= j < result@.len() implies emitted_through(
                            g,
                            now,
                            target,
                            (k - 1) as nat,
                            vis0,
                            p0,
                            nodes@.take(i as int + 1),
                            (#[trigger] result@[j])@,
                        ) by {
                            let tl = choose|tl: Seq<i64>|
                                result@[j]@ == p0 + tl && #[trigger] conn(
                                    g,
                                    now,
                                    target,
                                    (k - 1) as nat,
                                    vis0,
                                    tl,
                                ) && nodes@.take(i as int).contains(tail_head(tl, target));
                            lemma_take_step(nodes@, i as int, tail_head(tl, target));
                        }
                        assert forall|j: int| tlen0 <= j < temp_result@.len() implies fronted_through(
                            g,
                            now,
                            target,
                            k as nat,
                            vis0,
                            p0,
                            nodes@.take(i as int + 1),
                            (#[trigger] temp_result@[j])@,
                        ) by {
                            let ul = choose|ul: Seq<i64>|
                                temp_result@[j]@ == p0 + ul && #[trigger] frontier_ok(
                                    g,
                                    now,
                                    target,
                                    k as nat,
                                    vis0,
                                    ul,
                                ) && nodes@.take(i as int).contains(ul[0]);
                            lemma_take_step(nodes@, i as int, ul[0]);
                        }
                    }
                }
            }
            i = i + 1;
        }
        proof {
            assert(nodes@.take(nodes@.len() as int) =~= nodes@);
            assert forall|tail: Seq<i64>|
                #![trigger conn(g, now, target, (k - 1) as nat, vis0, tail)]
                conn(g, now, target, (k - 1) as nat, vis0, tail) implies appears(
                result@,
                len0,
                p0 + tail,
            ) by {
                assert(nbrs_of(g, now).contains(tail_head(tail, target)));
            }
            assert forall|u: Seq<i64>|
                #![trigger frontier_ok(g, now, target, k as nat, vis0, u)]
                frontier_ok(g, now, target, k as nat, vis0, u) implies appears(
                temp_result@,
                tlen0,
                p0 + u,
            ) by {
                assert(nbrs_of(g, now).contains(u[0]));
            }
        }
    } else {
        proof {
            assert forall|tail: Seq<i64>|
                #![trigger conn(g, now, target, (k - 1) as nat, vis0, tail)]
                conn(g, now, target, (k - 1) as nat, vis0, tail) implies appears(
                result@,
                len0,
                p0 + tail,
            ) by {
                assert(has_edge(g, now, tail_head(tail, target)));
                assert(nbrs_of(g, now) == Seq::<i64>::empty());
            }
            assert forall|u: Seq<i64>|
                #![trigger frontier_ok(g, now, target, k as nat, vis0, u)]
                frontier_ok(g, now, target, k as nat, vis0, u) implies appears(
                temp_result@,
                tlen0,
                p0 + u,
            ) by {
                assert(has_edge(g, now, u[0]));
                assert(nbrs_of(g, now) == Seq::<i64>::empty());
            }
        }
    }
}

/// Resume every captured partial path with the sequential kernel.
///
/// Each entry is a non-empty simple partial path within the overall budget
/// `k`, clear of the search's start node `origin`; its visited set is rebuilt
/// from the path's own nodes together with `origin`, the remaining budget is
/// `k` less the hops already taken, and whatever [`dfs`] finds from its last
/// node goes to `result`. The frontier is drained: it is empty afterwards,
/// and `result` gains exactly the answers [`resumed_origin_ok`] admits for
/// some entry.
pub fn dfs_for_continue(
    temp_result: &mut Vec<GraphPath>,
    origin: i64,
    target: i64,
    k: u32,
    graph: &Graph,
    result: &mut Vec<GraphPath>,
    rev: bool,
)
    requires
        graph.wf(),
        forall|e: int|
            0 <= e < old(temp_result)@.len() ==> 1 <= (#[trigger] old(temp_result)@[e])@.len()
                <= k && old(temp_result)@[e]@.no_duplicates() && !old(temp_result)@[e]@.contains(
                origin,
            ),
    ensures
        final(temp_result)@.len() == 0,
        grows_from(old(result)@, final(result)@),
        forall|j: int|
            old(result)@.len() <= j < final(result)@.len() ==> resumed_origin_any(
                graph.dir_view(rev),
                origin,
                target,
                k as nat,
                old(temp_result)@,
                (#[trigger] final(result)@[j])@,
            ),
        forall|e: int, ans: Seq<i64>|
            #![trigger resumed_origin_ok(graph.dir_view(rev), origin, target, k as nat, old(temp_result)@[e]@, ans)]
            0 <= e < old(temp_result)@.len() && resumed_origin_ok(
                graph.dir_view(rev),
                origin,
                target,
                k as nat,
                old(temp_result)@[e]@,
                ans,
            ) ==> appears(final(result)@, old(result)@.len() as int, ans),
        distinct_edges(graph.dir_view(rev)) && pairwise_distinct(old(temp_result)@, 0)
            && uniform_length(old(temp_result)@) ==> pairwise_distinct(
            final(result)@,
            old(result)@.len() as int,
        ),
{
    let ghost g = graph.dir_view(rev);
    let ghost entries = old(temp_result)@;
    let ghost len0 = old(result)@.len() as int;
    let mut e: usize = 0;
    while e < temp_result.len()
        invariant
            graph.wf(),
            g == graph.dir_view(rev),
            temp_result@ == entries,
            len0 == old(result)@.len() as int,
            forall|ee: int|
                0 <= ee < entries.len() ==> 1 <= (#[trigger] entries[ee])@.len() <= k
                    && entries[ee]@.no_duplicates() && !entries[ee]@.contains(origin),
            0 <= e <= entries.len(),
            grows_from(old(result)@, result@),
            forall|j: int|
                len0 <= j < result@.len() ==> resumed_origin_any(
                    g,
                    origin,
                    target,
                    k as nat,
                    entries,
                    (#[trigger] result@[j])@,
                ),
            forall|ee: int, ans: Seq<i64>|
                #![trigger resumed_origin_ok(g, origin, target, k as nat, entries[ee]@, ans)]
                0 <= ee < e && resumed_origin_ok(g, origin, target, k as nat, entries[ee]@, ans)
                    ==> appears(result@, len0, ans),
            distinct_edges(g) && pairwise_distinct(entries, 0) && uniform_length(entries)
                ==> pairwise_distinct(result@, len0),
            distinct_edges(g) && pairwise_distinct(entries, 0) && uniform_length(entries)
                ==> forall|j: int|
                len0 <= j < result@.len() ==> resumed_before(
                    g,
                    origin,
                    target,
                    k as nat,
                    entries,
                    e as int,
                    (#[trigger] result@[j])@,
                ),
        decreases entries.len() - e,
    {
        let ghost prev = result@;
        let mut pbuf = copy_path(&temp_result[e]);
        let ghost p = pbuf@;
        let n = pbuf.len();
        let lastn = pbuf[n - 1];
        let mut vis: HashSet<i64> = HashSet::new();
        vis.insert(origin);
        let ghost vis_base = Set::<i64>::empty().insert(origin);
        assert(vis@ =~= p.take(0).to_set().union(vis_base)) by {
            assert(p.take(0) =~= Seq::<i64>::empty());
            assert(p.take(0).to_set() =~= Set::<i64>::empty());
        }
        let mut i: usize = 0;
        while i < n - 1
            invariant
                0 <= i <= n - 1,
                n == pbuf@.len(),
                p == pbuf@,
                1 <= n,
                vis_base == Set::<i64>::empty().insert(origin),
                vis@ == pbuf@.take(i as int).to_set().union(vis_base),
            decreases n - 1 - i,
        {
            vis.insert(pbuf[i]);
            proof {
                assert forall|x: i64|
                    vis@.contains(x) <==> pbuf@.take(i as int + 1).to_set().union(
                        vis_base,
                    ).contains(x) by {
                    lemma_take_step(pbuf@, i as int, x);
                }
                assert(vis@ =~= pbuf@.take(i as int + 1).to_set().union(vis_base));
            }
            i = i + 1;
        }
        proof {
            lemma_no_dup_last(p);
            assert(p[p.len() - 1] == p.last());
            assert(p.contains(p.last()));
            assert(p.last() != origin);
            assert(!vis@.contains(lastn));
            lemma_to_set_split_last(p);
            assert(vis@.insert(lastn) =~= p.to_set().insert(origin));
        }
        dfs(lastn, target, k - (n as u32), graph, result, &mut pbuf, rev, &mut vis);
        proof {
            let kk = (k - n) as nat;
            assert(grows_from(old(result)@, result@));
            // Everything the kernel added is a resumption answer of entry e.
            assert forall|j: int| len0 <= j < result@.len() implies resumed_origin_any(
                g,
                origin,
                target,
                k as nat,
                entries,
                (#[trigger] result@[j])@,
            ) by {
                if j < prev.len() {
                    assert(result@[j] == prev[j]);
                } else {
                    if lastn == target {
                        assert(result@[j]@ == chopped(p));
                    } else {
                        assert(emitted_from(
                            g,
                            lastn,
                            target,
                            kk,
                            vis@.insert(lastn),
                            p,
                            result@[j]@,
                        ));
                        let tc = choose|tc: Seq<i64>|
                            result@[j]@ == p + tc && #[trigger] conn(
                                g,
                                lastn,
                                target,
                                kk,
                                vis@.insert(lastn),
                                tc,
                            );
                        assert(vis@.insert(lastn) == p.to_set().insert(origin));
                    }
                    assert(resumed_origin_ok(g, origin, target, k as nat, p, result@[j]@));
                    assert(entries[e as int]@ == p);
                    assert(resumed_origin_ok(
                        g,
                        origin,
                        target,
                        k as nat,
                        (entries[e as int])@,
                        result@[j]@,
                    ));
                }
            }
            // And every resumption answer of entry e was added.
            assert forall|ans: Seq<i64>|
                resumed_origin_ok(g, origin, target, k as nat, p, ans) implies appears(
                result@,
                len0,
                ans,
            ) by {
                if lastn == target {
                    assert(ans == chopped(p));
                    assert(result@[prev.len() as int]@ == chopped(p));
                } else {
                    let tc = choose|tc: Seq<i64>|
                        ans == p + tc && #[trigger] conn(
                            g,
                            lastn,
                            target,
                            kk,
                            p.to_set().insert(origin),
                            tc,
                        );
                    assert(vis@.insert(lastn) == p.to_set().insert(origin));
                    assert(appears(result@, prev.len() as int, p + tc));
                }
            }
            assert forall|ee: int, ans: Seq<i64>|
                #![trigger resumed_origin_ok(g, origin, target, k as nat, entries[ee]@, ans)]
                0 <= ee < e + 1 && resumed_origin_ok(
                    g,
                    origin,
                    target,
                    k as nat,
                    entries[ee]@,
                    ans,
                ) implies appears(result@, len0, ans) by {
                if ee < e {
                    let jj = choose|jj: int|
                        len0 <= jj < prev.len() && (#[trigger] prev[jj])@ == ans;
                    assert(result@[jj] == prev[jj]);
                } else {
                    assert(entries[ee]@ == p);
                }
            }
            // With duplicate-free adjacency and a duplicate-free, uniform
            // frontier no answer repeats.
            if distinct_edges(g) && pairwise_distinct(entries, 0) && uniform_length(entries) {
                assert forall|j: int|
                    prev.len() <= j < result@.len() implies resumed_origin_ok(
                    g,
                    origin,
                    target,
                    k as nat,
                    p,
                    (#[trigger] result@[j])@,
                ) by {
                    if lastn == target {
                        assert(result@[j]@ == chopped(p));
                    } else {
                        assert(emitted_from(g, lastn, target, kk, vis@.insert(lastn), p,
                            result@[j]@));
                        let tc = choose|tc: Seq<i64>|
                            result@[j]@ == p + tc && #[trigger] conn(
                                g,
                                lastn,
                                target,
                                kk,
                                vis@.insert(lastn),
                                tc,
                            );
                        assert(vis@.insert(lastn) == p.to_set().insert(origin));
                    }
                }
                assert forall|j: int| len0 <= j < result@.len() implies resumed_before(
                    g,
                    origin,
                    target,
                    k as nat,
                    entries,
                    e as int + 1,
                    (#[trigger] result@[j])@,
                ) by {
                    if j < prev.len() {
                        assert(result@[j] == prev[j]);
                        let ee = choose|ee: int|
                            0 <= ee < e && resumed_origin_ok(
                                g,
                                origin,
                                target,
                                k as nat,
                                (#[trigger] entries[ee])@,
                                prev[j]@,
                            );
                    } else {
                        assert(resumed_origin_ok(g, origin, target, k as nat, entries[e as int]@,
                            result@[j]@));
                    }
                }
                assert forall|j1: int, j2: int|
                    #![trigger result@[j1], result@[j2]]
                    len0 <= j1 < j2 < result@.len() implies result@[j1]@ != result@[j2]@ by {
                    if j2 < prev.len() {
                        assert(result@[j1] == prev[j1] && result@[j2] == prev[j2]);
                    } else if j1 >= prev.len() {
                        if lastn == target {
                            assert(result@.len() == prev.len() + 1);
                            assert(false);
                        } else if k - n == 0 {
                            assert(false);
                        } else {
                            assert(pairwise_distinct(result@, prev.len() as int));
                        }
                    } else {
                        assert(result@[j1] == prev[j1]);
                        let ee = choose|ee: int|
                            0 <= ee < e && resumed_origin_ok(
                                g,
                                origin,
                                target,
                                k as nat,
                                (#[trigger] entries[ee])@,
                                prev[j1]@,
                            );
                        assert(entries[ee]@ != entries[e as int]@);
                        assert(entries[ee]@.len() == entries[e as int]@.len());
                        assert(resumed_origin_ok(g, origin, target, k as nat, entries[e as int]@,
                            result@[j2]@));
                        lemma_resumed_distinct(
                            g,
                            origin,
                            target,
                            k as nat,
                            entries[ee]@,
                            entries[e as int]@,
                            prev[j1]@,
                            result@[j2]@,
                        );
                    }
                }
            }
        }
        e = e + 1;
    }
    temp_result.clear();
}

} // verus!
