//! The parallel executors' verified machinery.
//!
//! The static-partition strategy is split into the pieces its worker threads
//! run: [`dfs_for_continue_share`] completes one worker's share of the
//! frontier, and [`dfs_parallel`] assembles splitter, shares and merge into
//! the whole pipeline, proved to produce exactly the same answer set as the
//! sequential kernel. The stealing strategies rest on [`dfs_donate`], the
//! kernel that hands live branches away on demand without losing work, with
//! [`dfs_send_path`] and [`dfs_lock`] as its request-queue and
//! request-counter front ends, and [`dfs_donation_rounds`] as the
//! donate-and-resume protocol run to completion. The thread and channel
//! plumbing itself carries no logic and lives outside the library.

use crate::dfs::{copy_path, dfs, dfs_for_temp};
use crate::graph::Graph;
use crate::paths::{
    appears, branch_ok, chopped, conn, covered_any, covers, distinct_edges, donated_from,
    emitted_from, fronted_from, frontier_ok, grows_from, has_edge, is_answer,
    lemma_branch_budget, lemma_branch_glue, lemma_branch_props, lemma_branch_target,
    lemma_conn_budget, lemma_conn_props, lemma_conn_split, lemma_conn_to_branch, lemma_glue,
    lemma_no_dup_last, lemma_resumed_distinct, lemma_take_step, lemma_to_set_split_last, nbrs_of,
    pairwise_distinct, resumed_before, resumed_origin_ok, resumed_share_any, tail_head,
    uniform_length,
};
use crate::GraphPath;
use std::collections::HashSet;
use vstd::prelude::*;

verus! {

/// Complete one worker's share of the frontier: the entries whose index is
/// `share` modulo `nshares`, each resumed with the sequential kernel from its
/// last node, with its own nodes and the search's start node `origin` banned
/// and the budget `k` less the hops the entry already took. The returned
/// local accumulator holds exactly the answers [`resumed_origin_ok`] admits
/// for the share's entries.
pub fn dfs_for_continue_share(
    temp_result: &Vec<GraphPath>,
    origin: i64,
    target: i64,
    k: u32,
    graph: &Graph,
    rev: bool,
    share: usize,
    nshares: usize,
) -> (out: Vec<GraphPath>)
    requires
        graph.wf(),
        nshares >= 1,
        share < nshares,
        forall|e: int|
            0 <= e < temp_result@.len() ==> 1 <= (#[trigger] temp_result@[e])@.len() <= k
                && temp_result@[e]@.no_duplicates() && !temp_result@[e]@.contains(origin),
    ensures
        forall|j: int|
            0 <= j < out@.len() ==> resumed_share_any(
                graph.dir_view(rev),
                origin,
                target,
                k as nat,
                temp_result@,
                share as int,
                nshares as int,
                (#[trigger] out@[j])@,
            ),
        forall|e: int, ans: Seq<i64>|
            #![trigger resumed_origin_ok(graph.dir_view(rev), origin, target, k as nat, temp_result@[e]@, ans)]
            0 <= e < temp_result@.len() && e % (nshares as int) == share as int
                && resumed_origin_ok(
                graph.dir_view(rev),
                origin,
                target,
                k as nat,
                temp_result@[e]@,
                ans,
            ) ==> appears(out@, 0, ans),
        distinct_edges(graph.dir_view(rev)) && pairwise_distinct(temp_result@, 0)
            && uniform_length(temp_result@) ==> pairwise_distinct(out@, 0),
{
    let ghost g = graph.dir_view(rev);
    let ghost entries = temp_result@;
    let mut out: Vec<GraphPath> = Vec::new();
    let mut e: usize = 0;
    while e < temp_result.len()
        invariant
            graph.wf(),
            g == graph.dir_view(rev),
            entries == temp_result@,
            nshares >= 1,
            share < nshares,
            forall|ee: int|
                0 <= ee < entries.len() ==> 1 <= (#[trigger] entries[ee])@.len() <= k
                    && entries[ee]@.no_duplicates() && !entries[ee]@.contains(origin),
            0 <= e <= entries.len(),
            forall|j: int|
                0 <= j < out@.len() ==> resumed_share_any(
                    g,
                    origin,
                    target,
                    k as nat,
                    entries,
                    share as int,
                    nshares as int,
                    (#[trigger] out@[j])@,
                ),
            forall|ee: int, ans: Seq<i64>|
                #![trigger resumed_origin_ok(g, origin, target, k as nat, entries[ee]@, ans)]
                0 <= ee < e && ee % (nshares as int) == share as int && resumed_origin_ok(
                    g,
                    origin,
                    target,
                    k as nat,
                    entries[ee]@,
                    ans,
                ) ==> appears(out@, 0, ans),
            distinct_edges(g) && pairwise_distinct(entries, 0) && uniform_length(entries)
                ==> pairwise_distinct(out@, 0),
            distinct_edges(g) && pairwise_distinct(entries, 0) && uniform_length(entries)
                ==> forall|j: int|
                0 <= j < out@.len() ==> resumed_before(
                    g,
                    origin,
                    target,
                    k as nat,
                    entries,
                    e as int,
                    (#[trigger] out@[j])@,
                ),
        decreases entries.len() - e,
    {
        let ghost prev = out@;
        if e % nshares == share {
            let mut pbuf = copy_path(&temp_result[e]);
            let ghost p = pbuf@;
            let n = pbuf.len();
            let lastn = pbuf[n - 1];
            let mut vis: HashSet<i64> = HashSet::new();
            vis.insert(origin);
            let ghost vis_base = Set::<i64>::empty().insert(origin);
            assert(vis@ =~= p.take(0).to_set().union(vis_base)) by {
                assert(p.take(0) =~= Seq::<i64>::empty());
                assert(p.take(0).to_set() =~= Set::<i64>::empty());
            }
            let mut i: usize = 0;
            while i < n - 1
                invariant
                    0 <= i <= n - 1,
                    n == pbuf@.len(),
                    p == pbuf@,
                    1 <= n,
                    vis_base == Set::<i64>::empty().insert(origin),
                    vis@ == pbuf@.take(i as int).to_set().union(vis_base),
                decreases n - 1 - i,
            {
                vis.insert(pbuf[i]);
                proof {
                    assert forall|x: i64|
                        vis@.contains(x) <==> pbuf@.take(i as int + 1).to_set().union(
                            vis_base,
                        ).contains(x) by {
                        lemma_take_step(pbuf@, i as int, x);
                    }
                    assert(vis@ =~= pbuf@.take(i as int + 1).to_set().union(vis_base));
                }
                i = i + 1;
            }
            proof {
                lemma_no_dup_last(p);
                assert(p[p.len() - 1] == p.last());
                assert(p.contains(p.last()));
                assert(p.last() != origin);
                assert(!vis@.contains(lastn));
                lemma_to_set_split_last(p);
                assert(vis@.insert(lastn) =~= p.to_set().insert(origin));
            }
            dfs(lastn, target, k - (n as u32), graph, &mut out, &mut pbuf, rev, &mut vis);
            proof {
                let kk = (k - n) as nat;
                assert forall|j: int| 0 <= j < out@.len() implies resumed_share_any(
                    g,
                    origin,
                    target,
                    k as nat,
                    entries,
                    share as int,
                    nshares as int,
                    (#[trigger] out@[j])@,
                ) by {
                    if j < prev.len() {
                        assert(out@[j] == prev[j]);
                    } else {
                        if lastn == target {
                            assert(out@[j]@ == chopped(p));
                        } else {
                            assert(emitted_from(
                                g,
                                lastn,
                                target,
                                kk,
                                vis@.insert(lastn),
                                p,
                                out@[j]@,
                            ));
                            let tc = choose|tc: Seq<i64>|
                                out@[j]@ == p + tc && #[trigger] conn(
                                    g,
                                    lastn,
                                    target,
                                    kk,
                                    vis@.insert(lastn),
                                    tc,
                                );
                            assert(vis@.insert(lastn) == p.to_set().insert(origin));
                        }
                        assert(resumed_origin_ok(g, origin, target, k as nat, p, out@[j]@));
                        assert(entries[e as int]@ == p);
                        assert(e as int % (nshares as int) == share as int);
                    }
                }
                assert forall|ans: Seq<i64>|
                    resumed_origin_ok(g, origin, target, k as nat, p, ans) implies appears(
                    out@,
                    0,
                    ans,
                ) by {
                    if lastn == target {
                        assert(out@[prev.len() as int]@ == chopped(p));
                    } else {
                        let tc = choose|tc: Seq<i64>|
                            ans == p + tc && #[trigger] conn(
                                g,
                                lastn,
                                target,
                                kk,
                                p.to_set().insert(origin),
                                tc,
                            );
                        assert(vis@.insert(lastn) == p.to_set().insert(origin));
                        assert(appears(out@, prev.len() as int, p + tc));
                    }
                }
                assert forall|ee: int, ans: Seq<i64>|
                    #![trigger resumed_origin_ok(g, origin, target, k as nat, entries[ee]@, ans)]
                    0 <= ee < e + 1 && ee % (nshares as int) == share as int && resumed_origin_ok(
                        g,
                        origin,
                        target,
                        k as nat,
                        entries[ee]@,
                        ans,
                    ) implies appears(out@, 0, ans) by {
                    if ee < e {
                        let jj = choose|jj: int|
                            0 <= jj < prev.len() && (#[trigger] prev[jj])@ == ans;
                        assert(out@[jj] == prev[jj]);
                    } else {
                        assert(entries[ee]@ == p);
                    }
                }
                // With duplicate-free adjacency and a duplicate-free, uniform
                // frontier no answer repeats.
                if distinct_edges(g) && pairwise_distinct(entries, 0) && uniform_length(entries) {
                    assert forall|j: int|
                        prev.len() <= j < out@.len() implies resumed_origin_ok(
                        g,
                        origin,
                        target,
                        k as nat,
                        p,
                        (#[trigger] out@[j])@,
                    ) by {
                        if lastn == target {
                            assert(out@[j]@ == chopped(p));
                        } else {
                            assert(emitted_from(g, lastn, target, kk, vis@.insert(lastn), p,
                                out@[j]@));
                            let tc = choose|tc: Seq<i64>|
                                out@[j]@ == p + tc && #[trigger] conn(
                                    g,
                                    lastn,
                                    target,
                                    kk,
                                    vis@.insert(lastn),
                                    tc,
                                );
                            assert(vis@.insert(lastn) == p.to_set().insert(origin));
                        }
                    }
                    assert forall|j: int| 0 <= j < out@.len() implies resumed_before(
                        g,
                        origin,
                        target,
                        k as nat,
                        entries,
                        e as int + 1,
                        (#[trigger] out@[j])@,
                    ) by {
                        if j < prev.len() {
                            assert(out@[j] == prev[j]);
                            let ee = choose|ee: int|
                                0 <= ee < e && resumed_origin_ok(
                                    g,
                                    origin,
                                    target,
                                    k as nat,
                                    (#[trigger] entries[ee])@,
                                    prev[j]@,
                                );
                        } else {
                            assert(resumed_origin_ok(g, origin, target, k as nat,
                                entries[e as int]@, out@[j]@));
                        }
                    }
                    assert forall|j1: int, j2: int|
                        #![trigger out@[j1], out@[j2]]
                        0 <= j1 < j2 < out@.len() implies out@[j1]@ != out@[j2]@ by {
                        if j2 < prev.len() {
                            assert(out@[j1] == prev[j1] && out@[j2] == prev[j2]);
                        } else if j1 >= prev.len() {
                            if lastn == target {
                                assert(out@.len() == prev.len() + 1);
                                assert(false);
                            } else if k - n == 0 {
                                assert(false);
                            } else {
                                assert(pairwise_distinct(out@, prev.len() as int));
                            }
                        } else {
                            assert(out@[j1] == prev[j1]);
                            let ee = choose|ee: int|
                                0 <= ee < e && resumed_origin_ok(
                                    g,
                                    origin,
                                    target,
                                    k as nat,
                                    (#[trigger] entries[ee])@,
                                    prev[j1]@,
                                );
                            assert(entries[ee]@ != entries[e as int]@);
                            assert(entries[ee]@.len() == entries[e as int]@.len());
                            assert(resumed_origin_ok(g, origin, target, k as nat,
                                entries[e as int]@, out@[j2]@));
                            lemma_resumed_distinct(
                                g,
                                origin,
                                target,
                                k as nat,
                                entries[ee]@,
                                entries[e as int]@,
                                prev[j1]@,
                                out@[j2]@,
                            );
                        }
                    }
                }
            }
        }
        e = e + 1;
    }
    out
}

/// The donate-on-demand search kernel shared by the work-stealing executors.
///
/// It searches as [`dfs`] does, but before recursing into a neighbour it
/// looks at `demand`, the number of outstanding please-donate requests; when
/// one is pending it hands the live branch — the working path including that
/// neighbour — to `donated` and abandons the branch instead of exploring it,
/// consuming one request. Nothing is lost: every continuation [`conn`]
/// admits either reaches `result`, or some donated branch covers it
/// ([`covers`]), so resuming the donations rediscovers it. With no demand
/// this is exactly the sequential kernel.
pub fn dfs_donate(
    demand: &mut usize,
    donated: &mut Vec<GraphPath>,
    now: i64,
    target: i64,
    k: u32,
    graph: &Graph,
    result: &mut Vec<GraphPath>,
    path: &mut GraphPath,
    rev: bool,
    visit: &mut HashSet<i64>,
)
    requires
        graph.wf(),
        old(path)@.len() > 0 ==> old(path)@.last() == now,
        !old(visit)@.contains(now),
    ensures
        final(visit)@ == old(visit)@,
        final(path)@ == old(path)@,
        grows_from(old(result)@, final(result)@),
        grows_from(old(donated)@, final(donated)@),
        *final(demand) <= *old(demand),
        final(donated)@.len() == old(donated)@.len() + (*old(demand) - *final(demand)),
        now == target ==> final(result)@.len() == old(result)@.len() + 1
            && final(result)@.last()@ == chopped(old(path)@) && final(donated)@ == old(donated)@,
        now != target && k == 0 ==> final(result)@ == old(result)@ && final(donated)@ == old(donated)@,
        now != target && k > 0 ==> forall|j: int|
            old(result)@.len() <= j < final(result)@.len() ==> emitted_from(
                graph.dir_view(rev),
                now,
                target,
                k as nat,
                old(visit)@.insert(now),
                old(path)@,
                (#[trigger] final(result)@[j])@,
            ),
        now != target && k > 0 ==> forall|j: int|
            old(donated)@.len() <= j < final(donated)@.len() ==> donated_from(
                graph.dir_view(rev),
                now,
                target,
                k as nat,
                old(visit)@.insert(now),
                old(path)@,
                (#[trigger] final(donated)@[j])@,
            ),
        now != target && k > 0 ==> forall|tail: Seq<i64>|
            #![trigger conn(graph.dir_view(rev), now, target, k as nat, old(visit)@.insert(now), tail)]
            conn(graph.dir_view(rev), now, target, k as nat, old(visit)@.insert(now), tail)
                ==> appears(final(result)@, old(result)@.len() as int, old(path)@ + tail)
                || covered_any(
                final(donated)@,
                old(donated)@.len() as int,
                old(path)@,
                tail,
                target,
            ),
    decreases k,
{
    let ghost g = graph.dir_view(rev);
    let ghost p0 = old(path)@;
    let ghost len0 = old(result)@.len() as int;
    let ghost dlen0 = old(donated)@.len() as int;
    let ghost dem0 = *old(demand);
    if now == target {
        let mut ans = copy_path(path);
        if ans.len() > 0 {
            ans.pop();
        }
        result.push(ans);
        return ;
    }
    if k == 0 {
        return ;
    }
    visit.insert(now);
    let ghost banned = old(visit)@.insert(now);
    let nexts = if rev {
        graph.in_v(now)
    } else {
        graph.out_v(now)
    };
    if let Some(nodes) = nexts {
        assert(nodes@ == nbrs_of(g, now));
        let mut i: usize = 0;
        while i < nodes.len()
            invariant
                graph.wf(),
                g == graph.dir_view(rev),
                nodes@ == nbrs_of(g, now),
                banned == old(visit)@.insert(now),
                !old(visit)@.contains(now),
                p0 == old(path)@,
                len0 == old(result)@.len() as int,
                dlen0 == old(donated)@.len() as int,
                dem0 == *old(demand),
                now != target,
                k > 0,
                0 <= i <= nodes@.len(),
                visit@ == banned,
                path@ == p0,
                grows_from(old(result)@, result@),
                grows_from(old(donated)@, donated@),
                *demand <= dem0,
                donated@.len() == dlen0 + (dem0 - *demand),
                forall|j: int|
                    len0 <= j < result@.len() ==> emitted_from(
                        g,
                        now,
                        target,
                        k as nat,
                        banned,
                        p0,
                        (#[trigger] result@[j])@,
                    ),
                forall|j: int|
                    dlen0 <= j < donated@.len() ==> donated_from(
                        g,
                        now,
                        target,
                        k as nat,
                        banned,
                        p0,
                        (#[trigger] donated@[j])@,
                    ),
                forall|tail: Seq<i64>|
                    #![trigger conn(g, now, target, k as nat, banned, tail)]
                    conn(g, now, target, k as nat, banned, tail) && nodes@.take(i as int).contains(
                        tail_head(tail, target),
                    ) ==> appears(result@, len0, p0 + tail) || covered_any(
                        donated@,
                        dlen0,
                        p0,
                        tail,
                        target,
                    ),
            decreases nodes@.len() - i,
        {
            let ghost prev = result@;
            let ghost dprev = donated@;
            let v = nodes[i];
            assert(nbrs_of(g, now).contains(v));
            if !visit.contains(&v) {
                path.push(v);
                if *demand > 0 {
                    *demand = *demand - 1;
                    let d = copy_path(path);
                    donated.push(d);
                    path.pop();
                    proof {
                        assert(path@ =~= p0);
                        let dn = donated@.last()@;
                        assert(dn == p0.push(v));
                        assert(branch_ok(g, now, target, k as nat, banned, seq![v]));
                        assert(p0 + seq![v] =~= p0.push(v));
                        assert(donated_from(g, now, target, k as nat, banned, p0, dn));
                        assert forall|j: int| dlen0 <= j < donated@.len() implies donated_from(
                            g,
                            now,
                            target,
                            k as nat,
                            banned,
                            p0,
                            (#[trigger] donated@[j])@,
                        ) by {
                            if j < dprev.len() {
                                assert(donated@[j] == dprev[j]);
                            } else {
                                assert(donated@[j]@ == dn);
                            }
                        }
                        assert forall|tail: Seq<i64>|
                            #![trigger conn(g, now, target, k as nat, banned, tail)]
                            conn(g, now, target, k as nat, banned, tail) && nodes@.take(
                                i as int + 1,
                            ).contains(tail_head(tail, target)) implies appears(
                            result@,
                            len0,
                            p0 + tail,
                        ) || covered_any(donated@, dlen0, p0, tail, target) by {
                            let hd = tail_head(tail, target);
                            lemma_take_step(nodes@, i as int, hd);
                            if nodes@.take(i as int).contains(hd) {
                                if appears(result@, len0, p0 + tail) {
                                } else {
                                    let jj = choose|jj: int|
                                        dlen0 <= jj < dprev.len() && covers(
                                            (#[trigger] dprev[jj])@,
                                            p0,
                                            tail,
                                            target,
                                        );
                                    assert(donated@[jj] == dprev[jj]);
                                    assert(covered_any(donated@, dlen0, p0, tail, target));
                                }
                            } else {
                                assert(hd == v);
                                assert(tail.push(target).take(1) =~= seq![hd]);
                                assert(p0 + tail.push(target).take(1) =~= p0.push(v));
                                assert(1 <= 1 <= tail.len() + 1 && dn == p0 + tail.push(
                                    target,
                                ).take(1));
                                assert(covers(dn, p0, tail, target));
                                assert(covered_any(donated@, dlen0, p0, tail, target));
                            }
                        }
                    }
                } else {
                    dfs_donate(
                        demand,
                        donated,
                        v,
                        target,
                        k - 1,
                        graph,
                        result,
                        path,
                        rev,
                        visit,
                    );
                    path.pop();
                    proof {
                        assert(path@ =~= p0);
                        assert(grows_from(old(result)@, result@));
                        assert(grows_from(old(donated)@, donated@));
                        // Lift the recursive call's results one level up.
                        if v == target {
                            let pushed = result@.last()@;
                            assert(pushed == chopped(p0.push(v)));
                            assert(p0.push(v).drop_last() =~= p0);
                            assert(conn(g, now, target, k as nat, banned, Seq::<i64>::empty()));
                            assert(p0 + Seq::<i64>::empty() =~= p0);
                            assert(emitted_from(g, now, target, k as nat, banned, p0, pushed));
                            assert forall|j: int| len0 <= j < result@.len() implies emitted_from(
                                g,
                                now,
                                target,
                                k as nat,
                                banned,
                                p0,
                                (#[trigger] result@[j])@,
                            ) by {
                                if j < prev.len() {
                                    assert(result@[j] == prev[j]);
                                } else {
                                    assert(result@[j]@ == pushed);
                                }
                            }
                        } else if k - 1 == 0 {
                            assert(result@ == prev);
                            assert(donated@ == dprev);
                        } else {
                            assert forall|j: int| len0 <= j < result@.len() implies emitted_from(
                                g,
                                now,
                                target,
                                k as nat,
                                banned,
                                p0,
                                (#[trigger] result@[j])@,
                            ) by {
                                if j < prev.len() {
                                    assert(result@[j] == prev[j]);
                                } else {
                                    assert(emitted_from(
                                        g,
                                        v,
                                        target,
                                        (k - 1) as nat,
                                        banned.insert(v),
                                        p0.push(v),
                                        result@[j]@,
                                    ));
                                    let tc = choose|tc: Seq<i64>|
                                        result@[j]@ == p0.push(v) + tc && #[trigger] conn(
                                            g,
                                            v,
                                            target,
                                            (k - 1) as nat,
                                            banned.insert(v),
                                            tc,
                                        );
                                    let tail = seq![v] + tc;
                                    assert(tail[0] == v);
                                    assert(tail.drop_first() =~= tc);
                                    assert(p0 + tail =~= p0.push(v) + tc);
                                    assert(conn(g, now, target, k as nat, banned, tail));
                                }
                            }
                            assert forall|j: int|
                                dlen0 <= j < donated@.len() implies donated_from(
                                g,
                                now,
                                target,
                                k as nat,
                                banned,
                                p0,
                                (#[trigger] donated@[j])@,
                            ) by {
                                if j < dprev.len() {
                                    assert(donated@[j] == dprev[j]);
                                } else {
                                    assert(donated_from(
                                        g,
                                        v,
                                        target,
                                        (k - 1) as nat,
                                        banned.insert(v),
                                        p0.push(v),
                                        donated@[j]@,
                                    ));
                                    let uc = choose|uc: Seq<i64>|
                                        donated@[j]@ == p0.push(v) + uc && #[trigger] branch_ok(
                                            g,
                                            v,
                                            target,
                                            (k - 1) as nat,
                                            banned.insert(v),
                                            uc,
                                        );
                                    lemma_branch_props(
                                        g,
                                        v,
                                        target,
                                        (k - 1) as nat,
                                        banned.insert(v),
                                        uc,
                                    );
                                    let u = seq![v] + uc;
                                    assert(u[0] == v);
                                    assert(u.drop_first() =~= uc);
                                    assert(p0 + u =~= p0.push(v) + uc);
                                    assert(branch_ok(g, now, target, k as nat, banned, u));
                                }
                            }
                        }
                        // Continuations stepping onto v are found or covered.
                        assert forall|tail: Seq<i64>|
                            #![trigger conn(g, now, target, k as nat, banned, tail)]
                            conn(g, now, target, k as nat, banned, tail) && nodes@.take(
                                i as int + 1,
                            ).contains(tail_head(tail, target)) implies appears(
                            result@,
                            len0,
                            p0 + tail,
                        ) || covered_any(donated@, dlen0, p0, tail, target) by {
                            let hd = tail_head(tail, target);
                            lemma_take_step(nodes@, i as int, hd);
                            if nodes@.take(i as int).contains(hd) {
                                if appears(result@, len0, p0 + tail) {
                                } else if covered_any(dprev, dlen0, p0, tail, target) {
                                    let jj = choose|jj: int|
                                        dlen0 <= jj < dprev.len() && covers(
                                            (#[trigger] dprev[jj])@,
                                            p0,
                                            tail,
                                            target,
                                        );
                                    assert(donated@[jj] == dprev[jj]);
                                } else {
                                    let jj = choose|jj: int|
                                        len0 <= jj < prev.len() && (#[trigger] prev[jj])@ == p0
                                            + tail;
                                    assert(result@[jj] == prev[jj]);
                                }
                            } else {
                                assert(hd == v);
                                if tail.len() == 0 {
                                    assert(v == target);
                                    assert(p0 + tail =~= p0);
                                    assert(appears(result@, len0, p0 + tail));
                                } else {
                                    assert(tail[0] == v && v != target);
                                    let tc = tail.drop_first();
                                    assert(conn(
                                        g,
                                        v,
                                        target,
                                        (k - 1) as nat,
                                        banned.insert(v),
                                        tc,
                                    ));
                                    if appears(result@, prev.len() as int, p0.push(v) + tc) {
                                        assert(p0.push(v) + tc =~= p0 + tail);
                                        assert(appears(result@, len0, p0 + tail));
                                    } else {
                                        assert(covered_any(
                                            donated@,
                                            dprev.len() as int,
                                            p0.push(v),
                                            tc,
                                            target,
                                        ));
                                        let jj = choose|jj: int|
                                            dprev.len() <= jj < donated@.len() && covers(
                                                (#[trigger] donated@[jj])@,
                                                p0.push(v),
                                                tc,
                                                target,
                                            );
                                        let m = choose|m: int|
                                            1 <= m <= tc.len() + 1 && donated@[jj]@ == p0.push(v)
                                                + #[trigger] tc.push(target).take(m);
                                        assert(tail.push(target).take(m + 1) =~= seq![v] + tc.push(
                                            target,
                                        ).take(m)) by {
                                            assert(tail.push(target) =~= seq![v] + tc.push(target));
                                        }
                                        assert(p0 + tail.push(target).take(m + 1) =~= p0.push(v)
                                            + tc.push(target).take(m));
                                        assert(1 <= m + 1 <= tail.len() + 1);
                                        assert(covers(donated@[jj]@, p0, tail, target));
                                        assert(covered_any(donated@, dlen0, p0, tail, target));
                                    }
                                }
                            }
                        }
                    }
                }
            } else {
                proof {
                    assert(banned.contains(v));
                    assert forall|tail: Seq<i64>|
                        #![trigger conn(g, now, target, k as nat, banned, tail)]
                        conn(g, now, target, k as nat, banned, tail) && nodes@.take(
                            i as int + 1,
                        ).contains(tail_head(tail, target)) implies appears(
                        result@,
                        len0,
                        p0 + tail,
                    ) || covered_any(donated@, dlen0, p0, tail, target) by {
                        let hd = tail_head(tail, target);
                        lemma_take_step(nodes@, i as int, hd);
                        if !nodes@.take(i as int).contains(hd) {
                            assert(hd == v);
                            assert(!banned.contains(hd));
                            assert(false);
                        }
                    }
                }
            }
            i = i + 1;
        }
        proof {
            assert(nodes@.take(nodes@.len() as int) =~= nodes@);
            assert forall|tail: Seq<i64>|
                #![trigger conn(g, now, target, k as nat, banned, tail)]
                conn(g, now, target, k as nat, banned, tail) implies appears(
                result@,
                len0,
                p0 + tail,
            ) || covered_any(donated@, dlen0, p0, tail, target) by {
                assert(nbrs_of(g, now).contains(tail_head(tail, target)));
            }
        }
    } else {
        proof {
            assert forall|tail: Seq<i64>|
                #![trigger conn(g, now, target, k as nat, banned, tail)]
                conn(g, now, target, k as nat, banned, tail) implies appears(
                result@,
                len0,
                p0 + tail,
            ) || covered_any(donated@, dlen0, p0, tail, target) by {
                assert(has_edge(g, now, tail_head(tail, target)));
                assert(nbrs_of(g, now) == Seq::<i64>::empty());
            }
        }
    }
    visit.remove(&now);
    proof {
        assert(visit@ =~= old(visit)@);
    }
}

/// The ring executor's kernel: [`dfs_donate`] driven by a queue of steal
/// requests, each carrying the identity of the idle worker that sent it.
///
/// Requests are consumed from the front, one per donated branch; each donated
/// branch is paired with the request it answers, so the caller can send it
/// down the requester's own channel. Unanswered requests stay queued.
pub fn dfs_send_path(
    requests: &mut Vec<i64>,
    donations: &mut Vec<(i64, GraphPath)>,
    now: i64,
    target: i64,
    k: u32,
    graph: &Graph,
    result: &mut Vec<GraphPath>,
    path: &mut GraphPath,
    rev: bool,
    visit: &mut HashSet<i64>,
)
    requires
        graph.wf(),
        old(path)@.len() > 0 ==> old(path)@.last() == now,
        !old(visit)@.contains(now),
    ensures
        final(visit)@ == old(visit)@,
        final(path)@ == old(path)@,
        grows_from(old(result)@, final(result)@),
        final(donations)@.len() >= old(donations)@.len(),
        forall|j: int|
            0 <= j < old(donations)@.len() ==> (#[trigger] final(donations)@[j]) == old(donations)@[j],
        final(donations)@.len() - old(donations)@.len() <= old(requests)@.len(),
        final(requests)@ == old(requests)@.skip(
            final(donations)@.len() - old(donations)@.len(),
        ),
        forall|i: int|
            0 <= i < final(donations)@.len() - old(donations)@.len() ==> (#[trigger] final(donations)@[old(donations)@.len() + i]).0 == old(requests)@[i],
        now == target ==> final(result)@.len() == old(result)@.len() + 1
            && final(result)@.last()@ == chopped(old(path)@) && final(donations)@ == old(donations)@,
        now != target && k == 0 ==> final(result)@ == old(result)@ && final(donations)@ == old(donations)@,
        now != target && k > 0 ==> forall|j: int|
            old(result)@.len() <= j < final(result)@.len() ==> emitted_from(
                graph.dir_view(rev),
                now,
                target,
                k as nat,
                old(visit)@.insert(now),
                old(path)@,
                (#[trigger] final(result)@[j])@,
            ),
        now != target && k > 0 ==> forall|j: int|
            old(donations)@.len() <= j < final(donations)@.len() ==> donated_from(
                graph.dir_view(rev),
                now,
                target,
                k as nat,
                old(visit)@.insert(now),
                old(path)@,
                (#[trigger] final(donations)@[j]).1@,
            ),
        now != target && k > 0 ==> forall|tail: Seq<i64>|
            #![trigger conn(graph.dir_view(rev), now, target, k as nat, old(visit)@.insert(now), tail)]
            conn(graph.dir_view(rev), now, target, k as nat, old(visit)@.insert(now), tail)
                ==> appears(final(result)@, old(result)@.len() as int, old(path)@ + tail) || (
            exists|j: int|
                old(donations)@.len() <= j < final(donations)@.len() && covers(
                    (#[trigger] final(donations)@[j]).1@,
                    old(path)@,
                    tail,
                    target,
                )),
{
    let ghost g = graph.dir_view(rev);
    let ghost p0 = old(path)@;
    let ghost banned = old(visit)@.insert(now);
    let ghost dons0 = old(donations)@;
    let ghost reqs0 = old(requests)@;
    let mut dem: usize = requests.len();
    let ghost dem0 = dem as int;
    let mut local: Vec<GraphPath> = Vec::new();
    dfs_donate(&mut dem, &mut local, now, target, k, graph, result, path, rev, visit);
    let used = requests.len() - dem;
    assert(local@.len() == used);
    let mut i: usize = 0;
    while i < used
        invariant
            used == local@.len(),
            used <= requests@.len(),
            reqs0 == requests@,
            dons0 == old(donations)@,
            0 <= i <= used,
            donations@.len() == dons0.len() + i,
            forall|j: int| 0 <= j < dons0.len() ==> (#[trigger] donations@[j]) == dons0[j],
            forall|ii: int|
                0 <= ii < i ==> (#[trigger] donations@[dons0.len() + ii]).0 == reqs0[ii]
                    && donations@[dons0.len() + ii].1@ == local@[ii]@,
        decreases used - i,
    {
        let who = requests[i];
        let branch = copy_path(&local[i]);
        donations.push((who, branch));
        i = i + 1;
    }
    let mut rest: Vec<i64> = Vec::new();
    let mut j: usize = used;
    while j < requests.len()
        invariant
            reqs0 == requests@,
            used <= j <= requests@.len(),
            rest@ == requests@.subrange(used as int, j as int),
        decreases requests@.len() - j,
    {
        rest.push(requests[j]);
        proof {
            assert(rest@ =~= requests@.subrange(used as int, j as int + 1));
        }
        j = j + 1;
    }
    *requests = rest;
    proof {
        assert(requests@ =~= reqs0.skip(used as int));
        if now == target || k == 0 {
            assert(local@.len() == 0);
            assert(donations@ =~= dons0);
        }
        if now != target && k > 0 {
            assert forall|jj: int|
                dons0.len() <= jj < donations@.len() implies donated_from(
                g,
                now,
                target,
                k as nat,
                banned,
                p0,
                (#[trigger] donations@[jj]).1@,
            ) by {
                let ii = jj - dons0.len();
                assert(donations@[dons0.len() + ii].1@ == local@[ii]@);
                assert(donated_from(g, now, target, k as nat, banned, p0, local@[ii]@));
            }
            assert forall|tail: Seq<i64>|
                #![trigger conn(g, now, target, k as nat, banned, tail)]
                conn(g, now, target, k as nat, banned, tail) implies appears(
                result@,
                old(result)@.len() as int,
                p0 + tail,
            ) || (exists|jj: int|
                dons0.len() <= jj < donations@.len() && covers(
                    (#[trigger] donations@[jj]).1@,
                    p0,
                    tail,
                    target,
                )) by {
                if !appears(result@, old(result)@.len() as int, p0 + tail) {
                    assert(covered_any(local@, 0, p0, tail, target));
                    let ll = choose|ll: int|
                        0 <= ll < local@.len() && covers((#[trigger] local@[ll])@, p0, tail, target);
                    assert((donations@[dons0.len() + ll]).1@ == local@[ll]@);
                    assert(covers((donations@[dons0.len() + ll]).1@, p0, tail, target));
                }
            }
        }
    }
}

/// The mutex executor's kernel: [`dfs_donate`] driven by a shared request
/// counter. A positive counter records outstanding please-donate requests;
/// one is consumed per branch pushed onto the shared stack `take_path`, and
/// the counter is decremented accordingly. A counter at or below zero means
/// no demand, and the search runs exactly as the sequential kernel.
pub fn dfs_lock(
    cnt: &mut i64,
    take_path: &mut Vec<GraphPath>,
    now: i64,
    target: i64,
    k: u32,
    graph: &Graph,
    result: &mut Vec<GraphPath>,
    path: &mut GraphPath,
    rev: bool,
    visit: &mut HashSet<i64>,
)
    requires
        graph.wf(),
        old(path)@.len() > 0 ==> old(path)@.last() == now,
        !old(visit)@.contains(now),
    ensures
        final(visit)@ == old(visit)@,
        final(path)@ == old(path)@,
        grows_from(old(result)@, final(result)@),
        grows_from(old(take_path)@, final(take_path)@),
        *final(cnt) == *old(cnt) - (final(take_path)@.len() - old(take_path)@.len()),
        *old(cnt) <= 0 ==> final(take_path)@ == old(take_path)@,
        now == target ==> final(result)@.len() == old(result)@.len() + 1
            && final(result)@.last()@ == chopped(old(path)@) && final(take_path)@ == old(take_path)@,
        now != target && k == 0 ==> final(result)@ == old(result)@ && final(take_path)@ == old(take_path)@,
        now != target && k > 0 ==> forall|j: int|
            old(result)@.len() <= j < final(result)@.len() ==> emitted_from(
                graph.dir_view(rev),
                now,
                target,
                k as nat,
                old(visit)@.insert(now),
                old(path)@,
                (#[trigger] final(result)@[j])@,
            ),
        now != target && k > 0 ==> forall|j: int|
            old(take_path)@.len() <= j < final(take_path)@.len() ==> donated_from(
                graph.dir_view(rev),
                now,
                target,
                k as nat,
                old(visit)@.insert(now),
                old(path)@,
                (#[trigger] final(take_path)@[j])@,
            ),
        now != target && k > 0 ==> forall|tail: Seq<i64>|
            #![trigger conn(graph.dir_view(rev), now, target, k as nat, old(visit)@.insert(now), tail)]
            conn(graph.dir_view(rev), now, target, k as nat, old(visit)@.insert(now), tail)
                ==> appears(final(result)@, old(result)@.len() as int, old(path)@ + tail)
                || covered_any(
                final(take_path)@,
                old(take_path)@.len() as int,
                old(path)@,
                tail,
                target,
            ),
{
    let dem0: usize = if *cnt > 0 {
        *cnt as usize
    } else {
        0
    };
    let mut dem = dem0;
    dfs_donate(&mut dem, take_path, now, target, k, graph, result, path, rev, visit);
    let used = dem0 - dem;
    *cnt = *cnt - (used as i64);
}

/// Run a donate-on-demand search to completion: the donate-and-resume
/// protocol of the stealing executors as one verified scheduler, with the
/// explicit all-work-done detection the shared-memory variant needs to
/// terminate.
///
/// `demand` plays the request side: as long as it is positive the searching
/// kernel keeps handing live branches to the shared queue; each queued branch
/// is later resumed (with its own nodes and the start node banned) by the
/// same donating kernel. The queue empties — every donation is processed
/// exactly once and each one can only spend remaining demand — and `result`
/// ends up with exactly the answer set [`is_answer`] admits: no donated or
/// queued work is lost, whatever the demand.
pub fn dfs_donation_rounds(
    start: i64,
    target: i64,
    k: u32,
    graph: &Graph,
    result: &mut Vec<GraphPath>,
    rev: bool,
    demand: usize,
)
    requires
        graph.wf(),
    ensures
        grows_from(old(result)@, final(result)@),
        forall|j: int|
            old(result)@.len() <= j < final(result)@.len() ==> is_answer(
                graph.dir_view(rev),
                start,
                target,
                k as nat,
                (#[trigger] final(result)@[j])@,
            ),
        forall|ans: Seq<i64>|
            #![trigger is_answer(graph.dir_view(rev), start, target, k as nat, ans)]
            is_answer(graph.dir_view(rev), start, target, k as nat, ans) ==> appears(
                final(result)@,
                old(result)@.len() as int,
                ans,
            ),
{
    let ghost g = graph.dir_view(rev);
    let ghost kk = k as nat;
    let ghost len0 = old(result)@.len() as int;
    let ghost banned0 = Set::<i64>::empty().insert(start);
    let ghost mt = Seq::<i64>::empty();
    let mut path: GraphPath = Vec::new();
    let mut visit: HashSet<i64> = HashSet::new();
    let mut dem = demand;
    let mut donated: Vec<GraphPath> = Vec::new();
    dfs_donate(&mut dem, &mut donated, start, target, k, graph, result, &mut path, rev, &mut visit);
    proof {
        assert(visit@.insert(start) == banned0);
        if start == target {
            assert(chopped(mt) == mt);
        }
    }
    let mut qi: usize = 0;
    while qi < donated.len()
        invariant
            graph.wf(),
            g == graph.dir_view(rev),
            kk == k as nat,
            banned0 == Set::<i64>::empty().insert(start),
            mt == Seq::<i64>::empty(),
            len0 == old(result)@.len() as int,
            grows_from(old(result)@, result@),
            0 <= qi <= donated@.len(),
            start == target ==> donated@.len() == 0 && result@.len() == len0 + 1 && result@[len0]@
                =~= mt,
            forall|j: int|
                0 <= j < donated@.len() ==> donated_from(
                    g,
                    start,
                    target,
                    kk,
                    banned0,
                    mt,
                    (#[trigger] donated@[j])@,
                ),
            start != target ==> forall|j: int|
                len0 <= j < result@.len() ==> emitted_from(
                    g,
                    start,
                    target,
                    kk,
                    banned0,
                    mt,
                    (#[trigger] result@[j])@,
                ),
            start != target ==> forall|tail: Seq<i64>|
                #![trigger conn(g, start, target, kk, banned0, tail)]
                conn(g, start, target, kk, banned0, tail) ==> appears(result@, len0, mt + tail)
                    || covered_any(donated@, qi as int, mt, tail, target),
        decreases dem + donated@.len() - qi,
    {
        let ghost dem_before = dem as int;
        let ghost dprev = donated@;
        let ghost rprev = result@;
        let mut pbuf = copy_path(&donated[qi]);
        qi = qi + 1;
        let ghost p = pbuf@;
        proof {
            // The queued entry is a live branch from the start node.
            assert(donated_from(g, start, target, kk, banned0, mt, p));
            let u = choose|u: Seq<i64>|
                p == mt + u && #[trigger] branch_ok(g, start, target, kk, banned0, u);
            assert(mt + u =~= u);
            assert(p == u);
            lemma_branch_props(g, start, target, kk, banned0, u);
            if p.contains(start) {
                assert(banned0.contains(start));
                assert(false);
            }
        }
        let n = pbuf.len();
        let lastn = pbuf[n - 1];
        let mut vis: HashSet<i64> = HashSet::new();
        vis.insert(start);
        let ghost vis_base = Set::<i64>::empty().insert(start);
        assert(vis@ =~= p.take(0).to_set().union(vis_base)) by {
            assert(p.take(0) =~= Seq::<i64>::empty());
            assert(p.take(0).to_set() =~= Set::<i64>::empty());
        }
        let mut i: usize = 0;
        while i < n - 1
            invariant
                0 <= i <= n - 1,
                n == pbuf@.len(),
                p == pbuf@,
                1 <= n,
                vis_base == Set::<i64>::empty().insert(start),
                vis@ == pbuf@.take(i as int).to_set().union(vis_base),
            decreases n - 1 - i,
        {
            vis.insert(pbuf[i]);
            proof {
                assert forall|x: i64|
                    vis@.contains(x) <==> pbuf@.take(i as int + 1).to_set().union(
                        vis_base,
                    ).contains(x) by {
                    lemma_take_step(pbuf@, i as int, x);
                }
                assert(vis@ =~= pbuf@.take(i as int + 1).to_set().union(vis_base));
            }
            i = i + 1;
        }
        proof {
            lemma_no_dup_last(p);
            assert(p[p.len() - 1] == p.last());
            assert(p.contains(p.last()));
            assert(p.last() != start);
            assert(!vis@.contains(lastn));
            lemma_to_set_split_last(p);
            assert(vis@.insert(lastn) =~= p.to_set().insert(start));
        }
        dfs_donate(
            &mut dem,
            &mut donated,
            lastn,
            target,
            k - (n as u32),
            graph,
            result,
            &mut pbuf,
            rev,
            &mut vis,
        );
        proof {
            let kr = (k - n) as nat;
            let bp = p.to_set().insert(start);
            assert(banned0.union(p.to_set()) =~= bp);
            // New donations are still live branches from the start node.
            assert forall|j: int| 0 <= j < donated@.len() implies donated_from(
                g,
                start,
                target,
                kk,
                banned0,
                mt,
                (#[trigger] donated@[j])@,
            ) by {
                if j < dprev.len() {
                    assert(donated@[j] == dprev[j]);
                } else {
                    assert(lastn != target && k - n > 0);
                    assert(donated_from(g, lastn, target, kr, vis@.insert(lastn), p, donated@[j]@));
                    let u2 = choose|u2: Seq<i64>|
                        donated@[j]@ == p + u2 && #[trigger] branch_ok(
                            g,
                            lastn,
                            target,
                            kr,
                            vis@.insert(lastn),
                            u2,
                        );
                    lemma_branch_glue(g, start, target, kk, banned0, p, kr, u2);
                    assert(p.len() + kr == kk);
                    assert(mt + (p + u2) =~= p + u2);
                    assert(branch_ok(g, start, target, kk, banned0, p + u2));
                }
            }
            // New results are answers of the whole search.
            assert forall|j: int| len0 <= j < result@.len() implies emitted_from(
                g,
                start,
                target,
                kk,
                banned0,
                mt,
                (#[trigger] result@[j])@,
            ) by {
                if j < rprev.len() {
                    assert(result@[j] == rprev[j]);
                } else {
                    if lastn == target {
                        assert(result@[j]@ == chopped(p));
                        assert(chopped(p) == p.drop_last());
                        lemma_branch_target(g, start, target, kk, kk, banned0, p);
                        assert(mt + p.drop_last() =~= p.drop_last());
                        assert(conn(g, start, target, kk, banned0, p.drop_last()));
                    } else {
                        assert(k - n > 0);
                        assert(emitted_from(g, lastn, target, kr, vis@.insert(lastn), p,
                            result@[j]@));
                        let tc = choose|tc: Seq<i64>|
                            result@[j]@ == p + tc && #[trigger] conn(
                                g,
                                lastn,
                                target,
                                kr,
                                vis@.insert(lastn),
                                tc,
                            );
                        lemma_glue(g, start, target, kk, banned0, p, kr, tc);
                        assert(p.len() + kr == kk);
                        assert(mt + (p + tc) =~= p + tc);
                        assert(conn(g, start, target, kk, banned0, p + tc));
                    }
                }
            }
            // Conservation: pending coverage is preserved or discharged.
            assert forall|tail: Seq<i64>|
                #![trigger conn(g, start, target, kk, banned0, tail)]
                conn(g, start, target, kk, banned0, tail) implies appears(result@, len0, mt + tail)
                    || covered_any(donated@, qi as int, mt, tail, target) by {
                if appears(rprev, len0, mt + tail) {
                    let jj = choose|jj: int|
                        len0 <= jj < rprev.len() && (#[trigger] rprev[jj])@ == mt + tail;
                    assert(result@[jj] == rprev[jj]);
                } else {
                    assert(covered_any(dprev, qi as int - 1, mt, tail, target));
                    let jj = choose|jj: int|
                        qi as int - 1 <= jj < dprev.len() && covers(
                            (#[trigger] dprev[jj])@,
                            mt,
                            tail,
                            target,
                        );
                    if jj >= qi as int {
                        assert(donated@[jj] == dprev[jj]);
                        assert(covered_any(donated@, qi as int, mt, tail, target));
                    } else {
                        // The entry just processed covers this continuation.
                        assert(dprev[jj]@ == p);
                        let full = tail.push(target);
                        let m = choose|m: int|
                            1 <= m <= tail.len() + 1 && p == mt + #[trigger] full.take(m);
                        assert(mt + full.take(m) =~= full.take(m));
                        assert(p == full.take(m));
                        assert(n == m);
                        lemma_conn_props(g, start, target, kk, banned0, tail);
                        if m == tail.len() + 1 {
                            assert(full.take(m) =~= full);
                            assert(p.last() == target);
                            assert(result@[rprev.len() as int]@ == chopped(p));
                            assert(chopped(p) == p.drop_last());
                            assert(p.drop_last() =~= tail);
                            assert(mt + tail =~= tail);
                            assert(appears(result@, len0, mt + tail));
                        } else {
                            assert(p.last() == full[m - 1]);
                            assert(full[m - 1] == tail[m - 1]);
                            assert(tail.contains(tail[m - 1]));
                            assert(p.last() != target);
                            assert(kr == kk - m);
                            assert(kk >= tail.len() + 1);
                            assert(k - n > 0);
                            lemma_conn_split(g, start, target, kk, banned0, tail, m);
                            assert(tail.take(m) =~= full.take(m));
                            assert(banned0.union(tail.take(m).to_set()) =~= bp);
                            assert(conn(g, p.last(), target, kr, vis@.insert(lastn), tail.skip(m)));
                            if appears(result@, rprev.len() as int, p + tail.skip(m)) {
                                assert(p + tail.skip(m) =~= tail);
                                assert(mt + tail =~= tail);
                                assert(appears(result@, len0, mt + tail));
                            } else {
                                assert(covered_any(
                                    donated@,
                                    dprev.len() as int,
                                    p,
                                    tail.skip(m),
                                    target,
                                ));
                                let j2 = choose|j2: int|
                                    dprev.len() <= j2 < donated@.len() && covers(
                                        (#[trigger] donated@[j2])@,
                                        p,
                                        tail.skip(m),
                                        target,
                                    );
                                let m2 = choose|m2: int|
                                    1 <= m2 <= tail.skip(m).len() + 1 && donated@[j2]@ == p
                                        + #[trigger] tail.skip(m).push(target).take(m2);
                                assert(tail.skip(m).push(target) =~= full.skip(m));
                                assert(full.take(m) + full.skip(m).take(m2) =~= full.take(m + m2));
                                assert(donated@[j2]@ == mt + full.take(m + m2)) by {
                                    assert(donated@[j2]@ == p + full.skip(m).take(m2));
                                    assert(p + full.skip(m).take(m2) =~= full.take(m + m2));
                                    assert(mt + full.take(m + m2) =~= full.take(m + m2));
                                }
                                assert(1 <= m + m2 <= tail.len() + 1);
                                assert(covers(donated@[j2]@, mt, tail, target));
                                assert(covered_any(donated@, qi as int, mt, tail, target));
                            }
                        }
                    }
                }
            }
        }
    }
    proof {
        if start == target {
            assert forall|ans: Seq<i64>|
                #![trigger is_answer(g, start, target, kk, ans)]
                is_answer(g, start, target, kk, ans) implies appears(result@, len0, ans) by {
                assert(result@[len0]@ == ans);
            }
            assert forall|j: int| len0 <= j < result@.len() implies is_answer(
                g,
                start,
                target,
                kk,
                (#[trigger] result@[j])@,
            ) by {
                assert(j == len0);
            }
        } else {
            assert forall|ans: Seq<i64>|
                #![trigger is_answer(g, start, target, kk, ans)]
                is_answer(g, start, target, kk, ans) implies appears(result@, len0, ans) by {
                assert(conn(g, start, target, kk, banned0, ans));
                assert(!covered_any(donated@, qi as int, mt, ans, target));
                assert(appears(result@, len0, mt + ans));
                assert(mt + ans =~= ans);
            }
            assert forall|j: int| len0 <= j < result@.len() implies is_answer(
                g,
                start,
                target,
                kk,
                (#[trigger] result@[j])@,
            ) by {
                assert(emitted_from(g, start, target, kk, banned0, mt, result@[j]@));
                let tc = choose|tc: Seq<i64>|
                    result@[j]@ == mt + tc && #[trigger] conn(g, start, target, kk, banned0, tc);
                assert(mt + tc =~= tc);
            }
        }
    }
}

/// The static-partition pipeline, run as one verified unit: split the search
/// at a shallow budget (three hops, or half the budget if that is less),
/// complete the frontier in four independent shares, and concatenate the
/// local accumulators.
///
/// Called with a fresh working path and visited set, it fills `result` with
/// exactly the set of valid interior paths [`is_answer`] admits — the same
/// characterization [`dfs`] meets from a fresh state, which is the
/// strategy-independence of the result set. When `now == target` exactly one
/// answer, the empty interior path, is appended.
pub fn dfs_parallel(
    now: i64,
    target: i64,
    k: u32,
    graph: &Graph,
    result: &mut Vec<GraphPath>,
    path: &mut GraphPath,
    rev: bool,
    visit: &mut HashSet<i64>,
)
    requires
        graph.wf(),
        old(path)@.len() == 0,
        old(visit)@ == Set::<i64>::empty(),
    ensures
        final(visit)@ == old(visit)@,
        final(path)@ == old(path)@,
        grows_from(old(result)@, final(result)@),
        forall|j: int|
            old(result)@.len() <= j < final(result)@.len() ==> is_answer(
                graph.dir_view(rev),
                now,
                target,
                k as nat,
                (#[trigger] final(result)@[j])@,
            ),
        forall|ans: Seq<i64>|
            #![trigger is_answer(graph.dir_view(rev), now, target, k as nat, ans)]
            is_answer(graph.dir_view(rev), now, target, k as nat, ans) ==> appears(
                final(result)@,
                old(result)@.len() as int,
                ans,
            ),
        now == target ==> final(result)@.len() == old(result)@.len() + 1
            && final(result)@.last()@ == Seq::<i64>::empty(),
{
    let ghost g = graph.dir_view(rev);
    let ghost len0 = old(result)@.len() as int;
    let ghost kk = k as nat;
    let ghost banned0 = Set::<i64>::empty().insert(now);
    let s: u32 = if k / 2 < 3 {
        k / 2
    } else {
        3
    };
    if s == 0 {
        dfs(now, target, k, graph, result, path, rev, visit);
        proof {
            assert(old(visit)@.insert(now) == banned0);
            if now == target {
                assert(chopped(old(path)@) =~= Seq::<i64>::empty());
                assert forall|ans: Seq<i64>|
                    #![trigger is_answer(g, now, target, kk, ans)]
                    is_answer(g, now, target, kk, ans) implies appears(result@, len0, ans) by {
                    assert(result@[result@.len() - 1]@ == ans);
                }
                assert forall|j: int| len0 <= j < result@.len() implies is_answer(
                    g,
                    now,
                    target,
                    kk,
                    (#[trigger] result@[j])@,
                ) by {
                    assert(j == result@.len() - 1);
                    assert(result@[j]@ =~= Seq::<i64>::empty());
                }
            } else if k == 0 {
                assert(result@ == old(result)@);
                assert forall|ans: Seq<i64>|
                    #![trigger is_answer(g, now, target, kk, ans)]
                    is_answer(g, now, target, kk, ans) implies appears(result@, len0, ans) by {
                    assert(conn(g, now, target, kk, banned0, ans));
                    assert(false);
                }
            } else {
                assert forall|j: int| len0 <= j < result@.len() implies is_answer(
                    g,
                    now,
                    target,
                    kk,
                    (#[trigger] result@[j])@,
                ) by {
                    assert(emitted_from(g, now, target, kk, banned0, old(path)@, result@[j]@));
                    let tc = choose|tc: Seq<i64>|
                        result@[j]@ == old(path)@ + tc && #[trigger] conn(
                            g,
                            now,
                            target,
                            kk,
                            banned0,
                            tc,
                        );
                    assert(old(path)@ + tc =~= tc);
                }
                assert forall|ans: Seq<i64>|
                    #![trigger is_answer(g, now, target, kk, ans)]
                    is_answer(g, now, target, kk, ans) implies appears(result@, len0, ans) by {
                    assert(conn(g, now, target, kk, banned0, ans));
                    assert(appears(result@, len0, old(path)@ + ans));
                    assert(old(path)@ + ans =~= ans);
                }
            }
        }
        return ;
    }
    assert(1 <= s && k >= 2 && s + 1 <= k);
    visit.insert(now);
    let mut temp: Vec<GraphPath> = Vec::new();
    dfs_for_temp(path, now, target, s, graph, result, &mut temp, rev, visit);
    visit.remove(&now);
    proof {
        assert(visit@ =~= Set::<i64>::empty());
    }
    let ghost mid = result@;
    let ghost len1 = result@.len() as int;
    let ghost entries = temp@;
    proof {
        // The frontier entries are well-formed resumption inputs.
        assert forall|e: int|
            0 <= e < entries.len() implies 1 <= (#[trigger] entries[e])@.len() <= k
                && entries[e]@.no_duplicates() && !entries[e]@.contains(now) by {
            assert(now != target);
            assert(fronted_from(
                g,
                now,
                target,
                s as nat,
                banned0,
                Seq::<i64>::empty(),
                entries[e]@,
            ));
            let u = choose|u: Seq<i64>|
                entries[e]@ == Seq::<i64>::empty() + u && #[trigger] frontier_ok(
                    g,
                    now,
                    target,
                    s as nat,
                    banned0,
                    u,
                );
            lemma_branch_props(g, now, target, s as nat, banned0, u);
            assert(Seq::<i64>::empty() + u =~= u);
            assert(entries[e]@ == u);
            if entries[e]@.contains(now) {
                assert(banned0.contains(now));
                assert(false);
            }
        }
    }
    let mut w: usize = 0;
    while w < 4
        invariant
            graph.wf(),
            g == graph.dir_view(rev),
            kk == k as nat,
            banned0 == Set::<i64>::empty().insert(now),
            entries == temp@,
            1 <= s && s + 1 <= k,
            mid.len() == len1,
            len0 <= len1 <= result@.len(),
            len0 == old(result)@.len() as int,
            grows_from(old(result)@, result@),
            grows_from(mid, result@),
            0 <= w <= 4,
            forall|e: int|
                0 <= e < entries.len() ==> 1 <= (#[trigger] entries[e])@.len() <= k
                    && entries[e]@.no_duplicates() && !entries[e]@.contains(now),
            now == target ==> entries.len() == 0 && len1 == len0 + 1 && mid[len0]@
                =~= Seq::<i64>::empty() && result@.len() == len1,
            now != target ==> forall|e: int|
                0 <= e < entries.len() ==> fronted_from(
                    g,
                    now,
                    target,
                    s as nat,
                    banned0,
                    Seq::<i64>::empty(),
                    (#[trigger] entries[e])@,
                ),
            now != target ==> forall|j: int|
                len0 <= j < len1 ==> emitted_from(
                    g,
                    now,
                    target,
                    (s - 1) as nat,
                    banned0,
                    Seq::<i64>::empty(),
                    (#[trigger] mid[j])@,
                ),
            now != target ==> forall|tail: Seq<i64>|
                #![trigger conn(g, now, target, (s - 1) as nat, banned0, tail)]
                conn(g, now, target, (s - 1) as nat, banned0, tail) ==> appears(
                    mid,
                    len0,
                    Seq::<i64>::empty() + tail,
                ),
            now != target ==> forall|u: Seq<i64>|
                #![trigger frontier_ok(g, now, target, s as nat, banned0, u)]
                frontier_ok(g, now, target, s as nat, banned0, u) ==> appears(
                    entries,
                    0,
                    Seq::<i64>::empty() + u,
                ),
            forall|j: int|
                len1 <= j < result@.len() ==> is_answer(
                    g,
                    now,
                    target,
                    kk,
                    (#[trigger] result@[j])@,
                ),
            forall|e: int, ans: Seq<i64>|
                #![trigger resumed_origin_ok(g, now, target, kk, entries[e]@, ans)]
                0 <= e < entries.len() && e % 4 < w as int && resumed_origin_ok(
                    g,
                    now,
                    target,
                    kk,
                    entries[e]@,
                    ans,
                ) ==> appears(result@, len1, ans),
        decreases 4 - w,
    {
        let ghost prev = result@;
        let mut out_w = dfs_for_continue_share(&temp, now, target, k, graph, rev, w, 4);
        let ghost outv = out_w@;
        proof {
            // Every share answer is an answer of the whole search.
            assert forall|j: int| 0 <= j < outv.len() implies is_answer(
                g,
                now,
                target,
                kk,
                (#[trigger] outv[j])@,
            ) by {
                assert(resumed_share_any(g, now, target, kk, entries, w as int, 4, outv[j]@));
                let e = choose|e: int|
                    0 <= e < entries.len() && e % 4 == w as int && resumed_origin_ok(
                        g,
                        now,
                        target,
                        kk,
                        (#[trigger] entries[e])@,
                        outv[j]@,
                    );
                let p = entries[e]@;
                assert(fronted_from(g, now, target, s as nat, banned0, Seq::<i64>::empty(), p));
                let u = choose|u: Seq<i64>|
                    p == Seq::<i64>::empty() + u && #[trigger] frontier_ok(
                        g,
                        now,
                        target,
                        s as nat,
                        banned0,
                        u,
                    );
                assert(Seq::<i64>::empty() + u =~= u);
                assert(p == u);
                let ans = outv[j]@;
                if p.last() == target {
                    assert(ans == chopped(p));
                    lemma_branch_target(g, now, target, s as nat, kk, banned0, u);
                    assert(chopped(u) == u.drop_last());
                    assert(conn(g, now, target, kk, banned0, ans));
                } else {
                    let tc = choose|tc: Seq<i64>|
                        ans == p + tc && #[trigger] conn(
                            g,
                            p.last(),
                            target,
                            (kk - p.len()) as nat,
                            p.to_set().insert(now),
                            tc,
                        );
                    assert(banned0.union(u.to_set()) =~= u.to_set().insert(now));
                    lemma_glue(g, now, target, s as nat, banned0, u, (kk - s) as nat, tc);
                    assert(u.len() + (kk - s) as nat == kk);
                    assert(conn(g, now, target, kk, banned0, ans));
                }
            }
        }
        result.append(&mut out_w);
        proof {
            assert(result@ =~= prev + outv);
            if now == target {
                assert(outv.len() == 0) by {
                    if outv.len() > 0 {
                        assert(resumed_share_any(g, now, target, kk, entries, w as int, 4, outv[0]@));
                        let e = choose|e: int|
                            0 <= e < entries.len() && e % 4 == w as int && resumed_origin_ok(
                                g,
                                now,
                                target,
                                kk,
                                (#[trigger] entries[e])@,
                                outv[0]@,
                            );
                        assert(false);
                    }
                }
                assert(result@ =~= prev);
            }
            assert forall|e: int, ans: Seq<i64>|
                #![trigger resumed_origin_ok(g, now, target, kk, entries[e]@, ans)]
                0 <= e < entries.len() && e % 4 < w as int + 1 && resumed_origin_ok(
                    g,
                    now,
                    target,
                    kk,
                    entries[e]@,
                    ans,
                ) implies appears(result@, len1, ans) by {
                if e % 4 < w as int {
                    let jj = choose|jj: int|
                        len1 <= jj < prev.len() && (#[trigger] prev[jj])@ == ans;
                    assert(result@[jj] == prev[jj]);
                } else {
                    assert(e % 4 == w as int);
                    assert(appears(outv, 0, ans));
                    let jj = choose|jj: int| 0 <= jj < outv.len() && (#[trigger] outv[jj])@ == ans;
                    assert(result@[prev.len() + jj] == outv[jj]);
                }
            }
        }
        w = w + 1;
    }
    proof {
        if now == target {
            assert(result@.len() == len0 + 1);
            assert(result@[len0] == mid[len0]);
            assert(result@.last()@ =~= Seq::<i64>::empty());
        }
        // Soundness of the split stage's own emissions.
        assert forall|j: int| len0 <= j < result@.len() implies is_answer(
            g,
            now,
            target,
            kk,
            (#[trigger] result@[j])@,
        ) by {
            if j < len1 {
                assert(result@[j] == mid[j]);
                if now == target {
                    assert(j == len0);
                    assert(result@[j]@ =~= Seq::<i64>::empty());
                } else {
                    assert(emitted_from(
                        g,
                        now,
                        target,
                        (s - 1) as nat,
                        banned0,
                        Seq::<i64>::empty(),
                        mid[j]@,
                    ));
                    let tc = choose|tc: Seq<i64>|
                        mid[j]@ == Seq::<i64>::empty() + tc && #[trigger] conn(
                            g,
                            now,
                            target,
                            (s - 1) as nat,
                            banned0,
                            tc,
                        );
                    lemma_conn_props(g, now, target, (s - 1) as nat, banned0, tc);
                    lemma_conn_budget(g, now, target, (s - 1) as nat, kk, banned0, tc);
                    assert(Seq::<i64>::empty() + tc =~= tc);
                }
            }
        }
        // Completeness: route every valid answer to the stage that found it.
        assert forall|ans: Seq<i64>|
            #![trigger is_answer(g, now, target, kk, ans)]
            is_answer(g, now, target, kk, ans) implies appears(result@, len0, ans) by {
            if now == target {
                assert(result@[len0] == mid[len0]);
                assert(result@[len0]@ == ans);
            } else {
                assert(conn(g, now, target, kk, banned0, ans));
                lemma_conn_props(g, now, target, kk, banned0, ans);
                if ans.len() + 1 < s {
                    lemma_conn_budget(g, now, target, kk, (s - 1) as nat, banned0, ans);
                    assert(appears(mid, len0, Seq::<i64>::empty() + ans));
                    assert(Seq::<i64>::empty() + ans =~= ans);
                    let jj = choose|jj: int| len0 <= jj < mid.len() && (#[trigger] mid[jj])@ == ans;
                    assert(result@[jj] == mid[jj]);
                } else if ans.len() + 1 == s {
                    lemma_conn_to_branch(g, now, target, kk, s as nat, banned0, ans);
                    let u = ans.push(target);
                    assert(frontier_ok(g, now, target, s as nat, banned0, u));
                    assert(appears(entries, 0, Seq::<i64>::empty() + u));
                    assert(Seq::<i64>::empty() + u =~= u);
                    let e = choose|e: int| 0 <= e < entries.len() && (#[trigger] entries[e])@ == u;
                    assert(u.last() == target);
                    assert(chopped(u) == u.drop_last());
                    assert(u.drop_last() =~= ans);
                    assert(resumed_origin_ok(g, now, target, kk, entries[e]@, ans));
                    assert(0 <= e % 4 < 4);
                    assert(appears(result@, len1, ans));
                } else {
                    let m = s as int;
                    lemma_conn_split(g, now, target, kk, banned0, ans, m);
                    let u = ans.take(m);
                    lemma_branch_budget(g, now, target, kk, s as nat, banned0, u);
                    assert(frontier_ok(g, now, target, s as nat, banned0, u));
                    assert(appears(entries, 0, Seq::<i64>::empty() + u));
                    assert(Seq::<i64>::empty() + u =~= u);
                    let e = choose|e: int| 0 <= e < entries.len() && (#[trigger] entries[e])@ == u;
                    assert(ans.contains(ans[m - 1]));
                    assert(u.last() == ans[m - 1]);
                    assert(u.last() != target);
                    assert(banned0.union(u.to_set()) =~= u.to_set().insert(now));
                    assert(ans =~= u + ans.skip(m));
                    assert(conn(
                        g,
                        u.last(),
                        target,
                        (kk - u.len()) as nat,
                        u.to_set().insert(now),
                        ans.skip(m),
                    ));
                    assert(resumed_origin_ok(g, now, target, kk, entries[e]@, ans));
                    assert(0 <= e % 4 < 4);
                    assert(appears(result@, len1, ans));
                }
            }
        }
    }
}

} // verus!
