//! The engine's laws, stated once and proved over the specification
//! vocabulary the search functions' own contracts use.

use crate::paths::{
    appears, branch_ok, chopped, conn, frontier_ok, is_answer, lemma_branch_budget,
    lemma_branch_target, lemma_conn_budget, lemma_conn_props, lemma_conn_split,
    lemma_conn_to_branch, lemma_glue, resumed_origin_ok, AdjView,
};
use vstd::prelude::*;

verus! {

/// Strategy independence: two result collections that each hold exactly the
/// valid interior paths of one search hold the same set of paths, element for
/// element, whatever strategy produced either.
pub proof fn lemma_strategy_independence(
    g: AdjView,
    start: i64,
    target: i64,
    k: nat,
    r1: Seq<Vec<i64>>,
    r2: Seq<Vec<i64>>,
)
    requires
        forall|j: int| 0 <= j < r1.len() ==> is_answer(g, start, target, k, (#[trigger] r1[j])@),
        forall|ans: Seq<i64>|
            #![trigger is_answer(g, start, target, k, ans)]
            is_answer(g, start, target, k, ans) ==> appears(r1, 0, ans),
        forall|j: int| 0 <= j < r2.len() ==> is_answer(g, start, target, k, (#[trigger] r2[j])@),
        forall|ans: Seq<i64>|
            #![trigger is_answer(g, start, target, k, ans)]
            is_answer(g, start, target, k, ans) ==> appears(r2, 0, ans),
    ensures
        forall|j: int| 0 <= j < r1.len() ==> appears(r2, 0, (#[trigger] r1[j])@),
        forall|j: int| 0 <= j < r2.len() ==> appears(r1, 0, (#[trigger] r2[j])@),
{
}

/// The simple-path law: a produced interior path repeats no node, stays clear
/// of both endpoints, and fits the hop budget — the whole walk, endpoints
/// included, has no repeated node whenever the endpoints differ.
pub proof fn lemma_answer_simple(g: AdjView, start: i64, target: i64, k: nat, interior: Seq<i64>)
    requires
        is_answer(g, start, target, k, interior),
    ensures
        interior.no_duplicates(),
        !interior.contains(start),
        !interior.contains(target),
        start == target ==> interior.len() == 0,
        start != target ==> interior.len() + 1 <= k,
        start != target ==> (seq![start] + interior).push(target).no_duplicates(),
{
    if start != target {
        let banned = Set::<i64>::empty().insert(start);
        lemma_conn_props(g, start, target, k, banned, interior);
        assert(!interior.contains(start)) by {
            if interior.contains(start) {
                assert(banned.contains(start));
            }
        }
        assert(!interior.contains(target)) by {
            if interior.contains(target) {
            }
        }
        let full = (seq![start] + interior).push(target);
        assert forall|i: int, j: int| 0 <= i < j < full.len() implies full[i] != full[j] by {
            assert(full.len() == interior.len() + 2);
            assert(full[0] == start);
            assert(full[full.len() - 1] == target);
            assert forall|x: int| 1 <= x < full.len() - 1 implies full[x] == interior[x - 1] by {}
            if i == 0 {
                if j < full.len() - 1 {
                    assert(interior.contains(interior[j - 1]));
                }
            } else if j == full.len() - 1 {
                assert(interior.contains(interior[i - 1]));
            }
        }
    }
}

/// The trivial-search law: when the two endpoints coincide, the empty
/// interior path is an answer and the only one, for every graph and budget.
pub proof fn lemma_trivial_answer(g: AdjView, start: i64, k: nat, interior: Seq<i64>)
    ensures
        is_answer(g, start, start, k, interior) <==> interior == Seq::<i64>::empty(),
{
}

/// The split-covers-the-search law: every answer of the direct search is
/// recovered by the splitter stage — found outright below the shallow budget
/// `s`, or rediscovered by re-running the sequential search on a frontier
/// entry, with the entry's own nodes and the start node banned.
pub proof fn lemma_split_covers_direct(
    g: AdjView,
    start: i64,
    target: i64,
    k: nat,
    s: nat,
    tail: Seq<i64>,
)
    requires
        start != target,
        is_answer(g, start, target, k, tail),
        1 <= s,
        s + 1 <= k,
    ensures
        tail.len() + 1 < s ==> conn(
            g,
            start,
            target,
            (s - 1) as nat,
            Set::<i64>::empty().insert(start),
            tail,
        ),
        tail.len() + 1 == s ==> frontier_ok(
            g,
            start,
            target,
            s,
            Set::<i64>::empty().insert(start),
            tail.push(target),
        ) && resumed_origin_ok(g, start, target, k, tail.push(target), tail),
        tail.len() + 1 > s ==> frontier_ok(
            g,
            start,
            target,
            s,
            Set::<i64>::empty().insert(start),
            tail.take(s as int),
        ) && resumed_origin_ok(g, start, target, k, tail.take(s as int), tail),
{
    let banned = Set::<i64>::empty().insert(start);
    assert(conn(g, start, target, k, banned, tail));
    lemma_conn_props(g, start, target, k, banned, tail);
    if tail.len() + 1 < s {
        lemma_conn_budget(g, start, target, k, (s - 1) as nat, banned, tail);
    } else if tail.len() + 1 == s {
        lemma_conn_to_branch(g, start, target, k, s, banned, tail);
        let u = tail.push(target);
        assert(u.last() == target);
        assert(chopped(u) == u.drop_last());
        assert(u.drop_last() =~= tail);
        assert(resumed_origin_ok(g, start, target, k, u, tail));
    } else {
        let m = s as int;
        lemma_conn_split(g, start, target, k, banned, tail, m);
        let u = tail.take(m);
        lemma_branch_budget(g, start, target, k, s, banned, u);
        assert(frontier_ok(g, start, target, s, banned, u));
        assert(u.last() == tail[m - 1]);
        assert(tail.contains(tail[m - 1]));
        assert(u.last() != target);
        assert(banned.union(u.to_set()) =~= u.to_set().insert(start));
        assert(tail =~= u + tail.skip(m));
        assert(resumed_origin_ok(g, start, target, k, u, tail));
    }
}

/// The converse: re-running the sequential search on a captured partial path
/// — a frontier entry or a donated branch — with the path's own nodes and the
/// start node banned yields only answers of the direct search.
pub proof fn lemma_resumed_sound(
    g: AdjView,
    start: i64,
    target: i64,
    k: nat,
    u: Seq<i64>,
    ans: Seq<i64>,
)
    requires
        start != target,
        branch_ok(g, start, target, k, Set::<i64>::empty().insert(start), u),
        resumed_origin_ok(g, start, target, k, u, ans),
    ensures
        is_answer(g, start, target, k, ans),
{
    let banned = Set::<i64>::empty().insert(start);
    if u.last() == target {
        assert(ans == chopped(u));
        assert(chopped(u) == u.drop_last());
        lemma_branch_target(g, start, target, k, k, banned, u);
    } else {
        let tail = choose|tail: Seq<i64>|
            ans == u + tail && #[trigger] conn(
                g,
                u.last(),
                target,
                (k - u.len()) as nat,
                u.to_set().insert(start),
                tail,
            );
        assert(u.to_set().insert(start) =~= banned.union(u.to_set()));
        lemma_glue(g, start, target, k, banned, u, (k - u.len()) as nat, tail);
        assert(u.len() + (k - u.len()) as nat == k);
    }
}

} // verus!
