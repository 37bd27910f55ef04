//! Specification vocabulary of the search engine.
//!
//! An adjacency direction is modelled as a map from node id to the stored
//! neighbour sequence (`AdjView`). The central predicate is [`conn`]: the
//! tails it admits from a node are exactly the continuations that the bounded
//! depth-first search kernel emits as answers. [`branch_ok`] describes the
//! partial branches that the splitter and the work-donation kernels capture
//! for later continuation.

use vstd::prelude::*;

verus! {

/// Specification view of one adjacency direction: each node id with recorded
/// edges is mapped to the stored sequence of its neighbour ids.
pub type AdjView = Map<i64, Seq<i64>>;

/// The stored neighbour sequence of `n`; empty when `n` has no recorded edges.
pub open spec fn nbrs_of(g: AdjView, n: i64) -> Seq<i64> {
    if g.contains_key(n) {
        g[n]
    } else {
        Seq::<i64>::empty()
    }
}

/// `b` occurs in the stored neighbour sequence of `a`.
pub open spec fn has_edge(g: AdjView, a: i64, b: i64) -> bool {
    nbrs_of(g, a).contains(b)
}

/// How often `x` occurs in `s`.
pub open spec fn occurrences(s: Seq<i64>, x: i64) -> nat
    decreases s.len(),
{
    if s.len() == 0 {
        0
    } else {
        occurrences(s.drop_last(), x) + (if s.last() == x {
            1nat
        } else {
            0nat
        })
    }
}

/// Appending one element raises exactly that element's count by one.
pub proof fn lemma_occurrences_push(s: Seq<i64>, y: i64, x: i64)
    ensures
        occurrences(s.push(y), x) == occurrences(s, x) + (if y == x {
            1nat
        } else {
            0nat
        }),
{
    assert(s.push(y).drop_last() =~= s);
    assert(s.push(y).last() == y);
}

/// An element occurs at all exactly when its count is positive.
pub proof fn lemma_occurrences_contains(s: Seq<i64>, x: i64)
    ensures
        occurrences(s, x) > 0 <==> s.contains(x),
    decreases s.len(),
{
    if s.len() > 0 {
        let dl = s.drop_last();
        lemma_occurrences_contains(dl, x);
        assert(s.contains(x) <==> (dl.contains(x) || s.last() == x)) by {
            if s.contains(x) {
                let i = choose|i: int| 0 <= i < s.len() && s[i] == x;
                if i < s.len() - 1 {
                    assert(dl[i] == x);
                }
            }
            if dl.contains(x) {
                let i = choose|i: int| 0 <= i < dl.len() && dl[i] == x;
                assert(s[i] == x);
            }
            if s.last() == x {
                assert(s[s.len() - 1] == x);
            }
        }
    }
}

/// The two directions are exact transposes: the edge `a -> b` is recorded
/// forward exactly as often as `b -> a` is recorded backward.
pub open spec fn transposed(fwd: AdjView, bwd: AdjView) -> bool {
    forall|a: i64, b: i64|
        #![trigger occurrences(nbrs_of(fwd, a), b)]
        #![trigger occurrences(nbrs_of(bwd, b), a)]
        occurrences(nbrs_of(fwd, a), b) == occurrences(nbrs_of(bwd, b), a)
}

/// Count-level transposition gives membership-level transposition.
pub proof fn lemma_transposed_has_edge(fwd: AdjView, bwd: AdjView, a: i64, b: i64)
    requires
        transposed(fwd, bwd),
    ensures
        has_edge(fwd, a, b) <==> has_edge(bwd, b, a),
{
    lemma_occurrences_contains(nbrs_of(fwd, a), b);
    lemma_occurrences_contains(nbrs_of(bwd, b), a);
}

/// The adjacency after recording one edge: `b` appended to `a`'s neighbours.
pub open spec fn with_edge(g: AdjView, a: i64, b: i64) -> AdjView {
    g.insert(a, nbrs_of(g, a).push(b))
}

/// `p` with its last element removed; the empty sequence stays empty.
pub open spec fn chopped(p: Seq<i64>) -> Seq<i64> {
    if p.len() == 0 {
        p
    } else {
        p.drop_last()
    }
}

/// The node a working path currently stands on: its last element, or the
/// start node while the path is still empty.
pub open spec fn now_of(p: Seq<i64>, start: i64) -> i64 {
    if p.len() == 0 {
        start
    } else {
        p.last()
    }
}

/// `tail` continues a search standing on `now` all the way to `target`:
/// every consecutive hop is a recorded edge, the final hop reaches `target`,
/// no element repeats, touches `banned`, or equals `target` early, and the
/// whole continuation takes at most `k` hops (`tail.len() + 1` in all).
///
/// The answers of the search kernel from `now` are exactly the working-path
/// prefix extended by the tails this predicate admits.
pub open spec fn conn(
    g: AdjView,
    now: i64,
    target: i64,
    k: nat,
    banned: Set<i64>,
    tail: Seq<i64>,
) -> bool
    decreases tail.len(),
{
    if tail.len() == 0 {
        k >= 1 && has_edge(g, now, target) && !banned.contains(target)
    } else {
        k >= 1 && has_edge(g, now, tail[0]) && !banned.contains(tail[0]) && tail[0] != target
            && conn(g, tail[0], target, (k - 1) as nat, banned.insert(tail[0]), tail.drop_first())
    }
}

/// `u` is a live branch a search standing on `now` with `k` remaining hops
/// could be amid: a non-empty simple walk of at most `k` hops that avoids
/// `banned` and meets `target` at most as its final element. Such branches
/// are what the splitter and the donation kernels capture for continuation.
pub open spec fn branch_ok(
    g: AdjView,
    now: i64,
    target: i64,
    k: nat,
    banned: Set<i64>,
    u: Seq<i64>,
) -> bool
    decreases u.len(),
{
    if u.len() == 0 {
        false
    } else {
        u.len() <= k && has_edge(g, now, u[0]) && !banned.contains(u[0]) && (u.len() == 1 || (u[0]
            != target && branch_ok(
            g,
            u[0],
            target,
            (k - 1) as nat,
            banned.insert(u[0]),
            u.drop_first(),
        )))
    }
}

/// A branch that used its hop budget up entirely: a frontier entry.
pub open spec fn frontier_ok(
    g: AdjView,
    now: i64,
    target: i64,
    k: nat,
    banned: Set<i64>,
    u: Seq<i64>,
) -> bool {
    u.len() == k && branch_ok(g, now, target, k, banned, u)
}

/// `interior` is a valid answer of a whole search: the inner nodes of a
/// simple path from `start` to `target` of at most `k` hops. When the two
/// endpoints coincide the empty interior path is the one answer.
pub open spec fn is_answer(
    g: AdjView,
    start: i64,
    target: i64,
    k: nat,
    interior: Seq<i64>,
) -> bool {
    if start == target {
        interior == Seq::<i64>::empty()
    } else {
        conn(g, start, target, k, Set::<i64>::empty().insert(start), interior)
    }
}

/// The first node a continuation steps onto: `target` itself when the tail
/// is empty, else the tail's first element.
pub open spec fn tail_head(tail: Seq<i64>, target: i64) -> i64 {
    if tail.len() == 0 {
        target
    } else {
        tail[0]
    }
}

/// `ans` is `prefix` extended by a continuation that `conn` admits.
pub open spec fn emitted_from(
    g: AdjView,
    now: i64,
    target: i64,
    k: nat,
    banned: Set<i64>,
    prefix: Seq<i64>,
    ans: Seq<i64>,
) -> bool {
    exists|tail: Seq<i64>| ans == prefix + tail && #[trigger] conn(g, now, target, k, banned, tail)
}

/// `d` is `prefix` extended by a live branch that `branch_ok` admits.
pub open spec fn donated_from(
    g: AdjView,
    now: i64,
    target: i64,
    k: nat,
    banned: Set<i64>,
    prefix: Seq<i64>,
    d: Seq<i64>,
) -> bool {
    exists|u: Seq<i64>| d == prefix + u && #[trigger] branch_ok(g, now, target, k, banned, u)
}

/// `d` is `prefix` extended by a branch that used its budget up entirely.
pub open spec fn fronted_from(
    g: AdjView,
    now: i64,
    target: i64,
    k: nat,
    banned: Set<i64>,
    prefix: Seq<i64>,
    d: Seq<i64>,
) -> bool {
    exists|u: Seq<i64>| d == prefix + u && #[trigger] frontier_ok(g, now, target, k, banned, u)
}

/// `ans` is what resuming the captured partial path `p` can emit when the
/// search's own start node `origin` is banned along with the nodes of `p`:
/// the banning a worker owes the whole search, not just its entry.
pub open spec fn resumed_origin_ok(
    g: AdjView,
    origin: i64,
    target: i64,
    k: nat,
    p: Seq<i64>,
    ans: Seq<i64>,
) -> bool {
    if p.last() == target {
        ans == chopped(p)
    } else {
        exists|tail: Seq<i64>|
            ans == p + tail && #[trigger] conn(
                g,
                p.last(),
                target,
                (k - p.len()) as nat,
                p.to_set().insert(origin),
                tail,
            )
    }
}

/// Some entry of `entries` admits `ans` as a resumption answer, with the
/// search's start node `origin` banned.
pub open spec fn resumed_origin_any(
    g: AdjView,
    origin: i64,
    target: i64,
    k: nat,
    entries: Seq<Vec<i64>>,
    ans: Seq<i64>,
) -> bool {
    exists|e: int|
        0 <= e < entries.len() && resumed_origin_ok(g, origin, target, k, (#[trigger] entries[e])@, ans)
}

/// Some entry among the first `upto` of `entries` admits `ans` as a
/// resumption answer, with `origin` banned.
pub open spec fn resumed_before(
    g: AdjView,
    origin: i64,
    target: i64,
    k: nat,
    entries: Seq<Vec<i64>>,
    upto: int,
    ans: Seq<i64>,
) -> bool {
    exists|ee: int|
        0 <= ee < upto && resumed_origin_ok(g, origin, target, k, (#[trigger] entries[ee])@, ans)
}

/// Some entry of `entries` that falls to the given share (index modulo
/// `nshares`) admits `ans` as a resumption answer.
pub open spec fn resumed_share_any(
    g: AdjView,
    origin: i64,
    target: i64,
    k: nat,
    entries: Seq<Vec<i64>>,
    share: int,
    nshares: int,
    ans: Seq<i64>,
) -> bool {
    exists|e: int|
        0 <= e < entries.len() && e % nshares == share && resumed_origin_ok(
            g,
            origin,
            target,
            k,
            (#[trigger] entries[e])@,
            ans,
        )
}


/// The donated branch `d` covers the continuation `tail`: it is the working
/// prefix extended by some non-empty front part of `tail` (possibly closed
/// with `target` itself), so resuming `d` rediscovers `tail`.
pub open spec fn covers(d: Seq<i64>, prefix: Seq<i64>, tail: Seq<i64>, target: i64) -> bool {
    exists|m: int| 1 <= m <= tail.len() + 1 && d == prefix + #[trigger] tail.push(target).take(m)
}

/// Some donated branch at index `from` or beyond covers `tail`.
pub open spec fn covered_any(
    ds: Seq<Vec<i64>>,
    from: int,
    prefix: Seq<i64>,
    tail: Seq<i64>,
    target: i64,
) -> bool {
    exists|j: int| from <= j < ds.len() && covers((#[trigger] ds[j])@, prefix, tail, target)
}

/// Gluing for live branches: a branch not yet on `target`, continued by a
/// further branch from its last node with its nodes banned, is one branch.
pub proof fn lemma_branch_glue(
    g: AdjView,
    now: i64,
    target: i64,
    k: nat,
    banned: Set<i64>,
    u: Seq<i64>,
    k2: nat,
    u2: Seq<i64>,
)
    requires
        branch_ok(g, now, target, k, banned, u),
        u.last() != target,
        branch_ok(g, u.last(), target, k2, banned.union(u.to_set()), u2),
    ensures
        branch_ok(g, now, target, (u.len() + k2) as nat, banned, u + u2),
    decreases u.len(),
{
    lemma_branch_props(g, u.last(), target, k2, banned.union(u.to_set()), u2);
    let u0 = u[0];
    let rest = u.drop_first();
    if u.len() == 1 {
        assert(u.last() == u0);
        assert(banned.union(u.to_set()) =~= banned.insert(u0)) by {
            assert(u.contains(u0));
            assert forall|x: i64| u.to_set().contains(x) implies x == u0 by {
                let i = choose|i: int| 0 <= i < u.len() && u[i] == x;
            }
        }
        assert((u + u2)[0] == u0);
        assert((u + u2).drop_first() =~= u2);
        assert(branch_ok(g, now, target, (1 + k2) as nat, banned, u + u2));
    } else {
        assert(rest.last() == u.last());
        assert(banned.insert(u0).union(rest.to_set()) =~= banned.union(u.to_set())) by {
            assert forall|x: i64| u.contains(x) <==> (x == u0 || rest.contains(x)) by {
                if u.contains(x) {
                    let i = choose|i: int| 0 <= i < u.len() && u[i] == x;
                    if i > 0 {
                        assert(rest[i - 1] == x);
                    }
                }
                if rest.contains(x) {
                    let i = choose|i: int| 0 <= i < rest.len() && rest[i] == x;
                    assert(u[i + 1] == x);
                }
                if x == u0 {
                    assert(u[0] == x);
                }
            }
        }
        lemma_branch_glue(g, u0, target, (k - 1) as nat, banned.insert(u0), rest, k2, u2);
        assert((u + u2)[0] == u0);
        assert((u + u2).drop_first() =~= rest + u2);
        assert(branch_ok(g, now, target, (u.len() + k2) as nat, banned, u + u2));
    }
}

/// The hop-by-hop reading of a live branch: each consecutive pair is a
/// recorded edge, and `target` occurs at most as the final element.
pub proof fn lemma_branch_edges(
    g: AdjView,
    now: i64,
    target: i64,
    k: nat,
    banned: Set<i64>,
    u: Seq<i64>,
)
    requires
        branch_ok(g, now, target, k, banned, u),
    ensures
        has_edge(g, now, u[0]),
        forall|i: int| 0 <= i < u.len() - 1 ==> #[trigger] has_edge(g, u[i], u[i + 1]),
        forall|i: int| 0 <= i < u.len() - 1 ==> (#[trigger] u[i]) != target,
    decreases u.len(),
{
    if u.len() > 1 {
        let rest = u.drop_first();
        lemma_branch_edges(g, u[0], target, (k - 1) as nat, banned.insert(u[0]), rest);
        assert forall|i: int|
            0 <= i < u.len() - 1 implies #[trigger] has_edge(g, u[i], u[i + 1]) by {
            if i > 0 {
                assert(rest[i - 1] == u[i] && rest[i] == u[i + 1]);
                assert(has_edge(g, rest[i - 1], rest[i]));
            } else {
                assert(rest[0] == u[1]);
            }
        }
        assert forall|i: int| 0 <= i < u.len() - 1 implies (#[trigger] u[i]) != target by {
            if i > 0 {
                assert(rest[i - 1] == u[i]);
            }
        }
    }
}

/// Reading a reverse-direction branch forwards: a walk recorded backward from
/// `v` turns, through the transpose, into a forward continuation that ends at
/// `v`. The branch's elements short of its last one must avoid `banned`
/// and `v`; the continuation is the branch, less its last node, reversed.
pub proof fn lemma_rev_chain_conn(
    gf: AdjView,
    gb: AdjView,
    v: i64,
    r: Seq<i64>,
    k2: nat,
    banned: Set<i64>,
)
    requires
        transposed(gf, gb),
        r.len() >= 1,
        k2 >= r.len(),
        has_edge(gb, v, r[0]),
        forall|i: int| 0 <= i < r.len() - 1 ==> #[trigger] has_edge(gb, r[i], r[i + 1]),
        r.no_duplicates(),
        forall|i: int| 0 <= i < r.len() - 1 ==> !banned.contains(#[trigger] r[i]) && r[i] != v,
        !banned.contains(v),
    ensures
        conn(gf, r.last(), v, k2, banned, r.drop_last().reverse()),
    decreases r.len(),
{
    let b = r.len() as int;
    let tail = r.drop_last().reverse();
    if r.len() == 1 {
        assert(tail =~= Seq::<i64>::empty());
        lemma_transposed_has_edge(gf, gb, r[0], v);
        assert(has_edge(gf, r[0], v));
    } else {
        let m2 = r[b - 2];
        assert(tail.len() == b - 1);
        assert(tail[0] == r.drop_last()[b - 2]);
        assert(tail[0] == m2);
        assert(has_edge(gb, r[b - 2], r[(b - 2) + 1]));
        assert(has_edge(gb, m2, r[b - 1]));
        lemma_transposed_has_edge(gf, gb, r[b - 1], m2);
        assert(has_edge(gf, r.last(), m2));
        let rp = r.drop_last();
        assert(rp.len() == b - 1);
        assert forall|i: int|
            0 <= i < rp.len() - 1 implies #[trigger] has_edge(gb, rp[i], rp[i + 1]) by {
            assert(rp[i] == r[i] && rp[i + 1] == r[i + 1]);
        }
        assert(rp.no_duplicates()) by {
            assert forall|i: int, j: int| 0 <= i < j < rp.len() implies rp[i] != rp[j] by {
                assert(rp[i] == r[i] && rp[j] == r[j]);
            }
        }
        assert forall|i: int|
            0 <= i < rp.len() - 1 implies !banned.insert(m2).contains(#[trigger] rp[i]) && rp[i]
            != v by {
            assert(rp[i] == r[i]);
            assert(r[i] != r[b - 2]);
        }
        assert(v != m2);
        lemma_rev_chain_conn(gf, gb, v, rp, (k2 - 1) as nat, banned.insert(m2));
        assert(rp.last() == m2);
        assert(tail.drop_first() =~= rp.drop_last().reverse()) by {
            assert(tail.drop_first().len() == b - 2);
            assert(rp.drop_last().reverse().len() == b - 2);
            assert forall|i: int|
                0 <= i < b - 2 implies tail.drop_first()[i] == rp.drop_last().reverse()[i] by {
                assert(tail.drop_first()[i] == tail[i + 1]);
                assert(tail[i + 1] == rp[b - 2 - i - 1]);
                assert(rp.drop_last().reverse()[i] == rp.drop_last()[b - 2 - 1 - i]);
                assert(rp.drop_last()[b - 3 - i] == rp[b - 3 - i]);
            }
        }
        assert(conn(gf, r.last(), v, k2, banned, tail));
    }
}

/// No node's neighbour sequence records the same edge twice.
pub open spec fn distinct_edges(g: AdjView) -> bool {
    forall|n: i64| (#[trigger] nbrs_of(g, n)).no_duplicates()
}

/// The elements of `rs` at index `from` or beyond are pairwise different
/// paths.
pub open spec fn pairwise_distinct(rs: Seq<Vec<i64>>, from: int) -> bool {
    forall|j1: int, j2: int|
        #![trigger rs[j1], rs[j2]]
        from <= j1 < j2 < rs.len() ==> rs[j1]@ != rs[j2]@
}

/// All elements of `es` are paths of one common length.
pub open spec fn uniform_length(es: Seq<Vec<i64>>) -> bool {
    forall|e1: int, e2: int|
        #![trigger es[e1], es[e2]]
        0 <= e1 < es.len() && 0 <= e2 < es.len() ==> es[e1]@.len() == es[e2]@.len()
}

/// `ans` is `prefix` extended by an admitted continuation whose first step
/// lands on one of `heads`.
pub open spec fn emitted_through(
    g: AdjView,
    now: i64,
    target: i64,
    k: nat,
    banned: Set<i64>,
    prefix: Seq<i64>,
    heads: Seq<i64>,
    ans: Seq<i64>,
) -> bool {
    exists|tail: Seq<i64>|
        ans == prefix + tail && #[trigger] conn(g, now, target, k, banned, tail)
            && heads.contains(tail_head(tail, target))
}

/// `d` is `prefix` extended by a full-budget branch whose first node is one
/// of `heads`.
pub open spec fn fronted_through(
    g: AdjView,
    now: i64,
    target: i64,
    k: nat,
    banned: Set<i64>,
    prefix: Seq<i64>,
    heads: Seq<i64>,
    d: Seq<i64>,
) -> bool {
    exists|u: Seq<i64>|
        d == prefix + u && #[trigger] frontier_ok(g, now, target, k, banned, u) && heads.contains(
            u[0],
        )
}

/// Equal extensions of one prefix have equal extensions.
pub proof fn lemma_add_cancel(p: Seq<i64>, x: Seq<i64>, y: Seq<i64>)
    requires
        p + x == p + y,
    ensures
        x == y,
{
    assert((p + x).len() == p.len() + x.len());
    assert((p + y).len() == p.len() + y.len());
    assert(x.len() == y.len());
    assert forall|i: int| 0 <= i < x.len() implies x[i] == y[i] by {
        assert((p + x)[p.len() + i] == x[i]);
        assert((p + y)[p.len() + i] == y[i]);
    }
    assert(x =~= y);
}

/// Resumptions of two different captured paths of one length never agree:
/// the answers keep their entry's prefix (or all but its final target), so
/// distinct entries give distinct answers.
pub proof fn lemma_resumed_distinct(
    g: AdjView,
    origin: i64,
    target: i64,
    k: nat,
    p: Seq<i64>,
    q: Seq<i64>,
    a: Seq<i64>,
    b: Seq<i64>,
)
    requires
        p.len() == q.len(),
        p.len() >= 1,
        p != q,
        resumed_origin_ok(g, origin, target, k, p, a),
        resumed_origin_ok(g, origin, target, k, q, b),
    ensures
        a != b,
{
    let ll = p.len() as int;
    if p.last() == target && q.last() == target {
        assert(a == chopped(p) && b == chopped(q));
        if a == b {
            assert forall|i: int| 0 <= i < ll implies p[i] == q[i] by {
                if i < ll - 1 {
                    assert(p.drop_last()[i] == q.drop_last()[i]);
                }
            }
            assert(p =~= q);
            assert(false);
        }
    } else if p.last() == target {
        assert(a == chopped(p) && a.len() == ll - 1);
        let tb = choose|tb: Seq<i64>|
            b == q + tb && #[trigger] conn(
                g,
                q.last(),
                target,
                (k - q.len()) as nat,
                q.to_set().insert(origin),
                tb,
            );
        assert(b.len() >= ll);
    } else if q.last() == target {
        assert(b == chopped(q) && b.len() == ll - 1);
        let ta = choose|ta: Seq<i64>|
            a == p + ta && #[trigger] conn(
                g,
                p.last(),
                target,
                (k - p.len()) as nat,
                p.to_set().insert(origin),
                ta,
            );
        assert(a.len() >= ll);
    } else {
        let ta = choose|ta: Seq<i64>|
            a == p + ta && #[trigger] conn(
                g,
                p.last(),
                target,
                (k - p.len()) as nat,
                p.to_set().insert(origin),
                ta,
            );
        let tb = choose|tb: Seq<i64>|
            b == q + tb && #[trigger] conn(
                g,
                q.last(),
                target,
                (k - q.len()) as nat,
                q.to_set().insert(origin),
                tb,
            );
        if a == b {
            assert forall|i: int| 0 <= i < ll implies p[i] == q[i] by {
                assert((p + ta)[i] == p[i]);
                assert((q + tb)[i] == q[i]);
            }
            assert(p =~= q);
            assert(false);
        }
    }
}

/// Some element of `rs` at index `from` or beyond views to `ans`.
pub open spec fn appears(rs: Seq<Vec<i64>>, from: int, ans: Seq<i64>) -> bool {
    exists|j: int| from <= j < rs.len() && (#[trigger] rs[j])@ == ans
}

/// `new_rs` extends `old_rs` without touching the elements already there.
pub open spec fn grows_from(old_rs: Seq<Vec<i64>>, new_rs: Seq<Vec<i64>>) -> bool {
    &&& new_rs.len() >= old_rs.len()
    &&& forall|j: int| 0 <= j < old_rs.len() ==> (#[trigger] new_rs[j]) == old_rs[j]
}

/// Membership in a sequence after a push: the old elements plus the new one.
pub proof fn lemma_contains_push(s: Seq<i64>, y: i64, c: i64)
    ensures
        s.push(y).contains(c) <==> (s.contains(c) || c == y),
{
    if s.push(y).contains(c) {
        let i = choose|i: int| 0 <= i < s.push(y).len() && s.push(y)[i] == c;
        if i < s.len() {
            assert(s[i] == c);
        }
    }
    if s.contains(c) {
        let i = choose|i: int| 0 <= i < s.len() && s[i] == c;
        assert(s.push(y)[i] == c);
    }
    if c == y {
        assert(s.push(y)[s.len() as int] == c);
    }
}

/// Membership in a one-longer prefix: the shorter prefix plus `s[i]`.
pub proof fn lemma_take_step(s: Seq<i64>, i: int, x: i64)
    requires
        0 <= i < s.len(),
    ensures
        s.take(i + 1).contains(x) <==> (s.take(i).contains(x) || x == s[i]),
{
    assert(s.take(i + 1) =~= s.take(i).push(s[i]));
    lemma_contains_push(s.take(i), s[i], x);
}

/// The nodes of a non-empty sequence: those of its front part plus its last.
pub proof fn lemma_to_set_split_last(p: Seq<i64>)
    requires
        p.len() >= 1,
    ensures
        p.take(p.len() - 1).to_set().insert(p.last()) =~= p.to_set(),
{
    assert forall|x: i64|
        p.take(p.len() - 1).to_set().insert(p.last()).contains(x) <==> p.to_set().contains(
        x,
    ) by {
        lemma_take_step(p, p.len() - 1, x);
        assert(p.take(p.len() as int) =~= p);
    }
}

/// What `conn` admits is a simple continuation within budget, clear of the
/// banned set, meeting `target` only at its (implicit) final hop.
pub proof fn lemma_conn_props(
    g: AdjView,
    now: i64,
    target: i64,
    k: nat,
    banned: Set<i64>,
    tail: Seq<i64>,
)
    requires
        conn(g, now, target, k, banned, tail),
    ensures
        tail.len() + 1 <= k,
        tail.no_duplicates(),
        forall|x: i64| tail.contains(x) ==> !banned.contains(x) && x != target,
        !banned.contains(target),
    decreases tail.len(),
{
    if tail.len() == 0 {
    } else {
        let t0 = tail[0];
        let rest = tail.drop_first();
        lemma_conn_props(g, t0, target, (k - 1) as nat, banned.insert(t0), rest);
        assert forall|x: i64| tail.contains(x) implies !banned.contains(x) && x != target by {
            let i = choose|i: int| 0 <= i < tail.len() && tail[i] == x;
            if i > 0 {
                assert(rest[i - 1] == x);
                assert(rest.contains(x));
            }
        }
        assert forall|i: int, j: int|
            0 <= i < j < tail.len() implies tail[i] != tail[j] by {
            if i == 0 {
                assert(rest[j - 1] == tail[j]);
                assert(rest.contains(tail[j]));
                assert(!banned.insert(t0).contains(tail[j]));
            } else {
                assert(rest[i - 1] == tail[i] && rest[j - 1] == tail[j]);
            }
        }
    }
}

/// What `branch_ok` admits is a non-empty simple walk within budget, clear of
/// the banned set.
pub proof fn lemma_branch_props(
    g: AdjView,
    now: i64,
    target: i64,
    k: nat,
    banned: Set<i64>,
    u: Seq<i64>,
)
    requires
        branch_ok(g, now, target, k, banned, u),
    ensures
        1 <= u.len() <= k,
        u.no_duplicates(),
        forall|x: i64| u.contains(x) ==> !banned.contains(x),
    decreases u.len(),
{
    if u.len() == 1 {
        assert forall|x: i64| u.contains(x) implies !banned.contains(x) by {
            let i = choose|i: int| 0 <= i < u.len() && u[i] == x;
            assert(x == u[0]);
        }
    } else {
        let u0 = u[0];
        let rest = u.drop_first();
        lemma_branch_props(g, u0, target, (k - 1) as nat, banned.insert(u0), rest);
        assert forall|x: i64| u.contains(x) implies !banned.contains(x) by {
            let i = choose|i: int| 0 <= i < u.len() && u[i] == x;
            if i > 0 {
                assert(rest[i - 1] == x);
                assert(rest.contains(x));
            }
        }
        assert forall|i: int, j: int| 0 <= i < j < u.len() implies u[i] != u[j] by {
            if i == 0 {
                assert(rest[j - 1] == u[j]);
                assert(rest.contains(u[j]));
                assert(!banned.insert(u0).contains(u[j]));
            } else {
                assert(rest[i - 1] == u[i] && rest[j - 1] == u[j]);
            }
        }
    }
}

/// A continuation is admitted at every budget that covers its length.
pub proof fn lemma_conn_budget(
    g: AdjView,
    now: i64,
    target: i64,
    k: nat,
    k2: nat,
    banned: Set<i64>,
    tail: Seq<i64>,
)
    requires
        conn(g, now, target, k, banned, tail),
        k2 >= tail.len() + 1,
    ensures
        conn(g, now, target, k2, banned, tail),
    decreases tail.len(),
{
    if tail.len() > 0 {
        lemma_conn_budget(
            g,
            tail[0],
            target,
            (k - 1) as nat,
            (k2 - 1) as nat,
            banned.insert(tail[0]),
            tail.drop_first(),
        );
    }
}

/// A live branch is admitted at every budget that covers its length.
pub proof fn lemma_branch_budget(
    g: AdjView,
    now: i64,
    target: i64,
    k: nat,
    k2: nat,
    banned: Set<i64>,
    u: Seq<i64>,
)
    requires
        branch_ok(g, now, target, k, banned, u),
        k2 >= u.len(),
    ensures
        branch_ok(g, now, target, k2, banned, u),
    decreases u.len(),
{
    if u.len() > 1 {
        lemma_branch_budget(
            g,
            u[0],
            target,
            (k - 1) as nat,
            (k2 - 1) as nat,
            banned.insert(u[0]),
            u.drop_first(),
        );
    }
}

/// Splitting a continuation after its first `m` nodes: the front part is a
/// live branch and the rest still connects, with the front's nodes banned.
pub proof fn lemma_conn_split(
    g: AdjView,
    now: i64,
    target: i64,
    k: nat,
    banned: Set<i64>,
    tail: Seq<i64>,
    m: int,
)
    requires
        conn(g, now, target, k, banned, tail),
        1 <= m <= tail.len(),
    ensures
        branch_ok(g, now, target, k, banned, tail.take(m)),
        conn(
            g,
            tail[m - 1],
            target,
            (k - m) as nat,
            banned.union(tail.take(m).to_set()),
            tail.skip(m),
        ),
    decreases m,
{
    lemma_conn_props(g, now, target, k, banned, tail);
    let t0 = tail[0];
    let rest = tail.drop_first();
    if m == 1 {
        assert(tail.take(1) =~= seq![t0]);
        assert(branch_ok(g, now, target, k, banned, tail.take(1)));
        assert(banned.union(tail.take(1).to_set()) =~= banned.insert(t0)) by {
            assert(tail.take(1).contains(t0));
            assert forall|x: i64| tail.take(1).to_set().contains(x) implies x == t0 by {
                let i = choose|i: int| 0 <= i < tail.take(1).len() && tail.take(1)[i] == x;
            }
        }
        assert(tail.skip(1) =~= rest);
    } else {
        lemma_conn_split(g, t0, target, (k - 1) as nat, banned.insert(t0), rest, m - 1);
        assert(tail.take(m).drop_first() =~= rest.take(m - 1));
        assert(tail.take(m)[0] == t0);
        assert(branch_ok(g, now, target, k, banned, tail.take(m)));
        assert(tail[m - 1] == rest[m - 2]);
        assert(tail.skip(m) =~= rest.skip(m - 1));
        assert(banned.insert(t0).union(rest.take(m - 1).to_set()) =~= banned.union(
            tail.take(m).to_set(),
        )) by {
            assert forall|x: i64|
                tail.take(m).contains(x) <==> (x == t0 || rest.take(m - 1).contains(x)) by {
                if tail.take(m).contains(x) {
                    let i = choose|i: int| 0 <= i < m && (#[trigger] tail.take(m)[i]) == x;
                    if i > 0 {
                        assert(rest.take(m - 1)[i - 1] == x);
                    }
                }
                if rest.take(m - 1).contains(x) {
                    let i = choose|i: int|
                        0 <= i < m - 1 && (#[trigger] rest.take(m - 1)[i]) == x;
                    assert(tail.take(m)[i + 1] == x);
                }
                if x == t0 {
                    assert(tail.take(m)[0] == x);
                }
            }
        }
    }
}

/// Closing a continuation with its final hop: the continuation plus `target`
/// itself is a full live branch.
pub proof fn lemma_conn_to_branch(
    g: AdjView,
    now: i64,
    target: i64,
    k: nat,
    k2: nat,
    banned: Set<i64>,
    tail: Seq<i64>,
)
    requires
        conn(g, now, target, k, banned, tail),
        k2 >= tail.len() + 1,
    ensures
        branch_ok(g, now, target, k2, banned, tail.push(target)),
    decreases tail.len(),
{
    if tail.len() == 0 {
        assert(tail.push(target)[0] == target);
    } else {
        let t0 = tail[0];
        let rest = tail.drop_first();
        lemma_conn_to_branch(g, t0, target, (k - 1) as nat, (k2 - 1) as nat, banned.insert(t0), rest);
        assert(tail.push(target)[0] == t0);
        assert(tail.push(target).drop_first() =~= rest.push(target));
    }
}

/// Gluing: a live branch not yet on `target`, followed by a continuation from
/// its last node with the branch's nodes banned, is one long continuation.
pub proof fn lemma_glue(
    g: AdjView,
    now: i64,
    target: i64,
    k: nat,
    banned: Set<i64>,
    u: Seq<i64>,
    k2: nat,
    tail2: Seq<i64>,
)
    requires
        branch_ok(g, now, target, k, banned, u),
        u.last() != target,
        conn(g, u.last(), target, k2, banned.union(u.to_set()), tail2),
    ensures
        conn(g, now, target, (u.len() + k2) as nat, banned, u + tail2),
    decreases u.len(),
{
    let u0 = u[0];
    let rest = u.drop_first();
    if u.len() == 1 {
        assert(u.last() == u0);
        assert(banned.union(u.to_set()) =~= banned.insert(u0)) by {
            assert(u.contains(u0));
            assert forall|x: i64| u.to_set().contains(x) implies x == u0 by {
                let i = choose|i: int| 0 <= i < u.len() && u[i] == x;
            }
        }
        assert((u + tail2)[0] == u0);
        assert((u + tail2).drop_first() =~= tail2);
        assert(conn(g, now, target, (1 + k2) as nat, banned, u + tail2));
    } else {
        assert(rest.last() == u.last());
        assert(banned.insert(u0).union(rest.to_set()) =~= banned.union(u.to_set())) by {
            assert forall|x: i64| u.contains(x) <==> (x == u0 || rest.contains(x)) by {
                if u.contains(x) {
                    let i = choose|i: int| 0 <= i < u.len() && u[i] == x;
                    if i > 0 {
                        assert(rest[i - 1] == x);
                    }
                }
                if rest.contains(x) {
                    let i = choose|i: int| 0 <= i < rest.len() && rest[i] == x;
                    assert(u[i + 1] == x);
                }
                if x == u0 {
                    assert(u[0] == x);
                }
            }
        }
        lemma_glue(g, u0, target, (k - 1) as nat, banned.insert(u0), rest, k2, tail2);
        assert((u + tail2)[0] == u0);
        assert((u + tail2).drop_first() =~= rest + tail2);
        assert(conn(g, now, target, (u.len() + k2) as nat, banned, u + tail2));
    }
}

/// A full live branch whose last node is `target`, minus that last node, is a
/// continuation in its own right.
pub proof fn lemma_branch_target(
    g: AdjView,
    now: i64,
    target: i64,
    k: nat,
    k2: nat,
    banned: Set<i64>,
    u: Seq<i64>,
)
    requires
        branch_ok(g, now, target, k, banned, u),
        u.last() == target,
        k2 >= u.len(),
    ensures
        conn(g, now, target, k2, banned, u.drop_last()),
    decreases u.len(),
{
    let u0 = u[0];
    let rest = u.drop_first();
    if u.len() == 1 {
        assert(u0 == target);
        assert(u.drop_last() =~= Seq::<i64>::empty());
    } else {
        assert(rest.last() == u.last());
        lemma_branch_target(g, u0, target, (k - 1) as nat, (k2 - 1) as nat, banned.insert(u0), rest);
        assert(u.drop_last()[0] == u0);
        assert(u.drop_last().drop_first() =~= rest.drop_last());
        assert(conn(g, now, target, k2, banned, u.drop_last()));
    }
}

/// In a duplicate-free non-empty sequence the last element does not occur
/// among the earlier ones.
pub proof fn lemma_no_dup_last(p: Seq<i64>)
    requires
        p.len() >= 1,
        p.no_duplicates(),
    ensures
        !p.take(p.len() - 1).contains(p.last()),
{
    if p.take(p.len() - 1).contains(p.last()) {
        let i = choose|i: int|
            0 <= i < p.take(p.len() - 1).len() && (#[trigger] p.take(p.len() - 1)[i]) == p.last();
        assert(p[i] == p[p.len() - 1]);
        assert(false);
    }
}

} // verus!
