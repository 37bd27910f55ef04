//! The engine's one logical operation: enumerate all simple interior paths
//! of bounded length between two nodes, in a chosen direction, under a chosen
//! strategy. Whatever the strategy, the returned collection holds exactly the
//! set of paths [`is_answer`] admits — the strategies differ in schedule, not
//! in outcome.

use crate::dfs::dfs;
use crate::dfs_parallel::{dfs_donation_rounds, dfs_parallel};
use crate::graph::Graph;
use crate::paths::{appears, conn, emitted_from, is_answer};
use crate::GraphPath;
use std::collections::HashSet;
use vstd::prelude::*;

verus! {

/// Which adjacency direction the search walks.
pub enum SearchDirection {
    Forward,
    Reverse,
}

impl SearchDirection {
    /// Whether the reverse adjacency is walked.
    pub open spec fn spec_is_reverse(&self) -> bool {
        match self {
            SearchDirection::Forward => false,
            SearchDirection::Reverse => true,
        }
    }
}

/// How the search is scheduled. The stealing strategies share one verified
/// donate-and-resume core; their channel and lock plumbing differ only
/// outside the library.
pub enum SearchStrategy {
    Sequential,
    StaticPartition,
    WorkStealingRing,
    MutexStealing,
}

/// Enumerate every simple interior path from `start` to `target` of at most
/// `max_hops` hops: exactly the set [`is_answer`] admits over the chosen
/// direction, whichever strategy runs the search.
pub fn enumerate_paths(
    start: i64,
    target: i64,
    max_hops: u32,
    graph: &Graph,
    direction: SearchDirection,
    strategy: SearchStrategy,
) -> (result: Vec<GraphPath>)
    requires
        graph.wf(),
    ensures
        forall|j: int|
            0 <= j < result@.len() ==> is_answer(
                graph.dir_view(direction.spec_is_reverse()),
                start,
                target,
                max_hops as nat,
                (#[trigger] result@[j])@,
            ),
        forall|ans: Seq<i64>|
            #![trigger is_answer(graph.dir_view(direction.spec_is_reverse()), start, target, max_hops as nat, ans)]
            is_answer(
                graph.dir_view(direction.spec_is_reverse()),
                start,
                target,
                max_hops as nat,
                ans,
            ) ==> appears(result@, 0, ans),
{
    let ghost g = graph.dir_view(direction.spec_is_reverse());
    let ghost kk = max_hops as nat;
    let ghost banned0 = Set::<i64>::empty().insert(start);
    let rev = match direction {
        SearchDirection::Forward => false,
        SearchDirection::Reverse => true,
    };
    let mut result: Vec<GraphPath> = Vec::new();
    match strategy {
        SearchStrategy::Sequential => {
            let mut path: GraphPath = Vec::new();
            let mut visit: HashSet<i64> = HashSet::new();
            dfs(start, target, max_hops, graph, &mut result, &mut path, rev, &mut visit);
            proof {
                assert(visit@.insert(start) == banned0);
                if start == target {
                    assert(result@.last()@ =~= Seq::<i64>::empty());
                    assert forall|ans: Seq<i64>|
                        #![trigger is_answer(g, start, target, kk, ans)]
                        is_answer(g, start, target, kk, ans) implies appears(result@, 0, ans) by {
                        assert(result@[result@.len() - 1]@ == ans);
                    }
                    assert forall|j: int| 0 <= j < result@.len() implies is_answer(
                        g,
                        start,
                        target,
                        kk,
                        (#[trigger] result@[j])@,
                    ) by {
                        assert(j == result@.len() - 1);
                    }
                } else if max_hops == 0 {
                    assert forall|ans: Seq<i64>|
                        #![trigger is_answer(g, start, target, kk, ans)]
                        is_answer(g, start, target, kk, ans) implies appears(result@, 0, ans) by {
                        assert(conn(g, start, target, kk, banned0, ans));
                        assert(false);
                    }
                } else {
                    assert forall|j: int| 0 <= j < result@.len() implies is_answer(
                        g,
                        start,
                        target,
                        kk,
                        (#[trigger] result@[j])@,
                    ) by {
                        assert(emitted_from(
                            g,
                            start,
                            target,
                            kk,
                            banned0,
                            Seq::<i64>::empty(),
                            result@[j]@,
                        ));
                        let tc = choose|tc: Seq<i64>|
                            result@[j]@ == Seq::<i64>::empty() + tc && #[trigger] conn(
                                g,
                                start,
                                target,
                                kk,
                                banned0,
                                tc,
                            );
                        assert(Seq::<i64>::empty() + tc =~= tc);
                    }
                    assert forall|ans: Seq<i64>|
                        #![trigger is_answer(g, start, target, kk, ans)]
                        is_answer(g, start, target, kk, ans) implies appears(result@, 0, ans) by {
                        assert(conn(g, start, target, kk, banned0, ans));
                        assert(appears(result@, 0, Seq::<i64>::empty() + ans));
                        assert(Seq::<i64>::empty() + ans =~= ans);
                    }
                }
            }
        },
        SearchStrategy::StaticPartition => {
            let mut path: GraphPath = Vec::new();
            let mut visit: HashSet<i64> = HashSet::new();
            dfs_parallel(start, target, max_hops, graph, &mut result, &mut path, rev, &mut visit);
        },
        SearchStrategy::WorkStealingRing => {
            dfs_donation_rounds(start, target, max_hops, graph, &mut result, rev, 4);
        },
        SearchStrategy::MutexStealing => {
            dfs_donation_rounds(start, target, max_hops, graph, &mut result, rev, 16);
        },
    }
    result
}

} // verus!
