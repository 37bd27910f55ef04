//! Immutable adjacency representation of the searched graph.
//!
//! A [`Graph`] holds a forward and a reverse [`AdjacentList`]; its invariant
//! keeps the two mutual transposes, so a reverse search sees exactly the
//! forward edges turned around. Built once through the edge-insertion
//! methods, then only read.

use crate::paths::{
    lemma_contains_push, lemma_occurrences_push, nbrs_of, occurrences, transposed, with_edge,
    AdjView,
};
use std::collections::HashMap;
use vstd::prelude::*;

verus! {

/// One adjacency direction: node id to the ordered sequence of its
/// neighbours, duplicates permitted. A side list of the recorded keys
/// backs the enumeration of all nodes.
pub struct AdjacentList {
    map: HashMap<i64, Vec<i64>>,
    keys: Vec<i64>,
}

impl View for AdjacentList {
    type V = AdjView;

    closed spec fn view(&self) -> AdjView {
        Map::new(|k: i64| self.map@.contains_key(k), |k: i64| self.map@[k]@)
    }
}

/// How one recorded edge changes the edge counts: after pushing `y` onto the
/// neighbours of `x`, exactly the count of `x -> y` rises, by one.
pub proof fn lemma_count_after_push(g: AdjView, x: i64, y: i64, a: i64, c: i64)
    ensures
        occurrences(nbrs_of(with_edge(g, x, y), a), c) == occurrences(nbrs_of(g, a), c) + (if a == x
            && c == y {
            1nat
        } else {
            0nat
        }),
{
    let g1 = with_edge(g, x, y);
    if a == x {
        assert(nbrs_of(g1, a) == nbrs_of(g, x).push(y));
        lemma_occurrences_push(nbrs_of(g, x), y, c);
    } else {
        assert(nbrs_of(g1, a) == nbrs_of(g, a));
    }
}

impl AdjacentList {
    /// The key list names exactly the recorded nodes, each once.
    pub closed spec fn wf(&self) -> bool {
        &&& self.keys@.no_duplicates()
        &&& forall|k: i64| self@.contains_key(k) <==> self.keys@.contains(k)
    }

    /// An adjacency list with no recorded node.
    pub fn new() -> (r: Self)
        ensures
            r@ == Map::<i64, Seq<i64>>::empty(),
            r.wf(),
    {
        let r = AdjacentList { map: HashMap::new(), keys: Vec::new() };
        proof {
            assert(r@ =~= Map::<i64, Seq<i64>>::empty());
        }
        r
    }

    /// The stored neighbour sequence of `id`, or `None` when `id` has no
    /// recorded edges.
    pub fn get(&self, id: i64) -> (r: Option<&Vec<i64>>)
        ensures
            match r {
                Some(v) => self@.contains_key(id) && v@ == self@[id],
                None => !self@.contains_key(id),
            },
    {
        self.map.get(&id)
    }

    /// Record the edge `a -> b`, appending `b` to the neighbours of `a`.
    pub fn push_edge(&mut self, a: i64, b: i64)
        requires
            old(self).wf(),
        ensures
            final(self).wf(),
            final(self)@ == old(self)@.insert(a, nbrs_of(old(self)@, a).push(b)),
    {
        let ghost m0 = self@;
        match self.map.remove(&a) {
            Some(mut v) => {
                v.push(b);
                self.map.insert(a, v);
                proof {
                    assert(self@ =~= m0.insert(a, nbrs_of(m0, a).push(b)));
                    assert forall|k: i64| self@.contains_key(k) <==> self.keys@.contains(k) by {
                        assert(self@.contains_key(k) <==> (m0.contains_key(k) || k == a));
                    }
                }
            },
            None => {
                let mut v: Vec<i64> = Vec::new();
                v.push(b);
                self.map.insert(a, v);
                self.keys.push(a);
                proof {
                    assert(nbrs_of(m0, a) == Seq::<i64>::empty());
                    assert(v@ =~= nbrs_of(m0, a).push(b));
                    assert(self@ =~= m0.insert(a, nbrs_of(m0, a).push(b)));
                    assert(!old(self).keys@.contains(a));
                    assert forall|k: i64| self@.contains_key(k) <==> self.keys@.contains(k) by {
                        assert(self@.contains_key(k) <==> (m0.contains_key(k) || k == a));
                        lemma_contains_push(old(self).keys@, a, k);
                    }
                    assert forall|i: int, j: int|
                        0 <= i < j < self.keys@.len() implies self.keys@[i] != self.keys@[j] by {
                        if j < old(self).keys@.len() {
                        } else {
                            assert(self.keys@[j] == a);
                            assert(old(self).keys@[i] == self.keys@[i]);
                            if self.keys@[i] == a {
                                assert(old(self).keys@.contains(a));
                            }
                        }
                    }
                }
            },
        }
    }

    /// A copy of the recorded node ids, each once, in recording order.
    pub fn key_list(&self) -> (r: Vec<i64>)
        requires
            self.wf(),
        ensures
            r@.no_duplicates(),
            forall|n: i64| r@.contains(n) <==> self@.contains_key(n),
    {
        let mut out: Vec<i64> = Vec::new();
        let mut i: usize = 0;
        while i < self.keys.len()
            invariant
                0 <= i <= self.keys@.len(),
                out@ == self.keys@.take(i as int),
            decreases self.keys@.len() - i,
        {
            out.push(self.keys[i]);
            proof {
                assert(out@ =~= self.keys@.take(i as int + 1));
            }
            i = i + 1;
        }
        proof {
            assert(out@ =~= self.keys@);
        }
        out
    }
}

/// The searched graph: forward and reverse adjacency, mutual transposes,
/// read-only once built.
pub struct Graph {
    adj: AdjacentList,
    rev_adj: AdjacentList,
}

impl Graph {
    /// The forward adjacency view.
    pub closed spec fn fwd(&self) -> AdjView {
        self.adj@
    }

    /// The reverse adjacency view.
    pub closed spec fn bwd(&self) -> AdjView {
        self.rev_adj@
    }

    /// The adjacency view a search walks: reverse edges when `rev` holds.
    pub open spec fn dir_view(&self, rev: bool) -> AdjView {
        if rev {
            self.bwd()
        } else {
            self.fwd()
        }
    }

    /// Both directions are well formed and mutual transposes.
    pub closed spec fn wf(&self) -> bool {
        &&& self.adj.wf()
        &&& self.rev_adj.wf()
        &&& transposed(self.fwd(), self.bwd())
    }

    /// A well-formed graph's two directions are mutual transposes.
    pub proof fn lemma_wf_transposed(&self)
        requires
            self.wf(),
        ensures
            transposed(self.fwd(), self.bwd()),
    {
    }

    /// Wrap an already transposed pair of adjacency lists.
    pub fn new(adj: AdjacentList, rev_adj: AdjacentList) -> (r: Self)
        requires
            adj.wf(),
            rev_adj.wf(),
            transposed(adj@, rev_adj@),
        ensures
            r.wf(),
            r.fwd() == adj@,
            r.bwd() == rev_adj@,
    {
        Graph { adj, rev_adj }
    }

    /// A graph with no recorded edge.
    pub fn empty() -> (r: Self)
        ensures
            r.wf(),
            r.fwd() == Map::<i64, Seq<i64>>::empty(),
            r.bwd() == Map::<i64, Seq<i64>>::empty(),
    {
        let r = Graph { adj: AdjacentList::new(), rev_adj: AdjacentList::new() };
        proof {
            assert forall|a: i64, b: i64|
                #![trigger occurrences(nbrs_of(r.fwd(), a), b)]
                #![trigger occurrences(nbrs_of(r.bwd(), b), a)]
                occurrences(nbrs_of(r.fwd(), a), b) == occurrences(nbrs_of(r.bwd(), b), a) by {
                assert(nbrs_of(r.fwd(), a) == Seq::<i64>::empty());
                assert(nbrs_of(r.bwd(), b) == Seq::<i64>::empty());
            }
        }
        r
    }

    /// All node ids with a recorded outgoing edge, each once.
    pub fn v(&self) -> (r: Vec<i64>)
        requires
            self.wf(),
        ensures
            r@.no_duplicates(),
            forall|n: i64| r@.contains(n) <==> self.fwd().contains_key(n),
    {
        self.adj.key_list()
    }

    /// The recorded successors of `id`: one hop outward.
    pub fn out_v(&self, id: i64) -> (r: Option<&Vec<i64>>)
        ensures
            match r {
                Some(v) => self.fwd().contains_key(id) && v@ == nbrs_of(self.fwd(), id),
                None => !self.fwd().contains_key(id) && nbrs_of(self.fwd(), id)
                    == Seq::<i64>::empty(),
            },
    {
        self.adj.get(id)
    }

    /// The recorded predecessors of `id`: one hop backward.
    pub fn in_v(&self, id: i64) -> (r: Option<&Vec<i64>>)
        ensures
            match r {
                Some(v) => self.bwd().contains_key(id) && v@ == nbrs_of(self.bwd(), id),
                None => !self.bwd().contains_key(id) && nbrs_of(self.bwd(), id)
                    == Seq::<i64>::empty(),
            },
    {
        self.rev_adj.get(id)
    }

    /// The degree of `id`: its out-degree plus its in-degree.
    pub fn cal_degree(&self, id: i64) -> (r: u64)
        requires
            nbrs_of(self.fwd(), id).len() + nbrs_of(self.bwd(), id).len() <= u64::MAX,
        ensures
            r == nbrs_of(self.fwd(), id).len() + nbrs_of(self.bwd(), id).len(),
    {
        let mut ret: u64 = 0;
        if let Some(x) = self.out_v(id) {
            ret = ret + x.len() as u64;
        }
        if let Some(x) = self.in_v(id) {
            ret = ret + x.len() as u64;
        }
        ret
    }

    /// Record the directed edge `id1 -> id2` in both directions' books.
    pub fn add_directed_edge(&mut self, id1: i64, id2: i64)
        requires
            old(self).wf(),
        ensures
            final(self).wf(),
            final(self).fwd() == with_edge(old(self).fwd(), id1, id2),
            final(self).bwd() == with_edge(old(self).bwd(), id2, id1),
    {
        self.adj.push_edge(id1, id2);
        self.rev_adj.push_edge(id2, id1);
        proof {
            let f0 = old(self).fwd();
            let b0 = old(self).bwd();
            assert forall|a: i64, c: i64|
                #![trigger occurrences(nbrs_of(self.fwd(), a), c)]
                #![trigger occurrences(nbrs_of(self.bwd(), c), a)]
                occurrences(nbrs_of(self.fwd(), a), c) == occurrences(
                nbrs_of(self.bwd(), c),
                a,
            ) by {
                lemma_count_after_push(f0, id1, id2, a, c);
                lemma_count_after_push(b0, id2, id1, c, a);
                assert(occurrences(nbrs_of(f0, a), c) == occurrences(nbrs_of(b0, c), a));
            }
        }
    }

    /// Record `id1 <-> id2`: sugar for inserting both directions, exactly
    /// the directed edge `id1 -> id2` followed by `id2 -> id1`.
    pub fn add_undirected_edge(&mut self, id1: i64, id2: i64)
        requires
            old(self).wf(),
        ensures
            final(self).wf(),
            final(self).fwd() == with_edge(with_edge(old(self).fwd(), id1, id2), id2, id1),
            final(self).bwd() == with_edge(with_edge(old(self).bwd(), id2, id1), id1, id2),
    {
        self.add_directed_edge(id1, id2);
        self.add_directed_edge(id2, id1);
    }

    /// A three-node sample graph holding exactly `1 <-> 2` and `1 -> 3`.
    pub fn test() -> (r: Self)
        ensures
            r.wf(),
            r.fwd() == map![1i64 => seq![2i64, 3i64], 2i64 => seq![1i64]],
            r.bwd() == map![2i64 => seq![1i64], 1i64 => seq![2i64], 3i64 => seq![1i64]],
    {
        let mut graph = Graph::empty();
        graph.add_undirected_edge(1, 2);
        graph.add_directed_edge(1, 3);
        proof {
            let e = Map::<i64, Seq<i64>>::empty();
            let mt = Seq::<i64>::empty();
            assert(nbrs_of(e, 1) == mt && nbrs_of(e, 2) == mt && nbrs_of(e, 3) == mt);
            let f1 = with_edge(e, 1, 2);
            assert(nbrs_of(f1, 2) == mt);
            let f2 = with_edge(f1, 2, 1);
            assert(nbrs_of(f2, 1) =~= seq![2i64]);
            assert(graph.fwd() == with_edge(f2, 1, 3));
            assert(nbrs_of(graph.fwd(), 1) =~= seq![2i64, 3i64]);
            assert(nbrs_of(graph.fwd(), 2) =~= seq![1i64]);
            assert(graph.fwd() =~= map![1i64 => seq![2i64, 3i64], 2i64 => seq![1i64]]);
            let b1 = with_edge(e, 2, 1);
            assert(nbrs_of(b1, 1) == mt);
            let b2 = with_edge(b1, 1, 2);
            assert(nbrs_of(b2, 3) == mt);
            assert(graph.bwd() == with_edge(b2, 3, 1));
            assert(nbrs_of(graph.bwd(), 2) =~= seq![1i64]);
            assert(nbrs_of(graph.bwd(), 1) =~= seq![2i64]);
            assert(nbrs_of(graph.bwd(), 3) =~= seq![1i64]);
            assert(graph.bwd() =~= map![2i64 => seq![1i64], 1i64 => seq![2i64], 3i64 => seq![
                1i64,
            ]]);
        }
        graph
    }

    /// A larger sample: three hub nodes with wide fan-out plus a handful of
    /// cross edges, for exercising skewed degrees. Hub 1 ends with 12002
    /// outgoing and 1001 incoming recorded edges; node 5 with one of each.
    pub fn test_large() -> (r: Self)
        ensures
            r.wf(),
            nbrs_of(r.fwd(), 1).len() == 12002,
            nbrs_of(r.bwd(), 1).len() == 1001,
            nbrs_of(r.fwd(), 5).len() == 1,
            nbrs_of(r.bwd(), 5).len() == 1,
    {
        let mut graph = Graph::empty();
        let mut x: i64 = 1;
        while x <= 3
            invariant
                graph.wf(),
                1 <= x <= 4,
                nbrs_of(graph.fwd(), 1).len() == if x >= 2 {
                    12000int
                } else {
                    0int
                },
                nbrs_of(graph.bwd(), 1).len() == if x >= 2 {
                    1000int
                } else {
                    0int
                },
                nbrs_of(graph.fwd(), 5).len() == 0,
                nbrs_of(graph.bwd(), 5).len() == 0,
            decreases 4 - x,
        {
            add_fan(&mut graph, x, x * 1000, (x + 1) * 1000, true);
            add_fan(&mut graph, x, x * 11000, (x + 1) * 11000, false);
            x = x + 1;
        }
        graph.add_directed_edge(1, 5);
        proof {
            assert(nbrs_of(graph.fwd(), 1).len() == 12001);
            assert(nbrs_of(graph.bwd(), 1).len() == 1000);
            assert(nbrs_of(graph.fwd(), 5).len() == 0);
            assert(nbrs_of(graph.bwd(), 5).len() == 1);
        }
        graph.add_directed_edge(5, 2);
        proof {
            assert(nbrs_of(graph.fwd(), 5).len() == 1);
            assert(nbrs_of(graph.fwd(), 1).len() == 12001 && nbrs_of(graph.bwd(), 1).len()
                == 1000 && nbrs_of(graph.bwd(), 5).len() == 1);
        }
        graph.add_directed_edge(2, 3);
        graph.add_directed_edge(2, 6);
        graph.add_directed_edge(6, 7);
        graph.add_directed_edge(7, 3);
        proof {
            assert(nbrs_of(graph.fwd(), 1).len() == 12001 && nbrs_of(graph.bwd(), 1).len()
                == 1000 && nbrs_of(graph.fwd(), 5).len() == 1 && nbrs_of(graph.bwd(), 5).len()
                == 1);
        }
        graph.add_directed_edge(8, 3);
        graph.add_directed_edge(9, 3);
        graph.add_directed_edge(2, 8);
        proof {
            assert(nbrs_of(graph.fwd(), 1).len() == 12001 && nbrs_of(graph.bwd(), 1).len()
                == 1000 && nbrs_of(graph.fwd(), 5).len() == 1 && nbrs_of(graph.bwd(), 5).len()
                == 1);
        }
        graph.add_undirected_edge(1, 4);
        proof {
            assert(nbrs_of(graph.fwd(), 1).len() == 12002);
            assert(nbrs_of(graph.bwd(), 1).len() == 1001);
            assert(nbrs_of(graph.fwd(), 5).len() == 1 && nbrs_of(graph.bwd(), 5).len() == 1);
        }
        graph.add_undirected_edge(3, 4);
        graph.add_undirected_edge(8, 9);
        proof {
            assert(nbrs_of(graph.fwd(), 1).len() == 12002 && nbrs_of(graph.bwd(), 1).len()
                == 1001 && nbrs_of(graph.fwd(), 5).len() == 1 && nbrs_of(graph.bwd(), 5).len()
                == 1);
        }
        graph
    }
}

/// Record a hub's fan: one edge from `hub` to every id in `lo..hi`,
/// paired with its reverse when `undirected` holds. A sample-building aid:
/// its contract accounts for the hub's degrees and leaves every row below
/// `lo` other than the hub's untouched.
fn add_fan(graph: &mut Graph, hub: i64, lo: i64, hi: i64, undirected: bool)
    requires
        old(graph).wf(),
        lo <= hi,
        hub < lo,
    ensures
        final(graph).wf(),
        nbrs_of(final(graph).fwd(), hub).len() == nbrs_of(old(graph).fwd(), hub).len() + (hi - lo),
        nbrs_of(final(graph).bwd(), hub).len() == nbrs_of(old(graph).bwd(), hub).len() + (
        if undirected {
            hi - lo
        } else {
            0int
        }),
        forall|a: i64|
            #![trigger nbrs_of(final(graph).fwd(), a)]
            #![trigger nbrs_of(final(graph).bwd(), a)]
            a < lo && a != hub ==> nbrs_of(final(graph).fwd(), a) == nbrs_of(old(graph).fwd(), a)
                && nbrs_of(final(graph).bwd(), a) == nbrs_of(old(graph).bwd(), a),
{
    let mut i: i64 = lo;
    while i < hi
        invariant
            graph.wf(),
            lo <= i <= hi,
            hub < lo,
            nbrs_of(graph.fwd(), hub).len() == nbrs_of(old(graph).fwd(), hub).len() + (i - lo),
            nbrs_of(graph.bwd(), hub).len() == nbrs_of(old(graph).bwd(), hub).len() + (
            if undirected {
                i - lo
            } else {
                0int
            }),
            forall|a: i64|
                #![trigger nbrs_of(graph.fwd(), a)]
                #![trigger nbrs_of(graph.bwd(), a)]
                a < lo && a != hub ==> nbrs_of(graph.fwd(), a) == nbrs_of(old(graph).fwd(), a)
                    && nbrs_of(graph.bwd(), a) == nbrs_of(old(graph).bwd(), a),
        decreases hi - i,
    {
        let ghost fprev = graph.fwd();
        let ghost bprev = graph.bwd();
        if undirected {
            graph.add_undirected_edge(hub, i);
        } else {
            graph.add_directed_edge(hub, i);
        }
        proof {
            assert(hub != i);
            assert(nbrs_of(graph.fwd(), hub).len() == nbrs_of(fprev, hub).len() + 1);
            if undirected {
                assert(nbrs_of(graph.bwd(), hub).len() == nbrs_of(bprev, hub).len() + 1);
            } else {
                assert(nbrs_of(graph.bwd(), hub) == nbrs_of(bprev, hub));
            }
            assert forall|a: i64|
                a < lo && a != hub implies (#[trigger] nbrs_of(graph.fwd(), a)) == nbrs_of(
                fprev,
                a,
            ) && nbrs_of(graph.bwd(), a) == nbrs_of(bprev, a) by {
                assert(a != i);
            }
        }
        i = i + 1;
    }
}

} // verus!
