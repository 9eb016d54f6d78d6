use vstd::prelude::*;

use crate::backend::AudioEngineStatus;
use crate::graph::{EdgeIndex, NodeIndex};

verus! {

/// The controller's mirror of the graph's structure: which nodes exist and
/// which edge joins which two nodes. It is fed from status messages and is
/// used to check edits before they are sent.
pub struct AdjacencyMatrix {
    nodes: Vec<usize>,
    edges: Vec<(usize, usize, usize)>,
}

/// The content of the mirror: the set of nodes, and each edge's endpoints by
/// edge index.
pub ghost struct Adjacency {
    pub nodes: Set<usize>,
    pub edges: Map<usize, (usize, usize)>,
}

pub open spec fn edges_map(edges: Seq<(usize, usize, usize)>) -> Map<usize, (usize, usize)>
    decreases edges.len(),
{
    if edges.len() == 0 {
        Map::empty()
    } else {
        edges_map(edges.drop_last()).insert(edges.last().0, (edges.last().1, edges.last().2))
    }
}

impl View for AdjacencyMatrix {
    type V = Adjacency;

    closed spec fn view(&self) -> Adjacency {
        Adjacency { nodes: self.nodes@.to_set(), edges: edges_map(self.edges@) }
    }
}

impl AdjacencyMatrix {
    pub closed spec fn wf(&self) -> bool {
        &&& self.nodes@.no_duplicates()
        &&& forall|i: int, j: int|
            0 <= i < self.edges@.len() && 0 <= j < self.edges@.len() && i != j ==> (#[trigger] self.edges@[i]).0
                != (#[trigger] self.edges@[j]).0
    }

    pub fn empty() -> (r: AdjacencyMatrix)
        ensures
            r.wf(),
            r@.nodes == Set::<usize>::empty(),
            r@.edges == Map::<usize, (usize, usize)>::empty(),
    {
        let r = AdjacencyMatrix { nodes: Vec::new(), edges: Vec::new() };
        proof {
            assert(r.nodes@.to_set() =~= Set::<usize>::empty());
        }
        r
    }

    /// Whether some edge leads from `src` to `dst`.
    pub fn is_adjacent(&self, src: NodeIndex, dst: NodeIndex) -> (r: bool)
        requires
            self.wf(),
        ensures
            r == exists|e: usize| #[trigger] self@.edges.contains_key(e) && self@.edges[e] == (src.0, dst.0),
    {
        proof {
            lemma_edges_map_facts(self.edges@);
        }
        let mut i: usize = 0;
        while i < self.edges.len()
            invariant
                self.wf(),
                i <= self.edges@.len(),
                forall|j: int| 0 <= j < i ==> !((#[trigger] self.edges@[j]).1 == src.0 && self.edges@[j].2 == dst.0),
            decreases self.edges@.len() - i,
        {
            let (_, s, d) = self.edges[i];
            if s == src.0 && d == dst.0 {
                proof {
                    let e = self.edges@[i as int].0;
                    assert(self@.edges == edges_map(self.edges@));
                    lemma_edges_map_facts(self.edges@);
                    assert(edges_map(self.edges@).contains_key(e));
                    assert(edges_map(self.edges@)[self.edges@[i as int].0] == (self.edges@[i as int].1, self.edges@[i as int].2));
                }
                return true;
            }
            i = i + 1;
        }
        proof {
            if exists|e: usize| #[trigger] self@.edges.contains_key(e) && self@.edges[e] == (src.0, dst.0) {
                let e = choose|e: usize| #[trigger] self@.edges.contains_key(e) && self@.edges[e] == (src.0, dst.0);
                let j = choose|j: int| 0 <= j < self.edges@.len() && self.edges@[j].0 == e;
                assert(self@.edges[self.edges@[j].0] == (self.edges@[j].1, self.edges@[j].2));
            }
        }
        false
    }

    /// Every edge, as its index and endpoints.
    pub fn edges(&self) -> (r: Vec<(EdgeIndex, NodeIndex, NodeIndex)>)
        requires
            self.wf(),
        ensures
            forall|i: int|
                0 <= i < r@.len() ==> self@.edges.contains_key((#[trigger] r@[i]).0.0) && self@.edges[r@[i].0.0]
                    == (r@[i].1.0, r@[i].2.0),
            forall|e: usize| #[trigger]
                self@.edges.contains_key(e) ==> exists|i: int| 0 <= i < r@.len() && r@[i].0.0 == e,
    {
        proof {
            lemma_edges_map_facts(self.edges@);
        }
        let mut out: Vec<(EdgeIndex, NodeIndex, NodeIndex)> = Vec::new();
        let mut i: usize = 0;
        while i < self.edges.len()
            invariant
                i <= self.edges@.len(),
                out@.len() == i,
                forall|k: int|
                    0 <= k < i ==> (#[trigger] out@[k]).0.0 == self.edges@[k].0 && out@[k].1.0 == self.edges@[k].1
                        && out@[k].2.0 == self.edges@[k].2,
            decreases self.edges@.len() - i,
        {
            let (e, s, d) = self.edges[i];
            out.push((EdgeIndex(e), NodeIndex(s), NodeIndex(d)));
            i = i + 1;
        }
        proof {
            assert forall|i: int| 0 <= i < out@.len() implies self@.edges.contains_key((#[trigger] out@[i]).0.0)
                && self@.edges[out@[i].0.0] == (out@[i].1.0, out@[i].2.0) by {
                assert(self@.edges[self.edges@[i].0] == (self.edges@[i].1, self.edges@[i].2));
            }
            assert forall|e: usize| #[trigger] self@.edges.contains_key(e) implies exists|i: int|
                0 <= i < out@.len() && out@[i].0.0 == e by {
                let j = choose|j: int| 0 <= j < self.edges@.len() && self.edges@[j].0 == e;
                assert(out@[j].0.0 == e);
            }
        }
        out
    }

    /// Every node.
    pub fn nodes(&self) -> (r: Vec<NodeIndex>)
        requires
            self.wf(),
        ensures
            r@.len() == self@.nodes.len(),
            forall|i: int| 0 <= i < r@.len() ==> self@.nodes.contains((#[trigger] r@[i]).0),
            forall|v: usize| #[trigger] self@.nodes.contains(v) ==> exists|i: int| 0 <= i < r@.len() && r@[i].0 == v,
    {
        let mut out: Vec<NodeIndex> = Vec::new();
        let mut i: usize = 0;
        while i < self.nodes.len()
            invariant
                i <= self.nodes@.len(),
                out@.len() == i,
                forall|k: int| 0 <= k < i ==> (#[trigger] out@[k]).0 == self.nodes@[k],
            decreases self.nodes@.len() - i,
        {
            out.push(NodeIndex(self.nodes[i]));
            i = i + 1;
        }
        proof {
            self.nodes@.unique_seq_to_set();
            assert forall|i: int| 0 <= i < out@.len() implies self@.nodes.contains((#[trigger] out@[i]).0) by {
                assert(self.nodes@.contains(self.nodes@[i]));
            }
            assert forall|v: usize| #[trigger] self@.nodes.contains(v) implies exists|i: int|
                0 <= i < out@.len() && out@[i].0 == v by {
                assert(self.nodes@.contains(v));
                let j = choose|j: int| 0 <= j < self.nodes@.len() && self.nodes@[j] == v;
                assert(out@[j].0 == v);
            }
        }
        out
    }

    /// Records an edge. Its endpoints are not checked and may be dangling.
    pub fn add_edge_unchecked(&mut self, index: EdgeIndex, src: NodeIndex, dst: NodeIndex)
        requires
            old(self).wf(),
        ensures
            final(self).wf(),
            final(self)@.nodes == old(self)@.nodes,
            final(self)@.edges == old(self)@.edges.insert(index.0, (src.0, dst.0)),
    {
        proof {
            lemma_edges_map_facts(self.edges@);
        }
        self.remove_edge(index);
        let ghost before = self.edges@;
        proof {
            lemma_edges_map_facts(before);
        }
        self.edges.push((index.0, src.0, dst.0));
        proof {
            assert(self.edges@.drop_last() == before);
            assert(!edges_map(before).contains_key(index.0));
            assert forall|i: int, j: int|
                0 <= i < self.edges@.len() && 0 <= j < self.edges@.len() && i != j implies (#[trigger] self.edges@[i]).0
                    != (#[trigger] self.edges@[j]).0 by {
                if i < before.len() && j < before.len() {
                    assert(before[i].0 != before[j].0);
                } else if i < before.len() {
                    assert(edges_map(before).contains_key(before[i].0));
                } else {
                    assert(edges_map(before).contains_key(before[j].0));
                }
            }
            assert(edges_map(self.edges@) =~= old(self)@.edges.insert(index.0, (src.0, dst.0)));
        }
    }

    pub fn add_node(&mut self, index: NodeIndex)
        requires
            old(self).wf(),
        ensures
            final(self).wf(),
            final(self)@.nodes == old(self)@.nodes.insert(index.0),
            final(self)@.edges == old(self)@.edges,
    {
        let mut i: usize = 0;
        while i < self.nodes.len()
            invariant
                self.wf(),
                self.nodes@ == old(self).nodes@,
                self.edges@ == old(self).edges@,
                i <= self.nodes@.len(),
                forall|j: int| 0 <= j < i ==> (#[trigger] self.nodes@[j]) != index.0,
            decreases self.nodes@.len() - i,
        {
            if self.nodes[i] == index.0 {
                proof {
                    assert(self.nodes@.contains(index.0));
                    assert(self.nodes@.to_set() =~= self.nodes@.to_set().insert(index.0));
                }
                return;
            }
            i = i + 1;
        }
        let ghost before = self.nodes@;
        self.nodes.push(index.0);
        proof {
            before.lemma_push_to_set_commute(index.0);
            assert(self.nodes@.to_set() =~= before.to_set().insert(index.0));
            assert forall|a: int, b: int| 0 <= a < self.nodes@.len() && 0 <= b < self.nodes@.len() && a != b implies self.nodes@[a]
                != self.nodes@[b] by {
                if a < before.len() && b < before.len() {
                    assert(before[a] != before[b]);
                }
            }
        }
    }

    /// Forgets a node; edges that end at it stay and dangle.
    pub fn remove_node_unchecked(&mut self, index: NodeIndex)
        requires
            old(self).wf(),
        ensures
            final(self).wf(),
            final(self)@.nodes == old(self)@.nodes.remove(index.0),
            final(self)@.edges == old(self)@.edges,
    {
        let mut i: usize = 0;
        while i < self.nodes.len()
            invariant
                self.wf(),
                i <= self.nodes@.len(),
                self.nodes@ == old(self).nodes@,
                self.edges@ == old(self).edges@,
                forall|j: int| 0 <= j < i ==> (#[trigger] self.nodes@[j]) != index.0,
            decreases self.nodes@.len() - i,
        {
            if self.nodes[i] == index.0 {
                let ghost before = self.nodes@;
                self.nodes.remove(i);
                proof {
                    assert forall|v: usize| #[trigger] self.nodes@.to_set().contains(v) == before.to_set().remove(index.0).contains(v) by {
                        if before.to_set().remove(index.0).contains(v) {
                            let j = choose|j: int| 0 <= j < before.len() && before[j] == v;
                            if j < i {
                                assert(self.nodes@[j] == v);
                            } else {
                                assert(j != i);
                                assert(self.nodes@[j - 1] == v);
                            }
                        }
                        if self.nodes@.to_set().contains(v) {
                            let j = choose|j: int| 0 <= j < self.nodes@.len() && self.nodes@[j] == v;
                            if j < i {
                                assert(before[j] == v);
                            } else {
                                assert(before[j + 1] == v);
                                assert(before[i as int] != before[j + 1]);
                            }
                        }
                    }
                    assert(self.nodes@.to_set() =~= before.to_set().remove(index.0));
                    assert forall|a: int, b: int| 0 <= a < self.nodes@.len() && 0 <= b < self.nodes@.len() && a != b implies self.nodes@[a]
                        != self.nodes@[b] by {
                        let a2 = if a < i { a } else { a + 1 };
                        let b2 = if b < i { b } else { b + 1 };
                        assert(self.nodes@[a] == before[a2]);
                        assert(self.nodes@[b] == before[b2]);
                    }
                }
                return;
            }
            i = i + 1;
        }
        proof {
            assert(self.nodes@.to_set() =~= self.nodes@.to_set().remove(index.0));
        }
    }

    pub fn remove_edge(&mut self, index: EdgeIndex)
        requires
            old(self).wf(),
        ensures
            final(self).wf(),
            final(self)@.nodes == old(self)@.nodes,
            final(self)@.edges == old(self)@.edges.remove(index.0),
    {
        let mut i: usize = 0;
        while i < self.edges.len()
            invariant
                self.wf(),
                i <= self.edges@.len(),
                self.nodes@ == old(self).nodes@,
                self.edges@ == old(self).edges@,
                forall|j: int| 0 <= j < i ==> (#[trigger] self.edges@[j]).0 != index.0,
            decreases self.edges@.len() - i,
        {
            if self.edges[i].0 == index.0 {
                let ghost before = self.edges@;
                self.edges.remove(i);
                proof {
                    lemma_edges_map_remove(before, i as int);
                    assert forall|a: int, b: int|
                        0 <= a < self.edges@.len() && 0 <= b < self.edges@.len() && a != b implies (#[trigger] self.edges@[a]).0
                            != (#[trigger] self.edges@[b]).0 by {
                        let a2 = if a < i { a } else { a + 1 };
                        let b2 = if b < i { b } else { b + 1 };
                        assert(self.edges@[a] == before[a2]);
                        assert(self.edges@[b] == before[b2]);
                        assert(before[a2].0 != before[b2].0);
                    }
                }
                return;
            }
            i = i + 1;
        }
        proof {
            lemma_edges_map_facts(self.edges@);
            assert(edges_map(self.edges@).remove(index.0) =~= edges_map(self.edges@));
        }
    }
}

impl AdjacencyMatrix {
    /// Brings the mirror up to date with one status from the audio side:
    /// added and removed nodes and edges are recorded, other statuses change
    /// nothing.
    pub fn apply_status(&mut self, status: AudioEngineStatus)
        requires
            old(self).wf(),
        ensures
            final(self).wf(),
            match status {
                AudioEngineStatus::AddNode(n) => final(self)@.nodes == old(self)@.nodes.insert(n.0)
                    && final(self)@.edges == old(self)@.edges,
                AudioEngineStatus::RemoveNode(n) => final(self)@.nodes == old(self)@.nodes.remove(n.0)
                    && final(self)@.edges == old(self)@.edges,
                AudioEngineStatus::AddEdge { index, source, destination } => final(self)@.nodes == old(
                    self,
                )@.nodes && final(self)@.edges == old(self)@.edges.insert(index.0, (source.0, destination.0)),
                AudioEngineStatus::RemoveEdge(e) => final(self)@.nodes == old(self)@.nodes && final(self)@.edges
                    == old(self)@.edges.remove(e.0),
                _ => final(self)@ == old(self)@,
            },
    {
        match status {
            AudioEngineStatus::AddNode(n) => self.add_node(n),
            AudioEngineStatus::RemoveNode(n) => self.remove_node_unchecked(n),
            AudioEngineStatus::AddEdge { index, source, destination } => self.add_edge_unchecked(
                index,
                source,
                destination,
            ),
            AudioEngineStatus::RemoveEdge(e) => self.remove_edge(e),
            _ => {},
        }
    }
}

proof fn lemma_edges_map_facts(edges: Seq<(usize, usize, usize)>)
    requires
        forall|i: int, j: int|
            0 <= i < edges.len() && 0 <= j < edges.len() && i != j ==> (#[trigger] edges[i]).0
                != (#[trigger] edges[j]).0,
    ensures
        forall|e: usize|
            #![trigger edges_map(edges).contains_key(e)]
            edges_map(edges).contains_key(e) <==> exists|i: int| 0 <= i < edges.len() && edges[i].0 == e,
        forall|i: int|
            0 <= i < edges.len() ==> #[trigger] edges_map(edges)[edges[i].0] == (edges[i].1, edges[i].2),
    decreases edges.len(),
{
    if edges.len() > 0 {
        let p = edges.drop_last();
        assert forall|i: int, j: int| 0 <= i < p.len() && 0 <= j < p.len() && i != j implies (#[trigger] p[i]).0
            != (#[trigger] p[j]).0 by {
            assert(p[i] == edges[i] && p[j] == edges[j]);
        }
        lemma_edges_map_facts(p);
        assert forall|e: usize|
            #![trigger edges_map(edges).contains_key(e)]
            edges_map(edges).contains_key(e) <==> exists|i: int| 0 <= i < edges.len() && edges[i].0 == e by {
            if e == edges.last().0 {
                assert(edges[edges.len() - 1].0 == e);
            }
            if edges_map(edges).contains_key(e) && e != edges.last().0 {
                assert(edges_map(p).contains_key(e));
                let i = choose|i: int| 0 <= i < p.len() && p[i].0 == e;
                assert(edges[i] == p[i]);
            }
            if exists|i: int| 0 <= i < edges.len() && edges[i].0 == e {
                let i = choose|i: int| 0 <= i < edges.len() && edges[i].0 == e;
                if i < p.len() {
                    assert(p[i] == edges[i]);
                    assert(edges_map(p).contains_key(e));
                }
            }
        }
        assert forall|i: int| 0 <= i < edges.len() implies #[trigger] edges_map(edges)[edges[i].0] == (
            edges[i].1,
            edges[i].2,
        ) by {
            if i < p.len() {
                assert(p[i] == edges[i]);
                assert(edges[i].0 != edges[edges.len() - 1].0);
                assert(edges_map(p)[p[i].0] == (p[i].1, p[i].2));
            }
        }
    }
}

proof fn lemma_edges_map_remove(edges: Seq<(usize, usize, usize)>, i: int)
    requires
        0 <= i < edges.len(),
        forall|a: int, b: int|
            0 <= a < edges.len() && 0 <= b < edges.len() && a != b ==> (#[trigger] edges[a]).0
                != (#[trigger] edges[b]).0,
    ensures
        edges_map(edges.remove(i)) == edges_map(edges).remove(edges[i].0),
    decreases edges.len(),
{
    let p = edges.drop_last();
    assert forall|a: int, b: int| 0 <= a < p.len() && 0 <= b < p.len() && a != b implies (#[trigger] p[a]).0
        != (#[trigger] p[b]).0 by {
        assert(p[a] == edges[a] && p[b] == edges[b]);
    }
    lemma_edges_map_facts(p);
    if i == edges.len() - 1 {
        assert(edges.remove(i) == p);
        assert forall|a: int| 0 <= a < p.len() implies p[a].0 != edges[i].0 by {
            assert(p[a] == edges[a]);
        }
        assert(!edges_map(p).contains_key(edges[i].0));
        assert(edges_map(p) =~= edges_map(edges).remove(edges[i].0));
    } else {
        let r = edges.remove(i);
        assert(r.drop_last() == p.remove(i));
        assert(r.last() == edges.last());
        lemma_edges_map_remove(p, i);
        assert(edges[i].0 != edges[edges.len() - 1].0);
        assert(edges_map(r) =~= edges_map(edges).remove(edges[i].0));
    }
}

} // verus!
