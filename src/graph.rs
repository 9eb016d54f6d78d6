use vstd::prelude::*;

use crate::arena::BufferArena;
use crate::buffer::{mix_all_into, mix_channel_into, AudioData, InterleavedBuffer, EQUILIBRIUM};
use crate::pin_matrix::{connections, lemma_connections_in_range, PinGrid, PinMatrix};
use crate::processor::{
    PassThrough, ProcessingError, ProcessingInformation, ProcessorConfiguration,
};
use crate::timing::{FrameTime, SampleRate};
use crate::track::{lemma_mix_events_shape, track_output, Track};

verus! {

/// Index of a node of a graph; stays valid while the node lives.
#[derive(Clone, Copy, Debug, PartialEq, Eq, Structural)]
pub struct NodeIndex(pub usize);

/// Index of an edge of a graph; stays valid while the edge lives.
#[derive(Clone, Copy, Debug, PartialEq, Eq, Structural)]
pub struct EdgeIndex(pub usize);

/// Why a graph refused an edit.
#[derive(Clone, Copy, Debug, PartialEq, Eq, Structural)]
pub enum GraphError {
    /// The node does not exist, or the edit would leave the output without a
    /// node.
    InvalidNode(NodeIndex),
    /// The edge would close a cycle.
    WouldCycle,
    /// The matrix does not fit: its input channels against the source's
    /// outputs, its output channels against the destination's inputs.
    InvalidPinMatrix(usize, usize),
    /// The node still takes part in an edge.
    DanglingInConnection,
}

/// A processor that can stand in a graph.
pub enum AudioNode {
    PassThrough(PassThrough),
    Track(Track),
}

impl AudioNode {
    pub open spec fn spec_config(&self) -> ProcessorConfiguration {
        match self {
            AudioNode::PassThrough(p) => p.spec_config(),
            AudioNode::Track(t) => ProcessorConfiguration {
                num_input_channels: 0,
                num_output_channels: t.spec_num_channels(),
            },
        }
    }

    pub fn config(&self) -> (r: ProcessorConfiguration)
        ensures
            r == self.spec_config(),
    {
        match self {
            AudioNode::PassThrough(p) => p.config(),
            AudioNode::Track(t) => t.config(),
        }
    }

    pub open spec fn wf(&self) -> bool {
        match self {
            AudioNode::PassThrough(_) => true,
            AudioNode::Track(t) => t.wf(),
        }
    }

    pub fn process_unchecked(
        &self,
        input: Option<&InterleavedBuffer>,
        output: &mut InterleavedBuffer,
        info: ProcessingInformation,
    )
        requires
            self.wf(),
            old(output).wf(),
            input.is_some() ==> input.unwrap().wf(),
        ensures
            final(output).wf(),
            final(output)@ == node_output(*self, input_data(input), old(output)@, info),
            final(output)@.channels == old(output)@.channels,
            final(output)@.samples.len() == old(output)@.samples.len(),
            final(output)@.sample_rate == old(output)@.sample_rate,
    {
        match self {
            AudioNode::PassThrough(p) => p.process_unchecked(input, output, info),
            AudioNode::Track(t) => {
                t.process_unchecked(output, info);
                proof {
                    if info.bpm != 0 {
                        lemma_mix_events_shape(
                            old(output)@,
                            t.spec_buffers(),
                            crate::playlist::events_of(
                                t.spec_playlist().entries(),
                                crate::playlist::MusicalRange { start: info.block_start, end: info.block_end },
                                info.bpm as nat,
                                info.sample_rate.0 as nat,
                                old(output)@.frames(),
                            ),
                        );
                    }
                }
            },
        }
    }
}

/// What `node` leaves in `out` after one block with the given input.
pub open spec fn node_output(
    node: AudioNode,
    input: Option<AudioData>,
    out: AudioData,
    info: ProcessingInformation,
) -> AudioData {
    match node {
        AudioNode::PassThrough(_) => match input {
            Some(i) => AudioData { samples: mix_all_into(out, i), ..out },
            None => out,
        },
        AudioNode::Track(t) => track_output(t.spec_playlist().entries(), t.spec_buffers(), out, info),
    }
}

pub open spec fn input_data(input: Option<&InterleavedBuffer>) -> Option<AudioData> {
    match input {
        Some(b) => Some(b@),
        None => None,
    }
}

/// The routing carried by an edge.
pub struct Connection {
    pub matrix: PinMatrix,
}

struct Edge {
    src: usize,
    dst: usize,
    connection: Connection,
}

/// The content of an edge: its endpoints and its matrix.
pub ghost struct EdgeModel {
    pub src: usize,
    pub dst: usize,
    pub matrix: PinGrid,
}

/// The structure of a graph: the configuration of each live node, each live
/// edge, the cached execution order and buffer lifetimes, and the output node.
pub ghost struct GraphModel {
    pub nodes: Seq<Option<ProcessorConfiguration>>,
    pub edges: Seq<Option<EdgeModel>>,
    pub order: Seq<usize>,
    pub lifetimes: Seq<Option<usize>>,
    pub output: usize,
}

impl GraphModel {
    pub open spec fn live(self, v: int) -> bool {
        0 <= v < self.nodes.len() && self.nodes[v].is_some()
    }

    pub open spec fn config(self, v: int) -> ProcessorConfiguration {
        self.nodes[v].unwrap()
    }

    pub open spec fn edge_live(self, e: int) -> bool {
        0 <= e < self.edges.len() && self.edges[e].is_some()
    }

    pub open spec fn edge(self, e: int) -> EdgeModel {
        self.edges[e].unwrap()
    }

    /// The matrix of `e` routes the source's outputs to the destination's
    /// inputs.
    pub open spec fn matrix_fits(self, m: PinGrid, src: int, dst: int) -> bool {
        &&& m.wf()
        &&& m.cols == self.config(src).num_output_channels
        &&& m.rows == self.config(dst).num_input_channels
    }

    /// Every live edge joins live nodes and carries a fitting matrix.
    pub open spec fn edges_valid(self) -> bool {
        forall|e: int|
            #![trigger self.edges[e]]
            self.edge_live(e) ==> {
                &&& self.live(self.edge(e).src as int)
                &&& self.live(self.edge(e).dst as int)
                &&& self.matrix_fits(self.edge(e).matrix, self.edge(e).src as int, self.edge(e).dst as int)
            }
    }

    /// `rank` grows along every live edge.
    pub open spec fn ranks_edges(self, rank: Seq<int>) -> bool {
        &&& rank.len() == self.nodes.len()
        &&& forall|e: int|
            #![trigger self.edges[e]]
            self.edge_live(e) ==> rank[self.edge(e).src as int] < rank[self.edge(e).dst as int]
    }

    /// No chain of edges leads back to where it started: the nodes can be
    /// ranked so that every edge goes up.
    pub open spec fn acyclic(self) -> bool {
        exists|rank: Seq<int>| self.ranks_edges(rank)
    }

    pub open spec fn is_parent(self, u: int, v: int) -> bool {
        exists|e: int| self.edge_live(e) && self.edge(e).src == u && self.edge(e).dst == v
    }

    /// `order` lists each live node once, and each edge's source before its
    /// destination.
    pub open spec fn order_valid(self, order: Seq<usize>) -> bool {
        &&& order.no_duplicates()
        &&& forall|i: int| 0 <= i < order.len() ==> self.live(#[trigger] order[i] as int)
        &&& forall|v: int| self.live(v) ==> #[trigger] order.contains(v as usize)
        &&& forall|e: int, j: int|
            #![trigger self.edges[e], order[j]]
            self.edge_live(e) && 0 <= j < order.len() && order[j] == self.edge(e).dst ==> exists|i: int|
                0 <= i < j && order[i] == self.edge(e).src
    }

    /// The last node among the first `k` of the order that reads the output
    /// of `u`.
    pub open spec fn last_consumer(self, u: int, k: int) -> Option<usize>
        decreases k,
    {
        if k <= 0 {
            None
        } else if self.is_parent(u, self.order[k - 1] as int) {
            Some(self.order[k - 1])
        } else {
            self.last_consumer(u, k - 1)
        }
    }

    pub open spec fn lifetimes_valid(self) -> bool {
        &&& self.lifetimes.len() == self.nodes.len()
        &&& forall|u: int|
            0 <= u < self.nodes.len() ==> #[trigger] self.lifetimes[u] == self.last_consumer(
                u,
                self.order.len() as int,
            )
    }

    pub open spec fn wf(self) -> bool {
        &&& self.live(self.output as int)
        &&& self.edges_valid()
        &&& self.order_valid(self.order)
        &&& self.lifetimes_valid()
    }

    /// The same nodes and edges: the caches aside, nothing changed.
    pub open spec fn same_structure(self, other: GraphModel) -> bool {
        &&& self.nodes == other.nodes
        &&& self.edges == other.edges
        &&& self.output == other.output
    }
}

pub open spec fn node_config(n: Option<AudioNode>) -> Option<ProcessorConfiguration> {
    match n {
        Some(p) => Some(p.spec_config()),
        None => None,
    }
}

spec fn edge_model(e: Option<Edge>) -> Option<EdgeModel> {
    match e {
        Some(e) => Some(EdgeModel { src: e.src, dst: e.dst, matrix: e.connection.matrix@ }),
        None => None,
    }
}

/// How many buffers of `c` channels one block may hold at once, counting the
/// first `n` nodes: one for each output and one for each input of that width.
pub open spec fn buffers_needed(nodes: Seq<Option<ProcessorConfiguration>>, c: nat, n: int) -> nat
    decreases n,
{
    if n <= 0 {
        0
    } else {
        buffers_needed(nodes, c, n - 1) + if 0 <= n - 1 < nodes.len() && nodes[n - 1].is_some() {
            (if nodes[n - 1].unwrap().num_output_channels == c {
                1nat
            } else {
                0nat
            }) + (if nodes[n - 1].unwrap().num_input_channels == c {
                1nat
            } else {
                0nat
            })
        } else {
            0nat
        }
    }
}

/// Emptying a slot never adds to what the nodes need.
proof fn lemma_needed_remove(nodes: Seq<Option<ProcessorConfiguration>>, i: int, c: nat, n: int)
    requires
        0 <= i < nodes.len(),
        n <= nodes.len(),
    ensures
        buffers_needed(nodes.update(i, None), c, n) <= buffers_needed(nodes, c, n),
    decreases n,
{
    if n > 0 {
        lemma_needed_remove(nodes, i, c, n - 1);
    }
}

pub open spec fn min_usize(n: nat) -> nat {
    if n <= usize::MAX {
        n
    } else {
        usize::MAX as nat
    }
}

/// A directed acyclic graph of processors whose edges route channels through
/// pin matrices, with the cached execution order and buffer lifetimes that
/// block processing walks.
pub struct AudioGraph {
    nodes: Vec<Option<AudioNode>>,
    edges: Vec<Option<Edge>>,
    execution_order: Vec<usize>,
    buffer_lifetimes: Vec<Option<usize>>,
    buffer_arena: BufferArena,
    block_size: FrameTime,
    sample_rate: SampleRate,
    output: usize,
}

impl View for AudioGraph {
    type V = GraphModel;

    closed spec fn view(&self) -> GraphModel {
        GraphModel {
            nodes: self.nodes@.map_values(|n: Option<AudioNode>| node_config(n)),
            edges: self.edges@.map_values(|e: Option<Edge>| edge_model(e)),
            order: self.execution_order@,
            lifetimes: self.buffer_lifetimes@,
            output: self.output,
        }
    }
}

/// Every live edge into `v` comes from a node that `placed` marks.
pub open spec fn parents_placed(g: GraphModel, placed: Seq<bool>, v: int) -> bool {
    forall|e: int|
        #![trigger g.edges[e]]
        g.edge_live(e) && g.edge(e).dst == v ==> placed[g.edge(e).src as int]
}

impl AudioGraph {
    pub closed spec fn arena(&self) -> BufferArena {
        self.buffer_arena
    }

    pub closed spec fn spec_block_size(&self) -> FrameTime {
        self.block_size
    }

    pub closed spec fn spec_sample_rate(&self) -> SampleRate {
        self.sample_rate
    }

    fn is_ready(&self, v: usize, placed: &Vec<bool>) -> (r: bool)
        requires
            placed@.len() == self.nodes@.len(),
            self@.edges_valid(),
        ensures
            r == parents_placed(self@, placed@, v as int),
    {
        let mut e: usize = 0;
        while e < self.edges.len()
            invariant
                placed@.len() == self.nodes@.len(),
                self@.edges_valid(),
                e <= self.edges@.len(),
                forall|f: int|
                    #![trigger self@.edges[f]]
                    0 <= f < e && self@.edge_live(f) && self@.edge(f).dst == v ==> placed@[self@.edge(f).src as int],
            decreases self.edges@.len() - e,
        {
            match &self.edges[e] {
                Some(edge) => {
                    proof {
                        assert(self@.edges[e as int] == edge_model(self.edges@[e as int]));
                    }
                    if edge.dst == v && !placed[edge.src] {
                        return false;
                    }
                },
                None => {},
            }
            e = e + 1;
        }
        true
    }

    fn find_ready(&self, placed: &Vec<bool>) -> (r: Option<usize>)
        requires
            placed@.len() == self.nodes@.len(),
            self@.edges_valid(),
        ensures
            r.is_some() ==> {
                let v = r.unwrap() as int;
                self@.live(v) && !placed@[v] && parents_placed(self@, placed@, v)
            },
            r.is_none() ==> forall|v: int|
                self@.live(v) && !placed@[v] ==> !#[trigger] parents_placed(self@, placed@, v),
    {
        let mut v: usize = 0;
        while v < self.nodes.len()
            invariant
                placed@.len() == self.nodes@.len(),
                self@.edges_valid(),
                v <= self.nodes@.len(),
                forall|w: int|
                    0 <= w < v && self@.live(w) && !placed@[w] ==> !#[trigger] parents_placed(self@, placed@, w),
            decreases self.nodes@.len() - v,
        {
            if self.nodes[v].is_some() && !placed[v] {
                if self.is_ready(v, placed) {
                    return Some(v);
                }
            }
            v = v + 1;
        }
        None
    }

    /// A topological order of the live nodes, or `None` where the edges
    /// close a cycle.
    fn topological_order(&self) -> (r: Option<Vec<usize>>)
        requires
            self@.edges_valid(),
        ensures
            r.is_some() ==> self@.order_valid(r.unwrap()@),
            r.is_none() ==> !self@.acyclic(),
    {
        let n = self.nodes.len();
        let mut placed: Vec<bool> = vec![false; n];
        let mut order: Vec<usize> = Vec::new();
        let mut progress = true;
        let ghost g = self@;
        while progress
            invariant
                g == self@,
                n == self.nodes@.len(),
                placed@.len() == n,
                g.edges_valid(),
                order@.len() <= n,
                forall|v: int| 0 <= v < n ==> (#[trigger] placed@[v] <==> order@.contains(v as usize)),
                order@.no_duplicates(),
                forall|i: int| 0 <= i < order@.len() ==> g.live(#[trigger] order@[i] as int),
                forall|e: int, j: int|
                    #![trigger g.edges[e], order@[j]]
                    g.edge_live(e) && 0 <= j < order@.len() && order@[j] == g.edge(e).dst ==> exists|i: int|
                        0 <= i < j && order@[i] == g.edge(e).src,
                !progress ==> forall|v: int|
                    g.live(v) && !placed@[v] ==> !#[trigger] parents_placed(g, placed@, v),
            decreases 2 * (n - order@.len()) + if progress {
                1int
            } else {
                0int
            },
        {
            match self.find_ready(&placed) {
                Some(v) => {
                    proof {
                        assert forall|i: int| 0 <= i < order@.len() implies (#[trigger] order@[i]) < n by {
                            assert(g.live(order@[i] as int));
                        }
                        assert(!order@.contains(v));
                        lemma_distinct_below(order@, n as int, v);
                    }
                    let ghost old_order = order@;
                    let ghost old_placed = placed@;
                    order.push(v);
                    placed.set(v, true);
                    proof {
                        assert forall|w: int| 0 <= w < n implies (#[trigger] placed@[w] <==> order@.contains(w as usize)) by {
                            if w != v {
                                assert(placed@[w] == old_placed[w]);
                                if old_order.contains(w as usize) {
                                    let i = choose|i: int| 0 <= i < old_order.len() && old_order[i] == w as usize;
                                    assert(order@[i] == w as usize);
                                }
                                if order@.contains(w as usize) {
                                    let i = choose|i: int| 0 <= i < order@.len() && order@[i] == w as usize;
                                    assert(i < old_order.len());
                                    assert(old_order[i] == w as usize);
                                }
                            } else {
                                assert(order@[old_order.len() as int] == v);
                            }
                        }
                        assert forall|i: int, j: int| 0 <= i < order@.len() && 0 <= j < order@.len() && i != j implies order@[i] != order@[j] by {
                            if i < old_order.len() && j < old_order.len() {
                                assert(old_order[i] != old_order[j]);
                            } else if i < old_order.len() {
                                assert(old_order.contains(old_order[i]));
                            } else if j < old_order.len() {
                                assert(old_order.contains(old_order[j]));
                            }
                        }
                        assert forall|i: int| 0 <= i < order@.len() implies g.live(#[trigger] order@[i] as int) by {
                            if i < old_order.len() {
                                assert(order@[i] == old_order[i]);
                            }
                        }
                        assert forall|e: int, j: int|
                            #![trigger g.edges[e], order@[j]]
                            g.edge_live(e) && 0 <= j < order@.len() && order@[j] == g.edge(e).dst implies exists|i: int|
                                0 <= i < j && order@[i] == g.edge(e).src by {
                            if j < old_order.len() {
                                assert(order@[j] == old_order[j]);
                                let i = choose|i: int| 0 <= i < j && old_order[i] == g.edge(e).src;
                                assert(order@[i] == old_order[i]);
                            } else {
                                assert(parents_placed(g, old_placed, v as int));
                                assert(g.edges[e] == g.edges[e]);
                                assert(old_placed[g.edge(e).src as int]);
                                let src = g.edge(e).src;
                                assert(old_order.contains(src));
                                let i = choose|i: int| 0 <= i < old_order.len() && old_order[i] == src;
                                assert(order@[i] == old_order[i]);
                            }
                        }
                    }
                },
                None => {
                    progress = false;
                },
            }
        }
        let mut v: usize = 0;
        while v < n
            invariant
                g == self@,
                n == self.nodes@.len(),
                placed@.len() == n,
                g.edges_valid(),
                forall|w: int| 0 <= w < n ==> (#[trigger] placed@[w] <==> order@.contains(w as usize)),
                forall|w: int| g.live(w) && !placed@[w] ==> !#[trigger] parents_placed(g, placed@, w),
                forall|w: int| 0 <= w < v && g.live(w) ==> #[trigger] placed@[w],
                v <= n,
            decreases n - v,
        {
            if self.nodes[v].is_some() && !placed[v] {
                proof {
                    assert(g.live(v as int));
                    lemma_stuck_is_cyclic(g, placed@, v as int);
                }
                return None;
            }
            v = v + 1;
        }
        proof {
            assert forall|w: int| g.live(w) implies #[trigger] order@.contains(w as usize) by {
                assert(placed@[w]);
            }
        }
        Some(order)
    }
}

/// `g` with one more edge, at the next free index.
pub open spec fn with_edge(g: GraphModel, src: usize, dst: usize, matrix: PinGrid) -> GraphModel {
    GraphModel { edges: g.edges.push(Some(EdgeModel { src, dst, matrix })), ..g }
}

impl AudioGraph {
    pub open spec fn wf(&self) -> bool {
        &&& self@.wf()
        &&& self.nodes_wf()
        &&& self.arena().wf()
        &&& self.arena().rate() == self.spec_sample_rate()
    }

    /// The nodes themselves, by index.
    pub closed spec fn spec_nodes(&self) -> Seq<Option<AudioNode>> {
        self.nodes@
    }

    /// The arena holds every buffer of `c` channels that one block may need
    /// (a width of no channels, or too wide to allocate, needs none).
    pub open spec fn pool_covers(&self, c: usize) -> bool {
        c >= 1 && self.spec_block_size().0 * c <= usize::MAX ==> self.arena().count(
            c as nat,
            self.spec_block_size().0 as nat,
        ) >= min_usize(buffers_needed(self@.nodes, c as nat, self@.nodes.len() as int))
    }

    /// The arena holds what one block needs for the width of every node's
    /// input and output.
    pub open spec fn pool_ready(&self) -> bool {
        forall|v: int|
            #![trigger self@.nodes[v]]
            self@.live(v) ==> self.pool_covers(self@.config(v).num_output_channels) && self.pool_covers(
                self@.config(v).num_input_channels,
            )
    }

    /// Every live node is well formed.
    pub closed spec fn nodes_wf(&self) -> bool {
        forall|v: int|
            0 <= v < self.nodes@.len() && (#[trigger] self.nodes@[v]).is_some() ==> self.nodes@[v].unwrap().wf()
    }

    fn compute_buffer_lifetimes(&mut self)
        requires
            old(self)@.edges_valid(),
            old(self)@.order_valid(old(self)@.order),
        ensures
            final(self).nodes == old(self).nodes,
            final(self)@ == (GraphModel { lifetimes: final(self)@.lifetimes, ..old(self)@ }),
            final(self)@.lifetimes_valid(),
            final(self).buffer_arena == old(self).buffer_arena,
            final(self).block_size == old(self).block_size,
            final(self).sample_rate == old(self).sample_rate,
    {
        let n = self.nodes.len();
        let mut lifetimes: Vec<Option<usize>> = Vec::new();
        let mut u: usize = 0;
        while u < n
            invariant
                u <= n,
                lifetimes@.len() == u,
                forall|w: int| 0 <= w < u ==> lifetimes@[w] == None::<usize>,
            decreases n - u,
        {
            lifetimes.push(None);
            u = u + 1;
        }
        let ghost g = self@;
        let mut k: usize = 0;
        while k < self.execution_order.len()
            invariant
                g == self@,
                g.edges_valid(),
                g.order_valid(g.order),
                n == g.nodes.len(),
                lifetimes@.len() == n,
                k <= g.order.len(),
                forall|w: int| 0 <= w < n ==> #[trigger] lifetimes@[w] == g.last_consumer(w, k as int),
            decreases g.order.len() - k,
        {
            let v = self.execution_order[k];
            let mut e: usize = 0;
            while e < self.edges.len()
                invariant
                    g == self@,
                    g.edges_valid(),
                    n == g.nodes.len(),
                    lifetimes@.len() == n,
                    k < g.order.len(),
                    v == g.order[k as int],
                    e <= g.edges.len(),
                    forall|w: int|
                        0 <= w < n ==> #[trigger] lifetimes@[w] == if exists|f: int|
                            0 <= f < e && g.edge_live(f) && g.edge(f).src == w && g.edge(f).dst == v {
                            Some(v)
                        } else {
                            g.last_consumer(w, k as int)
                        },
                decreases g.edges.len() - e,
            {
                let ghost before = lifetimes@;
                match &self.edges[e] {
                    Some(edge) => {
                        proof {
                            assert(g.edges[e as int] == edge_model(self.edges@[e as int]));
                        }
                        if edge.dst == v {
                            lifetimes.set(edge.src, Some(v));
                        }
                    },
                    None => {},
                }
                proof {
                    assert forall|w: int| 0 <= w < n implies #[trigger] lifetimes@[w] == if exists|f: int|
                        0 <= f < e + 1 && g.edge_live(f) && g.edge(f).src == w && g.edge(f).dst == v {
                        Some(v)
                    } else {
                        g.last_consumer(w, k as int)
                    } by {
                        if exists|f: int| 0 <= f < e && g.edge_live(f) && g.edge(f).src == w && g.edge(f).dst == v {
                            let f = choose|f: int| 0 <= f < e && g.edge_live(f) && g.edge(f).src == w && g.edge(f).dst == v;
                            assert(0 <= f < e + 1 && g.edge_live(f) && g.edge(f).src == w && g.edge(f).dst == v);
                        }
                        if g.edge_live(e as int) && g.edge(e as int).src == w && g.edge(e as int).dst == v {
                            assert(0 <= e < e + 1 && g.edge_live(e as int) && g.edge(e as int).src == w && g.edge(e as int).dst == v);
                        } else {
                            assert(lifetimes@[w] == before[w]);
                            if exists|f: int| 0 <= f < e + 1 && g.edge_live(f) && g.edge(f).src == w && g.edge(f).dst == v {
                                let f = choose|f: int| 0 <= f < e + 1 && g.edge_live(f) && g.edge(f).src == w && g.edge(f).dst == v;
                                assert(f != e);
                            }
                        }
                    }
                }
                e = e + 1;
            }
            proof {
                assert forall|w: int| 0 <= w < n implies #[trigger] lifetimes@[w] == g.last_consumer(w, k + 1) by {
                    if g.is_parent(w, v as int) {
                        let f = choose|f: int| g.edge_live(f) && g.edge(f).src == w && g.edge(f).dst == v;
                        assert(0 <= f < g.edges.len());
                    }
                }
            }
            k = k + 1;
        }
        self.buffer_lifetimes = lifetimes;
        proof {
            assert forall|w: int| 0 <= w < self@.nodes.len() implies #[trigger] self@.lifetimes[w]
                == self@.last_consumer(w, self@.order.len() as int) by {
                lemma_last_consumer_same(g, self@, w, g.order.len() as int);
            }
        }
    }

    /// Recomputes the execution order and the buffer lifetimes.
    fn recompute_caches(&mut self)
        requires
            old(self)@.edges_valid(),
            old(self)@.acyclic(),
        ensures
            final(self).nodes == old(self).nodes,
            final(self)@.same_structure(old(self)@),
            final(self)@.order_valid(final(self)@.order),
            final(self)@.lifetimes_valid(),
            final(self).buffer_arena == old(self).buffer_arena,
            final(self).block_size == old(self).block_size,
            final(self).sample_rate == old(self).sample_rate,
    {
        let ghost g = self@;
        match self.topological_order() {
            Some(order) => {
                self.execution_order = order;
                proof {
                    lemma_order_valid_same(g, self@, order@);
                }
                self.compute_buffer_lifetimes();
            },
            None => {},
        }
    }

    /// The number of buffers of `channels` channels that one block may hold
    /// at once: one per node output and one per node input of that width.
    fn buffers_required(&self, channels: usize) -> (r: usize)
        ensures
            r == min_usize(buffers_needed(self@.nodes, channels as nat, self@.nodes.len() as int)),
    {
        let mut amount: usize = 0;
        let mut v: usize = 0;
        while v < self.nodes.len()
            invariant
                v <= self.nodes@.len(),
                amount == min_usize(buffers_needed(self@.nodes, channels as nat, v as int)),
            decreases self.nodes@.len() - v,
        {
            proof {
                assert(self@.nodes[v as int] == node_config(self.nodes@[v as int]));
            }
            match &self.nodes[v] {
                Some(node) => {
                    let config = node.config();
                    if config.num_output_channels == channels && amount < usize::MAX {
                        amount = amount + 1;
                    }
                    if config.num_input_channels == channels && amount < usize::MAX {
                        amount = amount + 1;
                    }
                },
                None => {},
            }
            v = v + 1;
        }
        amount
    }

    fn ensure_buffers(&mut self, channels: usize)
        requires
            old(self).arena().wf(),
        ensures
            final(self).pool_covers(channels),
            forall|c: nat, f: nat|
                #[trigger] final(self).arena().count(c, f) >= old(self).arena().count(c, f),
            final(self).nodes == old(self).nodes,
            final(self).arena().wf(),
            final(self).arena().rate() == old(self).arena().rate(),
            final(self)@ == old(self)@,
            final(self).block_size == old(self).block_size,
            final(self).sample_rate == old(self).sample_rate,
    {
        proof {
            assert(self.block_size.0 as u128 * channels as u128 <= u64::MAX as u128 * usize::MAX as u128) by (nonlinear_arith);
        }
        if channels == 0 || self.block_size.0 as u128 * channels as u128 > usize::MAX as u128 {
            return;
        }
        let amount = self.buffers_required(channels);
        self.buffer_arena.ensure_capacity(channels, self.block_size, amount);
    }

    /// Grows the arena so that it holds the buffers one block needs.
    fn update_buffer_pool(&mut self)
        requires
            old(self).arena().wf(),
        ensures
            final(self).pool_ready(),
            final(self).nodes == old(self).nodes,
            final(self).arena().wf(),
            final(self).arena().rate() == old(self).arena().rate(),
            final(self)@ == old(self)@,
            final(self).block_size == old(self).block_size,
            final(self).sample_rate == old(self).sample_rate,
    {
        let mut v: usize = 0;
        while v < self.nodes.len()
            invariant
                self.arena().wf(),
                self.arena().rate() == old(self).arena().rate(),
                self@ == old(self)@,
                self.nodes == old(self).nodes,
                self.block_size == old(self).block_size,
                self.sample_rate == old(self).sample_rate,
                v <= self@.nodes.len(),
                forall|w: int|
                    #![trigger self@.nodes[w]]
                    0 <= w < v && self@.live(w) ==> self.pool_covers(self@.config(w).num_output_channels)
                        && self.pool_covers(self@.config(w).num_input_channels),
            decreases self@.nodes.len() - v,
        {
            proof {
                assert(self@.nodes[v as int] == node_config(self.nodes@[v as int]));
            }
            let config = match &self.nodes[v] {
                Some(node) => Some(node.config()),
                None => None,
            };
            match config {
                Some(c) => {
                    self.ensure_buffers(c.num_output_channels);
                    self.ensure_buffers(c.num_input_channels);
                },
                None => {},
            }
            v = v + 1;
        }
    }

    /// A graph of one node, which is its output.
    pub fn new(node: AudioNode, sample_rate: SampleRate, block_size: FrameTime) -> (r: (
        AudioGraph,
        NodeIndex,
    ))
        requires
            node.wf(),
        ensures
            r.0.wf(),
            r.0.pool_ready(),
            r.0.spec_nodes() == seq![Some(node)],
            r.1 == NodeIndex(0),
            r.0@.nodes == seq![Some(node.spec_config())],
            r.0@.edges.len() == 0,
            r.0@.output == 0,
            r.0.spec_sample_rate() == sample_rate,
            r.0.spec_block_size() == block_size,
    {
        let mut nodes: Vec<Option<AudioNode>> = Vec::new();
        nodes.push(Some(node));
        let mut order: Vec<usize> = Vec::new();
        order.push(0);
        let mut lifetimes: Vec<Option<usize>> = Vec::new();
        lifetimes.push(None);
        let mut graph = AudioGraph {
            nodes,
            edges: Vec::new(),
            execution_order: order,
            buffer_lifetimes: lifetimes,
            buffer_arena: BufferArena::new(sample_rate),
            block_size,
            sample_rate,
            output: 0,
        };
        proof {
            let g = graph@;
            assert(g.nodes =~= seq![Some(node.spec_config())]);
            assert(g.edges.len() == 0);
            assert(g.order[0] == 0);
            assert(g.order.contains(0));
            assert forall|u: int| 0 <= u < g.nodes.len() implies #[trigger] g.lifetimes[u] == g.last_consumer(u, g.order.len() as int) by {
                assert(!g.is_parent(u, 0));
                assert(g.last_consumer(u, 0) == None::<usize>);
            }
        }
        graph.update_buffer_pool();
        (graph, NodeIndex(0))
    }

    /// Adds a node with no edges; always succeeds.
    pub fn add_node(&mut self, weight: AudioNode) -> (r: NodeIndex)
        requires
            old(self).wf(),
            weight.wf(),
        ensures
            final(self).wf(),
            final(self).spec_nodes() == old(self).spec_nodes().push(Some(weight)),
            final(self).pool_ready(),
            r.0 == old(self)@.nodes.len(),
            final(self)@.nodes == old(self)@.nodes.push(Some(weight.spec_config())),
            final(self)@.edges == old(self)@.edges,
            final(self)@.output == old(self)@.output,
            final(self).spec_sample_rate() == old(self).spec_sample_rate(),
            final(self).spec_block_size() == old(self).spec_block_size(),
    {
        let index = self.nodes.len();
        let ghost before = self@;
        self.nodes.push(Some(weight));
        proof {
            assert forall|v: int| 0 <= v < self.nodes@.len() && (#[trigger] self.nodes@[v]).is_some() implies self.nodes@[v].unwrap().wf() by {
                if v < index {
                    assert(self.nodes@[v] == old(self).nodes@[v]);
                }
            }
            let g = self@;
            assert(g.nodes =~= before.nodes.push(Some(weight.spec_config())));
            assert(g.edges == before.edges);
            lemma_order_acyclic(before, before.order);
            let rank = choose|rank: Seq<int>| before.ranks_edges(rank);
            assert(g.ranks_edges(rank.push(0)));
            assert forall|e: int| #![trigger g.edges[e]] g.edge_live(e) implies {
                &&& g.live(g.edge(e).src as int)
                &&& g.live(g.edge(e).dst as int)
                &&& g.matrix_fits(g.edge(e).matrix, g.edge(e).src as int, g.edge(e).dst as int)
            } by {
                assert(before.edges[e] == g.edges[e]);
            }
        }
        self.recompute_caches();
        self.update_buffer_pool();
        NodeIndex(index)
    }

    /// Adds an edge from `src` to `dst` that routes through `pin_matrix`.
    pub fn add_connection(&mut self, src: NodeIndex, dst: NodeIndex, pin_matrix: PinMatrix) -> (r:
        Result<EdgeIndex, GraphError>)
        requires
            old(self).wf(),
            pin_matrix.wf(),
        ensures
            final(self).wf(),
            final(self).spec_nodes() == old(self).spec_nodes(),
            final(self).arena() == old(self).arena(),
            old(self).pool_ready() ==> final(self).pool_ready(),
            final(self).spec_sample_rate() == old(self).spec_sample_rate(),
            final(self).spec_block_size() == old(self).spec_block_size(),
            !old(self)@.live(src.0 as int) ==> r == Err::<EdgeIndex, GraphError>(GraphError::InvalidNode(src)),
            old(self)@.live(src.0 as int) && !old(self)@.live(dst.0 as int) ==> r == Err::<EdgeIndex, GraphError>(
                GraphError::InvalidNode(dst)),
            old(self)@.live(src.0 as int) && old(self)@.live(dst.0 as int) && !old(self)@.matrix_fits(
                pin_matrix@,
                src.0 as int,
                dst.0 as int,
            ) ==> r == Err::<EdgeIndex, GraphError>(
                GraphError::InvalidPinMatrix(pin_matrix@.cols as usize, pin_matrix@.rows as usize)),
            old(self)@.live(src.0 as int) && old(self)@.live(dst.0 as int) && old(self)@.matrix_fits(
                pin_matrix@,
                src.0 as int,
                dst.0 as int,
            ) ==> (r == Err::<EdgeIndex, GraphError>(GraphError::WouldCycle) <==> !with_edge(
                old(self)@,
                src.0,
                dst.0,
                pin_matrix@,
            ).acyclic()),
            old(self)@.live(src.0 as int) && old(self)@.live(dst.0 as int) && old(self)@.matrix_fits(
                pin_matrix@,
                src.0 as int,
                dst.0 as int,
            ) && with_edge(old(self)@, src.0, dst.0, pin_matrix@).acyclic() ==> r.is_ok(),
            r.is_err() ==> final(self)@ == old(self)@,
            r.is_ok() ==> {
                &&& r.unwrap().0 == old(self)@.edges.len()
                &&& final(self)@.same_structure(with_edge(old(self)@, src.0, dst.0, pin_matrix@))
            },
    {
        if src.0 >= self.nodes.len() || self.nodes[src.0].is_none() {
            return Err(GraphError::InvalidNode(src));
        }
        if dst.0 >= self.nodes.len() || self.nodes[dst.0].is_none() {
            return Err(GraphError::InvalidNode(dst));
        }
        let src_config = match &self.nodes[src.0] {
            Some(node) => node.config(),
            None => {
                return Err(GraphError::InvalidNode(src));
            },
        };
        let dst_config = match &self.nodes[dst.0] {
            Some(node) => node.config(),
            None => {
                return Err(GraphError::InvalidNode(dst));
            },
        };
        proof {
            assert(self@.nodes[src.0 as int] == node_config(self.nodes@[src.0 as int]));
            assert(self@.nodes[dst.0 as int] == node_config(self.nodes@[dst.0 as int]));
        }
        let cols = pin_matrix.input_channels();
        let rows = pin_matrix.output_channels();
        if !(cols == src_config.num_output_channels && rows == dst_config.num_input_channels) {
            return Err(GraphError::InvalidPinMatrix(cols, rows));
        }
        let index = self.edges.len();
        let ghost before = self@;
        self.edges.push(Some(Edge { src: src.0, dst: dst.0, connection: Connection { matrix: pin_matrix } }));
        proof {
            let g = self@;
            assert(g.edges =~= before.edges.push(Some(EdgeModel { src: src.0, dst: dst.0, matrix: pin_matrix@ })));
            assert(g == GraphModel { order: before.order, lifetimes: before.lifetimes, ..with_edge(before, src.0, dst.0, pin_matrix@) });
            assert forall|e: int| #![trigger g.edges[e]] g.edge_live(e) implies {
                &&& g.live(g.edge(e).src as int)
                &&& g.live(g.edge(e).dst as int)
                &&& g.matrix_fits(g.edge(e).matrix, g.edge(e).src as int, g.edge(e).dst as int)
            } by {
                if e < before.edges.len() {
                    assert(before.edges[e] == g.edges[e]);
                }
            }
        }
        let ghost g_new = self@;
        proof {
            assert(g_new == with_edge(before, src.0, dst.0, pin_matrix@));
        }
        match self.topological_order() {
            Some(order) => {
                self.execution_order = order;
                proof {
                    lemma_order_acyclic(g_new, order@);
                    lemma_order_valid_same(g_new, self@, order@);
                }
                self.compute_buffer_lifetimes();
                Ok(EdgeIndex(index))
            },
            None => {
                self.edges.pop();
                proof {
                    assert(self.edges@ =~= old(self).edges@);
                    assert(self@.edges =~= before.edges);
                    assert(self@ == before);
                }
                Err(GraphError::WouldCycle)
            },
        }
    }
}

proof fn lemma_last_consumer_same(g1: GraphModel, g2: GraphModel, u: int, k: int)
    requires
        g1.edges == g2.edges,
        g1.order == g2.order,
    ensures
        g1.last_consumer(u, k) == g2.last_consumer(u, k),
    decreases k,
{
    if k > 0 {
        lemma_last_consumer_same(g1, g2, u, k - 1);
        let v = g1.order[k - 1] as int;
        if g1.is_parent(u, v) {
            let e = choose|e: int| g1.edge_live(e) && g1.edge(e).src == u && g1.edge(e).dst == v;
            assert(g2.edge_live(e) && g2.edge(e).src == u && g2.edge(e).dst == v);
        }
        if g2.is_parent(u, v) {
            let e = choose|e: int| g2.edge_live(e) && g2.edge(e).src == u && g2.edge(e).dst == v;
            assert(g1.edge_live(e) && g1.edge(e).src == u && g1.edge(e).dst == v);
        }
    }
}

proof fn lemma_order_valid_same(g1: GraphModel, g2: GraphModel, order: Seq<usize>)
    requires
        g1.nodes == g2.nodes,
        g1.edges == g2.edges,
        g1.order_valid(order),
    ensures
        g2.order_valid(order),
{
}

/// A valid execution order ranks the nodes so that every edge goes up.
pub proof fn lemma_order_acyclic(g: GraphModel, order: Seq<usize>)
    requires
        g.edges_valid(),
        g.order_valid(order),
    ensures
        g.acyclic(),
{
    let rank = Seq::new(
        g.nodes.len(),
        |v: int|
            if order.contains(v as usize) {
                choose|i: int| 0 <= i < order.len() && order[i] == v as usize
            } else {
                0
            },
    );
    assert forall|e: int| #![trigger g.edges[e]] g.edge_live(e) implies rank[g.edge(e).src as int]
        < rank[g.edge(e).dst as int] by {
        let src = g.edge(e).src;
        let dst = g.edge(e).dst;
        assert(g.live(src as int));
        assert(g.live(dst as int));
        assert(order.contains((src as int) as usize));
        assert(order.contains((dst as int) as usize));
        let j = choose|i: int| 0 <= i < order.len() && order[i] == dst;
        assert(rank[dst as int] == j);
        assert(order[j] == dst);
        let i = choose|i: int| 0 <= i < j && order[i] == src;
        let i2 = choose|i: int| 0 <= i < order.len() && order[i] == src;
        assert(rank[src as int] == i2);
        assert(i == i2);
    }
    assert(g.ranks_edges(rank));
}

impl AudioGraph {
    /// Swaps the matrix of a live edge for one that fits its endpoints and
    /// returns the old one; `None`, and no change, otherwise.
    pub fn update_connection(&mut self, edge_index: EdgeIndex, matrix: PinMatrix) -> (r: Option<
        PinMatrix,
    >)
        requires
            old(self).wf(),
            matrix.wf(),
        ensures
            final(self).wf(),
            final(self).spec_nodes() == old(self).spec_nodes(),
            final(self).arena() == old(self).arena(),
            old(self).pool_ready() ==> final(self).pool_ready(),
            final(self).spec_sample_rate() == old(self).spec_sample_rate(),
            final(self).spec_block_size() == old(self).spec_block_size(),
            r.is_some() <==> old(self)@.edge_live(edge_index.0 as int) && old(self)@.matrix_fits(
                matrix@,
                old(self)@.edge(edge_index.0 as int).src as int,
                old(self)@.edge(edge_index.0 as int).dst as int,
            ),
            r.is_some() ==> {
                &&& r.unwrap()@ == old(self)@.edge(edge_index.0 as int).matrix
                &&& final(self)@ == (GraphModel {
                    edges: old(self)@.edges.update(
                        edge_index.0 as int,
                        Some(EdgeModel { matrix: matrix@, ..old(self)@.edge(edge_index.0 as int) }),
                    ),
                    ..old(self)@
                })
            },
            r.is_none() ==> final(self)@ == old(self)@,
    {
        let i = edge_index.0;
        if i >= self.edges.len() {
            return None;
        }
        let (src, dst) = match &self.edges[i] {
            Some(edge) => (edge.src, edge.dst),
            None => {
                return None;
            },
        };
        proof {
            assert(self@.edges[i as int] == edge_model(self.edges@[i as int]));
            assert(self@.live(src as int) && self@.live(dst as int));
            assert(self@.nodes[src as int] == node_config(self.nodes@[src as int]));
            assert(self@.nodes[dst as int] == node_config(self.nodes@[dst as int]));
        }
        let src_out = match &self.nodes[src] {
            Some(node) => node.config().num_output_channels,
            None => {
                return None;
            },
        };
        let dst_in = match &self.nodes[dst] {
            Some(node) => node.config().num_input_channels,
            None => {
                return None;
            },
        };
        if !(matrix.input_channels() == src_out && matrix.output_channels() == dst_in) {
            return None;
        }
        let ghost before = self@;
        let mut taken: Option<Edge> = None;
        core::mem::swap(&mut self.edges[i], &mut taken);
        match taken {
            Some(mut edge) => {
                let mut m = matrix;
                core::mem::swap(&mut edge.connection.matrix, &mut m);
                self.edges.set(i, Some(edge));
                proof {
                    let g = self@;
                    let want = GraphModel {
                        edges: before.edges.update(
                            i as int,
                            Some(EdgeModel { matrix: matrix@, ..before.edge(i as int) }),
                        ),
                        ..before
                    };
                    assert(g.edges =~= want.edges);
                    assert(g == want);
                    assert forall|e: int| #![trigger g.edges[e]] g.edge_live(e) implies {
                        &&& g.live(g.edge(e).src as int)
                        &&& g.live(g.edge(e).dst as int)
                        &&& g.matrix_fits(g.edge(e).matrix, g.edge(e).src as int, g.edge(e).dst as int)
                    } by {
                        if e != i {
                            assert(before.edges[e] == g.edges[e]);
                        }
                    }
                    lemma_order_valid_same_endpoints(before, g);
                    assert forall|w: int| 0 <= w < g.nodes.len() implies #[trigger] g.lifetimes[w]
                        == g.last_consumer(w, g.order.len() as int) by {
                        lemma_last_consumer_same_endpoints(before, g, w, g.order.len() as int);
                    }
                }
                Some(m)
            },
            None => None,
        }
    }

    /// Removes a live edge and hands back its connection.
    pub fn remove_connection(&mut self, edge_index: EdgeIndex) -> (r: Option<Connection>)
        requires
            old(self).wf(),
        ensures
            final(self).wf(),
            final(self).spec_nodes() == old(self).spec_nodes(),
            final(self).arena() == old(self).arena(),
            old(self).pool_ready() ==> final(self).pool_ready(),
            final(self).spec_sample_rate() == old(self).spec_sample_rate(),
            final(self).spec_block_size() == old(self).spec_block_size(),
            r.is_some() <==> old(self)@.edge_live(edge_index.0 as int),
            r.is_some() ==> {
                &&& r.unwrap().matrix@ == old(self)@.edge(edge_index.0 as int).matrix
                &&& final(self)@.same_structure(
                    GraphModel { edges: old(self)@.edges.update(edge_index.0 as int, None), ..old(self)@ },
                )
            },
            r.is_none() ==> final(self)@ == old(self)@,
    {
        let i = edge_index.0;
        if i >= self.edges.len() || self.edges[i].is_none() {
            return None;
        }
        let ghost before = self@;
        let mut taken: Option<Edge> = None;
        core::mem::swap(&mut self.edges[i], &mut taken);
        proof {
            let g = self@;
            assert(g.edges =~= before.edges.update(i as int, None));
            assert forall|e: int| #![trigger g.edges[e]] g.edge_live(e) implies {
                &&& g.live(g.edge(e).src as int)
                &&& g.live(g.edge(e).dst as int)
                &&& g.matrix_fits(g.edge(e).matrix, g.edge(e).src as int, g.edge(e).dst as int)
            } by {
                assert(before.edges[e] == g.edges[e]);
            }
            lemma_order_acyclic(before, before.order);
            let rank = choose|rank: Seq<int>| before.ranks_edges(rank);
            assert forall|e: int| #![trigger g.edges[e]] g.edge_live(e) implies rank[g.edge(e).src as int]
                < rank[g.edge(e).dst as int] by {
                assert(before.edges[e] == g.edges[e]);
            }
            assert(g.ranks_edges(rank));
        }
        self.recompute_caches();
        match taken {
            Some(edge) => {
                proof {
                    assert(before.edges[i as int] == edge_model(old(self).edges@[i as int]));
                }
                Some(edge.connection)
            },
            None => None,
        }
    }

    /// Whether some live edge starts or ends at `index`.
    fn in_connection(&self, index: usize) -> (r: bool)
        ensures
            r == exists|e: int|
                #![trigger self@.edges[e]]
                self@.edge_live(e) && (self@.edge(e).src == index || self@.edge(e).dst == index),
    {
        let mut e: usize = 0;
        while e < self.edges.len()
            invariant
                e <= self.edges@.len(),
                forall|f: int|
                    #![trigger self@.edges[f]]
                    0 <= f < e && self@.edge_live(f) ==> !(self@.edge(f).src == index || self@.edge(f).dst == index),
            decreases self.edges@.len() - e,
        {
            match &self.edges[e] {
                Some(edge) => {
                    proof {
                        assert(self@.edges[e as int] == edge_model(self.edges@[e as int]));
                    }
                    if edge.src == index || edge.dst == index {
                        return true;
                    }
                },
                None => {},
            }
            e = e + 1;
        }
        false
    }

    /// Removes a node that is not the output and takes part in no edge.
    pub fn remove_node(&mut self, index: NodeIndex) -> (r: Result<Option<AudioNode>, GraphError>)
        requires
            old(self).wf(),
        ensures
            final(self).wf(),
            final(self).arena() == old(self).arena(),
            old(self).pool_ready() ==> final(self).pool_ready(),
            index.0 != old(self)@.output && !(exists|e: int|
                #![trigger old(self)@.edges[e]]
                old(self)@.edge_live(e) && (old(self)@.edge(e).src == index.0 || old(self)@.edge(e).dst
                    == index.0)) ==> r.is_ok(),
            r.is_err() ==> final(self).spec_nodes() == old(self).spec_nodes(),
            r.is_ok() ==> r.unwrap() == (if index.0 < old(self).spec_nodes().len() {
                old(self).spec_nodes()[index.0 as int]
            } else {
                None
            }) && final(self).spec_nodes() == (if index.0 < old(self).spec_nodes().len() {
                old(self).spec_nodes().update(index.0 as int, None)
            } else {
                old(self).spec_nodes()
            }),
            final(self).spec_sample_rate() == old(self).spec_sample_rate(),
            final(self).spec_block_size() == old(self).spec_block_size(),
            index.0 == old(self)@.output ==> r == Err::<Option<AudioNode>, GraphError>(
                GraphError::InvalidNode(index)),
            index.0 != old(self)@.output && (exists|e: int|
                #![trigger old(self)@.edges[e]]
                old(self)@.edge_live(e) && (old(self)@.edge(e).src == index.0 || old(self)@.edge(e).dst
                    == index.0)) ==> r == Err::<Option<AudioNode>, GraphError>(
                GraphError::DanglingInConnection),
            r.is_err() ==> final(self)@ == old(self)@,
            r.is_ok() ==> {
                &&& (r.unwrap().is_some() <==> old(self)@.live(index.0 as int))
                &&& r.unwrap().is_some() ==> r.unwrap().unwrap().spec_config() == old(self)@.config(index.0 as int)
                &&& final(self)@.same_structure(
                    if old(self)@.live(index.0 as int) {
                        GraphModel { nodes: old(self)@.nodes.update(index.0 as int, None), ..old(self)@ }
                    } else {
                        old(self)@
                    },
                )
            },
    {
        if index.0 == self.output {
            return Err(GraphError::InvalidNode(index));
        }
        if self.in_connection(index.0) {
            return Err(GraphError::DanglingInConnection);
        }
        if index.0 >= self.nodes.len() || self.nodes[index.0].is_none() {
            return Ok(None);
        }
        let ghost before = self@;
        let mut taken: Option<AudioNode> = None;
        core::mem::swap(&mut self.nodes[index.0], &mut taken);
        proof {
            assert forall|v: int| 0 <= v < self.nodes@.len() && (#[trigger] self.nodes@[v]).is_some() implies self.nodes@[v].unwrap().wf() by {
                assert(self.nodes@[v] == old(self).nodes@[v]);
            }
            let g = self@;
            assert(g.nodes =~= before.nodes.update(index.0 as int, None));
            assert(before.nodes[index.0 as int] == node_config(old(self).nodes@[index.0 as int]));
            assert forall|e: int| #![trigger g.edges[e]] g.edge_live(e) implies {
                &&& g.live(g.edge(e).src as int)
                &&& g.live(g.edge(e).dst as int)
                &&& g.matrix_fits(g.edge(e).matrix, g.edge(e).src as int, g.edge(e).dst as int)
            } by {
                assert(before.edges[e] == g.edges[e]);
                assert(before.edge_live(e));
            }
            lemma_order_acyclic(before, before.order);
            let rank = choose|rank: Seq<int>| before.ranks_edges(rank);
            assert(g.ranks_edges(rank));
            assert(g.live(g.output as int));
        }
        self.recompute_caches();
        proof {
            let i = index.0 as int;
            assert(self@.nodes == old(self)@.nodes.update(i, None));
            if old(self).pool_ready() {
                assert forall|v: int| #![trigger self@.nodes[v]] self@.live(v) implies self.pool_covers(
                    self@.config(v).num_output_channels,
                ) && self.pool_covers(self@.config(v).num_input_channels) by {
                    assert(old(self)@.nodes[v] == self@.nodes[v]);
                    assert(old(self)@.live(v));
                    assert(old(self).pool_covers(old(self)@.config(v).num_output_channels));
                    assert(old(self).pool_covers(old(self)@.config(v).num_input_channels));
                    lemma_needed_remove(old(self)@.nodes, i, self@.config(v).num_output_channels as nat, self@.nodes.len() as int);
                    lemma_needed_remove(old(self)@.nodes, i, self@.config(v).num_input_channels as nat, self@.nodes.len() as int);
                }
            }
        }
        Ok(taken)
    }

    /// Recomputes the cached execution order and buffer lifetimes from the
    /// current nodes and edges.
    pub fn recompute_execution_order(&mut self)
        requires
            old(self).wf(),
        ensures
            final(self).wf(),
            final(self)@.same_structure(old(self)@),
            final(self)@.order_valid(final(self)@.order),
            final(self)@.lifetimes_valid(),
            final(self).spec_nodes() == old(self).spec_nodes(),
            final(self).arena() == old(self).arena(),
            final(self).spec_block_size() == old(self).spec_block_size(),
            final(self).spec_sample_rate() == old(self).spec_sample_rate(),
            old(self).pool_ready() ==> final(self).pool_ready(),
    {
        proof {
            lemma_order_acyclic(self@, self@.order);
        }
        let ghost before = self@;
        self.recompute_caches();
        proof {
            let g = self@;
            assert forall|e: int| #![trigger g.edges[e]] g.edge_live(e) implies {
                &&& g.live(g.edge(e).src as int)
                &&& g.live(g.edge(e).dst as int)
                &&& g.matrix_fits(g.edge(e).matrix, g.edge(e).src as int, g.edge(e).dst as int)
            } by {
                assert(before.edges[e] == g.edges[e]);
            }
        }
    }

    /// Makes a live node the output.
    pub fn set_output_index(&mut self, index: NodeIndex) -> (r: Result<(), GraphError>)
        requires
            old(self).wf(),
        ensures
            final(self).wf(),
            final(self).spec_nodes() == old(self).spec_nodes(),
            final(self).arena() == old(self).arena(),
            old(self).pool_ready() ==> final(self).pool_ready(),
            final(self).spec_sample_rate() == old(self).spec_sample_rate(),
            final(self).spec_block_size() == old(self).spec_block_size(),
            r.is_ok() <==> old(self)@.live(index.0 as int),
            r.is_ok() ==> final(self)@ == (GraphModel { output: index.0, ..old(self)@ }),
            r.is_err() ==> r == Err::<(), GraphError>(GraphError::InvalidNode(index)) && final(self)@
                == old(self)@,
    {
        if index.0 < self.nodes.len() && self.nodes[index.0].is_some() {
            proof {
                assert(self@.nodes[index.0 as int] == node_config(self.nodes@[index.0 as int]));
            }
            let ghost before = self@;
            self.output = index.0;
            proof {
                lemma_wf_other_output(before, self@);
            }
            Ok(())
        } else {
            proof {
                if index.0 < self.nodes.len() {
                    assert(self@.nodes[index.0 as int] == node_config(self.nodes@[index.0 as int]));
                }
            }
            Err(GraphError::InvalidNode(index))
        }
    }

    /// Changes the block size, growing the arena to match; returns the old
    /// size.
    pub fn set_block_size(&mut self, block_size: FrameTime) -> (r: FrameTime)
        requires
            old(self).wf(),
        ensures
            final(self).wf(),
            final(self).spec_nodes() == old(self).spec_nodes(),
            final(self).pool_ready(),
            final(self)@ == old(self)@,
            r == old(self).spec_block_size(),
            final(self).spec_block_size() == block_size,
            final(self).spec_sample_rate() == old(self).spec_sample_rate(),
    {
        let old_size = self.block_size;
        self.block_size = block_size;
        self.update_buffer_pool();
        old_size
    }

    pub fn get_output_index(&self) -> (r: NodeIndex)
        ensures
            r.0 == self@.output,
    {
        NodeIndex(self.output)
    }

    pub fn get_node_config(&self, index: NodeIndex) -> (r: Option<ProcessorConfiguration>)
        ensures
            r.is_some() <==> self@.live(index.0 as int),
            r.is_some() ==> r.unwrap() == self@.config(index.0 as int),
    {
        if index.0 < self.nodes.len() {
            proof {
                assert(self@.nodes[index.0 as int] == node_config(self.nodes@[index.0 as int]));
            }
            match &self.nodes[index.0] {
                Some(node) => Some(node.config()),
                None => None,
            }
        } else {
            None
        }
    }

    pub fn sample_rate(&self) -> (r: SampleRate)
        ensures
            r == self.spec_sample_rate(),
    {
        self.sample_rate
    }

    pub fn block_size(&self) -> (r: FrameTime)
        ensures
            r == self.spec_block_size(),
    {
        self.block_size
    }

    /// The cached execution order.
    pub fn execution_order(&self) -> (r: Vec<NodeIndex>)
        ensures
            r@.len() == self@.order.len(),
            forall|i: int| 0 <= i < r@.len() ==> (#[trigger] r@[i]).0 == self@.order[i],
    {
        let mut out: Vec<NodeIndex> = Vec::new();
        let mut i: usize = 0;
        while i < self.execution_order.len()
            invariant
                i <= self@.order.len(),
                out@.len() == i,
                forall|k: int| 0 <= k < i ==> (#[trigger] out@[k]).0 == self@.order[k],
            decreases self@.order.len() - i,
        {
            out.push(NodeIndex(self.execution_order[i]));
            i = i + 1;
        }
        out
    }

    /// The node after which the output of `index` is no longer read.
    pub fn buffer_lifetime(&self, index: NodeIndex) -> (r: Option<NodeIndex>)
        ensures
            index.0 < self@.lifetimes.len() ==> match self@.lifetimes[index.0 as int] {
                Some(v) => r == Some(NodeIndex(v)),
                None => r.is_none(),
            },
            index.0 >= self@.lifetimes.len() ==> r.is_none(),
    {
        if index.0 < self.buffer_lifetimes.len() {
            match self.buffer_lifetimes[index.0] {
                Some(v) => Some(NodeIndex(v)),
                None => None,
            }
        } else {
            None
        }
    }

    /// How many free buffers the arena holds in all.
    pub fn free_buffers(&self) -> (r: usize)
        requires
            self.wf(),
        ensures
            r == self.arena().total() || (r == usize::MAX && self.arena().total() >= usize::MAX),
    {
        self.buffer_arena.size_of_queues()
    }
}

proof fn lemma_wf_other_output(g1: GraphModel, g2: GraphModel)
    requires
        g1.wf(),
        g2 == (GraphModel { output: g2.output, ..g1 }),
        g2.live(g2.output as int),
    ensures
        g2.wf(),
{
    lemma_order_valid_same(g1, g2, g1.order);
    assert forall|e: int| #![trigger g2.edges[e]] g2.edge_live(e) implies {
        &&& g2.live(g2.edge(e).src as int)
        &&& g2.live(g2.edge(e).dst as int)
        &&& g2.matrix_fits(g2.edge(e).matrix, g2.edge(e).src as int, g2.edge(e).dst as int)
    } by {
        assert(g1.edges[e] == g2.edges[e]);
    }
    assert forall|w: int| 0 <= w < g2.nodes.len() implies #[trigger] g2.lifetimes[w] == g2.last_consumer(
        w,
        g2.order.len() as int,
    ) by {
        assert(g1.lifetimes[w] == g1.last_consumer(w, g1.order.len() as int));
        lemma_last_consumer_same(g1, g2, w, g2.order.len() as int);
    }
}

proof fn lemma_order_valid_same_endpoints(g1: GraphModel, g2: GraphModel)
    requires
        g1.nodes == g2.nodes,
        g1.order == g2.order,
        g1.edges.len() == g2.edges.len(),
        forall|e: int|
            0 <= e < g1.edges.len() ==> (#[trigger] g1.edges[e]).is_some() == g2.edges[e].is_some() && (
            g1.edges[e].is_some() ==> g1.edges[e].unwrap().src == g2.edges[e].unwrap().src
                && g1.edges[e].unwrap().dst == g2.edges[e].unwrap().dst),
        g1.order_valid(g1.order),
    ensures
        g2.order_valid(g2.order),
{
    assert forall|e: int, j: int|
        #![trigger g2.edges[e], g2.order[j]]
        g2.edge_live(e) && 0 <= j < g2.order.len() && g2.order[j] == g2.edge(e).dst implies exists|i: int|
            0 <= i < j && g2.order[i] == g2.edge(e).src by {
        assert(g1.edges[e].is_some());
        assert(g1.edge_live(e) && g1.order[j] == g1.edge(e).dst);
    }
}

proof fn lemma_last_consumer_same_endpoints(g1: GraphModel, g2: GraphModel, u: int, k: int)
    requires
        g1.order == g2.order,
        g1.edges.len() == g2.edges.len(),
        forall|e: int|
            0 <= e < g1.edges.len() ==> (#[trigger] g1.edges[e]).is_some() == g2.edges[e].is_some() && (
            g1.edges[e].is_some() ==> g1.edges[e].unwrap().src == g2.edges[e].unwrap().src
                && g1.edges[e].unwrap().dst == g2.edges[e].unwrap().dst),
    ensures
        g1.last_consumer(u, k) == g2.last_consumer(u, k),
    decreases k,
{
    if k > 0 {
        lemma_last_consumer_same_endpoints(g1, g2, u, k - 1);
        let v = g1.order[k - 1] as int;
        if g1.is_parent(u, v) {
            let e = choose|e: int| g1.edge_live(e) && g1.edge(e).src == u && g1.edge(e).dst == v;
            assert(g2.edge_live(e) && g2.edge(e).src == u && g2.edge(e).dst == v);
        }
        if g2.is_parent(u, v) {
            let e = choose|e: int| g2.edge_live(e) && g2.edge(e).src == u && g2.edge(e).dst == v;
            assert(g1.edges[e].is_some());
            assert(g1.edge_live(e) && g1.edge(e).src == u && g1.edge(e).dst == v);
        }
    }
}

/// `acc` with each listed `(parent channel, channel)` pin of `parent` added
/// in, in order, over the frames that both have.
pub open spec fn mix_pins(acc: AudioData, parent: AudioData, pins: Seq<(usize, usize)>) -> AudioData
    decreases pins.len(),
{
    if pins.len() == 0 {
        acc
    } else {
        let a = mix_pins(acc, parent, pins.drop_last());
        AudioData {
            samples: mix_channel_into(
                a,
                parent,
                pins.last().0 as int,
                pins.last().1 as int,
                if a.frames() <= parent.frames() { a.frames() } else { parent.frames() },
            ),
            ..a
        }
    }
}

/// `acc` with the cached output of the source of each of the first `e`
/// edges into `v` added in through the edge's matrix, edge by edge in
/// storage order; an edge whose source has no cached output adds nothing.
pub open spec fn mix_edges(
    acc: AudioData,
    g: GraphModel,
    cache: Seq<Option<InterleavedBuffer>>,
    v: int,
    e: int,
) -> AudioData
    decreases e,
{
    if e <= 0 {
        acc
    } else {
        let a = mix_edges(acc, g, cache, v, e - 1);
        if g.edge_live(e - 1) && g.edge(e - 1).dst == v && cache[g.edge(e - 1).src as int].is_some() {
            mix_pins(a, cache[g.edge(e - 1).src as int].unwrap()@, connections(g.edge(e - 1).matrix))
        } else {
            a
        }
    }
}

/// A silent buffer of the given shape.
pub open spec fn silent(channels: nat, frames: nat, rate: nat) -> AudioData {
    AudioData { channels, sample_rate: rate, samples: Seq::new(channels * frames, |i: int| EQUILIBRIUM) }
}

/// The external inputs as node and content.
pub open spec fn input_contents(inputs: Seq<(NodeIndex, &InterleavedBuffer)>) -> Seq<(NodeIndex, AudioData)> {
    inputs.map_values(|p: (NodeIndex, &InterleavedBuffer)| (p.0, p.1@))
}

/// The first of the first `n` external inputs that is meant for `v`.
pub open spec fn external_input(inputs: Seq<(NodeIndex, AudioData)>, v: usize, n: int) -> Option<AudioData>
    decreases n,
{
    if n <= 0 {
        None
    } else {
        match external_input(inputs, v, n - 1) {
            Some(d) => Some(d),
            None => if inputs[n - 1].0.0 == v {
                Some(inputs[n - 1].1)
            } else {
                None
            },
        }
    }
}

/// The input that node `v` reads, given the cached outputs: its external
/// input if it has one, nothing if it takes no input, else its parents
/// mixed into a silent buffer.
pub open spec fn node_input(
    g: GraphModel,
    inputs: Seq<(NodeIndex, AudioData)>,
    cache: Seq<Option<InterleavedBuffer>>,
    v: usize,
    frames: nat,
    rate: nat,
) -> Option<AudioData> {
    match external_input(inputs, v, inputs.len() as int) {
        Some(d) => Some(d),
        None => if g.config(v as int).num_input_channels == 0 {
            None
        } else {
            Some(
                mix_edges(
                    silent(g.config(v as int).num_input_channels as nat, frames, rate),
                    g,
                    cache,
                    v as int,
                    g.edges.len() as int,
                ),
            )
        },
    }
}

proof fn lemma_external_input_first(inputs: Seq<(NodeIndex, AudioData)>, v: usize, n: int, i: int)
    requires
        0 <= i < n <= inputs.len(),
        inputs[i].0.0 == v,
        forall|j: int| 0 <= j < i ==> (#[trigger] inputs[j]).0.0 != v,
    ensures
        external_input(inputs, v, n) == Some(inputs[i].1),
    decreases n,
{
    if n - 1 > i {
        lemma_external_input_first(inputs, v, n - 1, i);
    } else {
        lemma_external_input_none(inputs, v, i);
    }
}

proof fn lemma_external_input_none(inputs: Seq<(NodeIndex, AudioData)>, v: usize, n: int)
    requires
        n <= inputs.len(),
        forall|j: int| 0 <= j < n ==> (#[trigger] inputs[j]).0.0 != v,
    ensures
        external_input(inputs, v, n) == None::<AudioData>,
    decreases n,
{
    if n > 0 {
        lemma_external_input_none(inputs, v, n - 1);
    }
}

/// A silent well-formed buffer is the silent buffer of its shape.
proof fn lemma_silent_buffer(b: AudioData, channels: nat, frames: nat, rate: nat)
    requires
        b.wf(),
        b.channels == channels,
        b.frames() == frames,
        b.sample_rate == rate,
        b.is_silent(),
    ensures
        b == silent(channels, frames, rate),
{
    let c = channels as int;
    let n = b.samples.len() as int;
    vstd::arithmetic::div_mod::lemma_fundamental_div_mod(n, c);
    assert(n == c * frames) by (nonlinear_arith)
        requires
            n == c * (n / c) + n % c,
            n % c == 0,
            frames == n / c,
    ;
    assert(b.samples =~= silent(channels, frames, rate).samples);
}

/// What block processing works from: the nodes, the structure, the external
/// inputs, the block length in frames, the sample rate of the arena's
/// buffers, the block information and the caller's output buffer as handed
/// in.
pub ghost struct RenderSetup {
    pub nodes: Seq<Option<AudioNode>>,
    pub g: GraphModel,
    pub inputs: Seq<(NodeIndex, AudioData)>,
    pub frames: nat,
    pub rate: nat,
    pub info: ProcessingInformation,
    pub out0: AudioData,
}

/// Where `v` stands in `order`; `-1` where it does not.
pub open spec fn position(order: Seq<usize>, v: usize) -> int {
    if order.contains(v) {
        choose|i: int| 0 <= i < order.len() && order[i] == v
    } else {
        -1
    }
}

/// The output of the node at position `k` of the execution order: the node
/// run on its input, into the caller's buffer if it is the output node and
/// into a silent buffer otherwise.
pub open spec fn rendered(s: RenderSetup, k: int) -> AudioData
    decreases k, s.g.edges.len() + 1,
{
    let v = s.g.order[k];
    let cfg = s.g.config(v as int);
    let target = if v == s.g.output {
        s.out0
    } else {
        silent(cfg.num_output_channels as nat, s.frames, s.rate)
    };
    let input = match external_input(s.inputs, v, s.inputs.len() as int) {
        Some(d) => Some(d),
        None => if cfg.num_input_channels == 0 {
            None
        } else {
            Some(mixed_input(s, k, s.g.edges.len() as int))
        },
    };
    node_output(s.nodes[v as int].unwrap(), input, target, s.info)
}

/// A silent buffer with the rendered output of the source of each of the
/// first `e` edges into the node at position `k` mixed in through the edge's
/// matrix. The output node renders into the caller's buffer and feeds no
/// other node.
pub open spec fn mixed_input(s: RenderSetup, k: int, e: int) -> AudioData
    decreases k, e,
{
    let v = s.g.order[k];
    if e <= 0 {
        silent(s.g.config(v as int).num_input_channels as nat, s.frames, s.rate)
    } else {
        let a = mixed_input(s, k, e - 1);
        let src = s.g.edge(e - 1).src;
        let p = position(s.g.order, src);
        if s.g.edge_live(e - 1) && s.g.edge(e - 1).dst == v && src != s.g.output && 0 <= p < k {
            mix_pins(a, rendered(s, p), connections(s.g.edge(e - 1).matrix))
        } else {
            a
        }
    }
}

/// The setup of one block of `graph` with these inputs, block information
/// and output buffer.
pub open spec fn setup_of(
    graph: AudioGraph,
    inputs: Seq<(NodeIndex, &InterleavedBuffer)>,
    info: ProcessingInformation,
    out0: AudioData,
) -> RenderSetup {
    RenderSetup {
        nodes: graph.spec_nodes(),
        g: graph@,
        inputs: input_contents(inputs),
        frames: graph.spec_block_size().0 as nat,
        rate: graph.spec_sample_rate().0 as nat,
        info,
        out0,
    }
}

proof fn lemma_order_valid_facts(g: GraphModel)
    requires
        g.wf(),
    ensures
        g.order.no_duplicates(),
        g.lifetimes.len() == g.nodes.len(),
        forall|u: int| 0 <= u < g.nodes.len() ==> #[trigger] g.lifetimes[u] == g.last_consumer(u, g.order.len() as int),
        forall|v: int| g.live(v) ==> #[trigger] g.order.contains(v as usize),
{
}

proof fn lemma_position(order: Seq<usize>, i: int)
    requires
        order.no_duplicates(),
        0 <= i < order.len(),
    ensures
        position(order, order[i]) == i,
{
    assert(order.contains(order[i]));
}

/// The source of an edge comes before its destination.
proof fn lemma_parent_before(g: GraphModel, e: int, k: int)
    requires
        g.wf(),
        g.edge_live(e),
        0 <= k < g.order.len(),
        g.order[k] == g.edge(e).dst,
    ensures
        0 <= position(g.order, g.edge(e).src) < k,
{
    assert(g.edges[e] == g.edges[e]);
    let i = choose|i: int| 0 <= i < k && g.order[i] == g.edge(e).src;
    lemma_position(g.order, i);
}

/// The last consumer of `u` among the first `n` of the order reads `u`, and
/// no node after it among those does.
proof fn lemma_last_consumer(g: GraphModel, u: int, n: int, k: int, m: int)
    requires
        g.order.no_duplicates(),
        0 <= n <= g.order.len(),
        0 <= k < m < n,
        g.last_consumer(u, n) == Some(g.order[k]),
    ensures
        !g.is_parent(u, g.order[m] as int),
    decreases n,
{
    if g.is_parent(u, g.order[n - 1] as int) {
        assert(g.order[k] == g.order[n - 1]);
    } else if m < n - 1 {
        lemma_last_consumer(g, u, n - 1, k, m);
    }
}

proof fn lemma_last_consumer_reads(g: GraphModel, u: int, n: int, w: usize)
    requires
        g.last_consumer(u, n) == Some(w),
    ensures
        g.is_parent(u, w as int),
    decreases n,
{
    if n > 0 && !g.is_parent(u, g.order[n - 1] as int) {
        lemma_last_consumer_reads(g, u, n - 1, w);
    }
}

/// What the cache holds while the order is walked, up to position `k`: each
/// buffer is the rendered output of a node before `k` other than the output
/// node, and each such node whose output a later node still reads has its
/// buffer there.
pub open spec fn cache_holds(s: RenderSetup, cache: Seq<Option<InterleavedBuffer>>, k: int) -> bool {
    &&& forall|u: int|
        0 <= u < cache.len() && (#[trigger] cache[u]).is_some() ==> {
            &&& u != s.g.output
            &&& 0 <= position(s.g.order, u as usize) < k
            &&& cache[u].unwrap()@ == rendered(s, position(s.g.order, u as usize))
        }
    &&& forall|u: int, m: int|
        #![trigger cache[u], s.g.order[m]]
        0 <= u < cache.len() && u != s.g.output && 0 <= position(s.g.order, u as usize) < k && k <= m
            < s.g.order.len() && s.g.is_parent(u, s.g.order[m] as int) ==> cache[u].is_some()
}

proof fn lemma_mix_edges_matches(s: RenderSetup, cache: Seq<Option<InterleavedBuffer>>, k: int, e: int)
    requires
        s.g.wf(),
        cache.len() == s.g.nodes.len(),
        0 <= k < s.g.order.len(),
        0 <= e <= s.g.edges.len(),
        cache_holds(s, cache, k),
    ensures
        mix_edges(
            silent(s.g.config(s.g.order[k] as int).num_input_channels as nat, s.frames, s.rate),
            s.g,
            cache,
            s.g.order[k] as int,
            e,
        ) == mixed_input(s, k, e),
    decreases e,
{
    if e > 0 {
        lemma_mix_edges_matches(s, cache, k, e - 1);
        let v = s.g.order[k];
        if s.g.edge_live(e - 1) && s.g.edge(e - 1).dst == v {
            let src = s.g.edge(e - 1).src;
            assert(s.g.edges[e - 1] == s.g.edges[e - 1]);
            lemma_parent_before(s.g, e - 1, k);
            assert(s.g.is_parent(src as int, v as int));
            if src != s.g.output {
                assert(cache[src as int].is_some());
            } else {
                assert(cache[src as int].is_none());
            }
        }
    }
}

/// How many of the first `n` slots of `cache` hold a buffer of `c`
/// channels.
pub open spec fn held_width(cache: Seq<Option<InterleavedBuffer>>, c: nat, n: int) -> nat
    decreases n,
{
    if n <= 0 {
        0
    } else {
        held_width(cache, c, n - 1) + if cache[n - 1].is_some() && cache[n - 1].unwrap()@.channels == c {
            1nat
        } else {
            0nat
        }
    }
}

/// Each cached buffer has `frames` frames.
pub open spec fn cache_frames(cache: Seq<Option<InterleavedBuffer>>, frames: nat) -> bool {
    forall|u: int| 0 <= u < cache.len() && (#[trigger] cache[u]).is_some() ==> cache[u].unwrap()@.frames() == frames
}

/// The arena's count of free buffers of shape `(c, f)`, with those that the
/// cache holds counted back in.
pub open spec fn ledger(arena: BufferArena, cache: Seq<Option<InterleavedBuffer>>, frames: nat, c: nat, f: nat) -> nat {
    arena.count(c, f) + if f == frames {
        held_width(cache, c, cache.len() as int)
    } else {
        0nat
    }
}

proof fn lemma_held_width_update(
    cache: Seq<Option<InterleavedBuffer>>,
    i: int,
    x: Option<InterleavedBuffer>,
    c: nat,
    n: int,
)
    requires
        0 <= i < cache.len(),
        n <= cache.len(),
    ensures
        held_width(cache.update(i, x), c, n) == held_width(cache, c, n) - (if i < n && cache[i].is_some()
            && cache[i].unwrap()@.channels == c {
            1int
        } else {
            0int
        }) + (if i < n && x.is_some() && x.unwrap()@.channels == c {
            1int
        } else {
            0int
        }),
    decreases n,
{
    if n > 0 {
        lemma_held_width_update(cache, i, x, c, n - 1);
    }
}

/// Where slot `v` is empty and every other held buffer belongs to a live node
/// of its width, the held buffers of width `c` and the buffers that `v`
/// itself will take of that width fit within what the nodes need.
proof fn lemma_held_within_needed(g: GraphModel, cache: Seq<Option<InterleavedBuffer>>, v: int, c: nat, n: int)
    requires
        0 <= n <= cache.len(),
        cache.len() == g.nodes.len(),
        g.live(v),
        cache[v].is_none(),
        forall|u: int|
            0 <= u < cache.len() && (#[trigger] cache[u]).is_some() ==> g.live(u) && cache[u].unwrap()@.channels
                == g.config(u).num_output_channels,
    ensures
        held_width(cache, c, n) + (if v < n && g.config(v).num_output_channels == c {
            1nat
        } else {
            0nat
        }) + (if v < n && g.config(v).num_input_channels == c {
            1nat
        } else {
            0nat
        }) <= buffers_needed(g.nodes, c, n),
    decreases n,
{
    if n > 0 {
        lemma_held_within_needed(g, cache, v, c, n - 1);
    }
}

/// Every external input meant for a live node has that node's input width.
pub open spec fn inputs_fit(g: GraphModel, inputs: Seq<(NodeIndex, AudioData)>) -> bool {
    forall|j: int|
        0 <= j < inputs.len() && g.live((#[trigger] inputs[j]).0.0 as int) ==> inputs[j].1.channels
            == g.config(inputs[j].0.0 as int).num_input_channels
}

/// What one block of `graph` needs to run through: the arena sized for it,
/// inputs that fit, and buffer widths that can be allocated (each node but
/// the output renders into a buffer of at least one channel).
pub open spec fn render_ready(graph: AudioGraph, inputs: Seq<(NodeIndex, &InterleavedBuffer)>) -> bool {
    let g = graph@;
    let block = graph.spec_block_size().0;
    &&& graph.pool_ready()
    &&& inputs_fit(g, input_contents(inputs))
    &&& forall|v: int|
        #![trigger g.nodes[v]]
        g.live(v) ==> {
            &&& (v != g.output ==> {
                &&& g.config(v).num_output_channels >= 1
                &&& block * g.config(v).num_output_channels <= usize::MAX
                &&& buffers_needed(g.nodes, g.config(v).num_output_channels as nat, g.nodes.len() as int) <= usize::MAX
            })
            &&& (g.config(v).num_input_channels > 0 ==> {
                &&& block * g.config(v).num_input_channels <= usize::MAX
                &&& buffers_needed(g.nodes, g.config(v).num_input_channels as nat, g.nodes.len() as int) <= usize::MAX
            })
        }
}

/// What node `v` needs to run: an empty cache slot, inputs that fit, and
/// for each buffer it takes from the arena as many free there as the nodes
/// of that width may hold at once, less those the cache holds.
pub open spec fn node_ready(
    graph: AudioGraph,
    inputs: Seq<(NodeIndex, &InterleavedBuffer)>,
    cache: Seq<Option<InterleavedBuffer>>,
    v: usize,
) -> bool {
    let g = graph@;
    let cfg = g.config(v as int);
    let block = graph.spec_block_size().0;
    let n = g.nodes.len() as int;
    &&& cache[v as int].is_none()
    &&& inputs_fit(g, input_contents(inputs))
    &&& (v != g.output ==> {
        &&& cfg.num_output_channels >= 1
        &&& block * cfg.num_output_channels <= usize::MAX
        &&& graph.arena().count(cfg.num_output_channels as nat, block as nat) + held_width(
            cache,
            cfg.num_output_channels as nat,
            n,
        ) >= buffers_needed(g.nodes, cfg.num_output_channels as nat, n)
    })
    &&& (cfg.num_input_channels > 0 ==> {
        &&& block * cfg.num_input_channels <= usize::MAX
        &&& graph.arena().count(cfg.num_input_channels as nat, block as nat) + held_width(
            cache,
            cfg.num_input_channels as nat,
            n,
        ) >= buffers_needed(g.nodes, cfg.num_input_channels as nat, n)
    })
}

proof fn lemma_held_width_empty(cache: Seq<Option<InterleavedBuffer>>, c: nat, n: int)
    requires
        n <= cache.len(),
        forall|u: int| 0 <= u < cache.len() ==> (#[trigger] cache[u]).is_none(),
    ensures
        held_width(cache, c, n) == 0,
    decreases n,
{
    if n > 0 {
        lemma_held_width_empty(cache, c, n - 1);
    }
}

/// How many slots of `cache` hold a buffer.
pub open spec fn held(cache: Seq<Option<InterleavedBuffer>>) -> nat
    decreases cache.len(),
{
    if cache.len() == 0 {
        0
    } else {
        held(cache.drop_last()) + if cache.last().is_some() {
            1nat
        } else {
            0nat
        }
    }
}

proof fn lemma_held_update(cache: Seq<Option<InterleavedBuffer>>, i: int, x: Option<InterleavedBuffer>)
    requires
        0 <= i < cache.len(),
    ensures
        held(cache.update(i, x)) == held(cache) - (if cache[i].is_some() {
            1int
        } else {
            0int
        }) + (if x.is_some() {
            1int
        } else {
            0int
        }),
    decreases cache.len(),
{
    let u = cache.update(i, x);
    if i == cache.len() - 1 {
        assert(u.drop_last() == cache.drop_last());
    } else {
        assert(u.drop_last() == cache.drop_last().update(i, x));
        assert(cache.drop_last()[i] == cache[i]);
        lemma_held_update(cache.drop_last(), i, x);
    }
}

proof fn lemma_held_empty(cache: Seq<Option<InterleavedBuffer>>)
    requires
        forall|i: int| 0 <= i < cache.len() ==> (#[trigger] cache[i]).is_none(),
    ensures
        held(cache) == 0,
    decreases cache.len(),
{
    if cache.len() > 0 {
        assert forall|i: int| 0 <= i < cache.drop_last().len() implies (#[trigger] cache.drop_last()[i]).is_none() by {
            assert(cache.drop_last()[i] == cache[i]);
        }
        lemma_held_empty(cache.drop_last());
    }
}

/// Each cached buffer belongs to a live node and has that node's output
/// channel count.
pub open spec fn cache_fits(g: GraphModel, cache: Seq<Option<InterleavedBuffer>>) -> bool {
    &&& cache.len() == g.nodes.len()
    &&& forall|u: int|
        0 <= u < cache.len() && (#[trigger] cache[u]).is_some() ==> {
            &&& g.live(u)
            &&& cache[u].unwrap().wf()
            &&& cache[u].unwrap()@.channels == g.config(u).num_output_channels
        }
}

/// Each cached buffer has the given sample rate.
pub open spec fn cache_rate(cache: Seq<Option<InterleavedBuffer>>, rate: nat) -> bool {
    forall|u: int| 0 <= u < cache.len() && (#[trigger] cache[u]).is_some() ==> cache[u].unwrap()@.sample_rate == rate
}

/// Every external input is a well-formed buffer.
pub open spec fn inputs_wf(inputs: Seq<(NodeIndex, &InterleavedBuffer)>) -> bool {
    forall|k: int| 0 <= k < inputs.len() ==> (#[trigger] inputs[k]).1.wf()
}

fn find_input(inputs: &Vec<(NodeIndex, &InterleavedBuffer)>, v: usize) -> (r: Option<usize>)
    ensures
        r.is_some() ==> r.unwrap() < inputs@.len() && inputs@[r.unwrap() as int].0.0 == v,
        r.is_some() ==> forall|k: int| 0 <= k < r.unwrap() ==> (#[trigger] inputs@[k]).0.0 != v,
        r.is_none() ==> forall|k: int| 0 <= k < inputs@.len() ==> (#[trigger] inputs@[k]).0.0 != v,
{
    let mut k: usize = 0;
    while k < inputs.len()
        invariant
            k <= inputs@.len(),
            forall|j: int| 0 <= j < k ==> (#[trigger] inputs@[j]).0.0 != v,
        decreases inputs@.len() - k,
    {
        if inputs[k].0.0 == v {
            return Some(k);
        }
        k = k + 1;
    }
    None
}

impl AudioGraph {
    /// Resets a buffer and gives it back to the arena.
    fn recycle(&mut self, buffer: InterleavedBuffer)
        requires
            old(self).arena().wf(),
            buffer.wf(),
            buffer@.sample_rate == old(self).arena().rate().0,
        ensures
            final(self).nodes == old(self).nodes,
            final(self).arena().wf(),
            final(self).arena().rate() == old(self).arena().rate(),
            final(self).arena().total() == old(self).arena().total() + 1,
            forall|c: nat, f: nat|
                #[trigger] final(self).arena().count(c, f) == old(self).arena().count(c, f) + if c
                    == buffer@.channels && f == buffer@.frames() {
                    1nat
                } else {
                    0nat
                },
            final(self)@ == old(self)@,
            final(self).spec_block_size() == old(self).spec_block_size(),
            final(self).spec_sample_rate() == old(self).spec_sample_rate(),
    {
        let mut b = buffer;
        b.set_to_equilibrium();
        self.buffer_arena.release(b);
    }

    /// Takes the buffer out of slot `u` of the cache, if any, and recycles it.
    fn recycle_slot(&mut self, cache: &mut Vec<Option<InterleavedBuffer>>, u: usize)
        requires
            old(self).arena().wf(),
            cache_fits(old(self)@, old(cache)@),
            cache_rate(old(cache)@, old(self).arena().rate().0 as nat),
            u < old(cache)@.len(),
        ensures
            cache_rate(final(cache)@, old(self).arena().rate().0 as nat),
            cache_frames(old(cache)@, old(self).spec_block_size().0 as nat) ==> cache_frames(
                final(cache)@,
                old(self).spec_block_size().0 as nat,
            ) && forall|c: nat, f: nat|
                #[trigger] ledger(final(self).arena(), final(cache)@, old(self).spec_block_size().0 as nat, c, f)
                    == ledger(old(self).arena(), old(cache)@, old(self).spec_block_size().0 as nat, c, f),
            final(self).nodes == old(self).nodes,
            final(self).arena().wf(),
            final(self).arena().rate() == old(self).arena().rate(),
            final(self).arena().total() + held(final(cache)@) == old(self).arena().total() + held(
                old(cache)@,
            ),
            final(cache)@ == old(cache)@.update(u as int, None),
            cache_fits(final(self)@, final(cache)@),
            final(self)@ == old(self)@,
            final(self).spec_block_size() == old(self).spec_block_size(),
            final(self).spec_sample_rate() == old(self).spec_sample_rate(),
    {
        let mut taken: Option<InterleavedBuffer> = None;
        core::mem::swap(&mut cache[u], &mut taken);
        proof {
            lemma_held_update(old(cache)@, u as int, None);
            assert(cache@ == old(cache)@.update(u as int, None));
            assert(taken == old(cache)@[u as int]);
            assert forall|c: nat| #[trigger] held_width(cache@, c, cache@.len() as int) == held_width(old(cache)@, c, cache@.len() as int) - (
                if taken.is_some() && taken.unwrap()@.channels == c {
                    1int
                } else {
                    0int
                }) by {
                lemma_held_width_update(old(cache)@, u as int, None, c, cache@.len() as int);
            }
        }
        match taken {
            Some(b) => {
                self.recycle(b);
            },
            None => {},
        }
    }

    /// Mixes the cached outputs of the parents of `v` into `mixed`, each
    /// through the matrix of its edge.
    fn mix_parents_from_cache(
        &self,
        v: usize,
        cache: &Vec<Option<InterleavedBuffer>>,
        mixed: &mut InterleavedBuffer,
    )
        requires
            self@.wf(),
            self@.live(v as int),
            cache_fits(self@, cache@),
            old(mixed).wf(),
            old(mixed)@.channels == self@.config(v as int).num_input_channels,
        ensures
            final(mixed).wf(),
            final(mixed)@ == mix_edges(old(mixed)@, self@, cache@, v as int, self@.edges.len() as int),
            final(mixed)@.channels == old(mixed)@.channels,
            final(mixed)@.samples.len() == old(mixed)@.samples.len(),
            final(mixed)@.sample_rate == old(mixed)@.sample_rate,
    {
        let ghost g = self@;
        let mut e: usize = 0;
        while e < self.edges.len()
            invariant
                g == self@,
                g.wf(),
                g.live(v as int),
                cache_fits(g, cache@),
                mixed.wf(),
                mixed@.channels == old(mixed)@.channels,
                mixed@.samples.len() == old(mixed)@.samples.len(),
                mixed@.sample_rate == old(mixed)@.sample_rate,
                mixed@.channels == g.config(v as int).num_input_channels,
                e <= g.edges.len(),
                mixed@ == mix_edges(old(mixed)@, g, cache@, v as int, e as int),
            decreases g.edges.len() - e,
        {
            let ghost at_start = mixed@;
            match &self.edges[e] {
                Some(edge) => {
                    proof {
                        assert(g.edges[e as int] == edge_model(self.edges@[e as int]));
                    }
                    if edge.dst == v {
                        match &cache[edge.src] {
                            Some(parent) => {
                                let pins = edge.connection.matrix.channel_connections();
                                let mut k: usize = 0;
                                while k < pins.len()
                                    invariant
                                        g.edge_live(e as int),
                                        g.edge(e as int).dst == v,
                                        g.matrix_fits(edge.connection.matrix@, edge.src as int, v as int),
                                        edge.connection.matrix.wf(),
                                        pins@ == connections(edge.connection.matrix@),
                                        parent.wf(),
                                        parent@.channels == g.config(edge.src as int).num_output_channels,
                                        mixed.wf(),
                                        mixed@.channels == old(mixed)@.channels,
                                        mixed@.samples.len() == old(mixed)@.samples.len(),
                                        mixed@.sample_rate == old(mixed)@.sample_rate,
                                        mixed@.channels == g.config(v as int).num_input_channels,
                                        k <= pins@.len(),
                                        mixed@ == mix_pins(at_start, parent@, pins@.subrange(0, k as int)),
                                    decreases pins@.len() - k,
                                {
                                    proof {
                                        lemma_connections_in_range(edge.connection.matrix, k as int);
                                        assert(pins@.subrange(0, k + 1).drop_last() == pins@.subrange(0, k as int));
                                    }
                                    let (parent_channel, mixed_channel) = pins[k];
                                    mixed.mix_channel_from(parent, parent_channel, mixed_channel);
                                    k = k + 1;
                                }
                                proof {
                                    assert(pins@.subrange(0, k as int) == pins@);
                                    assert(cache@[edge.src as int] == Some(*parent));
                                }
                            },
                            None => {},
                        }
                    }
                },
                None => {},
            }
            e = e + 1;
        }
    }

    /// Renders one block: walks the execution order, mixes each node's
    /// parents through their matrices (or hands it its external input),
    /// runs it, and recycles each cached output once its last reader has
    /// run. The output node renders into `output`.
    ///
    /// Fails, with nothing rendered, where `output` does not have the output
    /// node's channel count or the block's length; fails part way where an
    /// external input does not fit its node or the arena runs dry. Either way
    /// every buffer taken from the arena goes back to it, silent.
    pub fn process_block(
        &mut self,
        inputs: &Vec<(NodeIndex, &InterleavedBuffer)>,
        output: &mut InterleavedBuffer,
        info: ProcessingInformation,
    ) -> (r: Result<(), ProcessingError>)
        requires
            old(self).wf(),
            old(output).wf(),
            inputs_wf(inputs@),
        ensures
            final(self).wf(),
            final(self).spec_nodes() == old(self).spec_nodes(),
            final(self)@ == old(self)@,
            final(self).arena().total() == old(self).arena().total(),
            final(self).spec_block_size() == old(self).spec_block_size(),
            final(self).spec_sample_rate() == old(self).spec_sample_rate(),
            final(output).wf(),
            final(output)@.channels == old(output)@.channels,
            final(output)@.samples.len() == old(output)@.samples.len(),
            (old(output)@.channels != old(self)@.config(old(self)@.output as int).num_output_channels
                || old(output)@.frames() != old(self).spec_block_size().0) ==> r.is_err()
                && final(output)@ == old(output)@,
            forall|c: nat, f: nat|
                #[trigger] final(self).arena().count(c, f) == old(self).arena().count(c, f),
            old(self).pool_ready() ==> final(self).pool_ready(),
            render_ready(*old(self), inputs@) && old(output)@.channels == old(self)@.config(
                old(self)@.output as int,
            ).num_output_channels && old(output)@.frames() == old(self).spec_block_size().0 ==> r.is_ok(),
            r.is_ok() ==> final(output)@ == rendered(
                setup_of(*old(self), inputs@, info, old(output)@),
                position(old(self)@.order, old(self)@.output),
            ),
    {
        let out_channels = match &self.nodes[self.output] {
            Some(node) => node.config().num_output_channels,
            None => {
                return Err(ProcessingError::InvalidBuffers);
            },
        };
        proof {
            assert(self@.nodes[self.output as int] == node_config(self.nodes@[self.output as int]));
        }
        if output.channels() != out_channels || output.frames() as u64 != self.block_size.0 {
            return Err(ProcessingError::InvalidBuffers);
        }
        let n = self.nodes.len();
        let mut cache: Vec<Option<InterleavedBuffer>> = Vec::new();
        let mut u: usize = 0;
        while u < n
            invariant
                u <= n,
                cache@.len() == u,
                forall|w: int| 0 <= w < u ==> (#[trigger] cache@[w]).is_none(),
            decreases n - u,
        {
            cache.push(None);
            u = u + 1;
        }
        proof {
            lemma_held_empty(cache@);
        }
        let ghost g = self@;
        let ghost start = self.arena().total();
        let ghost setup = setup_of(*self, inputs@, info, output@);
        let ghost start_arena = self.arena();
        let ghost frames = self.block_size.0 as nat;
        let ghost ready = render_ready(*old(self), inputs@);
        proof {
            assert forall|c: nat, f: nat| #[trigger] ledger(self.arena(), cache@, frames, c, f) == start_arena.count(c, f) by {
                lemma_held_width_empty(cache@, c, cache@.len() as int);
            }
        }
        let ghost out_pos = position(g.order, g.output);
        proof {
            lemma_order_valid_facts(g);
            assert(g.live(g.output as int));
            assert(g.order.contains((g.output as int) as usize));
        }
        let mut failed = false;
        let mut k: usize = 0;
        while k < self.execution_order.len()
            invariant
                g == self@,
                cache_frames(cache@, frames),
                frames == self.spec_block_size().0,
                start_arena == old(self).arena(),
                forall|c: nat, f: nat| #[trigger] ledger(self.arena(), cache@, frames, c, f) == start_arena.count(c, f),
                ready == render_ready(*old(self), inputs@),
                ready ==> !failed,
                self.spec_nodes() == setup.nodes,
                setup == setup_of(*old(self), inputs@, info, old(output)@),
                setup.g == g,
                setup.frames == self.spec_block_size().0,
                setup.rate == self.spec_sample_rate().0,
                out_pos == position(g.order, g.output),
                0 <= out_pos < g.order.len(),
                !failed ==> cache_holds(setup, cache@, k as int),
                !failed ==> (out_pos < k ==> output@ == rendered(setup, out_pos)),
                !failed ==> (out_pos >= k ==> output@ == old(output)@),
                g.wf(),
                self.nodes_wf(),
                self.arena().wf(),
                self.arena().rate() == self.spec_sample_rate(),
                self.spec_block_size() == old(self).spec_block_size(),
                self.spec_sample_rate() == old(self).spec_sample_rate(),
                cache_fits(g, cache@),
                cache_rate(cache@, self.spec_sample_rate().0 as nat),
                self.arena().total() + held(cache@) == start,
                n == g.nodes.len(),
                inputs_wf(inputs@),
                output.wf(),
                output@.channels == old(output)@.channels,
                output@.samples.len() == old(output)@.samples.len(),
                k <= g.order.len(),
            decreases g.order.len() - k,
        {
            let v = self.execution_order[k];
            proof {
                assert(g.live(v as int));
                assert(self@.nodes[v as int] == node_config(self.nodes@[v as int]));
                lemma_position(g.order, k as int);
                lemma_order_valid_facts(g);
            }
            let ghost cache_before = cache@;
            let ghost output_before = output@;
            proof {
                if ready {
                    let cfg = g.config(v as int);
                    assert(old(self)@ == g);
                    assert(g.nodes[v as int] == g.nodes[v as int]);
                    assert(old(self).pool_covers(cfg.num_output_channels));
                    assert(old(self).pool_covers(cfg.num_input_channels));
                    assert(ledger(self.arena(), cache@, frames, cfg.num_output_channels as nat, frames) == start_arena.count(cfg.num_output_channels as nat, frames));
                    assert(ledger(self.arena(), cache@, frames, cfg.num_input_channels as nat, frames) == start_arena.count(cfg.num_input_channels as nat, frames));
                    if cache@[v as int].is_some() {
                        assert(0 <= position(setup.g.order, v) < k);
                    }
                    assert(node_ready(*self, inputs@, cache@, v));
                }
            }
            if !failed {
                failed = !self.process_node(v, inputs, output, &mut cache, info);
                proof {
                    if !failed {
                        lemma_mix_edges_matches(setup, cache_before, k as int, g.edges.len() as int);
                        if v == g.output {
                            assert(output@ == rendered(setup, k as int));
                        } else {
                            assert(cache@[v as int].unwrap()@ == rendered(setup, k as int));
                        }
                        assert forall|u: int|
                            0 <= u < cache@.len() && (#[trigger] cache@[u]).is_some() implies {
                                &&& u != setup.g.output
                                &&& 0 <= position(setup.g.order, u as usize) < k + 1
                                &&& cache@[u].unwrap()@ == rendered(setup, position(setup.g.order, u as usize))
                            } by {
                            if u != v {
                                assert(cache@[u] == cache_before[u]);
                            }
                        }
                        assert forall|u: int, m: int|
                            #![trigger cache@[u], setup.g.order[m]]
                            0 <= u < cache@.len() && u != setup.g.output && 0 <= position(setup.g.order, u as usize)
                                < k + 1 && k + 1 <= m < setup.g.order.len() && setup.g.is_parent(u, setup.g.order[m] as int)
                                implies cache@[u].is_some() by {
                            if u != v {
                                assert(cache@[u] == cache_before[u]);
                                if position(setup.g.order, u as usize) == k {
                                    assert(g.live(u));
                                    assert(g.order.contains(u as usize));
                                    assert(g.order[position(g.order, u as usize)] == u as usize);
                                }
                                assert(cache_before[u].is_some());
                            }
                        }
                    }
                }
            }
            let ghost cache_k = cache@;
            if v != self.output {
                let mut c: usize = 0;
                while c < n
                    invariant
                        g == self@,
                        cache_frames(cache@, frames),
                        frames == self.spec_block_size().0,
                        forall|c: nat, f: nat| #[trigger] ledger(self.arena(), cache@, frames, c, f) == start_arena.count(c, f),
                        self.spec_nodes() == setup.nodes,
                        v == g.order[k as int],
                        v != g.output,
                        k < g.order.len(),
                        !failed ==> cache_holds(setup, cache_k, k + 1),
                        cache@.len() == cache_k.len(),
                        forall|u: int|
                            0 <= u < cache@.len() ==> #[trigger] cache@[u] == if u < c && g.lifetimes[u] == Some(v) {
                                None
                            } else {
                                cache_k[u]
                            },
                        g.wf(),
                        self.nodes_wf(),
                        self.arena().wf(),
                        self.arena().rate() == self.spec_sample_rate(),
                        self.spec_block_size() == old(self).spec_block_size(),
                        self.spec_sample_rate() == old(self).spec_sample_rate(),
                        cache_fits(g, cache@),
                        cache_rate(cache@, self.spec_sample_rate().0 as nat),
                        self.arena().total() + held(cache@) == start,
                        n == g.nodes.len(),
                        c <= n,
                    decreases n - c,
                {
                    let ghost before = cache@;
                    let ghost arena_before = self.arena();
                    if self.buffer_lifetimes[c] == Some(v) {
                        self.recycle_slot(&mut cache, c);
                        proof {
                            assert forall|cc: nat, f: nat| #[trigger] ledger(self.arena(), cache@, frames, cc, f) == start_arena.count(cc, f) by {
                                assert(ledger(self.arena(), cache@, frames, cc, f) == ledger(arena_before, before, frames, cc, f));
                            }
                        }
                    }
                    proof {
                        assert forall|u: int|
                            0 <= u < cache@.len() implies #[trigger] cache@[u] == if u < c + 1 && g.lifetimes[u]
                                == Some(v) {
                                None
                            } else {
                                cache_k[u]
                            } by {
                            if u != c {
                                assert(cache@[u] == before[u]);
                            }
                        }
                    }
                    c = c + 1;
                }
                proof {
                    if !failed {
                        assert forall|u: int|
                            0 <= u < cache@.len() && (#[trigger] cache@[u]).is_some() implies {
                                &&& u != setup.g.output
                                &&& 0 <= position(setup.g.order, u as usize) < k + 1
                                &&& cache@[u].unwrap()@ == rendered(setup, position(setup.g.order, u as usize))
                            } by {
                            assert(cache_k[u].is_some());
                        }
                        assert forall|u: int, m: int|
                            #![trigger cache@[u], setup.g.order[m]]
                            0 <= u < cache@.len() && u != setup.g.output && 0 <= position(setup.g.order, u as usize)
                                < k + 1 && k + 1 <= m < setup.g.order.len() && setup.g.is_parent(u, setup.g.order[m] as int)
                                implies cache@[u].is_some() by {
                            assert(cache_k[u].is_some());
                            if g.lifetimes[u] == Some(v) {
                                assert(g.lifetimes[u] == g.last_consumer(u, g.order.len() as int));
                                lemma_last_consumer(g, u, g.order.len() as int, k as int, m);
                            }
                        }
                    }
                }
            }
            k = k + 1;
        }
        let mut c: usize = 0;
        while c < n
            invariant
                g == self@,
                g.wf(),
                self.nodes_wf(),
                self.arena().wf(),
                self.arena().rate() == self.spec_sample_rate(),
                self.spec_block_size() == old(self).spec_block_size(),
                self.spec_sample_rate() == old(self).spec_sample_rate(),
                cache_fits(g, cache@),
                cache_rate(cache@, self.spec_sample_rate().0 as nat),
                self.arena().total() + held(cache@) == start,
                n == g.nodes.len(),
                c <= n,
                forall|w: int| 0 <= w < c ==> (#[trigger] cache@[w]).is_none(),
                self.spec_nodes() == setup.nodes,
                setup == setup_of(*old(self), inputs@, info, old(output)@),
                cache_frames(cache@, frames),
                frames == self.spec_block_size().0,
                forall|cc: nat, f: nat| #[trigger] ledger(self.arena(), cache@, frames, cc, f) == start_arena.count(cc, f),
                ready ==> !failed,
            decreases n - c,
        {
            let ghost before = cache@;
            let ghost arena_before = self.arena();
            self.recycle_slot(&mut cache, c);
            proof {
                assert forall|cc: nat, f: nat| #[trigger] ledger(self.arena(), cache@, frames, cc, f) == start_arena.count(cc, f) by {
                    assert(ledger(self.arena(), cache@, frames, cc, f) == ledger(arena_before, before, frames, cc, f));
                }
            }
            c = c + 1;
        }
        proof {
            lemma_held_empty(cache@);
            assert forall|cc: nat, f: nat| #[trigger] self.arena().count(cc, f) == start_arena.count(cc, f) by {
                lemma_held_width_empty(cache@, cc, cache@.len() as int);
                assert(ledger(self.arena(), cache@, frames, cc, f) == start_arena.count(cc, f));
            }
        }
        if failed {
            Err(ProcessingError::InvalidBuffers)
        } else {
            Ok(())
        }
    }

    /// Renders node `v` into `output` where it is the output node, else into
    /// a buffer from the arena that goes to slot `v` of the cache. `false`
    /// where its external input does not fit or the arena runs dry.
    fn process_node(
        &mut self,
        v: usize,
        inputs: &Vec<(NodeIndex, &InterleavedBuffer)>,
        output: &mut InterleavedBuffer,
        cache: &mut Vec<Option<InterleavedBuffer>>,
        info: ProcessingInformation,
    ) -> (r: bool)
        requires
            old(self)@.wf(),
            old(self).arena().wf(),
            old(self)@.live(v as int),
            cache_fits(old(self)@, old(cache)@),
            inputs_wf(inputs@),
            old(output).wf(),
            old(self).nodes_wf(),
            cache_rate(old(cache)@, old(self).spec_sample_rate().0 as nat),
            cache_frames(old(cache)@, old(self).spec_block_size().0 as nat),
            old(self).arena().rate() == old(self).spec_sample_rate(),
        ensures
            cache_frames(final(cache)@, old(self).spec_block_size().0 as nat),
            forall|c: nat, f: nat|
                #[trigger] ledger(final(self).arena(), final(cache)@, old(self).spec_block_size().0 as nat, c, f)
                    == ledger(old(self).arena(), old(cache)@, old(self).spec_block_size().0 as nat, c, f),
            node_ready(*old(self), inputs@, old(cache)@, v) ==> r,
            final(self)@ == old(self)@,
            final(self).spec_nodes() == old(self).spec_nodes(),
            cache_rate(final(cache)@, old(self).spec_sample_rate().0 as nat),
            final(self).nodes_wf(),
            r ==> {
                let input = node_input(
                    old(self)@,
                    input_contents(inputs@),
                    old(cache)@,
                    v,
                    old(self).spec_block_size().0 as nat,
                    old(self).spec_sample_rate().0 as nat,
                );
                let node = old(self).spec_nodes()[v as int].unwrap();
                if v == old(self)@.output {
                    &&& final(output)@ == node_output(node, input, old(output)@, info)
                    &&& final(cache)@ == old(cache)@
                } else {
                    &&& final(output)@ == old(output)@
                    &&& final(cache)@.len() == old(cache)@.len()
                    &&& forall|u: int| 0 <= u < old(cache)@.len() && u != v ==> #[trigger] final(cache)@[u] == old(cache)@[u]
                    &&& final(cache)@[v as int].is_some()
                    &&& final(cache)@[v as int].unwrap()@ == node_output(
                        node,
                        input,
                        silent(
                            old(self)@.config(v as int).num_output_channels as nat,
                            old(self).spec_block_size().0 as nat,
                            old(self).spec_sample_rate().0 as nat,
                        ),
                        info,
                    )
                }
            },
            final(self).arena().wf(),
            final(self).arena().rate() == old(self).arena().rate(),
            final(self).spec_block_size() == old(self).spec_block_size(),
            final(self).spec_sample_rate() == old(self).spec_sample_rate(),
            cache_fits(final(self)@, final(cache)@),
            final(self).arena().total() + held(final(cache)@) == old(self).arena().total() + held(
                old(cache)@,
            ),
            final(output).wf(),
            final(output)@.channels == old(output)@.channels,
            final(output)@.samples.len() == old(output)@.samples.len(),
    {
        let ghost g = self@;
        proof {
            assert(g.nodes[v as int] == node_config(self.nodes@[v as int]));
        }
        let config = match &self.nodes[v] {
            Some(node) => node.config(),
            None => {
                return false;
            },
        };
        let block_size = self.block_size;
        let ghost frames = block_size.0 as nat;
        let ghost rate = self.sample_rate.0 as nat;
        let ghost contents = input_contents(inputs@);
        let external = find_input(inputs, v);
        proof {
            match external {
                Some(i) => {
                    assert forall|j: int| 0 <= j < i implies (#[trigger] contents[j]).0.0 != v by {
                        assert(contents[j].0 == inputs@[j].0);
                    }
                    lemma_external_input_first(contents, v, contents.len() as int, i as int);
                },
                None => {
                    assert forall|j: int| 0 <= j < contents.len() implies (#[trigger] contents[j]).0.0 != v by {
                        assert(contents[j].0 == inputs@[j].0);
                    }
                    lemma_external_input_none(contents, v, contents.len() as int);
                },
            }
        }
        let ghost n = g.nodes.len() as int;
        let ghost ready = node_ready(*old(self), inputs@, old(cache)@, v);
        let ghost a0 = self.arena();
        let ghost c_in = config.num_input_channels as nat;
        let ghost c_out = config.num_output_channels as nat;
        proof {
            assert(config == g.config(v as int));
            if ready {
                lemma_held_within_needed(g, old(cache)@, v as int, c_in, n);
                lemma_held_within_needed(g, old(cache)@, v as int, c_out, n);
            }
        }
        let mut mixed: Option<InterleavedBuffer> = None;
        match external {
            Some(i) => {
                if inputs[i].1.channels() != config.num_input_channels {
                    proof {
                        if ready {
                            assert(contents[i as int].0 == inputs@[i as int].0);
                            assert(g.live(contents[i as int].0.0 as int));
                        }
                    }
                    return false;
                }
            },
            None => {
                if config.num_input_channels > 0 {
                    match self.buffer_arena.take(config.num_input_channels, block_size) {
                        Some(b) => {
                            let mut b = b;
                            proof {
                                lemma_silent_buffer(b@, config.num_input_channels as nat, frames, rate);
                            }
                            self.mix_parents_from_cache(v, cache, &mut b);
                            mixed = Some(b);
                        },
                        None => {
                            return false;
                        },
                    }
                }
            },
        }
        let ghost a1 = self.arena();
        proof {
            assert forall|c: nat, f: nat|
                #[trigger] ledger(a1, old(cache)@, frames, c, f) + (if mixed.is_some() && c == c_in && f == frames {
                    1nat
                } else {
                    0nat
                }) == ledger(a0, old(cache)@, frames, c, f) by {
                assert(a1.count(c, f) + (if mixed.is_some() && c == c_in && f == frames {
                    1nat
                } else {
                    0nat
                }) == a0.count(c, f));
            }
        }
        let mut target: Option<InterleavedBuffer> = None;
        if v != self.output {
            target = self.buffer_arena.take(config.num_output_channels, block_size);
            let ghost a1t = self.arena();
            if target.is_none() {
                proof {
                    if ready {
                        assert(a1.count(c_out, frames) >= 1);
                    }
                }
                match mixed {
                    Some(b) => {
                        self.recycle(b);
                    },
                    None => {},
                }
                return false;
            }
            proof {
                lemma_silent_buffer(target.unwrap()@, config.num_output_channels as nat, frames, rate);
            }
            self.recycle_slot(cache, v);
            proof {
                assert forall|c: nat, f: nat|
                    #[trigger] ledger(self.arena(), cache@, frames, c, f) + (if c == c_out && f == frames {
                        1nat
                    } else {
                        0nat
                    }) == ledger(a1, old(cache)@, frames, c, f) by {
                    assert(ledger(self.arena(), cache@, frames, c, f) == ledger(a1t, old(cache)@, frames, c, f));
                    assert(a1t.count(c, f) + (if c == c_out && f == frames {
                        1nat
                    } else {
                        0nat
                    }) == a1.count(c, f));
                }
            }
        }
        let ghost a2 = self.arena();
        let ghost cache_mid = cache@;
        let ghost orig = self.nodes@[v as int];
        let mut slot: Option<AudioNode> = None;
        core::mem::swap(&mut self.nodes[v], &mut slot);
        proof {
            assert(slot == orig);
            assert(orig.is_some());
            assert(orig.unwrap().wf());
        }
        match slot {
            Some(mut node) => {
                let input: Option<&InterleavedBuffer> = match external {
                    Some(i) => Some(inputs[i].1),
                    None => match &mixed {
                        Some(b) => Some(b),
                        None => None,
                    },
                };
                match target {
                    Some(mut t) => {
                        node.process_unchecked(input, &mut t, info);
                        target = Some(t);
                    },
                    None => {
                        node.process_unchecked(input, output, info);
                    },
                }
                self.nodes.set(v, Some(node));
            },
            None => {},
        }
        proof {
            assert(self@.nodes =~= g.nodes);
            assert forall|w: int| 0 <= w < self.nodes@.len() && (#[trigger] self.nodes@[w]).is_some() implies self.nodes@[w].unwrap().wf() by {
                if w != v {
                    assert(self.nodes@[w] == old(self).nodes@[w]);
                }
            }
        }
        proof {
            assert(self.nodes@ =~= old(self).nodes@);
        }
        let ghost cache_pre = cache@;
        match target {
            Some(t) => {
                let ghost before_cache = cache@;
                cache.set(v, Some(t));
                proof {
                    lemma_held_update(before_cache, v as int, Some(t));
                    assert forall|c: nat| #[trigger] held_width(cache@, c, n) == held_width(before_cache, c, n) + (
                        if t@.channels == c {
                            1int
                        } else {
                            0int
                        }) by {
                        lemma_held_width_update(before_cache, v as int, Some(t), c, n);
                    }
                }
            },
            None => {},
        }
        let ghost a3 = self.arena();
        let ghost mixed_some = mixed.is_some();
        match mixed {
            Some(b) => {
                proof {
                    assert(b@.channels == c_in && b@.frames() == frames);
                }
                self.recycle(b);
            },
            None => {},
        }
        proof {
            assert forall|c: nat, f: nat|
                #[trigger] ledger(self.arena(), cache@, frames, c, f) == ledger(a0, old(cache)@, frames, c, f) by {
                assert(ledger(a1, old(cache)@, frames, c, f) + (if mixed_some && c == c_in && f == frames {
                    1nat
                } else {
                    0nat
                }) == ledger(a0, old(cache)@, frames, c, f));
                assert(self.arena().count(c, f) == a3.count(c, f) + (if mixed_some && c == c_in && f == frames {
                    1nat
                } else {
                    0nat
                }));
                if v != g.output {
                    assert(ledger(a2, cache_mid, frames, c, f) + (if c == c_out && f == frames {
                        1nat
                    } else {
                        0nat
                    }) == ledger(a1, old(cache)@, frames, c, f));
                } else {
                    assert(cache_mid == old(cache)@);
                }
            }
        }
        true
    }
}

/// An edge out of a node that no edge touches yet closes no cycle.
pub proof fn lemma_edge_from_untouched_node(g: GraphModel, n: usize, dst: usize, m: PinGrid)
    requires
        g.wf(),
        g.live(n as int),
        g.live(dst as int),
        n != dst,
        forall|e: int|
            #![trigger g.edges[e]]
            g.edge_live(e) ==> g.edge(e).src != n && g.edge(e).dst != n,
    ensures
        with_edge(g, n, dst, m).acyclic(),
{
    let order = g.order;
    lemma_order_valid_facts(g);
    let rank = Seq::new(
        g.nodes.len(),
        |v: int|
            if v == n {
                -1
            } else if order.contains(v as usize) {
                position(order, v as usize)
            } else {
                0
            },
    );
    let h = with_edge(g, n, dst, m);
    assert forall|e: int| #![trigger h.edges[e]] h.edge_live(e) implies rank[h.edge(e).src as int]
        < rank[h.edge(e).dst as int] by {
        if e < g.edges.len() {
            assert(h.edges[e] == g.edges[e]);
            assert(g.edges[e] == g.edges[e]);
            let src = g.edge(e).src;
            let d = g.edge(e).dst;
            assert(g.live(src as int) && g.live(d as int));
            assert(order.contains((d as int) as usize));
            assert(order.contains((src as int) as usize));
            let j = position(order, d);
            assert(order[j] == d);
            lemma_parent_before(g, e, j);
        } else {
            assert(order.contains((dst as int) as usize));
            assert(order[position(order, dst)] == dst);
        }
    }
    assert(h.ranks_edges(rank));
}

/// Rendering a block is a function of what it works from: two graphs with
/// the same nodes, structure, block size and sample rate, fed inputs of the
/// same content into the same output buffer, render the same block.
pub proof fn lemma_render_deterministic(
    a: AudioGraph,
    b: AudioGraph,
    inputs_a: Seq<(NodeIndex, &InterleavedBuffer)>,
    inputs_b: Seq<(NodeIndex, &InterleavedBuffer)>,
    info: ProcessingInformation,
    out0: AudioData,
)
    requires
        a.spec_nodes() == b.spec_nodes(),
        a@ == b@,
        a.spec_block_size() == b.spec_block_size(),
        a.spec_sample_rate() == b.spec_sample_rate(),
        input_contents(inputs_a) == input_contents(inputs_b),
    ensures
        rendered(setup_of(a, inputs_a, info, out0), position(a@.order, a@.output)) == rendered(
            setup_of(b, inputs_b, info, out0),
            position(b@.order, b@.output),
        ),
{
    assert(setup_of(a, inputs_a, info, out0) == setup_of(b, inputs_b, info, out0));
}

/// No edge can be added that closes a cycle: a valid graph stays acyclic.
pub proof fn lemma_graph_acyclic(graph: &AudioGraph)
    requires
        graph.wf(),
    ensures
        graph@.acyclic(),
{
    lemma_order_acyclic(graph@, graph@.order);
}

/// Every edge of a valid graph carries a matrix with as many input channels
/// as its source has outputs and as many output channels as its destination
/// has inputs.
pub proof fn lemma_edges_fit(graph: &AudioGraph, e: int)
    requires
        graph.wf(),
        graph@.edge_live(e),
    ensures
        graph@.edge(e).matrix.cols == graph@.config(graph@.edge(e).src as int).num_output_channels,
        graph@.edge(e).matrix.rows == graph@.config(graph@.edge(e).dst as int).num_input_channels,
{
    assert(graph@.edges[e] == graph@.edges[e]);
}

/// In the execution order, the source of every edge comes before its
/// destination.
pub proof fn lemma_execution_order_topological(graph: &AudioGraph, e: int, i: int, j: int)
    requires
        graph.wf(),
        graph@.edge_live(e),
        0 <= i < graph@.order.len(),
        0 <= j < graph@.order.len(),
        graph@.order[i] == graph@.edge(e).src,
        graph@.order[j] == graph@.edge(e).dst,
    ensures
        i < j,
{
    let g = graph@;
    assert(g.edges[e] == g.edges[e]);
    let k = choose|k: int| 0 <= k < j && g.order[k] == g.edge(e).src;
    assert(g.order.no_duplicates());
}

/// Where a live node is left unplaced and no unplaced live node is ready,
/// the edges close a cycle.
proof fn lemma_stuck_is_cyclic(g: GraphModel, placed: Seq<bool>, w: int)
    requires
        g.edges_valid(),
        placed.len() == g.nodes.len(),
        g.live(w),
        !placed[w],
        forall|v: int| g.live(v) && !placed[v] ==> !#[trigger] parents_placed(g, placed, v),
    ensures
        !g.acyclic(),
{
    if g.acyclic() {
        let rank = choose|rank: Seq<int>| g.ranks_edges(rank);
        let p = |x: int| g.live(x) && !placed[x];
        let m = lemma_min_rank(rank, p, g.nodes.len() as int, w);
        assert(!parents_placed(g, placed, m));
        let e = choose|e: int| g.edge_live(e) && g.edge(e).dst == m && !placed[g.edge(e).src as int];
        assert(g.edges[e] == g.edges[e]);
        let src = g.edge(e).src as int;
        assert(p(src));
        assert(rank[src] < rank[m]);
    }
}

/// Among the nodes below `n` that satisfy `p`, one of least rank.
proof fn lemma_min_rank(rank: Seq<int>, p: spec_fn(int) -> bool, n: int, w: int) -> (m: int)
    requires
        0 <= w < n,
        p(w),
    ensures
        0 <= m < n,
        p(m),
        forall|x: int| 0 <= x < n && #[trigger] p(x) ==> rank[m] <= rank[x],
    decreases n,
{
    if n == 1 {
        w
    } else if w == n - 1 {
        if exists|x: int| 0 <= x < n - 1 && #[trigger] p(x) {
            let x = choose|x: int| 0 <= x < n - 1 && #[trigger] p(x);
            let m = lemma_min_rank(rank, p, n - 1, x);
            if rank[m] <= rank[n - 1] {
                m
            } else {
                n - 1
            }
        } else {
            n - 1
        }
    } else {
        let m = lemma_min_rank(rank, p, n - 1, w);
        if p(n - 1) && rank[n - 1] < rank[m] {
            n - 1
        } else {
            m
        }
    }
}

/// A duplicate-free sequence of indices below `n` that misses `v` is shorter
/// than `n`.
proof fn lemma_distinct_below(s: Seq<usize>, n: int, v: usize)
    requires
        s.no_duplicates(),
        forall|i: int| 0 <= i < s.len() ==> (#[trigger] s[i]) < n,
        v < n,
        n <= usize::MAX,
        !s.contains(v),
    ensures
        s.len() < n,
{
    s.unique_seq_to_set();
    lemma_usize_range_finite(n);
    let range = Set::new(|x: usize| x < n).remove(v);
    assert(s.to_set().subset_of(range));
    vstd::set_lib::lemma_len_subset(s.to_set(), range);
}

proof fn lemma_usize_range_finite(n: int)
    requires
        0 <= n <= usize::MAX,
    ensures
        Set::new(|x: usize| x < n).finite(),
        Set::new(|x: usize| x < n).len() == n,
    decreases n,
{
    if n == 0 {
        assert(Set::new(|x: usize| x < n) =~= Set::<usize>::empty());
    } else {
        lemma_usize_range_finite(n - 1);
        assert(Set::new(|x: usize| x < n) =~= Set::new(|x: usize| x < n - 1).insert((n - 1) as usize));
    }
}

} // verus!
