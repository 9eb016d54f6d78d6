use vstd::prelude::*;

use crate::buffer::InterleavedBuffer;
use crate::graph::{
    lemma_edge_from_untouched_node, position, render_ready, rendered, setup_of, with_edge, AudioGraph, AudioNode, EdgeIndex, NodeIndex,
};
use crate::pin_matrix::PinMatrix;
use crate::playlist::MusicalRange;
use crate::processor::{PassThrough, ProcessingError, ProcessingInformation};
use crate::timing::{frames_to_ticks, FrameTime, MusicalTime, SampleRate};
use crate::track::Track;

verus! {

/// Identifies a command, and the status that answers it.
#[derive(Clone, Copy, Debug, PartialEq, Eq, Structural)]
pub struct MessageId(pub u64);

/// What the audio side reports back to the controller.
#[derive(Clone, Copy, Debug, PartialEq, Eq, Structural)]
pub enum AudioEngineStatus {
    AddNode(NodeIndex),
    RemoveNode(NodeIndex),
    AddEdge { index: EdgeIndex, source: NodeIndex, destination: NodeIndex },
    RemoveEdge(EdgeIndex),
    InvalidConnection { source: NodeIndex, destination: NodeIndex },
    InvalidUpdate(EdgeIndex),
    Accepted,
}

/// A status together with the id of the command it answers.
#[derive(Clone, Copy, Debug, PartialEq, Eq, Structural)]
pub struct AudioEngineMessage {
    pub id: MessageId,
    pub status: AudioEngineStatus,
}

/// What the controller asks of the audio side.
pub enum AudioBackendCommand {
    Start,
    Pause,
    SetPlayhead(MusicalTime),
    AddTrack,
    AddConnection { source: NodeIndex, destination: NodeIndex, matrix: PinMatrix },
    UpdateConnection { edge: EdgeIndex, matrix: PinMatrix },
}

pub struct AudioBackendMessage {
    pub id: MessageId,
    pub command: AudioBackendCommand,
}

/// `a + b` in ticks, held at the largest position.
pub open spec fn advance(a: MusicalTime, b: MusicalTime) -> MusicalTime {
    if a.ticks + b.ticks > u64::MAX {
        MusicalTime { ticks: u64::MAX }
    } else {
        MusicalTime { ticks: (a.ticks + b.ticks) as u64 }
    }
}

fn advance_exec(a: MusicalTime, b: MusicalTime) -> (r: MusicalTime)
    ensures
        r == advance(a, b),
{
    if a.ticks > u64::MAX - b.ticks {
        MusicalTime { ticks: u64::MAX }
    } else {
        MusicalTime { ticks: a.ticks + b.ticks }
    }
}

/// The state that the audio callback owns: the graph, the playhead and
/// whether the transport runs. Commands are applied between blocks.
pub struct AudioBackend {
    graph: AudioGraph,
    master: NodeIndex,
    master_channels: usize,
    block_size: FrameTime,
    block_duration: MusicalTime,
    block_range: MusicalRange,
    bpm: u32,
    sample_rate: SampleRate,
    running: bool,
}

impl AudioBackend {
    pub closed spec fn wf(&self) -> bool {
        &&& self.graph.wf()
        &&& self.graph@.live(self.master.0 as int)
        &&& self.graph@.config(self.master.0 as int).num_input_channels == self.master_channels
        &&& self.graph@.config(self.master.0 as int).num_output_channels == self.master_channels
        &&& self.graph@.output == self.master.0
        &&& self.bpm > 0
        &&& self.graph.spec_block_size() == self.block_size
        &&& self.graph.pool_ready()
    }

    pub closed spec fn is_running(&self) -> bool {
        self.running
    }

    /// The musical span of the next block.
    pub closed spec fn playhead(&self) -> MusicalRange {
        self.block_range
    }

    /// The musical length of one block.
    pub closed spec fn block_duration(&self) -> MusicalTime {
        self.block_duration
    }

    /// What the next block is told: sample rate, tempo and the playhead.
    pub closed spec fn block_info(&self) -> ProcessingInformation {
        ProcessingInformation {
            sample_rate: self.sample_rate,
            bpm: self.bpm,
            block_start: self.block_range.start,
            block_end: self.block_range.end,
        }
    }

    pub closed spec fn spec_graph(&self) -> AudioGraph {
        self.graph
    }

    pub closed spec fn spec_master(&self) -> NodeIndex {
        self.master
    }

    pub closed spec fn spec_master_channels(&self) -> usize {
        self.master_channels
    }

    /// A stopped backend whose graph holds only the master, a pass-through
    /// of `master_channels` channels; the playhead spans the first block.
    pub fn new(master_channels: usize, bpm: u32, sample_rate: SampleRate, block_size: FrameTime) -> (r:
        AudioBackend)
        requires
            bpm > 0,
            sample_rate.0 > 0,
        ensures
            r.wf(),
            !r.is_running(),
            r.block_duration().ticks == frames_to_ticks(block_size.0 as nat, bpm as nat, sample_rate.0 as nat),
            r.playhead() == (MusicalRange { start: MusicalTime { ticks: 0 }, end: r.block_duration() }),
            r.spec_master_channels() == master_channels,
            r.spec_graph()@.nodes.len() == 1,
            r.spec_graph().pool_ready(),
    {
        let master = AudioNode::PassThrough(PassThrough::new(master_channels, master_channels));
        let (graph, index) = AudioGraph::new(master, sample_rate, block_size);
        let block_duration = block_size.to_musical_lossy(bpm, sample_rate);
        AudioBackend {
            graph,
            master: index,
            master_channels,
            block_size,
            block_duration,
            block_range: MusicalRange { start: MusicalTime::zero(), end: block_duration },
            bpm,
            sample_rate,
            running: false,
        }
    }

    /// Applies one command and returns the status that answers it.
    pub fn handle_message(&mut self, message: AudioBackendMessage) -> (r: AudioEngineMessage)
        requires
            old(self).wf(),
        ensures
            final(self).wf(),
            final(self).spec_graph().pool_ready(),
            final(self).spec_master() == old(self).spec_master(),
            final(self).spec_master_channels() == old(self).spec_master_channels(),
            r.id == message.id,
            match message.command {
                AudioBackendCommand::Start => final(self).is_running() && r.status == AudioEngineStatus::Accepted
                    && final(self).playhead() == old(self).playhead(),
                AudioBackendCommand::Pause => !final(self).is_running() && r.status == AudioEngineStatus::Accepted
                    && final(self).playhead() == old(self).playhead(),
                AudioBackendCommand::SetPlayhead(t) => final(self).playhead() == (MusicalRange {
                    start: t,
                    end: advance(t, old(self).block_duration()),
                }) && r.status == AudioEngineStatus::Accepted && final(self).is_running()
                    == old(self).is_running(),
                AudioBackendCommand::AddTrack => {
                    &&& final(self).is_running() == old(self).is_running()
                    &&& final(self).playhead() == old(self).playhead()
                    &&& final(self).spec_graph()@.nodes.len() == old(self).spec_graph()@.nodes.len() + 1
                    &&& old(self).spec_master_channels() * old(self).spec_master_channels() <= usize::MAX ==> {
                        &&& r.status == AudioEngineStatus::AddNode(
                            NodeIndex(old(self).spec_graph()@.nodes.len() as usize),
                        )
                        &&& final(self).spec_graph()@.edges.len() == old(self).spec_graph()@.edges.len() + 1
                        &&& final(self).spec_graph()@.edges.drop_last() == old(self).spec_graph()@.edges
                        &&& final(self).spec_graph()@.edges.last() matches Some(em) && {
                            &&& em.src == old(self).spec_graph()@.nodes.len()
                            &&& em.dst == old(self).spec_master().0
                            &&& em.matrix.wf()
                            &&& em.matrix.rows == old(self).spec_master_channels()
                            &&& em.matrix.cols == old(self).spec_master_channels()
                            &&& forall|i: int, o: int| em.matrix.in_range(i, o) ==> em.matrix.enabled(i, o) == (i == o)
                        }
                    }
                    &&& old(self).spec_master_channels() * old(self).spec_master_channels() > usize::MAX ==> r.status
                        == (AudioEngineStatus::InvalidConnection {
                        source: NodeIndex(old(self).spec_graph()@.nodes.len() as usize),
                        destination: old(self).spec_master(),
                    })
                },
                AudioBackendCommand::AddConnection { source, destination, matrix } => {
                    &&& final(self).is_running() == old(self).is_running()
                    &&& final(self).playhead() == old(self).playhead()
                    &&& (matrix.wf() && old(self).spec_graph()@.live(source.0 as int) && old(
                        self,
                    ).spec_graph()@.live(destination.0 as int) && old(self).spec_graph()@.matrix_fits(
                        matrix@,
                        source.0 as int,
                        destination.0 as int,
                    ) && with_edge(old(self).spec_graph()@, source.0, destination.0, matrix@).acyclic())
                        <==> r.status == (AudioEngineStatus::AddEdge {
                        index: EdgeIndex(old(self).spec_graph()@.edges.len() as usize),
                        source,
                        destination,
                    })
                    &&& r.status != (AudioEngineStatus::AddEdge {
                        index: EdgeIndex(old(self).spec_graph()@.edges.len() as usize),
                        source,
                        destination,
                    }) ==> r.status == (AudioEngineStatus::InvalidConnection { source, destination })
                        && final(self).spec_graph()@ == old(self).spec_graph()@
                },
                AudioBackendCommand::UpdateConnection { edge, matrix } => {
                    &&& final(self).is_running() == old(self).is_running()
                    &&& final(self).playhead() == old(self).playhead()
                    &&& (matrix.wf() && old(self).spec_graph()@.edge_live(edge.0 as int) && old(
                        self,
                    ).spec_graph()@.matrix_fits(
                        matrix@,
                        old(self).spec_graph()@.edge(edge.0 as int).src as int,
                        old(self).spec_graph()@.edge(edge.0 as int).dst as int,
                    )) <==> r.status == AudioEngineStatus::Accepted
                    &&& r.status != AudioEngineStatus::Accepted ==> r.status == AudioEngineStatus::InvalidUpdate(
                        edge,
                    ) && final(self).spec_graph()@ == old(self).spec_graph()@
                },
            },
    {
        let id = message.id;
        match message.command {
            AudioBackendCommand::Start => {
                self.running = true;
                AudioEngineMessage { id, status: AudioEngineStatus::Accepted }
            },
            AudioBackendCommand::Pause => {
                self.running = false;
                AudioEngineMessage { id, status: AudioEngineStatus::Accepted }
            },
            AudioBackendCommand::SetPlayhead(t) => {
                self.block_range = MusicalRange { start: t, end: advance_exec(t, self.block_duration) };
                AudioEngineMessage { id, status: AudioEngineStatus::Accepted }
            },
            AudioBackendCommand::AddTrack => {
                let track = AudioNode::Track(Track::new(self.master_channels));
                let node = self.graph.add_node(track);
                let mc = self.master_channels;
                proof {
                    assert(mc as int * mc as int <= usize::MAX as int * usize::MAX as int) by (nonlinear_arith)
                        requires
                            mc <= usize::MAX,
                    ;
                    assert(usize::MAX as int * usize::MAX as int <= u128::MAX) by (nonlinear_arith)
                        requires
                            usize::MAX <= u64::MAX,
                    ;
                }
                let ghost g1 = self.graph@;
                let status = if mc as u128 * mc as u128 <= usize::MAX as u128 {
                    let matrix = PinMatrix::diagonal(self.master_channels, self.master_channels);
                    proof {
                        let n = node.0;
                        assert(g1.live(n as int));
                        assert forall|e: int| #![trigger g1.edges[e]] g1.edge_live(e) implies g1.edge(e).src != n
                            && g1.edge(e).dst != n by {
                            assert(old(self).graph@.edges[e] == g1.edges[e]);
                            assert(old(self).graph@.edge_live(e));
                        }
                        assert(old(self).graph@.nodes[self.master.0 as int] == g1.nodes[self.master.0 as int]);
                        lemma_edge_from_untouched_node(g1, n, self.master.0, matrix@);
                    }
                    match self.graph.add_connection(node, self.master, matrix) {
                        Ok(_) => AudioEngineStatus::AddNode(node),
                        Err(_) => AudioEngineStatus::InvalidConnection { source: node, destination: self.master },
                    }
                } else {
                    AudioEngineStatus::InvalidConnection { source: node, destination: self.master }
                };
                AudioEngineMessage { id, status }
            },
            AudioBackendCommand::AddConnection { source, destination, matrix } => {
                if !matrix.is_valid() {
                    return AudioEngineMessage {
                        id,
                        status: AudioEngineStatus::InvalidConnection { source, destination },
                    };
                }
                match self.graph.add_connection(source, destination, matrix) {
                    Ok(index) => AudioEngineMessage {
                        id,
                        status: AudioEngineStatus::AddEdge { index, source, destination },
                    },
                    Err(_) => AudioEngineMessage {
                        id,
                        status: AudioEngineStatus::InvalidConnection { source, destination },
                    },
                }
            },
            AudioBackendCommand::UpdateConnection { edge, matrix } => {
                if !matrix.is_valid() {
                    return AudioEngineMessage { id, status: AudioEngineStatus::InvalidUpdate(edge) };
                }
                match self.graph.update_connection(edge, matrix) {
                    Some(_) => AudioEngineMessage { id, status: AudioEngineStatus::Accepted },
                    None => AudioEngineMessage { id, status: AudioEngineStatus::InvalidUpdate(edge) },
                }
            },
        }
    }

    /// Renders one block into `output` while the transport runs, then moves
    /// the playhead on by one block; while stopped leaves both as they are.
    pub fn render(&mut self, output: &mut InterleavedBuffer) -> (r: Result<(), ProcessingError>)
        requires
            old(self).wf(),
            old(output).wf(),
        ensures
            final(self).spec_graph().pool_ready(),
            final(self).wf(),
            final(self).is_running() == old(self).is_running(),
            final(output)@.channels == old(output)@.channels,
            final(output)@.samples.len() == old(output)@.samples.len(),
            final(output).wf(),
            !old(self).is_running() ==> r.is_ok() && final(output)@ == old(output)@ && final(self).playhead()
                == old(self).playhead(),
            old(self).is_running() ==> final(self).playhead() == (MusicalRange {
                start: old(self).playhead().end,
                end: advance(old(self).playhead().end, old(self).block_duration()),
            }),
            final(self).spec_graph()@ == old(self).spec_graph()@,
            old(self).is_running() && r.is_ok() ==> final(output)@ == rendered(
                setup_of(old(self).spec_graph(), Seq::empty(), old(self).block_info(), old(output)@),
                position(old(self).spec_graph()@.order, old(self).spec_graph()@.output),
            ),
            old(self).is_running() && render_ready(old(self).spec_graph(), Seq::empty())
                && old(output)@.channels == old(self).spec_master_channels() && old(output)@.frames()
                == old(self).spec_graph().spec_block_size().0 ==> r.is_ok(),
    {
        if !self.running {
            return Ok(());
        }
        let info = ProcessingInformation {
            sample_rate: self.sample_rate,
            bpm: self.bpm,
            block_start: self.block_range.start,
            block_end: self.block_range.end,
        };
        let inputs: Vec<(NodeIndex, &InterleavedBuffer)> = Vec::new();
        proof {
            assert(inputs@ =~= Seq::empty());
        }
        let r = self.graph.process_block(&inputs, output, info);
        let next = self.block_range.end;
        self.block_range = MusicalRange { start: next, end: advance_exec(next, self.block_duration) };
        r
    }

    pub fn is_playing(&self) -> (r: bool)
        ensures
            r == self.is_running(),
    {
        self.running
    }

    pub fn block_range(&self) -> (r: MusicalRange)
        ensures
            r == self.playhead(),
    {
        self.block_range
    }

    pub fn graph(&self) -> (r: &AudioGraph)
        ensures
            *r == self.spec_graph(),
    {
        &self.graph
    }

    pub fn master(&self) -> (r: NodeIndex)
        ensures
            r == self.spec_master(),
    {
        self.master
    }
}

} // verus!
