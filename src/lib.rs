//! A realtime audio mixing core: musical time, pin matrices, interleaved
//! buffers, a buffer arena, playlists of clips and a block-scheduled
//! processing graph, with the state machine that the audio callback runs.

mod adjacency_matrix;
mod arena;
mod backend;
mod buffer;
mod graph;
mod pin_matrix;
mod playlist;
mod processor;
mod timing;
mod track;
mod view;

pub use adjacency_matrix::{Adjacency, AdjacencyMatrix};
pub use arena::{lemma_arena_silent, BufferArena, BufferQueue};
pub use backend::{
    advance, AudioBackend, AudioBackendCommand, AudioBackendMessage, AudioEngineMessage,
    AudioEngineStatus, MessageId,
};
pub use buffer::{
    add_amp, add_samples, copy_channels, copy_check, copy_outcome, copy_region_into, copy_span,
    mix_all_into, mix_buffers, mix_channel_into, mix_region_into, mix_slice_into, AudioData, BufferError,
    ChannelStrategy, CopyOptions, FrameStrategy, InterleavedBuffer, IoError, SharedSample,
    EQUILIBRIUM,
};
pub use graph::{
    buffers_needed, external_input, input_contents, inputs_fit, ledger, lemma_edges_fit,
    lemma_edge_from_untouched_node, lemma_execution_order_topological, lemma_graph_acyclic,
    lemma_order_acyclic,
    lemma_render_deterministic, mix_edges, mix_pins, mixed_input, node_input, node_output,
    node_ready, position, render_ready, rendered, setup_of, silent, with_edge, AudioGraph,
    AudioNode, Connection, EdgeIndex, EdgeModel, GraphError, GraphModel, NodeIndex, RenderSetup,
};
pub use pin_matrix::{connections, grid_of_pairs, lemma_from_pairs_round_trip, PinGrid, PinMatrix};
pub use playlist::{
    block_event, block_event_of, events_of, lemma_clip_block_projection, lemma_entries_view,
    overlapping, overlaps,
    range_ok, BlockEvent, BlockIterator, BufferKey, Clip, MusicalRange, Playlist, PlaylistError,
};
pub use processor::{
    input_fits, output_fits, PassThrough, ProcessingError, ProcessingInformation,
    ProcessorConfiguration,
};
pub use timing::{
    frames_to_ticks, round_half_even, ticks_to_frames, FrameTime, MusicalTime, SampleRate,
    TICKS_PER_BEAT,
};
pub use track::{event_playable, mix_events, track_output, Track};
pub use view::{strided, InjectiveFn, StridedIter, StridedSlice, View};
