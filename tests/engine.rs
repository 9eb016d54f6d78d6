use audio_engine::{
    add_samples, AdjacencyMatrix, AudioBackend, AudioBackendCommand, AudioBackendMessage,
    AudioEngineMessage, AudioEngineStatus, BufferError, ChannelStrategy, CopyOptions, InjectiveFn,
    FrameStrategy, IoError, MessageId, SharedSample, StridedSlice, View, mix_buffers,
    block_event_of, AudioGraph, BufferArena, AudioNode, BlockEvent, BufferKey, Clip, EdgeIndex, FrameTime,
    GraphError, InterleavedBuffer, MusicalRange, MusicalTime, NodeIndex, PassThrough, PinMatrix,
    Playlist, PlaylistError, ProcessingError, ProcessingInformation, SampleRate, Track,
    TICKS_PER_BEAT,
};

fn info(frames: u64) -> ProcessingInformation {
    let sr = SampleRate::new(48000);
    ProcessingInformation {
        sample_rate: sr,
        bpm: 120,
        block_start: MusicalTime::zero(),
        block_end: FrameTime::new(frames).to_musical_lossy(120, sr),
    }
}

fn buffer_from(channels: usize, frames: &[&[i32]]) -> InterleavedBuffer {
    let mut b = InterleavedBuffer::with_shape(channels, SampleRate::new(48000), FrameTime(frames.len() as u64));
    for (f, frame) in frames.iter().enumerate() {
        for (c, v) in frame.iter().enumerate() {
            assert!(b.set(c, f, *v));
        }
    }
    b
}

fn frames_of(b: &InterleavedBuffer) -> Vec<Vec<i32>> {
    (0..b.frames()).map(|f| b.get_frame(f).unwrap()).collect()
}

fn pass(i: usize, o: usize) -> AudioNode {
    AudioNode::PassThrough(PassThrough::new(i, o))
}

#[test]
fn identity_passthrough() {
    let (mut graph, master) = AudioGraph::new(pass(2, 2), SampleRate::new(48000), FrameTime(4));
    let input = buffer_from(2, &[&[1, 2], &[3, 4], &[5, 6], &[7, 8]]);
    let mut output = InterleavedBuffer::with_shape(2, SampleRate::new(48000), FrameTime(4));
    let inputs = vec![(master, &input)];
    assert_eq!(graph.process_block(&inputs, &mut output, info(4)), Ok(()));
    assert_eq!(frames_of(&output), vec![vec![1, 2], vec![3, 4], vec![5, 6], vec![7, 8]]);
}

#[test]
fn swap_channels_via_matrix() {
    let (mut graph, a) = AudioGraph::new(pass(2, 2), SampleRate::new(48000), FrameTime(1));
    let b = graph.add_node(pass(2, 2));
    let mut m = PinMatrix::new(2, 2);
    m.set(0, 1, true);
    m.set(1, 0, true);
    assert!(graph.add_connection(b, a, m).is_ok());
    let input = buffer_from(2, &[&[1, 2]]);
    let mut output = InterleavedBuffer::with_shape(2, SampleRate::new(48000), FrameTime(1));
    let inputs = vec![(b, &input)];
    assert_eq!(graph.process_block(&inputs, &mut output, info(1)), Ok(()));
    assert_eq!(frames_of(&output), vec![vec![2, 1]]);
}

#[test]
fn two_parent_mix() {
    let (mut graph, a) = AudioGraph::new(pass(2, 2), SampleRate::new(48000), FrameTime(1));
    let b = graph.add_node(pass(2, 2));
    let c = graph.add_node(pass(2, 2));
    assert!(graph.add_connection(b, a, PinMatrix::diagonal(2, 2)).is_ok());
    assert!(graph.add_connection(c, a, PinMatrix::diagonal(2, 2)).is_ok());
    let ib = buffer_from(2, &[&[1, 0]]);
    let ic = buffer_from(2, &[&[0, 1]]);
    let mut output = InterleavedBuffer::with_shape(2, SampleRate::new(48000), FrameTime(1));
    let inputs = vec![(b, &ib), (c, &ic)];
    assert_eq!(graph.process_block(&inputs, &mut output, info(1)), Ok(()));
    assert_eq!(frames_of(&output), vec![vec![1, 1]]);
}

fn block_range(index: u64, size: u64) -> MusicalRange {
    let sr = SampleRate::new(48000);
    MusicalRange {
        start: FrameTime(index * size).to_musical_lossy(120, sr),
        end: FrameTime(index * size + size).to_musical_lossy(120, sr),
    }
}

#[test]
fn clip_alignment() {
    let mut playlist = Playlist::empty();
    let clip = Clip { buffer: BufferKey(0), offset: FrameTime(0) };
    let range = MusicalRange { start: MusicalTime::from_beats(0), end: MusicalTime::from_beats(1) };
    assert_eq!(playlist.insert(range, clip), None);
    let events = playlist.get_block_events(block_range(0, 256), 120, SampleRate::new(48000), FrameTime(256));
    assert_eq!(
        events,
        vec![BlockEvent {
            block_offset: FrameTime(0),
            slice_start: FrameTime(0),
            slice_end: FrameTime(256),
            buffer: BufferKey(0),
        }]
    );
}

#[test]
fn clip_starting_mid_block() {
    let mut playlist = Playlist::empty();
    let clip = Clip { buffer: BufferKey(0), offset: FrameTime(0) };
    let half = MusicalTime::new(TICKS_PER_BEAT / 2);
    let range = MusicalRange { start: half, end: MusicalTime::from_beats(1) };
    playlist.insert(range, clip);
    let sr = SampleRate::new(48000);
    assert!(playlist.get_block_events(block_range(0, 256), 120, sr, FrameTime(256)).is_empty());
    // 0.5 beats is frame 12000, inside block 46 (frames 11776..12032).
    let events = playlist.get_block_events(block_range(46, 256), 120, sr, FrameTime(256));
    assert_eq!(events.len(), 1);
    let k: u64 = 12000 - 46 * 256;
    let e = events[0];
    assert!(e.block_offset.0 + 1 >= k && e.block_offset.0 <= k + 1);
    assert_eq!(e.slice_end.0 - e.slice_start.0, 256 - e.block_offset.0);
    assert_eq!(e.slice_start.0, 0);
}

#[test]
fn buffer_lifetime_recycle() {
    let (mut graph, c) = AudioGraph::new(pass(2, 2), SampleRate::new(48000), FrameTime(2));
    let a = graph.add_node(pass(2, 2));
    let b = graph.add_node(pass(2, 2));
    assert!(graph.add_connection(a, b, PinMatrix::diagonal(2, 2)).is_ok());
    assert!(graph.add_connection(b, c, PinMatrix::diagonal(2, 2)).is_ok());
    assert_eq!(graph.buffer_lifetime(a), Some(b));
    assert_eq!(graph.buffer_lifetime(b), Some(c));
    assert_eq!(graph.buffer_lifetime(c), None);
    let before = graph.free_buffers();
    let input = buffer_from(2, &[&[3, 4], &[5, 6]]);
    let mut output = InterleavedBuffer::with_shape(2, SampleRate::new(48000), FrameTime(2));
    let inputs = vec![(a, &input)];
    assert_eq!(graph.process_block(&inputs, &mut output, info(2)), Ok(()));
    assert_eq!(graph.free_buffers(), before);
    assert_eq!(frames_of(&output), vec![vec![3, 4], vec![5, 6]]);
}

#[test]
fn cycle_is_refused_and_graph_kept() {
    let (mut graph, a) = AudioGraph::new(pass(1, 1), SampleRate::new(48000), FrameTime(8));
    let b = graph.add_node(pass(1, 1));
    let c = graph.add_node(pass(1, 1));
    assert_eq!(graph.add_connection(a, b, PinMatrix::full(1, 1)), Ok(EdgeIndex(0)));
    assert_eq!(graph.add_connection(b, c, PinMatrix::full(1, 1)), Ok(EdgeIndex(1)));
    let order = graph.execution_order();
    assert_eq!(graph.add_connection(c, a, PinMatrix::full(1, 1)), Err(GraphError::WouldCycle));
    assert_eq!(graph.add_connection(a, a, PinMatrix::full(1, 1)), Err(GraphError::WouldCycle));
    assert_eq!(graph.execution_order(), order);
    assert_eq!(graph.add_connection(a, c, PinMatrix::full(1, 1)), Ok(EdgeIndex(2)));
}

#[test]
fn mismatched_matrix_is_refused() {
    let (mut graph, a) = AudioGraph::new(pass(2, 2), SampleRate::new(48000), FrameTime(8));
    let b = graph.add_node(pass(1, 3));
    assert_eq!(
        graph.add_connection(b, a, PinMatrix::full(2, 2)),
        Err(GraphError::InvalidPinMatrix(2, 2))
    );
    assert!(graph.add_connection(b, a, PinMatrix::full(3, 2)).is_ok());
    assert_eq!(
        graph.add_connection(NodeIndex(9), a, PinMatrix::full(3, 2)),
        Err(GraphError::InvalidNode(NodeIndex(9)))
    );
    assert_eq!(graph.update_connection(EdgeIndex(0), PinMatrix::full(2, 2)).is_none(), true);
    assert_eq!(graph.update_connection(EdgeIndex(0), PinMatrix::diagonal(3, 2)).map(|m| m.get(1, 1)), Some(true));
}

#[test]
fn execution_order_is_topological() {
    let (mut graph, out) = AudioGraph::new(pass(1, 1), SampleRate::new(48000), FrameTime(8));
    let n1 = graph.add_node(pass(1, 1));
    let n2 = graph.add_node(pass(1, 1));
    let n3 = graph.add_node(pass(1, 1));
    graph.add_connection(n3, n2, PinMatrix::full(1, 1)).unwrap();
    graph.add_connection(n2, n1, PinMatrix::full(1, 1)).unwrap();
    graph.add_connection(n1, out, PinMatrix::full(1, 1)).unwrap();
    let order = graph.execution_order();
    let pos = |n: NodeIndex| order.iter().position(|x| *x == n).unwrap();
    assert_eq!(order.len(), 4);
    assert!(pos(n3) < pos(n2));
    assert!(pos(n2) < pos(n1));
    assert!(pos(n1) < pos(out));
}

#[test]
fn remove_node_rules() {
    let (mut graph, a) = AudioGraph::new(pass(1, 1), SampleRate::new(48000), FrameTime(8));
    let b = graph.add_node(pass(1, 1));
    let e = graph.add_connection(b, a, PinMatrix::full(1, 1)).unwrap();
    assert!(matches!(graph.remove_node(a), Err(GraphError::InvalidNode(_))));
    assert!(matches!(graph.remove_node(b), Err(GraphError::DanglingInConnection)));
    assert!(graph.remove_connection(e).is_some());
    assert!(graph.remove_connection(e).is_none());
    assert!(matches!(graph.remove_node(b), Ok(Some(_))));
    assert_eq!(graph.get_node_config(b), None);
    assert_eq!(graph.set_output_index(b), Err(GraphError::InvalidNode(b)));
}

#[test]
fn output_mismatch_is_refused() {
    let (mut graph, _) = AudioGraph::new(pass(2, 2), SampleRate::new(48000), FrameTime(4));
    let mut output = InterleavedBuffer::with_shape(1, SampleRate::new(48000), FrameTime(4));
    assert_eq!(graph.process_block(&vec![], &mut output, info(4)), Err(ProcessingError::InvalidBuffers));
}

#[test]
fn render_is_deterministic() {
    let build = || {
        let (mut graph, a) = AudioGraph::new(pass(2, 2), SampleRate::new(48000), FrameTime(3));
        let b = graph.add_node(pass(2, 2));
        graph.add_connection(b, a, PinMatrix::full(2, 2)).unwrap();
        (graph, b)
    };
    let input = buffer_from(2, &[&[1, -2], &[3, 4], &[i32::MAX, 6]]);
    let (mut g1, b1) = build();
    let (mut g2, b2) = build();
    let mut o1 = InterleavedBuffer::with_shape(2, SampleRate::new(48000), FrameTime(3));
    let mut o2 = InterleavedBuffer::with_shape(2, SampleRate::new(48000), FrameTime(3));
    g1.process_block(&vec![(b1, &input)], &mut o1, info(3)).unwrap();
    g2.process_block(&vec![(b2, &input)], &mut o2, info(3)).unwrap();
    assert_eq!(frames_of(&o1), frames_of(&o2));
    assert_eq!(frames_of(&o1), vec![vec![-1, -1], vec![7, 7], vec![i32::MAX, i32::MAX]]);
}

#[test]
fn pin_matrix_round_trip() {
    let mut m = PinMatrix::new(3, 2);
    m.set(0, 0, true);
    m.set(2, 0, true);
    m.set(1, 1, true);
    let pairs = m.channel_connections();
    assert_eq!(pairs, vec![(0, 0), (2, 0), (1, 1)]);
    let back = PinMatrix::from_pairs(&pairs, 2, 3);
    for o in 0..2 {
        for i in 0..3 {
            assert_eq!(back.get(i, o), m.get(i, o));
        }
    }
    assert_eq!(back.input_channels(), 3);
    assert_eq!(back.output_channels(), 2);
}

#[test]
fn diagonal_matrix_is_identity_on_shared_channels() {
    let m = PinMatrix::diagonal(3, 2);
    assert_eq!(m.channel_connections(), vec![(0, 0), (1, 1)]);
    assert_eq!(PinMatrix::full(2, 1).channel_connections(), vec![(0, 0), (1, 0)]);
    assert!(PinMatrix::new(2, 2).channel_connections().is_empty());
}

#[test]
fn disjoint_clip_has_no_event() {
    let clip = Clip { buffer: BufferKey(3), offset: FrameTime(10) };
    let range = MusicalRange { start: MusicalTime::from_beats(4), end: MusicalTime::from_beats(5) };
    let block = MusicalRange { start: MusicalTime::from_beats(0), end: MusicalTime::from_beats(4) };
    assert_eq!(block_event_of(range, clip, block, 120, SampleRate::new(48000), FrameTime(256)), None);
    let block = MusicalRange { start: MusicalTime::from_beats(4), end: MusicalTime::from_beats(6) };
    let e = block_event_of(range, clip, block, 120, SampleRate::new(48000), FrameTime(100)).unwrap();
    assert_eq!(e.block_offset, FrameTime(0));
    assert_eq!(e.slice_start, FrameTime(10));
    assert_eq!(e.slice_end, FrameTime(110));
    assert_eq!(e.buffer, BufferKey(3));
}

#[test]
fn playlist_insert_replaces_equal_range() {
    let mut playlist = Playlist::empty();
    let r = MusicalRange { start: MusicalTime::from_beats(1), end: MusicalTime::from_beats(2) };
    let c1 = Clip { buffer: BufferKey(1), offset: FrameTime(0) };
    let c2 = Clip { buffer: BufferKey(2), offset: FrameTime(5) };
    assert_eq!(playlist.insert(r, c1), None);
    assert_eq!(playlist.insert(r, c2), Some(c1));
    assert_eq!(playlist.get(r), Some(c2));
    let q = MusicalRange { start: MusicalTime::from_beats(0), end: MusicalTime::from_beats(1) };
    assert!(playlist.iter_overlaps(q).is_empty());
    assert_eq!(playlist.remove(r), Some(c2));
    assert_eq!(playlist.remove(r), None);
}

#[test]
fn musical_time_conversions() {
    let sr = SampleRate::new(48000);
    assert_eq!(MusicalTime::from_beats(1).to_nearest_frame_round_lossy(120, sr), FrameTime(24000));
    assert_eq!(FrameTime(24000).to_musical_lossy(120, sr), MusicalTime::from_beats(1));
    assert_eq!(MusicalTime::new(5).checked_sub(MusicalTime::new(7)), None);
    assert_eq!(MusicalTime::new(5).saturating_sub(MusicalTime::new(7)), MusicalTime::zero());
    // Just under half a frame rounds down.
    let half_frame = MusicalTime::new(TICKS_PER_BEAT / 48000);
    assert_eq!(half_frame.to_nearest_frame_round_lossy(120, sr), FrameTime(0));
}

#[test]
fn track_plays_its_clip() {
    let sr = SampleRate::new(48000);
    let mut track = Track::new(1);
    let mut ramp = InterleavedBuffer::with_shape(1, sr, FrameTime(24000));
    for f in 0..24000 {
        ramp.set(0, f, f as i32);
    }
    let key = track.add_buffer(ramp);
    let range = MusicalRange { start: MusicalTime::from_beats(0), end: MusicalTime::from_beats(1) };
    track.insert_clip(range, Clip { buffer: key, offset: FrameTime(0) });
    let (mut graph, master) = AudioGraph::new(pass(1, 1), sr, FrameTime(256));
    let t = graph.add_node(AudioNode::Track(track));
    graph.add_connection(t, master, PinMatrix::diagonal(1, 1)).unwrap();
    let mut output = InterleavedBuffer::with_shape(1, sr, FrameTime(256));
    graph.process_block(&vec![], &mut output, info(256)).unwrap();
    for f in 0..256 {
        assert_eq!(output.get(0, f), Some(f as i32));
    }
}

#[test]
fn arena_take_and_release() {
    let sr = SampleRate::new(48000);
    let mut arena = BufferArena::new(sr);
    arena.ensure_capacity(2, FrameTime(4), 3);
    assert_eq!(arena.available(2, FrameTime(4)), 3);
    assert_eq!(arena.size_of_queues(), 3);
    let mut b = arena.take(2, FrameTime(4)).unwrap();
    assert!(arena.take(1, FrameTime(4)).is_none());
    assert_eq!(b.channels(), 2);
    assert_eq!(b.frames(), 4);
    b.set(1, 3, 9);
    b.set_to_equilibrium();
    arena.release(b);
    assert_eq!(arena.available(2, FrameTime(4)), 3);
    arena.ensure_capacity(2, FrameTime(4), 1);
    assert_eq!(arena.size_of_queues(), 3);
}

#[test]
fn with_shape_is_full() {
    let buffer = InterleavedBuffer::with_shape(2, SampleRate::default(), FrameTime(256));
    assert_eq!(buffer.samples(), 512);
    assert_eq!(buffer.channels(), 2);
    assert_eq!(buffer.frames(), 256);
}

#[test]
fn new_buffer_is_empty() {
    let buffer = InterleavedBuffer::new(2, SampleRate::default());
    assert_eq!(buffer.samples(), 0);
    assert_eq!(buffer.frames(), 0);
    assert_eq!(buffer.channels(), 2);
}

#[test]
fn get_frame_returns_correct_slice() {
    let buffer = InterleavedBuffer::with_shape(2, SampleRate::default(), FrameTime(3));
    let frame0 = buffer.get_frame(0).unwrap();
    assert_eq!(frame0.len(), 2);
    let frame_out_of_bounds = buffer.get_frame(10);
    assert!(frame_out_of_bounds.is_none());
}

#[test]
fn get_channel_returns_correct_view() {
    let buffer = InterleavedBuffer::with_shape(2, SampleRate::default(), FrameTime(2));
    let channel0 = buffer.get_channel(0).unwrap();
    let channel1 = buffer.get_channel(1).unwrap();
    assert!(channel0.get(0).is_some());
    assert!(channel1.get(0).is_some());
    assert!(channel0.get(10).is_none());
    assert!(channel1.get(10).is_none());
    assert!(buffer.get_channel(2).is_none());
}

#[test]
fn with_frame_mut_changes_values() {
    let mut buffer = InterleavedBuffer::with_shape(2, SampleRate::default(), FrameTime(1));
    buffer.set(0, 0, 1);
    buffer.set(1, 0, 2);
    let frame = buffer.get_frame(0).unwrap();
    assert_eq!(frame, vec![1, 2]);
}

#[test]
fn with_channel_mut_changes_values() {
    let mut buffer = InterleavedBuffer::with_shape(2, SampleRate::default(), FrameTime(2));
    for f in 0..2 {
        buffer.set(0, f, 42);
    }
    let channel0 = buffer.get_channel(0).unwrap();
    assert_eq!(&[*channel0.get(0).unwrap(), *channel0.get(1).unwrap()], &[42, 42]);
}

#[test]
fn iter_frames_returns_correct_chunks() {
    let buffer = InterleavedBuffer::with_shape(2, SampleRate::default(), FrameTime(3));
    let frames: Vec<_> = (0..buffer.frames()).map(|f| buffer.get_frame(f).unwrap()).collect();
    assert_eq!(frames.len(), 3);
    assert!(frames.iter().all(|f| f.len() == 2));
}

#[test]
fn resize_changes_frames() {
    let mut buffer = InterleavedBuffer::with_shape(2, SampleRate::default(), FrameTime(2));
    buffer.resize(4);
    assert_eq!(buffer.frames(), 4);
    assert_eq!(buffer.samples(), 8);
}

#[test]
fn set_to_equilibrium_fills_buffer() {
    let mut buffer = InterleavedBuffer::with_shape(2, SampleRate::default(), FrameTime(3));
    buffer.set(1, 2, 5);
    buffer.set_to_equilibrium();
    assert!((0..3).all(|f| buffer.get_frame(f).unwrap().iter().all(|&s| s == 0)));
}

#[test]
fn backend_commands_change_state() {
    let sr = SampleRate::new(48000);
    let mut backend = AudioBackend::new(2, 120, sr, FrameTime(256));
    assert!(!backend.is_playing());
    let r = backend.handle_message(AudioBackendMessage { id: MessageId(1), command: AudioBackendCommand::Start });
    assert_eq!(r, AudioEngineMessage { id: MessageId(1), status: AudioEngineStatus::Accepted });
    assert!(backend.is_playing());
    let r = backend.handle_message(AudioBackendMessage { id: MessageId(2), command: AudioBackendCommand::AddTrack });
    assert_eq!(r.status, AudioEngineStatus::AddNode(NodeIndex(1)));
    let r = backend.handle_message(AudioBackendMessage {
        id: MessageId(3),
        command: AudioBackendCommand::AddConnection {
            source: backend.master(),
            destination: NodeIndex(1),
            matrix: PinMatrix::full(2, 0),
        },
    });
    assert_eq!(
        r.status,
        AudioEngineStatus::InvalidConnection { source: NodeIndex(0), destination: NodeIndex(1) }
    );
    let r = backend.handle_message(AudioBackendMessage {
        id: MessageId(4),
        command: AudioBackendCommand::UpdateConnection { edge: EdgeIndex(0), matrix: PinMatrix::full(2, 2) },
    });
    assert_eq!(r.status, AudioEngineStatus::Accepted);
    let r = backend.handle_message(AudioBackendMessage {
        id: MessageId(5),
        command: AudioBackendCommand::UpdateConnection { edge: EdgeIndex(7), matrix: PinMatrix::full(2, 2) },
    });
    assert_eq!(r.status, AudioEngineStatus::InvalidUpdate(EdgeIndex(7)));
    let r = backend.handle_message(AudioBackendMessage { id: MessageId(6), command: AudioBackendCommand::Pause });
    assert_eq!(r.status, AudioEngineStatus::Accepted);
    assert!(!backend.is_playing());
}

#[test]
fn backend_playhead_advances_while_running() {
    let sr = SampleRate::new(48000);
    let mut backend = AudioBackend::new(1, 120, sr, FrameTime(24000));
    let beat = MusicalTime::from_beats(1);
    assert_eq!(backend.block_range(), MusicalRange { start: MusicalTime::zero(), end: beat });
    let mut out = InterleavedBuffer::with_shape(1, sr, FrameTime(24000));
    assert_eq!(backend.render(&mut out), Ok(()));
    assert_eq!(backend.block_range().start, MusicalTime::zero());
    backend.handle_message(AudioBackendMessage { id: MessageId(1), command: AudioBackendCommand::Start });
    assert_eq!(backend.render(&mut out), Ok(()));
    assert_eq!(backend.block_range(), MusicalRange { start: beat, end: MusicalTime::from_beats(2) });
    backend.handle_message(AudioBackendMessage {
        id: MessageId(2),
        command: AudioBackendCommand::SetPlayhead(MusicalTime::from_beats(8)),
    });
    assert_eq!(
        backend.block_range(),
        MusicalRange { start: MusicalTime::from_beats(8), end: MusicalTime::from_beats(9) }
    );
}

#[test]
fn adjacency_mirror_tracks_edits() {
    let mut m = AdjacencyMatrix::empty();
    m.add_node(NodeIndex(0));
    m.add_node(NodeIndex(1));
    m.add_node(NodeIndex(1));
    assert_eq!(m.nodes().len(), 2);
    m.add_edge_unchecked(EdgeIndex(4), NodeIndex(1), NodeIndex(0));
    assert!(m.is_adjacent(NodeIndex(1), NodeIndex(0)));
    assert!(!m.is_adjacent(NodeIndex(0), NodeIndex(1)));
    m.add_edge_unchecked(EdgeIndex(4), NodeIndex(0), NodeIndex(1));
    assert_eq!(m.edges(), vec![(EdgeIndex(4), NodeIndex(0), NodeIndex(1))]);
    m.remove_edge(EdgeIndex(4));
    assert!(m.edges().is_empty());
    m.remove_node_unchecked(NodeIndex(0));
    assert_eq!(m.nodes(), vec![NodeIndex(1)]);
}

#[test]
fn strided_views_read_one_channel() {
    let data = vec![1, 2, 3, 4, 5, 6];
    let view = View::with_stride(&data, 2, 1);
    assert_eq!(view.get(0), Some(&2));
    assert_eq!(view.get(2), Some(&6));
    assert_eq!(view.get(3), None);
    let mapped = View::new(&data, InjectiveFn { stride: 3, offset: 2 });
    assert_eq!(mapped.get(1), Some(&6));
    assert_eq!(InjectiveFn { stride: 2, offset: 1 }.call(usize::MAX), None);
    let slice = StridedSlice::new(&data, 0, 3, 2).unwrap();
    assert_eq!(slice.len(), 3);
    assert_eq!(slice.get(1), Some(&3));
    assert_eq!(slice.get(3), None);
    let mut it = slice.iter();
    let mut seen = vec![];
    while let Some(v) = it.next() {
        seen.push(v);
    }
    assert_eq!(seen, vec![1, 3, 5]);
    assert!(StridedSlice::new(&data, 1, 4, 2).is_none());
}

#[test]
fn channel_slice_walks_frames() {
    let b = buffer_from(2, &[&[1, 2], &[3, 4], &[5, 6]]);
    let s = b.channel_slice(1).unwrap();
    assert_eq!(s.len(), 3);
    assert_eq!(s.get(2), Some(&6));
    assert!(b.channel_slice(2).is_none());
}

#[test]
fn copy_options_offsets_and_strategies() {
    let src = buffer_from(2, &[&[1, 2], &[3, 4], &[5, 6]]);
    let mut dst = InterleavedBuffer::with_shape(2, SampleRate::new(48000), FrameTime(2));
    let options = CopyOptions::default().with_src_frame_offset(1);
    assert_eq!(dst.mix_from_with(&src, options), Ok(()));
    assert_eq!(frames_of(&dst), vec![vec![3, 4], vec![5, 6]]);
    let mut mono = InterleavedBuffer::with_shape(1, SampleRate::new(48000), FrameTime(3));
    let strict = CopyOptions { channel_strategy: ChannelStrategy::Strict, ..CopyOptions::default() };
    assert_eq!(mono.mix_from_with(&src, strict), Err(BufferError::ChannelMismatch));
    let shifted = CopyOptions { src_channel_offset: 1, ..CopyOptions::default() };
    assert_eq!(mono.mix_from_with(&src, shifted), Ok(()));
    assert_eq!(frames_of(&mono), vec![vec![2], vec![4], vec![6]]);
    let bad = CopyOptions { src_frame_offset: 9, ..CopyOptions::default() };
    assert_eq!(mono.mix_from_with(&src, bad), Err(BufferError::InvalidFrameOffset));
    let bad = CopyOptions { dst_channel_offset: 2, ..CopyOptions::default() };
    assert_eq!(mono.mix_from_with(&src, bad), Err(BufferError::InvalidChannelOffset));
}

#[test]
fn samples_clip_when_mixed() {
    assert_eq!(add_samples(i32::MAX, 1), i32::MAX);
    assert_eq!(add_samples(i32::MIN, -1), i32::MIN);
    assert_eq!(add_samples(-3, 5), 2);
    assert_eq!(<i32 as SharedSample>::add_amp(7, 8), 15);
    assert_eq!(<i32 as SharedSample>::equilibrium(), 0);
}

#[test]
fn pass_through_checks_buffers() {
    let p = PassThrough::new(2, 1);
    let input = buffer_from(2, &[&[1, 2]]);
    let mut out = InterleavedBuffer::with_shape(1, SampleRate::new(48000), FrameTime(1));
    assert_eq!(p.process(Some(&input), &mut out, info(1)), Ok(()));
    assert_eq!(frames_of(&out), vec![vec![1]]);
    assert_eq!(p.process(None, &mut out, info(1)), Err(ProcessingError::InvalidBuffers));
    let mut wide = InterleavedBuffer::with_shape(2, SampleRate::new(48000), FrameTime(1));
    assert_eq!(p.process(Some(&input), &mut wide, info(1)), Err(ProcessingError::InvalidBuffers));
    assert_eq!(p.config().num_input_channels, 2);
}

#[test]
fn set_block_size_grows_arena() {
    let (mut graph, _) = AudioGraph::new(pass(2, 2), SampleRate::new(48000), FrameTime(4));
    let before = graph.free_buffers();
    assert_eq!(graph.set_block_size(FrameTime(8)), FrameTime(4));
    assert_eq!(graph.block_size(), FrameTime(8));
    assert!(graph.free_buffers() > before);
    let mut out = InterleavedBuffer::with_shape(2, SampleRate::new(48000), FrameTime(4));
    assert_eq!(graph.process_block(&vec![], &mut out, info(4)), Err(ProcessingError::InvalidBuffers));
}

#[test]
fn try_insert_refuses_empty_range() {
    let mut playlist = Playlist::empty();
    let clip = Clip { buffer: BufferKey(0), offset: FrameTime(0) };
    let empty = MusicalRange { start: MusicalTime::from_beats(2), end: MusicalTime::from_beats(2) };
    assert_eq!(playlist.try_insert(empty, clip), Err(PlaylistError::InvalidRange));
    let ok = MusicalRange { start: MusicalTime::from_beats(2), end: MusicalTime::from_beats(3) };
    assert_eq!(playlist.try_insert(ok, clip), Ok(None));
    assert_eq!(playlist.get(ok), Some(clip));
}

#[test]
fn block_iterator_walks_the_timeline() {
    let mut playlist = Playlist::empty();
    let clip = Clip { buffer: BufferKey(1), offset: FrameTime(0) };
    // One beat is 24000 frames at 120 bpm and 48 kHz: the clip fills the second block.
    let range = MusicalRange { start: MusicalTime::from_beats(1), end: MusicalTime::from_beats(2) };
    playlist.insert(range, clip);
    let mut blocks = playlist.iter_blocks(FrameTime(24000), SampleRate::new(48000), 120);
    assert!(blocks.next().is_empty());
    let second = blocks.next();
    assert_eq!(
        second,
        vec![BlockEvent {
            block_offset: FrameTime(0),
            slice_start: FrameTime(0),
            slice_end: FrameTime(24000),
            buffer: BufferKey(1),
        }]
    );
    assert!(blocks.next().is_empty());
}

#[test]
fn copy_from_repeats_and_fits() {
    let src = buffer_from(1, &[&[5], &[6]]);
    let mut dst = buffer_from(2, &[&[1, 1], &[1, 1], &[1, 1]]);
    let options = CopyOptions {
        channel_strategy: ChannelStrategy::Repeat,
        frame_strategy: FrameStrategy::Fit,
        ..CopyOptions::default()
    };
    assert_eq!(dst.copy_from(&src, options), Ok(()));
    assert_eq!(frames_of(&dst), vec![vec![5, 5], vec![6, 6], vec![0, 0]]);
    let mut dst = buffer_from(2, &[&[1, 1], &[1, 1], &[1, 1]]);
    assert_eq!(dst.copy_from(&src, CopyOptions::default()), Ok(()));
    assert_eq!(frames_of(&dst), vec![vec![5, 1], vec![6, 1], vec![1, 1]]);
    let strict = CopyOptions { frame_strategy: FrameStrategy::Strict, ..CopyOptions::default() };
    assert_eq!(dst.copy_from(&src, strict), Err(BufferError::FrameMismatch));
    let offset = CopyOptions { dst_frame_offset: 3, ..CopyOptions::default() };
    assert_eq!(dst.copy_from(&src, offset), Err(BufferError::InvalidFrameOffset));
}

#[test]
fn external_input_of_wrong_width_fails_block() {
    let (mut graph, master) = AudioGraph::new(pass(2, 2), SampleRate::new(48000), FrameTime(2));
    let before = graph.free_buffers();
    let input = buffer_from(1, &[&[1], &[2]]);
    let mut output = InterleavedBuffer::with_shape(2, SampleRate::new(48000), FrameTime(2));
    assert_eq!(
        graph.process_block(&vec![(master, &input)], &mut output, info(2)),
        Err(ProcessingError::InvalidBuffers)
    );
    assert_eq!(graph.free_buffers(), before);
}

#[test]
fn node_without_outputs_cannot_render() {
    let (mut graph, master) = AudioGraph::new(pass(1, 1), SampleRate::new(48000), FrameTime(2));
    let sink = graph.add_node(pass(1, 0));
    let input = buffer_from(1, &[&[1], &[2]]);
    let mut output = InterleavedBuffer::with_shape(1, SampleRate::new(48000), FrameTime(2));
    let before = graph.free_buffers();
    let inputs = vec![(master, &input), (sink, &input)];
    assert_eq!(graph.process_block(&inputs, &mut output, info(2)), Err(ProcessingError::InvalidBuffers));
    assert_eq!(graph.free_buffers(), before);
}

#[test]
fn output_node_feeding_another_node_passes_it_nothing() {
    let (mut graph, a) = AudioGraph::new(pass(1, 1), SampleRate::new(48000), FrameTime(1));
    let b = graph.add_node(pass(1, 1));
    graph.add_connection(a, b, PinMatrix::full(1, 1)).unwrap();
    let input = buffer_from(1, &[&[4]]);
    let mut output = InterleavedBuffer::with_shape(1, SampleRate::new(48000), FrameTime(1));
    assert_eq!(graph.process_block(&vec![(a, &input)], &mut output, info(1)), Ok(()));
    assert_eq!(frames_of(&output), vec![vec![4]]);
}

#[test]
fn mirror_follows_backend_statuses() {
    let sr = SampleRate::new(48000);
    let mut backend = AudioBackend::new(2, 120, sr, FrameTime(64));
    let mut mirror = AdjacencyMatrix::empty();
    mirror.apply_status(AudioEngineStatus::AddNode(backend.master()));
    let r = backend.handle_message(AudioBackendMessage { id: MessageId(1), command: AudioBackendCommand::AddTrack });
    mirror.apply_status(r.status);
    assert_eq!(mirror.nodes(), vec![NodeIndex(0), NodeIndex(1)]);
    mirror.apply_status(AudioEngineStatus::AddEdge {
        index: EdgeIndex(0),
        source: NodeIndex(1),
        destination: NodeIndex(0),
    });
    assert!(mirror.is_adjacent(NodeIndex(1), NodeIndex(0)));
    mirror.apply_status(AudioEngineStatus::Accepted);
    mirror.apply_status(AudioEngineStatus::RemoveEdge(EdgeIndex(0)));
    assert!(!mirror.is_adjacent(NodeIndex(1), NodeIndex(0)));
    mirror.apply_status(AudioEngineStatus::RemoveNode(NodeIndex(1)));
    assert_eq!(mirror.nodes(), vec![NodeIndex(0)]);
}

#[test]
fn mix_buffers_refuses_channel_mismatch() {
    let input = buffer_from(2, &[&[1, 2], &[3, 4], &[5, 6]]);
    let mut mono = buffer_from(1, &[&[9], &[9]]);
    assert_eq!(mix_buffers(&input, &mut mono), Err(IoError::ChannelMismatch(1, 2)));
    assert_eq!(frames_of(&mono), vec![vec![9], vec![9]]);
    let mut out = buffer_from(2, &[&[10, 20], &[30, 40]]);
    assert_eq!(mix_buffers(&input, &mut out), Ok(2));
    assert_eq!(frames_of(&out), vec![vec![11, 22], vec![33, 44]]);
}

#[test]
fn generator_accepts_any_input() {
    let p = PassThrough::new(0, 2);
    let input = buffer_from(2, &[&[1, 2]]);
    let mut out = InterleavedBuffer::with_shape(2, SampleRate::new(48000), FrameTime(1));
    assert_eq!(p.process(Some(&input), &mut out, info(1)), Ok(()));
    assert_eq!(p.process(None, &mut out, info(1)), Ok(()));
}

#[test]
fn remove_untouched_node_succeeds() {
    let (mut graph, _) = AudioGraph::new(pass(1, 1), SampleRate::new(48000), FrameTime(8));
    let b = graph.add_node(pass(1, 1));
    assert!(matches!(graph.remove_node(b), Ok(Some(_))));
    assert!(matches!(graph.remove_node(NodeIndex(7)), Ok(None)));
}

#[test]
fn release_accepts_buffer_of_other_rate() {
    let mut arena = BufferArena::new(SampleRate::new(48000));
    let b = InterleavedBuffer::with_shape(2, SampleRate::new(44100), FrameTime(4));
    arena.release(b);
    assert_eq!(arena.available(2, FrameTime(4)), 1);
    let back = arena.take(2, FrameTime(4)).unwrap();
    assert_eq!(back.sample_rate(), SampleRate::new(48000));
}

#[test]
fn add_track_connects_to_master() {
    let mut backend = AudioBackend::new(2, 120, SampleRate::new(48000), FrameTime(64));
    let r = backend.handle_message(AudioBackendMessage { id: MessageId(1), command: AudioBackendCommand::AddTrack });
    assert_eq!(r.status, AudioEngineStatus::AddNode(NodeIndex(1)));
    let g = backend.graph();
    assert_eq!(g.execution_order(), vec![NodeIndex(1), NodeIndex(0)]);
    assert_eq!(g.buffer_lifetime(NodeIndex(1)), Some(NodeIndex(0)));
}

#[test]
fn recompute_keeps_order_valid() {
    let (mut graph, a) = AudioGraph::new(pass(1, 1), SampleRate::new(48000), FrameTime(8));
    let b = graph.add_node(pass(1, 1));
    graph.add_connection(b, a, PinMatrix::full(1, 1)).unwrap();
    graph.recompute_execution_order();
    assert_eq!(graph.execution_order(), vec![b, a]);
}
