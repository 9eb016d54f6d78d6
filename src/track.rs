use vstd::prelude::*;

use crate::buffer::{mix_slice_into, AudioData, InterleavedBuffer};
use crate::playlist::{events_of, range_ok, BlockEvent, BufferKey, Clip, MusicalRange, Playlist};
use crate::processor::{ProcessingInformation, ProcessorConfiguration};
use crate::timing::FrameTime;

verus! {

/// Whether an event names one of `count` buffers and its numbers fit in
/// `usize`.
pub open spec fn event_playable(e: BlockEvent, count: nat) -> bool {
    &&& e.buffer.0 < count
    &&& e.slice_start.0 <= usize::MAX
    &&& e.block_offset.0 <= usize::MAX
    &&& e.slice_end.0 >= e.slice_start.0
    &&& e.slice_end.0 - e.slice_start.0 <= usize::MAX
}

/// `acc` with the slice of each playable event added in at its offset, event
/// by event.
pub open spec fn mix_events(acc: AudioData, buffers: Seq<AudioData>, events: Seq<BlockEvent>) -> AudioData
    decreases events.len(),
{
    if events.len() == 0 {
        acc
    } else {
        let a = mix_events(acc, buffers, events.drop_last());
        let e = events.last();
        if event_playable(e, buffers.len()) {
            AudioData {
                samples: mix_slice_into(
                    a,
                    buffers[e.buffer.0 as int],
                    e.slice_start.0 as int,
                    e.block_offset.0 as int,
                    e.slice_end.0 - e.slice_start.0,
                ),
                ..a
            }
        } else {
            a
        }
    }
}

/// Mixing events keeps the shape of the buffer.
pub proof fn lemma_mix_events_shape(acc: AudioData, buffers: Seq<AudioData>, events: Seq<BlockEvent>)
    ensures
        mix_events(acc, buffers, events).channels == acc.channels,
        mix_events(acc, buffers, events).sample_rate == acc.sample_rate,
        mix_events(acc, buffers, events).samples.len() == acc.samples.len(),
    decreases events.len(),
{
    if events.len() > 0 {
        lemma_mix_events_shape(acc, buffers, events.drop_last());
    }
}

/// `out` after a track with these clips and buffers has played the block
/// that `info` describes into it.
pub open spec fn track_output(
    entries: Seq<(MusicalRange, Clip)>,
    buffers: Seq<AudioData>,
    out: AudioData,
    info: ProcessingInformation,
) -> AudioData {
    if info.bpm == 0 {
        out
    } else {
        mix_events(
            out,
            buffers,
            events_of(
                entries,
                MusicalRange { start: info.block_start, end: info.block_end },
                info.bpm as nat,
                info.sample_rate.0 as nat,
                out.frames(),
            ),
        )
    }
}

/// A generator that plays the clips of its playlist: each block it mixes, for
/// every clip that meets the block, the clip's slice of its buffer into the
/// output at the clip's offset in the block.
pub struct Track {
    num_channels: usize,
    playlist: Playlist,
    buffers: Vec<InterleavedBuffer>,
}

impl Track {
    pub closed spec fn wf(&self) -> bool {
        &&& self.playlist.wf()
        &&& forall|k: int| 0 <= k < self.buffers@.len() ==> (#[trigger] self.buffers@[k]).wf()
    }

    pub closed spec fn spec_num_channels(&self) -> usize {
        self.num_channels
    }

    /// The playlist of the track.
    pub closed spec fn spec_playlist(&self) -> Playlist {
        self.playlist
    }

    /// How many clip buffers the track holds.
    pub closed spec fn buffer_count(&self) -> nat {
        self.buffers@.len()
    }

    /// The content of each clip buffer, by key.
    pub closed spec fn spec_buffers(&self) -> Seq<AudioData> {
        self.buffers@.map_values(|b: InterleavedBuffer| b@)
    }

    pub fn new(num_channels: usize) -> (r: Track)
        ensures
            r.wf(),
            r.spec_num_channels() == num_channels,
            r.spec_playlist()@ == Map::<MusicalRange, Clip>::empty(),
            r.buffer_count() == 0,
    {
        Track { num_channels, playlist: Playlist::empty(), buffers: Vec::new() }
    }

    pub fn config(&self) -> (r: ProcessorConfiguration)
        ensures
            r.num_input_channels == 0,
            r.num_output_channels == self.spec_num_channels(),
    {
        ProcessorConfiguration { num_input_channels: 0, num_output_channels: self.num_channels }
    }

    /// Stores an immutable clip buffer and returns its key.
    pub fn add_buffer(&mut self, buffer: InterleavedBuffer) -> (r: BufferKey)
        requires
            old(self).wf(),
            buffer.wf(),
        ensures
            final(self).wf(),
            r.0 == old(self).buffer_count(),
            final(self).buffer_count() == old(self).buffer_count() + 1,
            final(self).spec_buffers() == old(self).spec_buffers().push(buffer@),
            final(self).spec_num_channels() == old(self).spec_num_channels(),
            final(self).spec_playlist() == old(self).spec_playlist(),
    {
        let key = self.buffers.len();
        self.buffers.push(buffer);
        proof {
            assert(self.spec_buffers() =~= old(self).spec_buffers().push(buffer@));
            assert forall|k: int| 0 <= k < self.buffers@.len() implies (#[trigger] self.buffers@[k]).wf() by {
                if k < key {
                    assert(self.buffers@[k] == old(self).buffers@[k]);
                }
            }
        }
        BufferKey(key)
    }

    /// Places a clip on the track's timeline; see `Playlist::insert`.
    pub fn insert_clip(&mut self, range: MusicalRange, clip: Clip) -> (r: Option<Clip>)
        requires
            old(self).wf(),
            range_ok(range),
        ensures
            final(self).wf(),
            final(self).spec_playlist()@ == old(self).spec_playlist()@.insert(range, clip),
            r == (if old(self).spec_playlist()@.contains_key(range) {
                Some(old(self).spec_playlist()@[range])
            } else {
                None
            }),
            final(self).spec_num_channels() == old(self).spec_num_channels(),
            final(self).buffer_count() == old(self).buffer_count(),
    {
        self.playlist.insert(range, clip)
    }

    pub fn get_playlist(&self) -> (r: &Playlist)
        ensures
            *r == self.spec_playlist(),
    {
        &self.playlist
    }

    /// Mixes one event's slice of its clip buffer into `output`; an event
    /// whose key names no buffer is skipped.
    fn mix_event(&self, event: BlockEvent, output: &mut InterleavedBuffer)
        requires
            self.wf(),
            old(output).wf(),
        ensures
            final(output).wf(),
            final(output)@ == if event_playable(event, self.spec_buffers().len()) {
                AudioData {
                    samples: mix_slice_into(
                        old(output)@,
                        self.spec_buffers()[event.buffer.0 as int],
                        event.slice_start.0 as int,
                        event.block_offset.0 as int,
                        event.slice_end.0 - event.slice_start.0,
                    ),
                    ..old(output)@
                }
            } else {
                old(output)@
            },
    {
        let key = event.buffer.0;
        if key < self.buffers.len() && event.slice_start.0 <= usize::MAX as u64 && event.block_offset.0
            <= usize::MAX as u64 && event.slice_end.0 >= event.slice_start.0 && event.slice_end.0
            - event.slice_start.0 <= usize::MAX as u64 {
            let source = &self.buffers[key];
            output.mix_slice_from(
                source,
                event.slice_start.0 as usize,
                event.block_offset.0 as usize,
                (event.slice_end.0 - event.slice_start.0) as usize,
            );
        }
    }

    /// Mixes every clip that meets the block into `output`.
    pub fn process_unchecked(&self, output: &mut InterleavedBuffer, info: ProcessingInformation)
        requires
            self.wf(),
            old(output).wf(),
        ensures
            final(output).wf(),
            final(output)@ == track_output(
                self.spec_playlist().entries(),
                self.spec_buffers(),
                old(output)@,
                info,
            ),
    {
        if info.bpm == 0 {
            return;
        }
        let block = MusicalRange { start: info.block_start, end: info.block_end };
        let frames = output.frames() as u64;
        let events = self.playlist.get_block_events(block, info.bpm, info.sample_rate, FrameTime(frames));
        let mut k: usize = 0;
        while k < events.len()
            invariant
                self.wf(),
                output.wf(),
                output@.channels == old(output)@.channels,
                output@.samples.len() == old(output)@.samples.len(),
                output@.sample_rate == old(output)@.sample_rate,
                k <= events@.len(),
                output@ == mix_events(old(output)@, self.spec_buffers(), events@.subrange(0, k as int)),
            decreases events@.len() - k,
        {
            proof {
                assert(events@.subrange(0, k + 1).drop_last() == events@.subrange(0, k as int));
            }
            self.mix_event(events[k], output);
            k = k + 1;
        }
        proof {
            assert(events@.subrange(0, k as int) == events@);
        }
    }
}

} // verus!
