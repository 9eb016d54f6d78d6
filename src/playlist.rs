use vstd::prelude::*;

use crate::timing::{
    clamp_u64, round_half_even, ticks_to_frames, FrameTime, MusicalTime, SampleRate,
    SECONDS_PER_MINUTE, TICKS_PER_BEAT,
};

verus! {

/// Key of an immutable audio buffer held outside the playlist.
#[derive(Clone, Copy, Debug, PartialEq, Eq, Structural)]
pub struct BufferKey(pub usize);

/// A half-open span of musical time, `[start, end)`.
#[derive(Clone, Copy, Debug, PartialEq, Eq, Structural)]
pub struct MusicalRange {
    pub start: MusicalTime,
    pub end: MusicalTime,
}

/// A stretch of an audio buffer placed on the timeline: which buffer, and the
/// frame of it that plays at the start of the clip's range.
#[derive(Clone, Copy, Debug, PartialEq, Eq, Structural)]
pub struct Clip {
    pub buffer: BufferKey,
    pub offset: FrameTime,
}

/// What one clip contributes to one block: where in the block it starts and
/// which frames of its buffer play, `[slice_start, slice_end)`.
#[derive(Clone, Copy, Debug, PartialEq, Eq, Structural)]
pub struct BlockEvent {
    pub block_offset: FrameTime,
    pub slice_start: FrameTime,
    pub slice_end: FrameTime,
    pub buffer: BufferKey,
}

pub open spec fn range_ok(r: MusicalRange) -> bool {
    r.start.ticks < r.end.ticks
}

pub open spec fn overlaps(a: MusicalRange, b: MusicalRange) -> bool {
    a.start.ticks < b.end.ticks && b.start.ticks < a.end.ticks
}

pub open spec fn max_nat(a: nat, b: nat) -> nat {
    if a >= b {
        a
    } else {
        b
    }
}

pub open spec fn min_nat(a: nat, b: nat) -> nat {
    if a <= b {
        a
    } else {
        b
    }
}

/// Frames in `ticks` of musical time, rounded to nearest.
pub open spec fn frames_of(ticks: nat, bpm: nat, sr: nat) -> nat {
    ticks_to_frames(ticks, bpm, sr)
}

/// The event that `clip`, at `range`, contributes to a block spanning
/// `block` and `block_frames` frames; `None` where they do not overlap.
///
/// The block offset and the slice are rounded from the start of the
/// intersection; the offset is held inside the block and the slice is cut
/// to the frames left in the block.
pub open spec fn block_event(
    range: MusicalRange,
    clip: Clip,
    block: MusicalRange,
    bpm: nat,
    sr: nat,
    block_frames: nat,
) -> Option<BlockEvent> {
    if !overlaps(range, block) {
        None
    } else {
        let i_start = max_nat(block.start.ticks as nat, range.start.ticks as nat);
        let i_end = min_nat(block.end.ticks as nat, range.end.ticks as nat);
        let raw_offset = frames_of((i_start - block.start.ticks) as nat, bpm, sr);
        let offset = if block_frames == 0 {
            0
        } else {
            min_nat(raw_offset, (block_frames - 1) as nat)
        };
        let s0 = frames_of((i_start - range.start.ticks) as nat, bpm, sr);
        let s1 = frames_of((i_end - range.start.ticks) as nat, bpm, sr);
        let len = min_nat(if s1 >= s0 { (s1 - s0) as nat } else { 0 }, (block_frames - offset) as nat);
        let start = clamp_u64((clip.offset.0 + s0) as nat);
        let end = clamp_u64((clip.offset.0 + s0 + len) as nat);
        Some(
            BlockEvent {
                block_offset: FrameTime(offset as u64),
                slice_start: FrameTime(start as u64),
                slice_end: FrameTime(end as u64),
                buffer: clip.buffer,
            },
        )
    }
}

/// The events of the entries, in the order they are stored.
pub open spec fn events_of(
    entries: Seq<(MusicalRange, Clip)>,
    block: MusicalRange,
    bpm: nat,
    sr: nat,
    block_frames: nat,
) -> Seq<BlockEvent>
    decreases entries.len(),
{
    if entries.len() == 0 {
        Seq::empty()
    } else {
        let prev = events_of(entries.drop_last(), block, bpm, sr, block_frames);
        match block_event(entries.last().0, entries.last().1, block, bpm, sr, block_frames) {
            Some(e) => prev.push(e),
            None => prev,
        }
    }
}

/// The entries whose range overlaps `query`, in the order they are stored.
pub open spec fn overlapping(entries: Seq<(MusicalRange, Clip)>, query: MusicalRange) -> Seq<
    (MusicalRange, Clip),
> {
    entries.filter(|e: (MusicalRange, Clip)| overlaps(e.0, query))
}

/// The map that a list of entries with distinct ranges stands for.
pub open spec fn entries_map(entries: Seq<(MusicalRange, Clip)>) -> Map<MusicalRange, Clip>
    decreases entries.len(),
{
    if entries.len() == 0 {
        Map::empty()
    } else {
        entries_map(entries.drop_last()).insert(entries.last().0, entries.last().1)
    }
}

/// Why a playlist refused an edit.
#[derive(Clone, Copy, Debug, PartialEq, Eq, Structural)]
pub enum PlaylistError {
    /// The range does not start before it ends.
    InvalidRange,
}

/// Clips keyed by the half-open musical range they occupy. Ranges are
/// distinct; different ranges may overlap.
pub struct Playlist {
    clips: Vec<(MusicalRange, Clip)>,
}

impl View for Playlist {
    type V = Map<MusicalRange, Clip>;

    closed spec fn view(&self) -> Map<MusicalRange, Clip> {
        entries_map(self.clips@)
    }
}

impl Playlist {
    /// The stored entries, in storage order.
    pub closed spec fn entries(&self) -> Seq<(MusicalRange, Clip)> {
        self.clips@
    }

    pub closed spec fn wf(&self) -> bool {
        &&& forall|i: int| 0 <= i < self.clips@.len() ==> range_ok(#[trigger] self.clips@[i].0)
        &&& forall|i: int, j: int|
            0 <= i < self.clips@.len() && 0 <= j < self.clips@.len() && i != j ==> (#[trigger] self.clips@[i]).0
                != (#[trigger] self.clips@[j]).0
    }

    pub fn empty() -> (r: Playlist)
        ensures
            r.wf(),
            r@ == Map::<MusicalRange, Clip>::empty(),
            r.entries().len() == 0,
    {
        Playlist { clips: Vec::new() }
    }

    fn position(&self, range: MusicalRange) -> (r: Option<usize>)
        requires
            self.wf(),
        ensures
            r.is_some() ==> r.unwrap() < self.clips@.len() && self.clips@[r.unwrap() as int].0 == range,
            r.is_none() ==> forall|i: int| 0 <= i < self.clips@.len() ==> (#[trigger] self.clips@[i]).0 != range,
    {
        let mut i: usize = 0;
        while i < self.clips.len()
            invariant
                i <= self.clips@.len(),
                forall|j: int| 0 <= j < i ==> (#[trigger] self.clips@[j]).0 != range,
            decreases self.clips@.len() - i,
        {
            let r = self.clips[i].0;
            if r.start.ticks == range.start.ticks && r.end.ticks == range.end.ticks {
                return Some(i);
            }
            i = i + 1;
        }
        None
    }

    /// Puts `clip` at `range`, replacing and returning the clip that was at
    /// exactly that range.
    pub fn insert(&mut self, range: MusicalRange, clip: Clip) -> (r: Option<Clip>)
        requires
            old(self).wf(),
            range_ok(range),
        ensures
            final(self).wf(),
            final(self)@ == old(self)@.insert(range, clip),
            r == (if old(self)@.contains_key(range) {
                Some(old(self)@[range])
            } else {
                None
            }),
            old(self)@.contains_key(range) ==> exists|i: int|
                0 <= i < old(self).entries().len() && old(self).entries()[i].0 == range && final(self).entries()
                    == old(self).entries().update(i, (range, clip)),
            !old(self)@.contains_key(range) ==> final(self).entries() == old(self).entries().push((range, clip)),
    {
        proof {
            lemma_entries_map_facts(self.clips@);
        }
        match self.position(range) {
            Some(i) => {
                let previous = self.clips[i].1;
                let ghost before = self.clips@;
                self.clips.set(i, (range, clip));
                proof {
                    lemma_entries_map_update(before, i as int, clip);
                    assert(self.clips@ == before.update(i as int, (range, clip)));
                    assert(old(self).entries()[i as int].0 == range);
                    assert(self.entries() == old(self).entries().update(i as int, (range, clip)));
                    assert forall|a: int, b: int|
                        0 <= a < self.clips@.len() && 0 <= b < self.clips@.len() && a != b implies (#[trigger] self.clips@[a]).0
                            != (#[trigger] self.clips@[b]).0 by {
                        assert(before[a].0 != before[b].0);
                    }
                    assert forall|a: int| 0 <= a < self.clips@.len() implies range_ok(#[trigger] self.clips@[a].0) by {
                        if a != i {
                            assert(self.clips@[a] == before[a]);
                        }
                    }
                }
                Some(previous)
            },
            None => {
                let ghost before = self.clips@;
                self.clips.push((range, clip));
                proof {
                    assert(self.clips@.drop_last() == before);
                    assert(!entries_map(before).contains_key(range));
                    assert forall|a: int, b: int|
                        0 <= a < self.clips@.len() && 0 <= b < self.clips@.len() && a != b implies (#[trigger] self.clips@[a]).0
                            != (#[trigger] self.clips@[b]).0 by {
                        if a < before.len() && b < before.len() {
                            assert(before[a].0 != before[b].0);
                        } else if a < before.len() {
                            assert(before[a].0 != range);
                        } else {
                            assert(before[b].0 != range);
                        }
                    }
                    assert forall|a: int| 0 <= a < self.clips@.len() implies range_ok(#[trigger] self.clips@[a].0) by {
                        if a < before.len() {
                            assert(self.clips@[a] == before[a]);
                        }
                    }
                }
                None
            },
        }
    }

    /// As `insert`, for a range that has not been checked: an empty or
    /// reversed range is refused and the playlist left as it is.
    pub fn try_insert(&mut self, range: MusicalRange, clip: Clip) -> (r: Result<Option<Clip>, PlaylistError>)
        requires
            old(self).wf(),
        ensures
            final(self).wf(),
            r.is_err() <==> !range_ok(range),
            r.is_err() ==> r == Err::<Option<Clip>, PlaylistError>(PlaylistError::InvalidRange) && final(self)@
                == old(self)@ && final(self).entries() == old(self).entries(),
            r.is_ok() && old(self)@.contains_key(range) ==> exists|i: int|
                0 <= i < old(self).entries().len() && old(self).entries()[i].0 == range && final(self).entries()
                    == old(self).entries().update(i, (range, clip)),
            r.is_ok() && !old(self)@.contains_key(range) ==> final(self).entries() == old(self).entries().push(
                (range, clip),
            ),
            r.is_ok() ==> final(self)@ == old(self)@.insert(range, clip) && r.unwrap() == (if old(
                self,
            )@.contains_key(range) {
                Some(old(self)@[range])
            } else {
                None
            }),
    {
        if range.start.ticks >= range.end.ticks {
            Err(PlaylistError::InvalidRange)
        } else {
            Ok(self.insert(range, clip))
        }
    }

    /// Walks the playlist block by block from musical time zero.
    pub fn iter_blocks(&self, block_size: FrameTime, sample_rate: SampleRate, bpm: u32) -> (r: BlockIterator<'_>)
        requires
            self.wf(),
            bpm > 0,
            sample_rate.0 > 0,
        ensures
            r.wf(),
            r.spec_position().ticks == 0,
            r.spec_duration().ticks == crate::timing::frames_to_ticks(
                block_size.0 as nat,
                bpm as nat,
                sample_rate.0 as nat,
            ),
            r.spec_playlist() == *self,
    {
        let block_duration = block_size.to_musical_lossy(bpm, sample_rate);
        BlockIterator {
            playlist: self,
            bpm,
            sample_rate,
            block_size,
            position: MusicalTime::zero(),
            block_duration,
        }
    }

    /// Takes out the clip at exactly `range`.
    pub fn remove(&mut self, range: MusicalRange) -> (r: Option<Clip>)
        requires
            old(self).wf(),
        ensures
            final(self).wf(),
            final(self)@ == old(self)@.remove(range),
            r == (if old(self)@.contains_key(range) {
                Some(old(self)@[range])
            } else {
                None
            }),
            old(self)@.contains_key(range) ==> exists|i: int|
                0 <= i < old(self).entries().len() && old(self).entries()[i].0 == range && final(self).entries()
                    == old(self).entries().remove(i),
            !old(self)@.contains_key(range) ==> final(self).entries() == old(self).entries(),
    {
        proof {
            lemma_entries_map_facts(self.clips@);
        }
        match self.position(range) {
            Some(i) => {
                let ghost before = self.clips@;
                let (_, clip) = self.clips.remove(i);
                proof {
                    assert(old(self).entries()[i as int].0 == range);
                    assert(self.entries() == old(self).entries().remove(i as int));
                    lemma_entries_map_remove(before, i as int);
                    assert forall|a: int, b: int|
                        0 <= a < self.clips@.len() && 0 <= b < self.clips@.len() && a != b implies (#[trigger] self.clips@[a]).0
                            != (#[trigger] self.clips@[b]).0 by {
                        let a2 = if a < i { a } else { a + 1 };
                        let b2 = if b < i { b } else { b + 1 };
                        assert(self.clips@[a] == before[a2]);
                        assert(self.clips@[b] == before[b2]);
                        assert(before[a2].0 != before[b2].0);
                    }
                    assert forall|a: int| 0 <= a < self.clips@.len() implies range_ok(#[trigger] self.clips@[a].0) by {
                        let a2 = if a < i { a } else { a + 1 };
                        assert(self.clips@[a] == before[a2]);
                    }
                }
                Some(clip)
            },
            None => {
                proof {
                    assert(entries_map(self.clips@).remove(range) =~= entries_map(self.clips@));
                }
                None
            },
        }
    }

    /// The clip at exactly `range`.
    pub fn get(&self, range: MusicalRange) -> (r: Option<Clip>)
        requires
            self.wf(),
        ensures
            r == (if self@.contains_key(range) {
                Some(self@[range])
            } else {
                None
            }),
    {
        proof {
            lemma_entries_map_facts(self.clips@);
        }
        match self.position(range) {
            Some(i) => Some(self.clips[i].1),
            None => None,
        }
    }

    /// Every stored entry whose range overlaps `query`.
    pub fn iter_overlaps(&self, query: MusicalRange) -> (r: Vec<(MusicalRange, Clip)>)
        ensures
            r@ == overlapping(self.entries(), query),
    {
        let mut out: Vec<(MusicalRange, Clip)> = Vec::new();
        let mut i: usize = 0;
        while i < self.clips.len()
            invariant
                i <= self.clips@.len(),
                out@ == overlapping(self.clips@.subrange(0, i as int), query),
            decreases self.clips@.len() - i,
        {
            let entry = self.clips[i];
            proof {
                let s = self.clips@.subrange(0, i + 1);
                assert(s.drop_last() == self.clips@.subrange(0, i as int));
                assert(s.last() == entry);
                reveal(Seq::filter);
            }
            if entry.0.start.ticks < query.end.ticks && query.start.ticks < entry.0.end.ticks {
                out.push(entry);
            }
            i = i + 1;
        }
        proof {
            assert(self.clips@.subrange(0, i as int) == self.clips@);
        }
        out
    }

    /// The events of the clips for one block of `block_frames` frames that
    /// spans `block` of musical time, one per overlapping clip.
    pub fn get_block_events(
        &self,
        block: MusicalRange,
        bpm: u32,
        sample_rate: SampleRate,
        block_frames: FrameTime,
    ) -> (r: Vec<BlockEvent>)
        requires
            self.wf(),
            bpm > 0,
        ensures
            r@ == events_of(self.entries(), block, bpm as nat, sample_rate.0 as nat, block_frames.0 as nat),
    {
        let mut out: Vec<BlockEvent> = Vec::new();
        let mut i: usize = 0;
        while i < self.clips.len()
            invariant
                self.wf(),
                bpm > 0,
                i <= self.clips@.len(),
                out@ == events_of(
                    self.clips@.subrange(0, i as int),
                    block,
                    bpm as nat,
                    sample_rate.0 as nat,
                    block_frames.0 as nat,
                ),
            decreases self.clips@.len() - i,
        {
            let (range, clip) = self.clips[i];
            proof {
                assert(range_ok(self.clips@[i as int].0));
                let s = self.clips@.subrange(0, i + 1);
                assert(s.drop_last() == self.clips@.subrange(0, i as int));
            }
            match block_event_of(range, clip, block, bpm, sample_rate, block_frames) {
                Some(e) => out.push(e),
                None => {},
            }
            i = i + 1;
        }
        proof {
            assert(self.clips@.subrange(0, i as int) == self.clips@);
        }
        out
    }
}

/// The events of a playlist block after block.
pub struct BlockIterator<'a> {
    playlist: &'a Playlist,
    bpm: u32,
    sample_rate: SampleRate,
    block_size: FrameTime,
    position: MusicalTime,
    block_duration: MusicalTime,
}

impl<'a> BlockIterator<'a> {
    pub closed spec fn wf(&self) -> bool {
        self.playlist.wf() && self.bpm > 0
    }

    /// Where the next block starts.
    pub closed spec fn spec_position(&self) -> MusicalTime {
        self.position
    }

    pub closed spec fn spec_duration(&self) -> MusicalTime {
        self.block_duration
    }

    pub closed spec fn spec_playlist(&self) -> Playlist {
        *self.playlist
    }

    pub closed spec fn spec_bpm(&self) -> u32 {
        self.bpm
    }

    pub closed spec fn spec_rate(&self) -> SampleRate {
        self.sample_rate
    }

    pub closed spec fn spec_block_size(&self) -> FrameTime {
        self.block_size
    }

    /// The events of the next block, and the position moved on past it; the
    /// position stops at the largest representable time.
    pub fn next(&mut self) -> (r: Vec<BlockEvent>)
        requires
            old(self).wf(),
        ensures
            final(self).wf(),
            final(self).spec_playlist() == old(self).spec_playlist(),
            final(self).spec_duration() == old(self).spec_duration(),
            final(self).spec_bpm() == old(self).spec_bpm(),
            final(self).spec_rate() == old(self).spec_rate(),
            final(self).spec_block_size() == old(self).spec_block_size(),
            final(self).spec_position().ticks == clamp_u64(
                (old(self).spec_position().ticks + old(self).spec_duration().ticks) as nat,
            ),
            r@ == events_of(
                old(self).spec_playlist().entries(),
                MusicalRange { start: old(self).spec_position(), end: final(self).spec_position() },
                old(self).spec_bpm() as nat,
                old(self).spec_rate().0 as nat,
                old(self).spec_block_size().0 as nat,
            ),
    {
        let start = self.position;
        let end = MusicalTime { ticks: add_clamped(start.ticks, self.block_duration.ticks) };
        let events = self.playlist.get_block_events(
            MusicalRange { start, end },
            self.bpm,
            self.sample_rate,
            self.block_size,
        );
        self.position = end;
        events
    }
}

fn add_clamped(a: u64, b: u64) -> (r: u64)
    ensures
        r == clamp_u64((a + b) as nat),
{
    if a > u64::MAX - b {
        u64::MAX
    } else {
        a + b
    }
}

/// The event that one clip contributes to a block.
pub fn block_event_of(
    range: MusicalRange,
    clip: Clip,
    block: MusicalRange,
    bpm: u32,
    sample_rate: SampleRate,
    block_frames: FrameTime,
) -> (r: Option<BlockEvent>)
    requires
        bpm > 0,
        range_ok(range),
    ensures
        r == block_event(range, clip, block, bpm as nat, sample_rate.0 as nat, block_frames.0 as nat),
{
    if !(range.start.ticks < block.end.ticks && block.start.ticks < range.end.ticks) {
        return None;
    }
    let i_start = range.start.max(block.start);
    let i_end = range.end.min(block.end);
    let raw_offset = MusicalTime::new(i_start.ticks - block.start.ticks).to_nearest_frame_round_lossy(
        bpm,
        sample_rate,
    );
    let offset: u64 = if block_frames.0 == 0 {
        0
    } else if raw_offset.0 <= block_frames.0 - 1 {
        raw_offset.0
    } else {
        block_frames.0 - 1
    };
    let s0 = MusicalTime::new(i_start.ticks - range.start.ticks).to_nearest_frame_round_lossy(
        bpm,
        sample_rate,
    ).0;
    let s1 = MusicalTime::new(i_end.ticks - range.start.ticks).to_nearest_frame_round_lossy(
        bpm,
        sample_rate,
    ).0;
    let span: u64 = if s1 >= s0 {
        s1 - s0
    } else {
        0
    };
    let room = block_frames.0 - offset;
    let len = if span <= room {
        span
    } else {
        room
    };
    let start = add_clamped(clip.offset.0, s0);
    let end = if start == u64::MAX {
        u64::MAX
    } else {
        add_clamped(start, len)
    };
    proof {
        if start != u64::MAX {
            assert(start == clip.offset.0 + s0);
        }
    }
    Some(
        BlockEvent {
            block_offset: FrameTime(offset),
            slice_start: FrameTime(start),
            slice_end: FrameTime(end),
            buffer: clip.buffer,
        },
    )
}

/// Rounding to nearest never reverses order.
pub proof fn lemma_round_monotone(n1: nat, n2: nat, d: nat)
    requires
        n1 <= n2,
        d > 0,
    ensures
        round_half_even(n1, d) <= round_half_even(n2, d),
{
    let q1 = n1 / d;
    let q2 = n2 / d;
    vstd::arithmetic::div_mod::lemma_div_is_ordered(n1 as int, n2 as int, d as int);
    vstd::arithmetic::div_mod::lemma_fundamental_div_mod(n1 as int, d as int);
    vstd::arithmetic::div_mod::lemma_fundamental_div_mod(n2 as int, d as int);
    if q1 == q2 {
        assert(n1 % d <= n2 % d);
    }
}

/// Converting musical time to frames never reverses order.
pub proof fn lemma_frames_monotone(t1: nat, t2: nat, bpm: nat, sr: nat)
    requires
        t1 <= t2,
        bpm > 0,
    ensures
        frames_of(t1, bpm, sr) <= frames_of(t2, bpm, sr),
{
    assert(t1 * SECONDS_PER_MINUTE * sr <= t2 * SECONDS_PER_MINUTE * sr) by (nonlinear_arith)
        requires
            t1 <= t2,
    ;
    assert(TICKS_PER_BEAT * bpm > 0) by (nonlinear_arith)
        requires
            bpm > 0,
    ;
    lemma_round_monotone(
        (t1 * SECONDS_PER_MINUTE * sr) as nat,
        (t2 * SECONDS_PER_MINUTE * sr) as nat,
        (TICKS_PER_BEAT * bpm) as nat,
    );
}

/// A clip that does not meet the block yields no event; one that does yields
/// an event that ends inside the block and plays only frames of the clip's
/// own stretch of its buffer.
pub proof fn lemma_clip_block_projection(
    range: MusicalRange,
    clip: Clip,
    block: MusicalRange,
    bpm: nat,
    sr: nat,
    block_frames: nat,
)
    requires
        range_ok(range),
        range_ok(block),
        bpm > 0,
        clip.offset.0 + frames_of((range.end.ticks - range.start.ticks) as nat, bpm, sr) <= u64::MAX,
    ensures
        block_event(range, clip, block, bpm, sr, block_frames).is_none() <==> !overlaps(range, block),
        block_event(range, clip, block, bpm, sr, block_frames) matches Some(e) ==> {
            &&& e.block_offset.0 + (e.slice_end.0 - e.slice_start.0) <= block_frames
            &&& clip.offset.0 <= e.slice_start.0 <= e.slice_end.0
            &&& e.slice_end.0 <= clip.offset.0 + frames_of(
                (range.end.ticks - range.start.ticks) as nat,
                bpm,
                sr,
            )
            &&& e.buffer == clip.buffer
        },
{
    if overlaps(range, block) {
        let i_start = max_nat(block.start.ticks as nat, range.start.ticks as nat);
        let i_end = min_nat(block.end.ticks as nat, range.end.ticks as nat);
        let dur = frames_of((range.end.ticks - range.start.ticks) as nat, bpm, sr);
        let s0 = frames_of((i_start - range.start.ticks) as nat, bpm, sr);
        let s1 = frames_of((i_end - range.start.ticks) as nat, bpm, sr);
        lemma_frames_monotone((i_start - range.start.ticks) as nat, (i_end - range.start.ticks) as nat, bpm, sr);
        lemma_frames_monotone((i_end - range.start.ticks) as nat, (range.end.ticks - range.start.ticks) as nat, bpm, sr);
        assert(s0 <= s1 && s1 <= dur);
    }
}

/// The stored entries are the map: a range is a key exactly when some
/// entry holds it, and that entry holds its clip.
pub proof fn lemma_entries_view(p: Playlist)
    requires
        p.wf(),
    ensures
        forall|r: MusicalRange|
            #![trigger p@.contains_key(r)]
            p@.contains_key(r) <==> exists|i: int| 0 <= i < p.entries().len() && p.entries()[i].0 == r,
        forall|i: int| 0 <= i < p.entries().len() ==> #[trigger] p@[p.entries()[i].0] == p.entries()[i].1,
{
    lemma_entries_map_facts(p.clips@);
    assert forall|r: MusicalRange|
        #![trigger p@.contains_key(r)]
        p@.contains_key(r) <==> exists|i: int| 0 <= i < p.entries().len() && p.entries()[i].0 == r by {
        assert(p@ == entries_map(p.clips@));
        if p@.contains_key(r) {
            assert(entries_map(p.clips@).contains_key(r));
            let i = choose|i: int| 0 <= i < p.clips@.len() && p.clips@[i].0 == r;
            assert(0 <= i < p.entries().len() && p.entries()[i].0 == r);
        }
        if exists|i: int| 0 <= i < p.entries().len() && p.entries()[i].0 == r {
            let i = choose|i: int| 0 <= i < p.entries().len() && p.entries()[i].0 == r;
            assert(p.clips@[i].0 == r);
            assert(entries_map(p.clips@).contains_key(r));
        }
    }
}

proof fn lemma_entries_map_facts(entries: Seq<(MusicalRange, Clip)>)
    requires
        forall|i: int, j: int|
            0 <= i < entries.len() && 0 <= j < entries.len() && i != j ==> (#[trigger] entries[i]).0
                != (#[trigger] entries[j]).0,
    ensures
        forall|r: MusicalRange|
            #![trigger entries_map(entries).contains_key(r)]
            entries_map(entries).contains_key(r) <==> exists|i: int| 0 <= i < entries.len() && entries[i].0 == r,
        forall|i: int|
            0 <= i < entries.len() ==> #[trigger] entries_map(entries)[entries[i].0] == entries[i].1,
    decreases entries.len(),
{
    if entries.len() > 0 {
        let p = entries.drop_last();
        assert forall|i: int, j: int| 0 <= i < p.len() && 0 <= j < p.len() && i != j implies (#[trigger] p[i]).0
            != (#[trigger] p[j]).0 by {
            assert(p[i] == entries[i] && p[j] == entries[j]);
        }
        lemma_entries_map_facts(p);
        assert forall|r: MusicalRange|
            #![trigger entries_map(entries).contains_key(r)]
            entries_map(entries).contains_key(r) <==> exists|i: int| 0 <= i < entries.len() && entries[i].0 == r by {
            if r == entries.last().0 {
                assert(entries[entries.len() - 1].0 == r);
            }
            if entries_map(entries).contains_key(r) && r != entries.last().0 {
                assert(entries_map(p).contains_key(r));
                let i = choose|i: int| 0 <= i < p.len() && p[i].0 == r;
                assert(entries[i] == p[i]);
            }
            if exists|i: int| 0 <= i < entries.len() && entries[i].0 == r {
                let i = choose|i: int| 0 <= i < entries.len() && entries[i].0 == r;
                if i < p.len() {
                    assert(p[i] == entries[i]);
                    assert(entries_map(p).contains_key(r));
                }
            }
        }
        assert forall|i: int| 0 <= i < entries.len() implies #[trigger] entries_map(entries)[entries[i].0]
            == entries[i].1 by {
            if i < p.len() {
                assert(p[i] == entries[i]);
                assert(entries[i].0 != entries[entries.len() - 1].0);
                assert(entries_map(p)[p[i].0] == p[i].1);
            }
        }
    }
}

proof fn lemma_entries_map_update(entries: Seq<(MusicalRange, Clip)>, i: int, clip: Clip)
    requires
        0 <= i < entries.len(),
        forall|a: int, b: int|
            0 <= a < entries.len() && 0 <= b < entries.len() && a != b ==> (#[trigger] entries[a]).0
                != (#[trigger] entries[b]).0,
    ensures
        entries_map(entries.update(i, (entries[i].0, clip))) == entries_map(entries).insert(entries[i].0, clip),
    decreases entries.len(),
{
    let u = entries.update(i, (entries[i].0, clip));
    let p = entries.drop_last();
    if i == entries.len() - 1 {
        assert(u.drop_last() == p);
        assert(entries_map(entries).insert(entries[i].0, clip) =~= entries_map(p).insert(entries[i].0, clip));
    } else {
        assert(u.drop_last() == p.update(i, (p[i].0, clip)));
        assert forall|a: int, b: int| 0 <= a < p.len() && 0 <= b < p.len() && a != b implies (#[trigger] p[a]).0
            != (#[trigger] p[b]).0 by {
            assert(p[a] == entries[a] && p[b] == entries[b]);
        }
        lemma_entries_map_update(p, i, clip);
        assert(entries[i].0 != entries.last().0);
        assert(entries_map(u) =~= entries_map(entries).insert(entries[i].0, clip));
    }
}

proof fn lemma_entries_map_remove(entries: Seq<(MusicalRange, Clip)>, i: int)
    requires
        0 <= i < entries.len(),
        forall|a: int, b: int|
            0 <= a < entries.len() && 0 <= b < entries.len() && a != b ==> (#[trigger] entries[a]).0
                != (#[trigger] entries[b]).0,
    ensures
        entries_map(entries.remove(i)) == entries_map(entries).remove(entries[i].0),
    decreases entries.len(),
{
    let p = entries.drop_last();
    assert forall|a: int, b: int| 0 <= a < p.len() && 0 <= b < p.len() && a != b implies (#[trigger] p[a]).0
        != (#[trigger] p[b]).0 by {
        assert(p[a] == entries[a] && p[b] == entries[b]);
    }
    lemma_entries_map_facts(p);
    if i == entries.len() - 1 {
        assert(entries.remove(i) == p);
        assert forall|a: int| 0 <= a < p.len() implies p[a].0 != entries[i].0 by {
            assert(p[a] == entries[a]);
        }
        assert(!entries_map(p).contains_key(entries[i].0));
        assert(entries_map(p) =~= entries_map(entries).remove(entries[i].0));
    } else {
        let r = entries.remove(i);
        assert(r.drop_last() == p.remove(i));
        assert(r.last() == entries.last());
        lemma_entries_map_remove(p, i);
        assert(entries[i].0 != entries.last().0);
        assert(entries_map(r) =~= entries_map(entries).remove(entries[i].0));
    }
}

} // verus!
