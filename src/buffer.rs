use vstd::prelude::*;

use crate::timing::{FrameTime, SampleRate};

verus! {

/// The sample value of silence.
pub const EQUILIBRIUM: i32 = 0;

/// Amplitude addition of two samples, clipped to the range of the sample type.
pub open spec fn add_amp(a: i32, b: i32) -> i32 {
    let s = a + b;
    if s > i32::MAX {
        i32::MAX
    } else if s < i32::MIN {
        i32::MIN
    } else {
        s as i32
    }
}

/// Amplitude addition of two samples, clipped to the range of the sample type.
pub fn add_samples(a: i32, b: i32) -> (r: i32)
    ensures
        r == add_amp(a, b),
{
    let s = a as i64 + b as i64;
    if s > i32::MAX as i64 {
        i32::MAX
    } else if s < i32::MIN as i64 {
        i32::MIN
    } else {
        s as i32
    }
}

/// A sample type: a value of silence, and amplitude addition.
pub trait SharedSample: Sized + Copy {
    spec fn spec_add_amp(self, amp: Self) -> Self;

    spec fn spec_equilibrium() -> Self;

    fn equilibrium() -> (r: Self)
        ensures
            r == Self::spec_equilibrium(),
    ;

    fn add_amp(self, amp: Self) -> (r: Self)
        ensures
            r == self.spec_add_amp(amp),
    ;
}

impl SharedSample for i32 {
    open spec fn spec_add_amp(self, amp: i32) -> i32 {
        add_amp(self, amp)
    }

    open spec fn spec_equilibrium() -> i32 {
        EQUILIBRIUM
    }

    fn equilibrium() -> (r: i32) {
        EQUILIBRIUM
    }

    fn add_amp(self, amp: i32) -> (r: i32) {
        add_samples(self, amp)
    }
}

/// The content of an interleaved buffer: `channels` samples per frame, frame
/// after frame.
pub ghost struct AudioData {
    pub channels: nat,
    pub sample_rate: nat,
    pub samples: Seq<i32>,
}

impl AudioData {
    pub open spec fn wf(self) -> bool {
        self.channels >= 1 && (self.samples.len() as int) % (self.channels as int) == 0
    }

    pub open spec fn frames(self) -> nat {
        self.samples.len() / self.channels
    }

    /// Position of the sample of `channel` in `frame`.
    pub open spec fn index(self, channel: int, frame: int) -> int {
        frame * self.channels + channel
    }

    pub open spec fn at(self, channel: int, frame: int) -> i32 {
        self.samples[self.index(channel, frame)]
    }

    pub open spec fn is_silent(self) -> bool {
        forall|k: int| 0 <= k < self.samples.len() ==> self.samples[k] == EQUILIBRIUM
    }
}

/// `out` with channel `src_ch` of `src` added into channel `out_ch`, frame by
/// frame, over the first `frames` frames.
pub open spec fn mix_channel_into(
    out: AudioData,
    src: AudioData,
    src_ch: int,
    out_ch: int,
    frames: nat,
) -> Seq<i32> {
    Seq::new(
        out.samples.len(),
        |p: int|
            if p % (out.channels as int) == out_ch && p / (out.channels as int) < frames {
                add_amp(out.samples[p], src.at(src_ch, p / (out.channels as int)))
            } else {
                out.samples[p]
            },
    )
}

/// `out` with every channel that both buffers have mixed from `src`, over the
/// frames that both have.
pub open spec fn mix_all_into(out: AudioData, src: AudioData) -> Seq<i32> {
    Seq::new(
        out.samples.len(),
        |p: int|
            {
                let ch = p % (out.channels as int);
                let fr = p / (out.channels as int);
                if ch < src.channels && fr < src.frames() {
                    add_amp(out.samples[p], src.at(ch, fr))
                } else {
                    out.samples[p]
                }
            },
    )
}

/// `out` with `len` frames of `src`, from frame `src_start` on, added into
/// the frames from `dst_start` on, in every channel that both have; frames
/// past the end of either buffer are left out.
pub open spec fn mix_slice_into(
    out: AudioData,
    src: AudioData,
    src_start: int,
    dst_start: int,
    len: int,
) -> Seq<i32> {
    Seq::new(
        out.samples.len(),
        |p: int|
            {
                let ch = p % (out.channels as int);
                let fr = p / (out.channels as int);
                if ch < src.channels && dst_start <= fr < dst_start + len && src_start + (fr - dst_start)
                    < src.frames() {
                    add_amp(out.samples[p], src.at(ch, src_start + (fr - dst_start)))
                } else {
                    out.samples[p]
                }
            },
    )
}

/// `out` with a region of `src` added in: `channels` channels from channel
/// `src_ch` (into `dst_ch` on), `frames` frames from frame `src_fr` (into
/// `dst_fr` on).
pub open spec fn mix_region_into(
    out: AudioData,
    src: AudioData,
    src_ch: int,
    dst_ch: int,
    channels: int,
    src_fr: int,
    dst_fr: int,
    frames: int,
) -> Seq<i32> {
    Seq::new(
        out.samples.len(),
        |p: int|
            {
                let ch = p % (out.channels as int);
                let fr = p / (out.channels as int);
                if dst_ch <= ch < dst_ch + channels && dst_fr <= fr < dst_fr + frames {
                    add_amp(out.samples[p], src.at(src_ch + (ch - dst_ch), src_fr + (fr - dst_fr)))
                } else {
                    out.samples[p]
                }
            },
    )
}

/// How a copy treats buffers with different channel counts.
#[derive(Clone, Copy, Debug, PartialEq, Eq, Structural)]
pub enum ChannelStrategy {
    /// Only the channels that both sides have.
    Min,
    /// As `Min`.
    Repeat,
    /// As `Min`.
    MixAdapt,
    /// The channel counts must agree.
    Strict,
}

/// How a copy treats buffers with different frame counts.
#[derive(Clone, Copy, Debug, PartialEq, Eq, Structural)]
pub enum FrameStrategy {
    /// Only the frames that both sides have.
    Min,
    /// As `Min`.
    Fit,
    /// As `Min`.
    Strict,
}

/// Where a copy starts on each side, and how it meets a mismatch.
#[derive(Clone, Copy, Debug, PartialEq, Eq, Structural)]
pub struct CopyOptions {
    pub channel_strategy: ChannelStrategy,
    pub frame_strategy: FrameStrategy,
    pub src_channel_offset: usize,
    pub dst_channel_offset: usize,
    pub src_frame_offset: usize,
    pub dst_frame_offset: usize,
}

impl CopyOptions {
    pub fn with_src_frame_offset(self, offset: usize) -> (r: CopyOptions)
        ensures
            r == (CopyOptions { src_frame_offset: offset, ..self }),
    {
        CopyOptions { src_frame_offset: offset, ..self }
    }
}

impl Default for CopyOptions {
    fn default() -> (r: CopyOptions)
        ensures
            r == (CopyOptions {
                channel_strategy: ChannelStrategy::Min,
                frame_strategy: FrameStrategy::Min,
                src_channel_offset: 0,
                dst_channel_offset: 0,
                src_frame_offset: 0,
                dst_frame_offset: 0,
            }),
    {
        CopyOptions {
            channel_strategy: ChannelStrategy::Min,
            frame_strategy: FrameStrategy::Min,
            src_channel_offset: 0,
            dst_channel_offset: 0,
            src_frame_offset: 0,
            dst_frame_offset: 0,
        }
    }
}

/// Why a copy between buffers was refused.
#[derive(Clone, Copy, Debug, PartialEq, Eq, Structural)]
pub enum BufferError {
    ChannelMismatch,
    FrameMismatch,
    InvalidChannelOffset,
    InvalidFrameOffset,
}

pub open spec fn min_int(a: int, b: int) -> int {
    if a <= b {
        a
    } else {
        b
    }
}

/// Whether a copy with `options` from `src` into `dst` goes ahead, and if not
/// why.
pub open spec fn copy_outcome(dst: AudioData, src: AudioData, options: CopyOptions) -> Result<(), BufferError> {
    if options.src_channel_offset > src.channels || options.dst_channel_offset > dst.channels {
        Err(BufferError::InvalidChannelOffset)
    } else if options.src_frame_offset > src.frames() || options.dst_frame_offset > dst.frames() {
        Err(BufferError::InvalidFrameOffset)
    } else if options.channel_strategy == ChannelStrategy::Strict && src.channels
        - options.src_channel_offset != dst.channels - options.dst_channel_offset {
        Err(BufferError::ChannelMismatch)
    } else {
        Ok(())
    }
}

/// `out` with a region overwritten from `src`: `channels` channels from
/// `dst_ch` on, `span` frames from `dst_fr` on. Channel `dst_ch + d` reads
/// channel `src_ch + d` of `src`, or `src_ch + d % repeat` where `repeat` is
/// positive; the first `copy_len` frames read `src` from frame `src_fr` on,
/// the rest of the span is silence.
pub open spec fn copy_region_into(
    out: AudioData,
    src: AudioData,
    src_ch: int,
    dst_ch: int,
    channels: int,
    repeat: int,
    src_fr: int,
    dst_fr: int,
    copy_len: int,
    span: int,
) -> Seq<i32> {
    Seq::new(
        out.samples.len(),
        |p: int|
            {
                let ch = p % (out.channels as int);
                let fr = p / (out.channels as int);
                if dst_ch <= ch < dst_ch + channels && dst_fr <= fr < dst_fr + span {
                    if fr < dst_fr + copy_len {
                        src.at(
                            src_ch + if repeat > 0 {
                                (ch - dst_ch) % repeat
                            } else {
                                ch - dst_ch
                            },
                            src_fr + (fr - dst_fr),
                        )
                    } else {
                        EQUILIBRIUM
                    }
                } else {
                    out.samples[p]
                }
            },
    )
}

/// Whether a copy with `options` from `src` into `dst` goes ahead, and if
/// not why: every offset must lie inside its buffer, and a strict strategy
/// wants equal counts past the offsets.
pub open spec fn copy_check(dst: AudioData, src: AudioData, options: CopyOptions) -> Result<(), BufferError> {
    if options.src_channel_offset >= src.channels || options.dst_channel_offset >= dst.channels {
        Err(BufferError::InvalidChannelOffset)
    } else if options.src_frame_offset >= src.frames() || options.dst_frame_offset >= dst.frames() {
        Err(BufferError::InvalidFrameOffset)
    } else if options.channel_strategy == ChannelStrategy::Strict && src.channels
        - options.src_channel_offset != dst.channels - options.dst_channel_offset {
        Err(BufferError::ChannelMismatch)
    } else if options.frame_strategy == FrameStrategy::Strict && src.frames() - options.src_frame_offset
        != dst.frames() - options.dst_frame_offset {
        Err(BufferError::FrameMismatch)
    } else {
        Ok(())
    }
}

/// How many destination channels a copy writes: with `Repeat` every one past
/// the offset, cycling through the source's; otherwise those both sides have.
pub open spec fn copy_channels(dst: AudioData, src: AudioData, options: CopyOptions) -> int {
    let s = src.channels - options.src_channel_offset;
    let d = dst.channels - options.dst_channel_offset;
    if options.channel_strategy == ChannelStrategy::Repeat {
        d
    } else {
        min_int(s, d)
    }
}

/// How many destination frames a copy writes: with `Fit` every one past the
/// offset, silence past the end of the source; otherwise those both sides
/// have.
pub open spec fn copy_span(dst: AudioData, src: AudioData, options: CopyOptions) -> int {
    let s = src.frames() - options.src_frame_offset;
    let d = dst.frames() - options.dst_frame_offset;
    if options.frame_strategy == FrameStrategy::Fit {
        d
    } else {
        min_int(s, d)
    }
}

/// Why a streaming copy between buffers was refused.
#[derive(Clone, Copy, Debug, PartialEq, Eq, Structural)]
pub enum IoError {
    /// The output's and the input's channel counts, which differ.
    ChannelMismatch(usize, usize),
}

/// An interleaved multi-channel sample buffer.
pub struct InterleavedBuffer {
    data: Vec<i32>,
    channels: usize,
    sample_rate: SampleRate,
}

impl View for InterleavedBuffer {
    type V = AudioData;

    closed spec fn view(&self) -> AudioData {
        AudioData {
            channels: self.channels as nat,
            sample_rate: self.sample_rate.0 as nat,
            samples: self.data@,
        }
    }
}

pub proof fn lemma_frame_index(d: AudioData, channel: int, frame: int)
    requires
        d.wf(),
        0 <= channel < d.channels,
        0 <= frame < d.frames(),
    ensures
        0 <= d.index(channel, frame) < d.samples.len(),
        d.index(channel, frame) % (d.channels as int) == channel,
        d.index(channel, frame) / (d.channels as int) == frame,
{
    let c = d.channels as int;
    let n = d.samples.len() as int;
    vstd::arithmetic::div_mod::lemma_fundamental_div_mod(n, c);
    assert(frame * c + channel < n) by (nonlinear_arith)
        requires
            0 <= channel < c,
            0 <= frame < n / c,
            n == c * (n / c) + n % c,
            n % c == 0,
    ;
    assert(0 <= frame * c) by (nonlinear_arith)
        requires
            0 <= frame,
            0 <= c,
    ;
    vstd::arithmetic::div_mod::lemma_fundamental_div_mod_converse(frame * c + channel, c, frame, channel);
}

pub proof fn lemma_position(d: AudioData, p: int)
    requires
        d.wf(),
        0 <= p < d.samples.len(),
    ensures
        0 <= p % (d.channels as int) < d.channels,
        0 <= p / (d.channels as int) < d.frames(),
        p == d.index(p % (d.channels as int), p / (d.channels as int)),
{
    let c = d.channels as int;
    let n = d.samples.len() as int;
    vstd::arithmetic::div_mod::lemma_fundamental_div_mod(p, c);
    vstd::arithmetic::div_mod::lemma_fundamental_div_mod(n, c);
    vstd::arithmetic::div_mod::lemma_mod_bound(p, c);
    vstd::arithmetic::div_mod::lemma_div_pos_is_pos(p, c);
    let q = p / c;
    let r = p % c;
    assert(q < n / c) by (nonlinear_arith)
        requires
            p == c * q + r,
            0 <= r,
            p < n,
            n == c * (n / c) + n % c,
            n % c == 0,
            c > 0,
    ;
    assert(p == q * c + r) by (nonlinear_arith)
        requires
            p == c * q + r,
    ;
}

impl InterleavedBuffer {
    pub open spec fn wf(&self) -> bool {
        self@.wf() && self@.samples.len() <= usize::MAX
    }

    /// An empty buffer: no frames yet.
    pub fn new(channels: usize, sample_rate: SampleRate) -> (r: InterleavedBuffer)
        requires
            channels >= 1,
        ensures
            r.wf(),
            r@.channels == channels,
            r@.sample_rate == sample_rate.0,
            r@.samples.len() == 0,
    {
        proof {
            vstd::arithmetic::div_mod::lemma_mod_multiples_basic(0, channels as int);
        }
        InterleavedBuffer { data: Vec::new(), channels, sample_rate }
    }

    /// A silent buffer of `frames` frames.
    pub fn with_shape(channels: usize, sample_rate: SampleRate, frames: FrameTime) -> (r:
        InterleavedBuffer)
        requires
            channels >= 1,
            frames.0 * channels <= usize::MAX,
        ensures
            r.wf(),
            r@.channels == channels,
            r@.sample_rate == sample_rate.0,
            r@.frames() == frames.0,
            r@.samples.len() == frames.0 * channels,
            r@.is_silent(),
    {
        proof {
            assert(frames.0 <= frames.0 * channels) by (nonlinear_arith)
                requires channels >= 1;
        }
        let n = frames.0 as usize * channels;
        assert(n == frames.0 * channels);
        let data = vec![EQUILIBRIUM; n];
        proof {
            vstd::arithmetic::div_mod::lemma_mod_multiples_basic(frames.0 as int, channels as int);
            vstd::arithmetic::div_mod::lemma_div_multiples_vanish(frames.0 as int, channels as int);
            assert(n == channels * frames.0) by (nonlinear_arith)
                requires n == frames.0 * channels;
        }
        InterleavedBuffer { data, channels, sample_rate }
    }

    pub fn channels(&self) -> (r: usize)
        ensures
            r == self@.channels,
    {
        self.channels
    }

    pub fn samples(&self) -> (r: usize)
        ensures
            r == self@.samples.len(),
    {
        self.data.len()
    }

    pub fn frames(&self) -> (r: usize)
        requires
            self.wf(),
        ensures
            r == self@.frames(),
    {
        self.data.len() / self.channels
    }

    pub fn sample_rate(&self) -> (r: SampleRate)
        ensures
            r.0 == self@.sample_rate,
    {
        self.sample_rate
    }

    /// Tags the samples with another sample rate; they stay as they are.
    pub fn set_sample_rate(&mut self, sample_rate: SampleRate)
        requires
            old(self).wf(),
        ensures
            final(self).wf(),
            final(self)@ == (AudioData { sample_rate: sample_rate.0 as nat, ..old(self)@ }),
    {
        self.sample_rate = sample_rate;
    }

    /// The sample of `channel` in `frame`, or `None` where either is out of
    /// range.
    pub fn get(&self, channel: usize, frame: usize) -> (r: Option<i32>)
        requires
            self.wf(),
        ensures
            r.is_some() <==> (channel < self@.channels && frame < self@.frames()),
            r.is_some() ==> r.unwrap() == self@.at(channel as int, frame as int),
    {
        if channel < self.channels && frame < self.frames() {
            proof {
                lemma_frame_index(self@, channel as int, frame as int);
            }
            Some(self.data[frame * self.channels + channel])
        } else {
            None
        }
    }

    /// Overwrites one sample; `false`, and no change, where `channel` or
    /// `frame` is out of range.
    pub fn set(&mut self, channel: usize, frame: usize, value: i32) -> (r: bool)
        requires
            old(self).wf(),
        ensures
            final(self).wf(),
            r <==> (channel < old(self)@.channels && frame < old(self)@.frames()),
            final(self)@ == (if r {
                AudioData {
                    samples: old(self)@.samples.update(
                        old(self)@.index(channel as int, frame as int),
                        value,
                    ),
                    ..old(self)@
                }
            } else {
                old(self)@
            }),
    {
        if channel < self.channels && frame < self.frames() {
            proof {
                lemma_frame_index(self@, channel as int, frame as int);
            }
            let pos = frame * self.channels + channel;
            self.data.set(pos, value);
            true
        } else {
            false
        }
    }

    /// The samples of one frame, one per channel.
    pub fn get_frame(&self, frame: usize) -> (r: Option<Vec<i32>>)
        requires
            self.wf(),
        ensures
            r.is_some() <==> frame < self@.frames(),
            r.is_some() ==> r.unwrap()@ == self@.samples.subrange(
                self@.index(0, frame as int),
                self@.index(0, frame as int) + self@.channels,
            ),
    {
        if frame < self.frames() {
            let mut out: Vec<i32> = Vec::new();
            let mut ch: usize = 0;
            proof {
                lemma_frame_index(self@, 0, frame as int);
                lemma_frame_index(self@, self.channels - 1, frame as int);
            }
            let base = frame * self.channels;
            while ch < self.channels
                invariant
                    self.wf(),
                    frame < self@.frames(),
                    base == self@.index(0, frame as int),
                    base + self.channels <= self@.samples.len(),
                    ch <= self.channels,
                    out@ == self@.samples.subrange(base as int, base + ch),
                decreases self.channels - ch,
            {
                out.push(self.data[base + ch]);
                ch = ch + 1;
                proof {
                    assert(out@ =~= self@.samples.subrange(base as int, base + ch));
                }
            }
            Some(out)
        } else {
            None
        }
    }

    /// A view of one channel, frame by frame.
    pub fn get_channel(&self, channel: usize) -> (r: Option<crate::view::View<'_>>)
        requires
            self.wf(),
        ensures
            r.is_some() <==> channel < self@.channels,
            r.is_some() ==> r.unwrap().spec_data() == self@.samples && r.unwrap().spec_mapper() == (
            crate::view::InjectiveFn { stride: self@.channels as usize, offset: channel }),
    {
        if channel < self.channels {
            Some(crate::view::View::with_stride(&self.data, self.channels, channel))
        } else {
            None
        }
    }

    /// One channel as a strided slice over its frames.
    pub fn channel_slice(&self, channel: usize) -> (r: Option<crate::view::StridedSlice<'_>>)
        requires
            self.wf(),
        ensures
            r.is_some() <==> channel < self@.channels,
            r.is_some() ==> r.unwrap().wf() && r.unwrap().spec_samples().len() == self@.frames() && forall|f: int|
                0 <= f < self@.frames() ==> #[trigger] r.unwrap().spec_samples()[f] == self@.at(channel as int, f),
    {
        if channel < self.channels {
            let frames = self.frames();
            let r = crate::view::StridedSlice::new(&self.data, channel, frames, self.channels);
            proof {
                if frames > 0 {
                    lemma_frame_index(self@, channel as int, frames - 1);
                }
            }
            r
        } else {
            None
        }
    }

    /// Every sample back to silence.
    pub fn set_to_equilibrium(&mut self)
        requires
            old(self).wf(),
        ensures
            final(self).wf(),
            final(self)@.channels == old(self)@.channels,
            final(self)@.sample_rate == old(self)@.sample_rate,
            final(self)@.samples.len() == old(self)@.samples.len(),
            final(self)@.is_silent(),
    {
        let n = self.data.len();
        let mut k: usize = 0;
        while k < n
            invariant
                self.channels == old(self).channels,
                self.sample_rate == old(self).sample_rate,
                self.data@.len() == n,
                n == old(self)@.samples.len(),
                k <= n,
                forall|j: int| 0 <= j < k ==> self.data@[j] == EQUILIBRIUM,
            decreases n - k,
        {
            self.data.set(k, EQUILIBRIUM);
            k = k + 1;
        }
    }

    /// Changes the number of frames, keeping the samples that stay and
    /// filling new frames with silence.
    pub fn resize(&mut self, frames: usize)
        requires
            old(self).wf(),
            frames * old(self)@.channels <= usize::MAX,
        ensures
            final(self).wf(),
            final(self)@.channels == old(self)@.channels,
            final(self)@.sample_rate == old(self)@.sample_rate,
            final(self)@.frames() == frames,
            final(self)@.samples.len() == frames * old(self)@.channels,
            forall|k: int|
                0 <= k < final(self)@.samples.len() ==> #[trigger] final(self)@.samples[k] == if k
                    < old(self)@.samples.len() {
                    old(self)@.samples[k]
                } else {
                    EQUILIBRIUM
                },
    {
        let n = frames * self.channels;
        while self.data.len() > n
            invariant
                self.channels == old(self).channels,
                self.sample_rate == old(self).sample_rate,
                self.data@.len() <= old(self)@.samples.len(),
                self.data@.len() >= n || self.data@.len() == old(self)@.samples.len(),
                forall|k: int| 0 <= k < self.data@.len() ==> #[trigger] self.data@[k] == old(self)@.samples[k],
            decreases self.data@.len(),
        {
            self.data.pop();
        }
        while self.data.len() < n
            invariant
                self.channels == old(self).channels,
                self.sample_rate == old(self).sample_rate,
                self.data@.len() <= n,
                self.data@.len() < n ==> self.data@.len() >= old(self)@.samples.len(),
                forall|k: int|
                    0 <= k < self.data@.len() ==> #[trigger] self.data@[k] == if k < old(self)@.samples.len() {
                        old(self)@.samples[k]
                    } else {
                        EQUILIBRIUM
                    },
            decreases n - self.data@.len(),
        {
            self.data.push(EQUILIBRIUM);
        }
        proof {
            let c = self.channels as int;
            vstd::arithmetic::div_mod::lemma_mod_multiples_basic(frames as int, c);
            vstd::arithmetic::div_mod::lemma_div_multiples_vanish(frames as int, c);
            assert(n == c * frames) by (nonlinear_arith)
                requires n == frames * c;
        }
    }

    /// Adds channel `src_channel` of `src` into channel `channel` of this
    /// buffer, frame by frame, over the frames that both have.
    pub fn mix_channel_from(&mut self, src: &InterleavedBuffer, src_channel: usize, channel: usize)
        requires
            old(self).wf(),
            src.wf(),
            src_channel < src@.channels,
            channel < old(self)@.channels,
        ensures
            final(self).wf(),
            final(self)@ == (AudioData {
                samples: mix_channel_into(
                    old(self)@,
                    src@,
                    src_channel as int,
                    channel as int,
                    if old(self)@.frames() <= src@.frames() { old(self)@.frames() } else { src@.frames() },
                ),
                ..old(self)@
            }),
    {
        let own_frames = self.frames();
        let src_frames = src.frames();
        let frames = if own_frames <= src_frames {
            own_frames
        } else {
            src_frames
        };
        let ghost before = self@;
        let mut f: usize = 0;
        while f < frames
            invariant
                self.wf(),
                src.wf(),
                src_channel < src@.channels,
                channel < before.channels,
                self.channels == before.channels,
                self.sample_rate.0 == before.sample_rate,
                self.data@.len() == before.samples.len(),
                frames <= before.frames(),
                frames <= src@.frames(),
                f <= frames,
                forall|p: int|
                    0 <= p < before.samples.len() ==> #[trigger] self.data@[p] == if p % (
                    before.channels as int) == channel && p / (before.channels as int) < f {
                        add_amp(before.samples[p], src@.at(src_channel as int, p / (before.channels as int)))
                    } else {
                        before.samples[p]
                    },
            decreases frames - f,
        {
            proof {
                lemma_frame_index(before, channel as int, f as int);
                lemma_frame_index(src@, src_channel as int, f as int);
            }
            let pos = f * self.channels + channel;
            let cur = self.data[pos];
            let add = src.data[f * src.channels + src_channel];
            let ghost mid = self.data@;
            self.data.set(pos, add_samples(cur, add));
            proof {
                assert forall|p: int| 0 <= p < before.samples.len() implies #[trigger] self.data@[p]
                    == if p % (before.channels as int) == channel && p / (before.channels as int) < f + 1 {
                    add_amp(before.samples[p], src@.at(src_channel as int, p / (before.channels as int)))
                } else {
                    before.samples[p]
                } by {
                    lemma_position(before, p);
                    if p != pos {
                        assert(mid[p] == self.data@[p]);
                    }
                }
            }
            f = f + 1;
        }
        proof {
            assert(self@.samples =~= mix_channel_into(before, src@, src_channel as int, channel as int, frames as nat));
        }
    }

    /// Adds every channel of `src` that this buffer also has into the same
    /// channel here, over the frames that both have.
    pub fn mix_from(&mut self, src: &InterleavedBuffer)
        requires
            old(self).wf(),
            src.wf(),
        ensures
            final(self).wf(),
            final(self)@ == (AudioData { samples: mix_all_into(old(self)@, src@), ..old(self)@ }),
    {
        let own_frames = self.frames();
        let src_frames = src.frames();
        let frames = if own_frames <= src_frames {
            own_frames
        } else {
            src_frames
        };
        let channels = if self.channels <= src.channels {
            self.channels
        } else {
            src.channels
        };
        let ghost before = self@;
        let mut f: usize = 0;
        while f < frames
            invariant
                self.wf(),
                src.wf(),
                self.channels == before.channels,
                self.sample_rate.0 == before.sample_rate,
                self.data@.len() == before.samples.len(),
                frames <= before.frames(),
                frames <= src@.frames(),
                frames == if before.frames() <= src@.frames() { before.frames() } else { src@.frames() },
                channels == if before.channels <= src@.channels { before.channels } else { src@.channels },
                f <= frames,
                forall|p: int|
                    0 <= p < before.samples.len() ==> #[trigger] self.data@[p] == if p % (
                    before.channels as int) < src@.channels && p / (before.channels as int) < f {
                        add_amp(before.samples[p], src@.at(p % (before.channels as int), p / (before.channels as int)))
                    } else {
                        before.samples[p]
                    },
            decreases frames - f,
        {
            let mut ch: usize = 0;
            while ch < channels
                invariant
                    self.wf(),
                    src.wf(),
                    self.channels == before.channels,
                    self.sample_rate.0 == before.sample_rate,
                    self.data@.len() == before.samples.len(),
                    frames <= before.frames(),
                    frames <= src@.frames(),
                    channels == if before.channels <= src@.channels { before.channels } else { src@.channels },
                    f < frames,
                    ch <= channels,
                    forall|p: int|
                        0 <= p < before.samples.len() ==> #[trigger] self.data@[p] == if p % (
                        before.channels as int) < src@.channels && (p / (before.channels as int) < f || (p
                            / (before.channels as int) == f && p % (before.channels as int) < ch)) {
                            add_amp(before.samples[p], src@.at(p % (before.channels as int), p / (before.channels as int)))
                        } else {
                            before.samples[p]
                        },
                decreases channels - ch,
            {
                proof {
                    lemma_frame_index(before, ch as int, f as int);
                    lemma_frame_index(src@, ch as int, f as int);
                }
                let pos = f * self.channels + ch;
                let cur = self.data[pos];
                let add = src.data[f * src.channels + ch];
                let ghost mid = self.data@;
                self.data.set(pos, add_samples(cur, add));
                proof {
                    assert forall|p: int| 0 <= p < before.samples.len() implies #[trigger] self.data@[p]
                        == if p % (before.channels as int) < src@.channels && (p / (before.channels as int)
                        < f || (p / (before.channels as int) == f && p % (before.channels as int) < ch
                        + 1)) {
                        add_amp(before.samples[p], src@.at(p % (before.channels as int), p / (before.channels as int)))
                    } else {
                        before.samples[p]
                    } by {
                        lemma_position(before, p);
                        if p != pos {
                            assert(mid[p] == self.data@[p]);
                        }
                    }
                }
                ch = ch + 1;
            }
            f = f + 1;
        }
        proof {
            assert forall|p: int| 0 <= p < before.samples.len() implies #[trigger] self@.samples[p]
                == mix_all_into(before, src@)[p] by {
                lemma_position(before, p);
            }
            assert(self@.samples =~= mix_all_into(before, src@));
        }
    }
    /// Adds `len` frames of `src`, from frame `src_start` on, into this
    /// buffer from frame `dst_start` on, in every channel that both have.
    /// Frames past the end of either buffer are skipped.
    pub fn mix_slice_from(&mut self, src: &InterleavedBuffer, src_start: usize, dst_start: usize, len: usize)
        requires
            old(self).wf(),
            src.wf(),
        ensures
            final(self).wf(),
            final(self)@ == (AudioData {
                samples: mix_slice_into(old(self)@, src@, src_start as int, dst_start as int, len as int),
                ..old(self)@
            }),
    {
        let own_frames = self.frames();
        let src_frames = src.frames();
        let channels = if self.channels <= src.channels {
            self.channels
        } else {
            src.channels
        };
        let ghost before = self@;
        let mut i: usize = 0;
        while i < len
            invariant
                self.wf(),
                src.wf(),
                self.channels == before.channels,
                self.sample_rate.0 == before.sample_rate,
                self.data@.len() == before.samples.len(),
                own_frames == before.frames(),
                src_frames == src@.frames(),
                channels == if before.channels <= src@.channels { before.channels } else { src@.channels },
                i <= len,
                forall|p: int|
                    0 <= p < before.samples.len() ==> #[trigger] self.data@[p] == {
                        let ch = p % (before.channels as int);
                        let fr = p / (before.channels as int);
                        if ch < src@.channels && dst_start <= fr < dst_start + i && src_start + (fr
                            - dst_start) < src@.frames() {
                            add_amp(before.samples[p], src@.at(ch, src_start + (fr - dst_start)))
                        } else {
                            before.samples[p]
                        }
                    },
            decreases len - i,
        {
            if dst_start as u128 + (i as u128) < own_frames as u128 && src_start as u128 + (i as u128)
                < src_frames as u128 {
                let f = dst_start + i;
                let sf = src_start + i;
                let mut ch: usize = 0;
                while ch < channels
                    invariant
                        self.wf(),
                        src.wf(),
                        self.channels == before.channels,
                        self.sample_rate.0 == before.sample_rate,
                        self.data@.len() == before.samples.len(),
                        channels == if before.channels <= src@.channels { before.channels } else { src@.channels },
                        f == dst_start + i,
                        sf == src_start + i,
                        f < before.frames(),
                        sf < src@.frames(),
                        i < len,
                        ch <= channels,
                        forall|p: int|
                            0 <= p < before.samples.len() ==> #[trigger] self.data@[p] == {
                                let c = p % (before.channels as int);
                                let fr = p / (before.channels as int);
                                if c < src@.channels && ((dst_start <= fr < dst_start + i) || (fr == f
                                    && c < ch)) && src_start + (fr - dst_start) < src@.frames() {
                                    add_amp(before.samples[p], src@.at(c, src_start + (fr - dst_start)))
                                } else {
                                    before.samples[p]
                                }
                            },
                    decreases channels - ch,
                {
                    proof {
                        lemma_frame_index(before, ch as int, f as int);
                        lemma_frame_index(src@, ch as int, sf as int);
                    }
                    let pos = f * self.channels + ch;
                    let cur = self.data[pos];
                    let add = src.data[sf * src.channels + ch];
                    let ghost mid = self.data@;
                    self.data.set(pos, add_samples(cur, add));
                    proof {
                        assert forall|p: int| 0 <= p < before.samples.len() implies #[trigger] self.data@[p]
                            == {
                            let c = p % (before.channels as int);
                            let fr = p / (before.channels as int);
                            if c < src@.channels && ((dst_start <= fr < dst_start + i) || (fr == f && c
                                < ch + 1)) && src_start + (fr - dst_start) < src@.frames() {
                                add_amp(before.samples[p], src@.at(c, src_start + (fr - dst_start)))
                            } else {
                                before.samples[p]
                            }
                        } by {
                            lemma_position(before, p);
                            if p != pos {
                                assert(mid[p] == self.data@[p]);
                            }
                        }
                    }
                    ch = ch + 1;
                }
            }
            proof {
                assert forall|p: int| 0 <= p < before.samples.len() implies #[trigger] self.data@[p] == {
                    let ch = p % (before.channels as int);
                    let fr = p / (before.channels as int);
                    if ch < src@.channels && dst_start <= fr < dst_start + i + 1 && src_start + (fr
                        - dst_start) < src@.frames() {
                        add_amp(before.samples[p], src@.at(ch, src_start + (fr - dst_start)))
                    } else {
                        before.samples[p]
                    }
                } by {
                    lemma_position(before, p);
                }
            }
            i = i + 1;
        }
        proof {
            assert(self@.samples =~= mix_slice_into(before, src@, src_start as int, dst_start as int, len as int));
        }
    }
    /// Adds a region of `src` into this buffer: `channels` channels from
    /// `src_ch` into `dst_ch` on, `frames` frames from `src_fr` into
    /// `dst_fr` on.
    pub fn mix_region(
        &mut self,
        src: &InterleavedBuffer,
        src_ch: usize,
        dst_ch: usize,
        channels: usize,
        src_fr: usize,
        dst_fr: usize,
        frames: usize,
    )
        requires
            old(self).wf(),
            src.wf(),
            src_ch + channels <= src@.channels,
            dst_ch + channels <= old(self)@.channels,
            src_fr + frames <= src@.frames(),
            dst_fr + frames <= old(self)@.frames(),
        ensures
            final(self).wf(),
            final(self)@ == (AudioData {
                samples: mix_region_into(
                    old(self)@,
                    src@,
                    src_ch as int,
                    dst_ch as int,
                    channels as int,
                    src_fr as int,
                    dst_fr as int,
                    frames as int,
                ),
                ..old(self)@
            }),
    {
        let ghost before = self@;
        let mut i: usize = 0;
        while i < frames
            invariant
                self.wf(),
                src.wf(),
                self.channels == before.channels,
                self.sample_rate.0 == before.sample_rate,
                self.data@.len() == before.samples.len(),
                src_ch + channels <= src@.channels,
                dst_ch + channels <= before.channels,
                src_fr + frames <= src@.frames(),
                dst_fr + frames <= before.frames(),
                i <= frames,
                forall|p: int|
                    0 <= p < before.samples.len() ==> #[trigger] self.data@[p] == {
                        let ch = p % (before.channels as int);
                        let fr = p / (before.channels as int);
                        if dst_ch <= ch < dst_ch + channels && dst_fr <= fr < dst_fr + i {
                            add_amp(before.samples[p], src@.at(src_ch + (ch - dst_ch), src_fr + (fr - dst_fr)))
                        } else {
                            before.samples[p]
                        }
                    },
            decreases frames - i,
        {
            let f = dst_fr + i;
            let sf = src_fr + i;
            let mut c: usize = 0;
            while c < channels
                invariant
                    self.wf(),
                    src.wf(),
                    self.channels == before.channels,
                    self.sample_rate.0 == before.sample_rate,
                    self.data@.len() == before.samples.len(),
                    src_ch + channels <= src@.channels,
                    dst_ch + channels <= before.channels,
                    src_fr + frames <= src@.frames(),
                    dst_fr + frames <= before.frames(),
                    f == dst_fr + i,
                    sf == src_fr + i,
                    i < frames,
                    c <= channels,
                    forall|p: int|
                        0 <= p < before.samples.len() ==> #[trigger] self.data@[p] == {
                            let ch = p % (before.channels as int);
                            let fr = p / (before.channels as int);
                            if dst_ch <= ch < dst_ch + channels && ((dst_fr <= fr < dst_fr + i) || (fr == f
                                && ch < dst_ch + c)) {
                                add_amp(before.samples[p], src@.at(src_ch + (ch - dst_ch), src_fr + (fr - dst_fr)))
                            } else {
                                before.samples[p]
                            }
                        },
                decreases channels - c,
            {
                proof {
                    lemma_frame_index(before, (dst_ch + c) as int, f as int);
                    lemma_frame_index(src@, (src_ch + c) as int, sf as int);
                }
                let pos = f * self.channels + (dst_ch + c);
                let cur = self.data[pos];
                let add = src.data[sf * src.channels + (src_ch + c)];
                let ghost mid = self.data@;
                self.data.set(pos, add_samples(cur, add));
                proof {
                    assert forall|p: int| 0 <= p < before.samples.len() implies #[trigger] self.data@[p]
                        == {
                        let ch = p % (before.channels as int);
                        let fr = p / (before.channels as int);
                        if dst_ch <= ch < dst_ch + channels && ((dst_fr <= fr < dst_fr + i) || (fr == f
                            && ch < dst_ch + c + 1)) {
                            add_amp(before.samples[p], src@.at(src_ch + (ch - dst_ch), src_fr + (fr - dst_fr)))
                        } else {
                            before.samples[p]
                        }
                    } by {
                        lemma_position(before, p);
                        if p != pos {
                            assert(mid[p] == self.data@[p]);
                        }
                    }
                }
                c = c + 1;
            }
            proof {
                assert forall|p: int| 0 <= p < before.samples.len() implies #[trigger] self.data@[p] == {
                    let ch = p % (before.channels as int);
                    let fr = p / (before.channels as int);
                    if dst_ch <= ch < dst_ch + channels && dst_fr <= fr < dst_fr + i + 1 {
                        add_amp(before.samples[p], src@.at(src_ch + (ch - dst_ch), src_fr + (fr - dst_fr)))
                    } else {
                        before.samples[p]
                    }
                } by {
                    lemma_position(before, p);
                }
            }
            i = i + 1;
        }
        proof {
            assert(self@.samples =~= mix_region_into(
                before,
                src@,
                src_ch as int,
                dst_ch as int,
                channels as int,
                src_fr as int,
                dst_fr as int,
                frames as int,
            ));
        }
    }

    /// Adds `source` into this buffer as `options` say: from the given
    /// channel and frame offsets on both sides, over as many channels and
    /// frames as both have past them. With the strict channel strategy the
    /// channel counts past the offsets must agree.
    pub fn mix_from_with(&mut self, source: &InterleavedBuffer, options: CopyOptions) -> (r: Result<
        (),
        BufferError,
    >)
        requires
            old(self).wf(),
            source.wf(),
        ensures
            final(self).wf(),
            r == copy_outcome(old(self)@, source@, options),
            r.is_ok() ==> final(self)@ == (AudioData {
                samples: mix_region_into(
                    old(self)@,
                    source@,
                    options.src_channel_offset as int,
                    options.dst_channel_offset as int,
                    min_int(
                        source@.channels - options.src_channel_offset,
                        old(self)@.channels - options.dst_channel_offset,
                    ),
                    options.src_frame_offset as int,
                    options.dst_frame_offset as int,
                    min_int(
                        source@.frames() - options.src_frame_offset,
                        old(self)@.frames() - options.dst_frame_offset,
                    ),
                ),
                ..old(self)@
            }),
            r.is_err() ==> final(self)@ == old(self)@,
    {
        if options.src_channel_offset > source.channels || options.dst_channel_offset > self.channels {
            return Err(BufferError::InvalidChannelOffset);
        }
        if options.src_frame_offset > source.frames() || options.dst_frame_offset > self.frames() {
            return Err(BufferError::InvalidFrameOffset);
        }
        let src_channels = source.channels - options.src_channel_offset;
        let dst_channels = self.channels - options.dst_channel_offset;
        let strict = match options.channel_strategy {
            ChannelStrategy::Strict => true,
            _ => false,
        };
        if strict && src_channels != dst_channels {
            return Err(BufferError::ChannelMismatch);
        }
        let channels = if src_channels <= dst_channels {
            src_channels
        } else {
            dst_channels
        };
        let src_frames = source.frames() - options.src_frame_offset;
        let dst_frames = self.frames() - options.dst_frame_offset;
        let frames = if src_frames <= dst_frames {
            src_frames
        } else {
            dst_frames
        };
        self.mix_region(
            source,
            options.src_channel_offset,
            options.dst_channel_offset,
            channels,
            options.src_frame_offset,
            options.dst_frame_offset,
            frames,
        );
        Ok(())
    }
    /// Overwrites a region from `src`; see `copy_region_into`.
    pub fn copy_region(
        &mut self,
        src: &InterleavedBuffer,
        src_ch: usize,
        dst_ch: usize,
        channels: usize,
        repeat: usize,
        src_fr: usize,
        dst_fr: usize,
        copy_len: usize,
        span: usize,
    )
        requires
            old(self).wf(),
            src.wf(),
            repeat > 0 ==> src_ch + repeat <= src@.channels,
            repeat == 0 ==> src_ch + channels <= src@.channels,
            dst_ch + channels <= old(self)@.channels,
            copy_len <= span,
            src_fr + copy_len <= src@.frames(),
            dst_fr + span <= old(self)@.frames(),
        ensures
            final(self).wf(),
            final(self)@ == (AudioData {
                samples: copy_region_into(
                    old(self)@,
                    src@,
                    src_ch as int,
                    dst_ch as int,
                    channels as int,
                    repeat as int,
                    src_fr as int,
                    dst_fr as int,
                    copy_len as int,
                    span as int,
                ),
                ..old(self)@
            }),
    {
        let ghost before = self@;
        let mut i: usize = 0;
        while i < span
            invariant
                self.wf(),
                src.wf(),
                self.channels == before.channels,
                self.sample_rate.0 == before.sample_rate,
                self.data@.len() == before.samples.len(),
                repeat > 0 ==> src_ch + repeat <= src@.channels,
                repeat == 0 ==> src_ch + channels <= src@.channels,
                dst_ch + channels <= before.channels,
                copy_len <= span,
                src_fr + copy_len <= src@.frames(),
                dst_fr + span <= before.frames(),
                i <= span,
                forall|p: int|
                    0 <= p < before.samples.len() ==> #[trigger] self.data@[p] == {
                        let ch = p % (before.channels as int);
                        let fr = p / (before.channels as int);
                        if dst_ch <= ch < dst_ch + channels && dst_fr <= fr < dst_fr + i {
                            if fr < dst_fr + copy_len {
                                src@.at(
                                    src_ch + if repeat > 0 {
                                        (ch - dst_ch) % (repeat as int)
                                    } else {
                                        ch - dst_ch
                                    },
                                    src_fr + (fr - dst_fr),
                                )
                            } else {
                                EQUILIBRIUM
                            }
                        } else {
                            before.samples[p]
                        }
                    },
            decreases span - i,
        {
            let f = dst_fr + i;
            let mut c: usize = 0;
            while c < channels
                invariant
                    self.wf(),
                    src.wf(),
                    self.channels == before.channels,
                    self.sample_rate.0 == before.sample_rate,
                    self.data@.len() == before.samples.len(),
                    repeat > 0 ==> src_ch + repeat <= src@.channels,
                    repeat == 0 ==> src_ch + channels <= src@.channels,
                    dst_ch + channels <= before.channels,
                    copy_len <= span,
                    src_fr + copy_len <= src@.frames(),
                    dst_fr + span <= before.frames(),
                    f == dst_fr + i,
                    i < span,
                    c <= channels,
                    forall|p: int|
                        0 <= p < before.samples.len() ==> #[trigger] self.data@[p] == {
                            let ch = p % (before.channels as int);
                            let fr = p / (before.channels as int);
                            if dst_ch <= ch < dst_ch + channels && ((dst_fr <= fr < dst_fr + i) || (fr == f
                                && ch < dst_ch + c)) {
                                if fr < dst_fr + copy_len {
                                    src@.at(
                                        src_ch + if repeat > 0 {
                                            (ch - dst_ch) % (repeat as int)
                                        } else {
                                            ch - dst_ch
                                        },
                                        src_fr + (fr - dst_fr),
                                    )
                                } else {
                                    EQUILIBRIUM
                                }
                            } else {
                                before.samples[p]
                            }
                        },
                decreases channels - c,
            {
                proof {
                    lemma_frame_index(before, (dst_ch + c) as int, f as int);
                }
                let value = if i < copy_len {
                    let sc = if repeat > 0 {
                        src_ch + c % repeat
                    } else {
                        src_ch + c
                    };
                    let sf = src_fr + i;
                    proof {
                        if repeat > 0 {
                            assert(c % repeat < repeat);
                        }
                        lemma_frame_index(src@, sc as int, sf as int);
                    }
                    src.data[sf * src.channels + sc]
                } else {
                    EQUILIBRIUM
                };
                let pos = f * self.channels + (dst_ch + c);
                let ghost mid = self.data@;
                self.data.set(pos, value);
                proof {
                    assert forall|p: int| 0 <= p < before.samples.len() implies #[trigger] self.data@[p]
                        == {
                        let ch = p % (before.channels as int);
                        let fr = p / (before.channels as int);
                        if dst_ch <= ch < dst_ch + channels && ((dst_fr <= fr < dst_fr + i) || (fr == f && ch
                            < dst_ch + c + 1)) {
                            if fr < dst_fr + copy_len {
                                src@.at(
                                    src_ch + if repeat > 0 {
                                        (ch - dst_ch) % (repeat as int)
                                    } else {
                                        ch - dst_ch
                                    },
                                    src_fr + (fr - dst_fr),
                                )
                            } else {
                                EQUILIBRIUM
                            }
                        } else {
                            before.samples[p]
                        }
                    } by {
                        lemma_position(before, p);
                        if p != pos {
                            assert(mid[p] == self.data@[p]);
                        }
                    }
                }
                c = c + 1;
            }
            proof {
                assert forall|p: int| 0 <= p < before.samples.len() implies #[trigger] self.data@[p] == {
                    let ch = p % (before.channels as int);
                    let fr = p / (before.channels as int);
                    if dst_ch <= ch < dst_ch + channels && dst_fr <= fr < dst_fr + i + 1 {
                        if fr < dst_fr + copy_len {
                            src@.at(
                                src_ch + if repeat > 0 {
                                    (ch - dst_ch) % (repeat as int)
                                } else {
                                    ch - dst_ch
                                },
                                src_fr + (fr - dst_fr),
                            )
                        } else {
                            EQUILIBRIUM
                        }
                    } else {
                        before.samples[p]
                    }
                } by {
                    lemma_position(before, p);
                }
            }
            i = i + 1;
        }
        proof {
            assert(self@.samples =~= copy_region_into(
                before,
                src@,
                src_ch as int,
                dst_ch as int,
                channels as int,
                repeat as int,
                src_fr as int,
                dst_fr as int,
                copy_len as int,
                span as int,
            ));
        }
    }

    /// Copies `source` into this buffer as `options` say. The channels and
    /// frames written are `copy_channels` and `copy_span`; with `Repeat` the
    /// source channels are used in turn, and with `Fit` the frames past the
    /// end of the source become silence.
    pub fn copy_from(&mut self, source: &InterleavedBuffer, options: CopyOptions) -> (r: Result<(), BufferError>)
        requires
            old(self).wf(),
            source.wf(),
        ensures
            final(self).wf(),
            r == copy_check(old(self)@, source@, options),
            r.is_ok() ==> final(self)@ == (AudioData {
                samples: copy_region_into(
                    old(self)@,
                    source@,
                    options.src_channel_offset as int,
                    options.dst_channel_offset as int,
                    copy_channels(old(self)@, source@, options),
                    if options.channel_strategy == ChannelStrategy::Repeat {
                        source@.channels - options.src_channel_offset
                    } else {
                        0
                    },
                    options.src_frame_offset as int,
                    options.dst_frame_offset as int,
                    min_int(
                        copy_span(old(self)@, source@, options),
                        source@.frames() - options.src_frame_offset,
                    ),
                    copy_span(old(self)@, source@, options),
                ),
                ..old(self)@
            }),
            r.is_err() ==> final(self)@ == old(self)@,
    {
        if options.src_channel_offset >= source.channels || options.dst_channel_offset >= self.channels {
            return Err(BufferError::InvalidChannelOffset);
        }
        if options.src_frame_offset >= source.frames() || options.dst_frame_offset >= self.frames() {
            return Err(BufferError::InvalidFrameOffset);
        }
        let src_channels = source.channels - options.src_channel_offset;
        let dst_channels = self.channels - options.dst_channel_offset;
        let src_frames = source.frames() - options.src_frame_offset;
        let dst_frames = self.frames() - options.dst_frame_offset;
        let (channels, repeat) = match options.channel_strategy {
            ChannelStrategy::Strict => {
                if src_channels != dst_channels {
                    return Err(BufferError::ChannelMismatch);
                }
                (src_channels, 0)
            },
            ChannelStrategy::Repeat => (dst_channels, src_channels),
            _ => (if src_channels <= dst_channels { src_channels } else { dst_channels }, 0),
        };
        let span = match options.frame_strategy {
            FrameStrategy::Strict => {
                if src_frames != dst_frames {
                    return Err(BufferError::FrameMismatch);
                }
                src_frames
            },
            FrameStrategy::Fit => dst_frames,
            _ => if src_frames <= dst_frames {
                src_frames
            } else {
                dst_frames
            },
        };
        let copy_len = if span <= src_frames {
            span
        } else {
            src_frames
        };
        self.copy_region(
            source,
            options.src_channel_offset,
            options.dst_channel_offset,
            channels,
            repeat,
            options.src_frame_offset,
            options.dst_frame_offset,
            copy_len,
            span,
        );
        Ok(())
    }
}

/// Adds `input` into `output`, channel by channel, over the frames that
/// both have, and returns how many frames that is. Buffers with different
/// channel counts are refused and `output` is left as it is.
pub fn mix_buffers(input: &InterleavedBuffer, output: &mut InterleavedBuffer) -> (r: Result<usize, IoError>)
    requires
        input.wf(),
        old(output).wf(),
    ensures
        final(output).wf(),
        input@.channels != old(output)@.channels ==> r == Err::<usize, IoError>(
            IoError::ChannelMismatch(old(output)@.channels as usize, input@.channels as usize))
            && final(output)@ == old(output)@,
        input@.channels == old(output)@.channels ==> r == Ok::<usize, IoError>(
            (if input@.frames() <= old(output)@.frames() { input@.frames() } else { old(output)@.frames() }) as usize)
            && final(output)@ == (AudioData { samples: mix_all_into(old(output)@, input@), ..old(output)@ }),
{
    if input.channels() != output.channels() {
        return Err(IoError::ChannelMismatch(output.channels(), input.channels()));
    }
    let frames = if input.frames() <= output.frames() {
        input.frames()
    } else {
        output.frames()
    };
    output.mix_from(input);
    Ok(frames)
}

} // verus!
