use vstd::prelude::*;

verus! {

/// Sub-beat resolution of musical time.
pub const TICKS_PER_BEAT: u64 = 16777216;

/// Seconds per minute, the unit that a tempo in beats per minute refers to.
pub const SECONDS_PER_MINUTE: u64 = 60;

/// A tempo-relative position, counted in ticks of `1 / TICKS_PER_BEAT` beat.
#[derive(Clone, Copy, Debug, PartialEq, Eq, Structural)]
pub struct MusicalTime {
    pub ticks: u64,
}

/// A non-negative sample-frame index or frame count.
#[derive(Clone, Copy, Debug, PartialEq, Eq, Structural)]
pub struct FrameTime(pub u64);

/// Frames per second.
#[derive(Clone, Copy, Debug, PartialEq, Eq, Structural)]
pub struct SampleRate(pub u32);

/// `n / d` rounded to the nearest integer, ties to the even neighbour.
pub open spec fn round_half_even(n: nat, d: nat) -> nat {
    let q = n / d;
    let r = n % d;
    if 2 * r > d {
        q + 1
    } else if 2 * r < d {
        q
    } else if q % 2 == 1 {
        q + 1
    } else {
        q
    }
}

/// A natural number clamped to the range of `u64`.
pub open spec fn clamp_u64(n: nat) -> nat {
    if n > u64::MAX {
        u64::MAX as nat
    } else {
        n
    }
}

/// The frame nearest to `ticks` at `bpm` and `sr` frames per second.
pub open spec fn ticks_to_frames(ticks: nat, bpm: nat, sr: nat) -> nat {
    clamp_u64(round_half_even((ticks * SECONDS_PER_MINUTE * sr) as nat, (TICKS_PER_BEAT * bpm) as nat))
}

/// The musical position, in ticks, nearest to `frames` at `bpm` and `sr`.
pub open spec fn frames_to_ticks(frames: nat, bpm: nat, sr: nat) -> nat {
    clamp_u64(round_half_even((frames * TICKS_PER_BEAT * bpm) as nat, (SECONDS_PER_MINUTE * sr) as nat))
}

fn div_round_half_even(n: u128, d: u128) -> (r: u64)
    requires
        d > 0,
    ensures
        r as nat == clamp_u64(round_half_even(n as nat, d as nat)),
{
    let q = n / d;
    let rem = n % d;
    if q > u64::MAX as u128 {
        return u64::MAX;
    }
    let rounded: u128 = if rem > d - rem {
        q + 1
    } else if rem < d - rem {
        q
    } else if q % 2 == 1 {
        q + 1
    } else {
        q
    };
    if rounded > u64::MAX as u128 {
        u64::MAX
    } else {
        rounded as u64
    }
}

impl MusicalTime {
    pub fn zero() -> (r: MusicalTime)
        ensures
            r.ticks == 0,
    {
        MusicalTime { ticks: 0 }
    }

    pub fn new(ticks: u64) -> (r: MusicalTime)
        ensures
            r.ticks == ticks,
    {
        MusicalTime { ticks }
    }

    /// A position a whole number of beats from the start.
    pub fn from_beats(beats: u32) -> (r: MusicalTime)
        ensures
            r.ticks == beats * TICKS_PER_BEAT,
    {
        assert(beats * TICKS_PER_BEAT <= u32::MAX * TICKS_PER_BEAT) by (nonlinear_arith);
        MusicalTime { ticks: beats as u64 * TICKS_PER_BEAT }
    }

    pub fn add(self, other: MusicalTime) -> (r: MusicalTime)
        requires
            self.ticks + other.ticks <= u64::MAX,
        ensures
            r.ticks == self.ticks + other.ticks,
    {
        MusicalTime { ticks: self.ticks + other.ticks }
    }

    /// `None` where `other` lies after `self`.
    pub fn checked_sub(self, other: MusicalTime) -> (r: Option<MusicalTime>)
        ensures
            other.ticks <= self.ticks <==> r.is_some(),
            r.is_some() ==> r.unwrap().ticks == self.ticks - other.ticks,
    {
        if other.ticks <= self.ticks {
            Some(MusicalTime { ticks: self.ticks - other.ticks })
        } else {
            None
        }
    }

    /// Difference that stops at zero, used for range arithmetic.
    pub fn saturating_sub(self, other: MusicalTime) -> (r: MusicalTime)
        ensures
            r.ticks == if other.ticks <= self.ticks { self.ticks - other.ticks } else { 0 },
    {
        MusicalTime { ticks: self.ticks.saturating_sub(other.ticks) }
    }

    pub fn min(self, other: MusicalTime) -> (r: MusicalTime)
        ensures
            r.ticks == if self.ticks <= other.ticks { self.ticks } else { other.ticks },
    {
        if self.ticks <= other.ticks {
            self
        } else {
            other
        }
    }

    pub fn max(self, other: MusicalTime) -> (r: MusicalTime)
        ensures
            r.ticks == if self.ticks >= other.ticks { self.ticks } else { other.ticks },
    {
        if self.ticks >= other.ticks {
            self
        } else {
            other
        }
    }

    pub fn is_before(self, other: MusicalTime) -> (r: bool)
        ensures
            r == (self.ticks < other.ticks),
    {
        self.ticks < other.ticks
    }

    /// The nearest frame, ties to even, at `bpm` beats per minute.
    pub fn to_nearest_frame_round_lossy(self, bpm: u32, sample_rate: SampleRate) -> (r: FrameTime)
        requires
            bpm > 0,
        ensures
            r.0 as nat == ticks_to_frames(self.ticks as nat, bpm as nat, sample_rate.0 as nat),
    {
        let t = self.ticks as u128;
        let sr = sample_rate.0 as u128;
        let b = bpm as u128;
        assert(t * 60 <= u64::MAX * 60) by (nonlinear_arith)
            requires t <= u64::MAX;
        assert(t * 60 * sr <= u64::MAX * 60 * u32::MAX) by (nonlinear_arith)
            requires t * 60 <= u64::MAX * 60, sr <= u32::MAX;
        assert(TICKS_PER_BEAT * b <= TICKS_PER_BEAT * u32::MAX) by (nonlinear_arith)
            requires b <= u32::MAX;
        assert(TICKS_PER_BEAT * b > 0) by (nonlinear_arith)
            requires b > 0;
        FrameTime(div_round_half_even(t * 60 * sr, TICKS_PER_BEAT as u128 * b))
    }
}

impl FrameTime {
    pub fn new(frames: u64) -> (r: FrameTime)
        ensures
            r.0 == frames,
    {
        FrameTime(frames)
    }

    pub fn mul(self, n: u64) -> (r: FrameTime)
        requires
            self.0 * n <= u64::MAX,
        ensures
            r.0 == self.0 * n,
    {
        FrameTime(self.0 * n)
    }

    pub fn add(self, other: FrameTime) -> (r: FrameTime)
        requires
            self.0 + other.0 <= u64::MAX,
        ensures
            r.0 == self.0 + other.0,
    {
        FrameTime(self.0 + other.0)
    }

    /// The nearest musical position, ties to even, at `bpm` beats per minute.
    pub fn to_musical_lossy(self, bpm: u32, sample_rate: SampleRate) -> (r: MusicalTime)
        requires
            sample_rate.0 > 0,
        ensures
            r.ticks as nat == frames_to_ticks(self.0 as nat, bpm as nat, sample_rate.0 as nat),
    {
        let f = self.0 as u128;
        let sr = sample_rate.0 as u128;
        let b = bpm as u128;
        assert(f * TICKS_PER_BEAT <= u64::MAX * TICKS_PER_BEAT) by (nonlinear_arith)
            requires f <= u64::MAX;
        assert(f * TICKS_PER_BEAT * b <= u64::MAX * TICKS_PER_BEAT * u32::MAX) by (nonlinear_arith)
            requires f * TICKS_PER_BEAT <= u64::MAX * TICKS_PER_BEAT, b <= u32::MAX;
        assert(60 * sr > 0) by (nonlinear_arith)
            requires sr > 0;
        let ticks = div_round_half_even(f * TICKS_PER_BEAT as u128 * b, 60 * sr);
        MusicalTime { ticks }
    }
}

impl SampleRate {
    pub fn new(frames_per_second: u32) -> (r: SampleRate)
        ensures
            r.0 == frames_per_second,
    {
        SampleRate(frames_per_second)
    }

    pub fn get(self) -> (r: u32)
        ensures
            r == self.0,
    {
        self.0
    }
}

impl Default for SampleRate {
    fn default() -> (r: SampleRate)
        ensures
            r.0 == 48000,
    {
        SampleRate(48000)
    }
}

} // verus!
