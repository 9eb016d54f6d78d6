use vstd::prelude::*;

use crate::buffer::{AudioData, InterleavedBuffer};
use crate::timing::{FrameTime, SampleRate};

verus! {

/// Free buffers of one shape.
pub struct BufferQueue {
    pub channels: usize,
    pub frames: usize,
    pub buffers: Vec<InterleavedBuffer>,
}

impl BufferQueue {
    pub open spec fn holds(&self, channels: nat, frames: nat) -> bool {
        self.channels == channels && self.frames == frames
    }

    pub open spec fn len(&self) -> nat {
        self.buffers@.len()
    }

    /// Every buffer of the queue has this sample rate.
    pub open spec fn rate_is(&self, rate: nat) -> bool {
        forall|k: int| 0 <= k < self.buffers@.len() ==> (#[trigger] self.buffers@[k])@.sample_rate == rate
    }

    /// Every buffer of the queue has the queue's shape and is silent.
    pub open spec fn wf(&self) -> bool {
        forall|k: int|
            0 <= k < self.buffers@.len() ==> {
                let b = #[trigger] self.buffers@[k];
                b.wf() && b@.channels == self.channels && b@.frames() == self.frames
                    && b@.is_silent()
            }
    }
}

/// Number of free buffers of shape `(channels, frames)` over the queues.
pub open spec fn count_of(qs: Seq<BufferQueue>, channels: nat, frames: nat) -> nat
    decreases qs.len(),
{
    if qs.len() == 0 {
        0
    } else {
        count_of(qs.drop_last(), channels, frames) + if qs.last().holds(channels, frames) {
            qs.last().len()
        } else {
            0
        }
    }
}

/// Number of free buffers over all queues.
pub open spec fn total_of(qs: Seq<BufferQueue>) -> nat
    decreases qs.len(),
{
    if qs.len() == 0 {
        0
    } else {
        total_of(qs.drop_last()) + qs.last().len()
    }
}

/// A pool of silent interleaved buffers, kept by shape, so that block
/// processing never allocates.
pub struct BufferArena {
    free: Vec<BufferQueue>,
    sample_rate: SampleRate,
}

impl BufferArena {
    pub closed spec fn wf(&self) -> bool {
        &&& forall|i: int| 0 <= i < self.free@.len() ==> (#[trigger] self.free@[i]).wf()
        &&& forall|i: int| 0 <= i < self.free@.len() ==> (#[trigger] self.free@[i]).rate_is(self.sample_rate.0 as nat)
        &&& forall|i: int, j: int|
            0 <= i < self.free@.len() && 0 <= j < self.free@.len() && i != j ==> !(#[trigger] self.free@[i]).holds(
                (#[trigger] self.free@[j]).channels as nat,
                self.free@[j].frames as nat,
            )
    }

    /// How many free buffers of shape `(channels, frames)` the arena holds.
    pub closed spec fn count(&self, channels: nat, frames: nat) -> nat {
        count_of(self.free@, channels, frames)
    }

    /// How many free buffers the arena holds in all.
    pub closed spec fn total(&self) -> nat {
        total_of(self.free@)
    }

    pub closed spec fn rate(&self) -> SampleRate {
        self.sample_rate
    }

    /// The free buffers, queue by queue.
    pub closed spec fn contents(&self) -> Seq<Seq<AudioData>> {
        self.free@.map_values(|q: BufferQueue| q.buffers@.map_values(|b: InterleavedBuffer| b@))
    }

    pub fn new(sample_rate: SampleRate) -> (r: BufferArena)
        ensures
            r.wf(),
            r.total() == 0,
            forall|c: nat, f: nat| r.count(c, f) == 0,
            r.rate() == sample_rate,
    {
        BufferArena { free: Vec::new(), sample_rate }
    }

    fn find_queue(&self, channels: usize, frames: usize) -> (r: Option<usize>)
        ensures
            r.is_some() ==> r.unwrap() < self.free@.len() && self.free@[r.unwrap() as int].holds(
                channels as nat,
                frames as nat,
            ),
            r.is_none() ==> forall|i: int|
                0 <= i < self.free@.len() ==> !(#[trigger] self.free@[i]).holds(channels as nat, frames as nat),
    {
        let mut i: usize = 0;
        while i < self.free.len()
            invariant
                i <= self.free@.len(),
                forall|j: int|
                    0 <= j < i ==> !(#[trigger] self.free@[j]).holds(channels as nat, frames as nat),
            decreases self.free@.len() - i,
        {
            if self.free[i].channels == channels && self.free[i].frames == frames {
                return Some(i);
            }
            i = i + 1;
        }
        None
    }

    /// Puts a silent buffer of the shape `(buffer.channels(), buffer.frames())`
    /// into the arena.
    fn push_buffer(&mut self, buffer: InterleavedBuffer)
        requires
            old(self).wf(),
            buffer.wf(),
            buffer@.is_silent(),
            buffer@.sample_rate == old(self).rate().0,
        ensures
            final(self).wf(),
            final(self).rate() == old(self).rate(),
            final(self).total() == old(self).total() + 1,
            forall|c: nat, f: nat|
                #[trigger] final(self).count(c, f) == old(self).count(c, f) + if c == buffer@.channels
                    && f == buffer@.frames() {
                    1nat
                } else {
                    0nat
                },
    {
        let channels = buffer.channels();
        let frames = buffer.frames();
        match self.find_queue(channels, frames) {
            Some(i) => {
                let ghost before = self.free@;
                let ghost q_old = self.free@[i as int];
                let q = &mut self.free[i];
                q.buffers.push(buffer);
                proof {
                    let q_new = self.free@[i as int];
                    assert(self.free@ == before.update(i as int, q_new));
                    assert(q_new.buffers@ == q_old.buffers@.push(buffer));
                    assert forall|k: int| 0 <= k < q_new.buffers@.len() implies {
                        let b = #[trigger] q_new.buffers@[k];
                        b.wf() && b@.channels == q_new.channels && b@.frames() == q_new.frames
                            && b@.is_silent()
                    } by {
                        if k < q_old.buffers@.len() {
                            assert(q_new.buffers@[k] == q_old.buffers@[k]);
                        }
                    }
                    assert forall|j: int| 0 <= j < self.free@.len() implies (#[trigger] self.free@[j]).wf() by {
                        if j != i {
                            assert(self.free@[j] == before[j]);
                        }
                    }
                    assert forall|j: int| 0 <= j < self.free@.len() implies (#[trigger] self.free@[j]).rate_is(self.sample_rate.0 as nat) by {
                        if j != i {
                            assert(self.free@[j] == before[j]);
                        } else {
                            assert forall|k: int| 0 <= k < q_new.buffers@.len() implies (#[trigger] q_new.buffers@[k])@.sample_rate == self.sample_rate.0 as nat by {
                                if k < q_old.buffers@.len() {
                                    assert(q_new.buffers@[k] == q_old.buffers@[k]);
                                }
                            }
                        }
                    }
                    lemma_update_queue(before, i as int, q_new);
                }
            },
            None => {
                let mut buffers: Vec<InterleavedBuffer> = Vec::new();
                buffers.push(buffer);
                let q = BufferQueue { channels, frames, buffers };
                let ghost before = self.free@;
                self.free.push(q);
                proof {
                    assert(self.free@.drop_last() == before);
                    assert forall|j: int| 0 <= j < self.free@.len() implies (#[trigger] self.free@[j]).wf() by {
                        if j < before.len() {
                            assert(self.free@[j] == before[j]);
                        } else {
                            assert(q.buffers@[0] == buffer);
                        }
                    }
                    assert forall|j: int| 0 <= j < self.free@.len() implies (#[trigger] self.free@[j]).rate_is(self.sample_rate.0 as nat) by {
                        if j < before.len() {
                            assert(self.free@[j] == before[j]);
                        } else {
                            assert(q.buffers@[0] == buffer);
                        }
                    }
                }
            },
        }
    }

    /// Adds one silent buffer of the given shape.
    pub fn allocate_buffer(&mut self, channels: usize, buffer_size: FrameTime)
        requires
            old(self).wf(),
            channels >= 1,
            buffer_size.0 * channels <= usize::MAX,
        ensures
            final(self).wf(),
            final(self).rate() == old(self).rate(),
            final(self).total() == old(self).total() + 1,
            forall|c: nat, f: nat|
                #[trigger] final(self).count(c, f) == old(self).count(c, f) + if c == channels && f
                    == buffer_size.0 {
                    1nat
                } else {
                    0nat
                },
    {
        let buffer = InterleavedBuffer::with_shape(channels, self.sample_rate, buffer_size);
        self.push_buffer(buffer);
    }

    /// How many free buffers of the given shape the arena holds.
    pub fn available(&self, channels: usize, buffer_size: FrameTime) -> (r: usize)
        requires
            self.wf(),
        ensures
            r == self.count(channels as nat, buffer_size.0 as nat) || (r == usize::MAX && self.count(
                channels as nat,
                buffer_size.0 as nat,
            ) >= usize::MAX),
    {
        if buffer_size.0 > usize::MAX as u64 {
            proof {
                lemma_count_none(self.free@, channels as nat, buffer_size.0 as nat);
            }
            return 0;
        }
        match self.find_queue(channels, buffer_size.0 as usize) {
            Some(i) => {
                proof {
                    lemma_count_only(self.free@, i as int, channels as nat, buffer_size.0 as nat);
                }
                self.free[i].buffers.len()
            },
            None => {
                proof {
                    lemma_count_none(self.free@, channels as nat, buffer_size.0 as nat);
                }
                0
            },
        }
    }

    /// Allocates until the arena holds at least `amount` free buffers of the
    /// given shape.
    pub fn ensure_capacity(&mut self, channels: usize, buffer_size: FrameTime, amount: usize)
        requires
            old(self).wf(),
            channels >= 1,
            buffer_size.0 * channels <= usize::MAX,
        ensures
            final(self).wf(),
            final(self).rate() == old(self).rate(),
            final(self).count(channels as nat, buffer_size.0 as nat) == if old(self).count(
                channels as nat,
                buffer_size.0 as nat,
            ) >= amount {
                old(self).count(channels as nat, buffer_size.0 as nat)
            } else {
                amount as nat
            },
            forall|c: nat, f: nat|
                !(c == channels && f == buffer_size.0) ==> #[trigger] final(self).count(c, f) == old(
                    self,
                ).count(c, f),
    {
        let mut have = self.available(channels, buffer_size);
        if have >= amount {
            return;
        }
        while have < amount
            invariant
                self.wf(),
                self.rate() == old(self).rate(),
                channels >= 1,
                buffer_size.0 * channels <= usize::MAX,
                have <= amount,
                old(self).count(channels as nat, buffer_size.0 as nat) < amount,
                self.count(channels as nat, buffer_size.0 as nat) == have,
                forall|c: nat, f: nat|
                    !(c == channels && f == buffer_size.0) ==> #[trigger] self.count(c, f) == old(
                        self,
                    ).count(c, f),
            decreases amount - have,
        {
            self.allocate_buffer(channels, buffer_size);
            have = have + 1;
        }
    }

    /// Hands out a free buffer of the given shape; `None` where there is none.
    /// Never allocates.
    pub fn take(&mut self, channels: usize, buffer_size: FrameTime) -> (r: Option<InterleavedBuffer>)
        requires
            old(self).wf(),
        ensures
            final(self).wf(),
            final(self).rate() == old(self).rate(),
            r.is_some() <==> old(self).count(channels as nat, buffer_size.0 as nat) > 0,
            r.is_some() ==> {
                let b = r.unwrap();
                &&& b.wf()
                &&& b@.channels == channels
                &&& b@.frames() == buffer_size.0
                &&& b@.is_silent()
                &&& b@.sample_rate == old(self).rate().0
                &&& final(self).total() + 1 == old(self).total()
            },
            r.is_none() ==> final(self).total() == old(self).total(),
            forall|c: nat, f: nat|
                #[trigger] final(self).count(c, f) == old(self).count(c, f) - if r.is_some() && c
                    == channels && f == buffer_size.0 {
                    1int
                } else {
                    0int
                },
    {
        if buffer_size.0 > usize::MAX as u64 {
            proof {
                lemma_count_none(self.free@, channels as nat, buffer_size.0 as nat);
            }
            return None;
        }
        let frames = buffer_size.0 as usize;
        let mut i: usize = 0;
        while i < self.free.len()
            invariant
                self.wf(),
                self.free@ == old(self).free@,
                self.sample_rate == old(self).sample_rate,
                i <= self.free@.len(),
                frames == buffer_size.0,
                forall|j: int|
                    0 <= j < i ==> !(#[trigger] self.free@[j]).holds(channels as nat, frames as nat)
                        || self.free@[j].len() == 0,
            decreases self.free@.len() - i,
        {
            if self.free[i].channels == channels && self.free[i].frames == frames
                && self.free[i].buffers.len() > 0 {
                let ghost before = self.free@;
                let ghost q_old = self.free@[i as int];
                let q = &mut self.free[i];
                let b = q.buffers.pop();
                proof {
                    let q_new = self.free@[i as int];
                    assert(self.free@ == before.update(i as int, q_new));
                    assert(q_new.buffers@ == q_old.buffers@.drop_last());
                    assert(b == Some(q_old.buffers@.last()));
                    assert(q_old.buffers@.last() == q_old.buffers@[q_old.buffers@.len() - 1]);
                    assert forall|k: int| 0 <= k < q_new.buffers@.len() implies {
                        let bb = #[trigger] q_new.buffers@[k];
                        bb.wf() && bb@.channels == q_new.channels && bb@.frames() == q_new.frames
                            && bb@.is_silent()
                    } by {
                        assert(q_new.buffers@[k] == q_old.buffers@[k]);
                    }
                    assert forall|j: int| 0 <= j < self.free@.len() implies (#[trigger] self.free@[j]).wf() by {
                        if j != i {
                            assert(self.free@[j] == before[j]);
                        }
                    }
                    assert forall|j: int| 0 <= j < self.free@.len() implies (#[trigger] self.free@[j]).rate_is(self.sample_rate.0 as nat) by {
                        if j != i {
                            assert(self.free@[j] == before[j]);
                        } else {
                            assert forall|k: int| 0 <= k < q_new.buffers@.len() implies (#[trigger] q_new.buffers@[k])@.sample_rate == self.sample_rate.0 as nat by {
                                assert(q_new.buffers@[k] == q_old.buffers@[k]);
                            }
                        }
                    }
                    assert(before[i as int].rate_is(self.sample_rate.0 as nat));
                    lemma_update_queue(before, i as int, q_new);
                    lemma_count_only(before, i as int, channels as nat, frames as nat);
                    assert forall|a: int, bb: int|
                        0 <= a < self.free@.len() && 0 <= bb < self.free@.len() && a != bb implies !(#[trigger] self.free@[a]).holds(
                            (#[trigger] self.free@[bb]).channels as nat,
                            self.free@[bb].frames as nat,
                        ) by {
                        assert(before[a].holds(before[bb].channels as nat, before[bb].frames as nat) == self.free@[a].holds(self.free@[bb].channels as nat, self.free@[bb].frames as nat));
                    }
                }
                return b;
            }
            i = i + 1;
        }
        proof {
            lemma_count_none(self.free@, channels as nat, frames as nat);
        }
        None
    }

    /// Gives a buffer back, kept by its shape. It must already be silent:
    /// releasing does not reset it, and only tags it with the arena's sample
    /// rate.
    pub fn release(&mut self, buffer: InterleavedBuffer)
        requires
            old(self).wf(),
            buffer.wf(),
            buffer@.is_silent(),
        ensures
            final(self).wf(),
            final(self).rate() == old(self).rate(),
            final(self).total() == old(self).total() + 1,
            forall|c: nat, f: nat|
                #[trigger] final(self).count(c, f) == old(self).count(c, f) + if c == buffer@.channels
                    && f == buffer@.frames() {
                    1nat
                } else {
                    0nat
                },
    {
        let mut buffer = buffer;
        buffer.set_sample_rate(self.sample_rate);
        self.push_buffer(buffer);
    }

    /// How many free buffers the arena holds in all.
    pub fn size_of_queues(&self) -> (r: usize)
        requires
            self.wf(),
        ensures
            r == self.total() || (r == usize::MAX && self.total() >= usize::MAX),
    {
        let mut sum: usize = 0;
        let mut i: usize = 0;
        while i < self.free.len()
            invariant
                i <= self.free@.len(),
                sum == total_of(self.free@.subrange(0, i as int)) || (sum == usize::MAX && total_of(
                    self.free@.subrange(0, i as int),
                ) >= usize::MAX),
            decreases self.free@.len() - i,
        {
            proof {
                assert(self.free@.subrange(0, i + 1).drop_last() == self.free@.subrange(0, i as int));
            }
            let n = self.free[i].buffers.len();
            sum = if sum > usize::MAX - n {
                usize::MAX
            } else {
                sum + n
            };
            i = i + 1;
        }
        proof {
            assert(self.free@.subrange(0, i as int) == self.free@);
        }
        sum
    }
}

proof fn lemma_update_queue(qs: Seq<BufferQueue>, i: int, q: BufferQueue)
    requires
        0 <= i < qs.len(),
        q.channels == qs[i].channels,
        q.frames == qs[i].frames,
    ensures
        total_of(qs.update(i, q)) == total_of(qs) - qs[i].len() + q.len(),
        forall|c: nat, f: nat|
            #[trigger] count_of(qs.update(i, q), c, f) == count_of(qs, c, f) - (if qs[i].holds(c, f) {
                qs[i].len() as int
            } else {
                0int
            }) + (if q.holds(c, f) {
                q.len() as int
            } else {
                0int
            }),
    decreases qs.len(),
{
    let u = qs.update(i, q);
    if i == qs.len() - 1 {
        assert(u.drop_last() == qs.drop_last());
        assert(u.last() == q);
    } else {
        assert(u.drop_last() == qs.drop_last().update(i, q));
        assert(u.last() == qs.last());
        assert(qs.drop_last()[i] == qs[i]);
        lemma_update_queue(qs.drop_last(), i, q);
    }
    assert forall|c: nat, f: nat|
        #[trigger] count_of(u, c, f) == count_of(qs, c, f) - (if qs[i].holds(c, f) {
            qs[i].len() as int
        } else {
            0int
        }) + (if q.holds(c, f) {
            q.len() as int
        } else {
            0int
        }) by {
        if i < qs.len() - 1 {
            assert(count_of(qs.drop_last().update(i, q), c, f) == count_of(qs.drop_last(), c, f) - (if qs[i].holds(c, f) {
                qs[i].len() as int
            } else {
                0int
            }) + (if q.holds(c, f) {
                q.len() as int
            } else {
                0int
            }));
        }
    }
}

proof fn lemma_count_none(qs: Seq<BufferQueue>, c: nat, f: nat)
    requires
        forall|i: int| 0 <= i < qs.len() ==> !(#[trigger] qs[i]).holds(c, f) || qs[i].len() == 0,
    ensures
        count_of(qs, c, f) == 0,
    decreases qs.len(),
{
    if qs.len() > 0 {
        assert forall|i: int| 0 <= i < qs.drop_last().len() implies !(#[trigger] qs.drop_last()[i]).holds(c, f)
            || qs.drop_last()[i].len() == 0 by {
            assert(qs.drop_last()[i] == qs[i]);
        }
        lemma_count_none(qs.drop_last(), c, f);
    }
}

proof fn lemma_count_only(qs: Seq<BufferQueue>, i: int, c: nat, f: nat)
    requires
        0 <= i < qs.len(),
        qs[i].holds(c, f),
        forall|j: int| 0 <= j < qs.len() && j != i ==> !(#[trigger] qs[j]).holds(c, f),
    ensures
        count_of(qs, c, f) == qs[i].len(),
    decreases qs.len(),
{
    if i < qs.len() - 1 {
        assert forall|j: int| 0 <= j < qs.drop_last().len() && j != i implies !(#[trigger] qs.drop_last()[j]).holds(c, f) by {
            assert(qs.drop_last()[j] == qs[j]);
        }
        assert(qs.drop_last()[i] == qs[i]);
        lemma_count_only(qs.drop_last(), i, c, f);
    } else {
        assert forall|j: int| 0 <= j < qs.drop_last().len() implies !(#[trigger] qs.drop_last()[j]).holds(c, f) || qs.drop_last()[j].len() == 0 by {
            assert(qs.drop_last()[j] == qs[j]);
        }
        lemma_count_none(qs.drop_last(), c, f);
    }
}

/// Every buffer that the arena holds is silent: released buffers come back
/// at equilibrium, and none is changed while it waits.
pub proof fn lemma_arena_silent(arena: BufferArena, i: int, k: int)
    requires
        arena.wf(),
        0 <= i < arena.contents().len(),
        0 <= k < arena.contents()[i].len(),
    ensures
        arena.contents()[i][k].is_silent(),
{
    assert(arena.free@[i].wf());
    assert(arena.contents()[i][k] == arena.free@[i].buffers@[k]@);
}

} // verus!
