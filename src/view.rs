use vstd::prelude::*;
use vstd::view::View as ModelView;

verus! {

/// The index map `i ↦ i * stride + offset`, one to one whenever `stride` is
/// not zero.
#[derive(Clone, Copy, Debug, PartialEq, Eq, Structural)]
pub struct InjectiveFn {
    pub stride: usize,
    pub offset: usize,
}

impl InjectiveFn {
    pub open spec fn spec_call(self, index: int) -> int {
        index * self.stride + self.offset
    }

    /// The mapped index; `None` where it does not fit in `usize`.
    pub fn call(&self, index: usize) -> (r: Option<usize>)
        ensures
            r.is_some() <==> self.spec_call(index as int) <= usize::MAX,
            r.is_some() ==> r.unwrap() == self.spec_call(index as int),
    {
        proof {
            assert(index as int * self.stride as int <= usize::MAX as int * usize::MAX as int) by (nonlinear_arith)
                requires
                    index <= usize::MAX,
                    self.stride <= usize::MAX,
            ;
        }
        let wide = index as u128 * self.stride as u128 + self.offset as u128;
        if wide <= usize::MAX as u128 {
            Some(wide as usize)
        } else {
            None
        }
    }
}

/// A read-only view of samples through an index map; a channel of an
/// interleaved buffer is the view with the channel count as stride and the
/// channel as offset.
pub struct View<'a> {
    data: &'a Vec<i32>,
    mapper: InjectiveFn,
}

impl<'a> View<'a> {
    pub closed spec fn spec_data(&self) -> Seq<i32> {
        self.data@
    }

    pub closed spec fn spec_mapper(&self) -> InjectiveFn {
        self.mapper
    }

    pub fn new(data: &'a Vec<i32>, mapper: InjectiveFn) -> (r: View<'a>)
        ensures
            r.spec_data() == data@,
            r.spec_mapper() == mapper,
    {
        View { data, mapper }
    }

    /// The view of one channel of interleaved data.
    pub fn with_stride(data: &'a Vec<i32>, num_channels: usize, channel_index: usize) -> (r: View<'a>)
        ensures
            r.spec_data() == data@,
            r.spec_mapper() == (InjectiveFn { stride: num_channels, offset: channel_index }),
    {
        View { data, mapper: InjectiveFn { stride: num_channels, offset: channel_index } }
    }

    /// The sample that `index` maps to, or `None` where that lies outside
    /// the data.
    pub fn get(&self, index: usize) -> (r: Option<&i32>)
        ensures
            r.is_some() <==> self.spec_mapper().spec_call(index as int) < self.spec_data().len(),
            r.is_some() ==> *r.unwrap() == self.spec_data()[self.spec_mapper().spec_call(index as int)],
    {
        let n = self.data.len();
        match self.mapper.call(index) {
            Some(i) => {
                if i < n {
                    Some(&self.data[i])
                } else {
                    None
                }
            },
            None => None,
        }
    }
}

/// `len` samples, `stride` apart, from position `start` of the data.
pub struct StridedSlice<'a> {
    data: &'a Vec<i32>,
    start: usize,
    len: usize,
    stride: usize,
}

/// The samples of a strided slice in order.
pub open spec fn strided(data: Seq<i32>, start: int, len: int, stride: int) -> Seq<i32> {
    Seq::new(len as nat, |i: int| data[start + i * stride])
}

impl<'a> StridedSlice<'a> {
    /// The samples the slice reads, in order.
    pub closed spec fn spec_samples(&self) -> Seq<i32> {
        strided(self.data@, self.start as int, self.len as int, self.stride as int)
    }

    /// Every position the slice reads lies inside the data.
    pub closed spec fn wf(&self) -> bool {
        self.len == 0 || self.start + (self.len - 1) * self.stride < self.data@.len()
    }

    /// A slice of the given shape; `None` where its last sample would lie
    /// outside the data.
    pub fn new(data: &'a Vec<i32>, start: usize, len: usize, stride: usize) -> (r: Option<StridedSlice<'a>>)
        ensures
            r.is_some() <==> (len == 0 || start + (len - 1) * stride < data@.len()),
            r.is_some() ==> r.unwrap().wf() && r.unwrap().spec_samples() == strided(
                data@,
                start as int,
                len as int,
                stride as int,
            ),
    {
        if len == 0 {
            return Some(StridedSlice { data, start, len, stride });
        }
        proof {
            assert((len - 1) as int * stride as int <= usize::MAX as int * usize::MAX as int) by (nonlinear_arith)
                requires
                    len - 1 <= usize::MAX,
                    stride <= usize::MAX,
            ;
        }
        let last = (len - 1) as u128 * stride as u128 + start as u128;
        if last < data.len() as u128 {
            Some(StridedSlice { data, start, len, stride })
        } else {
            None
        }
    }

    pub fn len(&self) -> (r: usize)
        ensures
            r == self.spec_samples().len(),
    {
        self.len
    }

    pub fn get(&self, index: usize) -> (r: Option<&i32>)
        requires
            self.wf(),
        ensures
            r.is_some() <==> index < self.spec_samples().len(),
            r.is_some() ==> *r.unwrap() == self.spec_samples()[index as int],
    {
        let n = self.data.len();
        if index < self.len {
            proof {
                assert(index * self.stride <= (self.len - 1) * self.stride) by (nonlinear_arith)
                    requires
                        index < self.len,
                ;
                assert(self.start + (self.len - 1) * self.stride < n);
            }
            Some(&self.data[self.start + index * self.stride])
        } else {
            None
        }
    }

    /// Walks the samples of the slice from the first.
    pub fn iter(&self) -> (r: StridedIter<'a>)
        requires
            self.wf(),
        ensures
            r.wf(),
            r.remaining() == self.spec_samples(),
    {
        StridedIter { slice: StridedSlice { data: self.data, start: self.start, len: self.len, stride: self.stride }, index: 0 }
    }
}

/// A walk over the samples of a strided slice.
pub struct StridedIter<'a> {
    slice: StridedSlice<'a>,
    index: usize,
}

impl<'a> StridedIter<'a> {
    pub closed spec fn wf(&self) -> bool {
        self.slice.wf() && self.index <= self.slice.len
    }

    /// The samples not yet handed out.
    pub closed spec fn remaining(&self) -> Seq<i32> {
        self.slice.spec_samples().subrange(self.index as int, self.slice.len as int)
    }

    /// The next sample, or `None` at the end.
    pub fn next(&mut self) -> (r: Option<i32>)
        requires
            old(self).wf(),
        ensures
            final(self).wf(),
            old(self).remaining().len() == 0 ==> r.is_none() && final(self).remaining().len() == 0,
            old(self).remaining().len() > 0 ==> r == Some(old(self).remaining()[0])
                && final(self).remaining() == old(self).remaining().drop_first(),
    {
        if self.index < self.slice.len {
            let v = *self.slice.get(self.index).unwrap();
            self.index = self.index + 1;
            proof {
                assert(self.remaining() =~= old(self).remaining().drop_first());
            }
            Some(v)
        } else {
            None
        }
    }
}

} // verus!
