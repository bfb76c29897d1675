//! A window into a buffer that grows without copying.

use vstd::prelude::*;

verus! {

/// A run of elements of a borrowed buffer, kept as the buffer, the place
/// where the run starts, and its length.
pub struct VarSlice<'a, T> {
    source: &'a [T],
    offset: usize,
    len: usize,
}

impl<'a, T> VarSlice<'a, T> {
    /// The buffer that the run lies in.
    pub closed spec fn source(&self) -> Seq<T> {
        self.source@
    }

    /// Where the run starts.
    pub closed spec fn offset(&self) -> nat {
        self.offset as nat
    }

    /// How many elements the run has.
    pub closed spec fn spec_len(&self) -> nat {
        self.len as nat
    }

    /// Whether the run lies within its buffer.
    pub open spec fn in_bounds(&self) -> bool {
        self.offset() + self.spec_len() <= self.source().len()
    }

    /// The elements of the run.
    pub open spec fn view(&self) -> Seq<T>
        recommends
            self.in_bounds(),
    {
        self.source().subrange(self.offset() as int, (self.offset() + self.spec_len()) as int)
    }

    /// A run of one element, at `offset` in `source`.
    pub fn new(source: &'a [T], offset: usize) -> (r: Self)
        ensures
            r.source() == source@,
            r.offset() == offset,
            r.spec_len() == 1,
    {
        Self { source, offset, len: 1 }
    }

    /// The run as a slice of its buffer.
    pub fn into_slice(self) -> (r: &'a [T])
        requires
            self.in_bounds(),
        ensures
            r@ == self@,
    {
        let total = self.source.len();
        assert(self.offset + self.len <= total);
        vstd::slice::slice_subrange(self.source, self.offset, self.offset + self.len)
    }

    /// How many elements the run has.
    pub fn len(&self) -> (r: usize)
        ensures
            r == self.spec_len(),
    {
        self.len
    }

    /// Lengthens the run by `delta` elements.
    pub fn expand(&mut self, delta: usize)
        requires
            old(self).spec_len() + delta <= usize::MAX,
        ensures
            final(self).source() == old(self).source(),
            final(self).offset() == old(self).offset(),
            final(self).spec_len() == old(self).spec_len() + delta,
    {
        self.len += delta;
    }
}

} // verus!
