//! Buffers that start on a cache line.

use vstd::prelude::*;

verus! {

/// The cache line that every weight table starts on.
pub const CACHE_LINE: usize = 64;

/// A buffer whose first element sits on a cache-line boundary: one spare line of elements is
/// allocated, and what is seen starts at the first aligned one.
///
/// The buffer is sized once and never grown, since that would move its base.
#[derive(Debug)]
pub struct Aligned<T> {
    buf: Vec<T>,
    off: usize,
    len: usize,
}

/// The address of a vector's first element, by `Vec::as_ptr`.
///
/// Where a vector lies is the machine's affair: nothing is said of the result.
#[verifier::external_body]
fn base_address<T>(v: &Vec<T>) -> (r: usize) {
    v.as_ptr() as usize
}

/// The first element of a cache line, counted in elements of `stride` bytes from `base`.
pub fn first_aligned(base: usize, stride: usize) -> (r: usize)
    requires
        stride > 0,
    ensures
        r == (if base % CACHE_LINE == 0 {
            0int
        } else {
            (CACHE_LINE - base % CACHE_LINE) / (stride as int)
        }),
        r <= CACHE_LINE / stride,
        stride <= CACHE_LINE && base % stride == 0 && CACHE_LINE % stride == 0 ==> (base + r * stride)
            % (CACHE_LINE as int) == 0,
{
    let misalign = base % CACHE_LINE;
    if misalign == 0 {
        assert(0 <= (64int / stride as int)) by (nonlinear_arith)
            requires
                stride > 0,
        ;
        0
    } else {
        proof {
            lemma_first_aligned(base as int, stride as int);
        }
        (CACHE_LINE - misalign) / stride
    }
}

proof fn lemma_first_aligned(base: int, stride: int)
    requires
        base >= 0,
        stride > 0,
        base % 64 != 0,
    ensures
        0 <= (64 - base % 64) / stride <= 64int / stride,
        stride <= 64 && base % stride == 0 && 64int % stride == 0 ==> (base + ((64 - base % 64)
            / stride) * stride) % 64 == 0,
{
    let gap = 64 - base % 64;
    assert(0 <= gap / stride <= 64int / stride) by (nonlinear_arith)
        requires
            0 <= gap <= 64,
            stride > 0,
    ;
    if stride <= 64 && base % stride == 0 && 64int % stride == 0 {
        let q = base / 64;
        let lines = 64int / stride;
        let whole = base / stride;
        assert(base == 64 * q + base % 64);
        assert(64 == stride * lines) by (nonlinear_arith)
            requires
                64int % stride == 0,
                lines == 64int / stride,
                stride > 0,
        ;
        assert(base == stride * whole) by (nonlinear_arith)
            requires
                base % stride == 0,
                whole == base / stride,
                stride > 0,
        ;
        let k = lines * (q + 1) - whole;
        assert(gap == stride * k) by (nonlinear_arith)
            requires
                gap == 64 * (q + 1) - base,
                64 == stride * lines,
                base == stride * whole,
                k == lines * (q + 1) - whole,
        ;
        assert(gap / stride == k) by (nonlinear_arith)
            requires
                gap == stride * k,
                stride > 0,
        ;
        assert((gap / stride) * stride == gap) by (nonlinear_arith)
            requires
                gap == stride * k,
                gap / stride == k,
        ;
    }
}

impl<T> View for Aligned<T> {
    type V = Seq<T>;

    closed spec fn view(&self) -> Seq<T> {
        self.buf@.subrange(self.off as int, self.off + self.len)
    }
}

impl<T> Aligned<T> {
    /// What is seen lies within the buffer, and there is room to align it anew.
    pub closed spec fn wf(&self) -> bool {
        &&& self.off + self.len <= self.buf@.len() <= usize::MAX
        &&& self.len + CACHE_LINE <= usize::MAX
        &&& vstd::layout::size_of::<T>() > 0
    }
}

impl<T: Copy + Default> Aligned<T> {
    /// `len` default values, the first on a cache-line boundary.
    pub fn new(len: usize) -> (r: Aligned<T>)
        requires
            vstd::layout::size_of::<T>() > 0,
            len + CACHE_LINE <= usize::MAX,
        ensures
            r.wf(),
            r@.len() == len,
            forall|i: int| 0 <= i < len ==> call_ensures(T::default, (), #[trigger] r@[i]),
    {
        let stride = core::mem::size_of::<T>();
        let spare = CACHE_LINE / stride;
        assert(spare <= 64) by (nonlinear_arith)
            requires
                stride > 0,
                spare == 64usize / stride,
        ;
        let value = T::default();
        let mut buf: Vec<T> = Vec::new();
        let mut i: usize = 0;
        while i < len + spare
            invariant
                i <= len + spare,
                len + spare <= usize::MAX,
                buf@.len() == i,
                call_ensures(T::default, (), value),
                forall|k: int| 0 <= k < i ==> call_ensures(T::default, (), #[trigger] buf@[k]),
            decreases len + spare - i,
        {
            buf.push(value);
            i += 1;
        }
        let off = first_aligned(base_address(&buf), stride);
        Aligned { buf, off, len }
    }

    /// How many elements there are.
    pub fn len(&self) -> (r: usize)
        requires
            self.wf(),
        ensures
            r == self@.len(),
    {
        self.len
    }

    /// Whether there is none.
    pub fn is_empty(&self) -> (r: bool)
        requires
            self.wf(),
        ensures
            r == (self@.len() == 0),
    {
        self.len == 0
    }

    /// A copy of a slice, aligned.
    pub fn from_slice(src: &[T]) -> (r: Aligned<T>)
        requires
            vstd::layout::size_of::<T>() > 0,
            src@.len() + CACHE_LINE <= usize::MAX,
        ensures
            r.wf(),
            r@ == src@,
    {
        let mut out: Aligned<T> = Aligned::new(src.len());
        let slots = out.as_mut_slice();
        let mut i: usize = 0;
        while i < src.len()
            invariant
                i <= src@.len(),
                slots@.len() == src@.len(),
                forall|k: int| 0 <= k < i ==> #[trigger] slots@[k] == src@[k],
                final(slots)@.len() == src@.len() ==> after_borrow(out).wf() && after_borrow(out)@ == final(slots)@,
            decreases src@.len() - i,
        {
            slots[i] = src[i];
            i += 1;
        }
        assert(slots@ =~= src@);
        out
    }

    /// The aligned elements, and only those.
    pub fn as_slice(&self) -> (r: &[T])
        requires
            self.wf(),
        ensures
            r@ == self@,
    {
        vstd::slice::slice_subrange(self.buf.as_slice(), self.off, self.off + self.len)
    }

    /// The aligned elements, to be changed.
    pub fn as_mut_slice(&mut self) -> (r: &mut [T])
        requires
            old(self).wf(),
        ensures
            r@ == old(self)@,
            final(r)@.len() == r@.len() ==> final(self).wf() && final(self)@ == final(r)@,
    {
        let (_, rest) = self.buf.as_mut_slice().split_at_mut(self.off);
        let (seen, _) = rest.split_at_mut(self.len);
        seen
    }

    /// A copy that is aligned anew: it has a base of its own.
    pub fn clone(&self) -> (r: Aligned<T>)
        requires
            self.wf(),
        ensures
            r.wf(),
            r@ == self@,
    {
        Aligned::from_slice(self.as_slice())
    }
}

} // verus!
