use std::sync::Arc;
use vstd::prelude::*;
use vstd::slice::slice_subrange;

verus! {

/// Capacity reserved for a freshly made packet buffer.
pub const BUFF_CAPACITY: usize = 2048;

/// A *mutable* buffer sized for packet payloads.
#[derive(Clone, Debug)]
pub struct BuffMut {
    inner: Vec<u8>,
}

impl View for BuffMut {
    type V = Seq<u8>;

    closed spec fn view(&self) -> Seq<u8> {
        self.inner@
    }
}

impl BuffMut {
    /// Creates a new, empty buffer.
    pub fn new() -> (r: Self)
        ensures
            r@ == Seq::<u8>::empty(),
    {
        BuffMut { inner: Vec::with_capacity(BUFF_CAPACITY) }
    }

    /// Freezes the buffer into an immutable, shareable [`Buff`].
    pub fn freeze(self) -> (r: Buff)
        ensures
            r@ == self@,
    {
        let len = self.inner.len();
        Buff { frozen: Arc::new(self.inner), start: 0, end: len }
    }

    /// Makes a buffer holding a copy of `other`.
    pub fn copy_from_slice(other: &[u8]) -> (r: Self)
        ensures
            r@ == other@,
    {
        let mut m = Self::new();
        m.extend_from_slice(other);
        m
    }

    /// Number of bytes held.
    pub fn len(&self) -> (r: usize)
        ensures
            r == self@.len(),
    {
        self.inner.len()
    }

    /// The bytes held.
    pub fn as_slice(&self) -> (r: &[u8])
        ensures
            r@ == self@,
    {
        self.inner.as_slice()
    }

    /// Appends the bytes of `other`.
    pub fn extend_from_slice(&mut self, other: &[u8])
        ensures
            final(self)@ == old(self)@ + other@,
    {
        self.inner.extend_from_slice(other);
    }

    /// Appends one byte.
    pub fn push(&mut self, b: u8)
        ensures
            final(self)@ == old(self)@.push(b),
    {
        self.inner.push(b);
    }
}

/// An *immutable* buffer: a shared allocation and the window of it that this handle sees.
/// Slicing shares the allocation and copies nothing.
#[derive(Debug)]
pub struct Buff {
    frozen: Arc<Vec<u8>>,
    start: usize,
    end: usize,
}

impl View for Buff {
    type V = Seq<u8>;

    closed spec fn view(&self) -> Seq<u8> {
        self.frozen@.subrange(self.start as int, self.end as int)
    }
}

/// Relies on `Arc::clone`: the new handle points at the same allocation.
#[verifier::external_body]
fn share_alloc(a: &Arc<Vec<u8>>) -> (r: Arc<Vec<u8>>)
    ensures
        *r == **a,
{
    Arc::clone(a)
}

impl Clone for Buff {
    /// Another handle onto the same bytes; nothing is copied.
    fn clone(&self) -> (r: Self)
        ensures
            r@ == self@,
    {
        proof {
            use_type_invariant(self);
        }
        Buff { frozen: share_alloc(&self.frozen), start: self.start, end: self.end }
    }
}

impl Buff {
    #[verifier::type_invariant]
    spec fn inv(&self) -> bool {
        self.start <= self.end <= self.frozen@.len()
    }

    /// Creates a new, empty buffer.
    pub fn new() -> (r: Self)
        ensures
            r@ == Seq::<u8>::empty(),
    {
        BuffMut::new().freeze()
    }

    /// Creates a buffer holding a copy of `other`.
    pub fn copy_from_slice(other: &[u8]) -> (r: Self)
        ensures
            r@ == other@,
    {
        BuffMut::copy_from_slice(other).freeze()
    }

    /// Number of bytes seen through this handle.
    pub fn len(&self) -> (r: usize)
        ensures
            r == self@.len(),
    {
        proof {
            use_type_invariant(self);
        }
        self.end - self.start
    }

    /// The bytes seen through this handle.
    pub fn as_slice(&self) -> (r: &[u8])
        ensures
            r@ == self@,
    {
        proof {
            use_type_invariant(self);
        }
        slice_subrange(self.frozen.as_slice(), self.start, self.end)
    }

    /// Narrows the handle to the bytes `start..end` of what it sees, sharing the allocation.
    pub fn slice(self, start: usize, end: usize) -> (r: Self)
        requires
            start <= end <= self@.len(),
        ensures
            r@ == self@.subrange(start as int, end as int),
    {
        proof {
            use_type_invariant(&self);
        }
        let r = Buff { frozen: self.frozen, start: self.start + start, end: self.start + end };
        assert(r@ =~= self@.subrange(start as int, end as int));
        r
    }
}

} // verus!
