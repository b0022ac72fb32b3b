//! The decoder's output container: a growable buffer supporting appends and
//! DEFLATE's sliding-window back-reference copies.

use vstd::prelude::*;

verus! {

/// A growable buffer of elements.  The decoder appends decoded bytes to one
/// of these and resolves back-references against its own earlier contents.
///
/// Constructors report allocation failure through `Option`, which the safe
/// backing store never actually produces.
pub struct CVec<T> {
    vec: Vec<T>,
}

impl<T> View for CVec<T> {
    type V = Seq<T>;

    closed spec fn view(&self) -> Seq<T> {
        self.vec@
    }
}

impl<T> CVec<T> {
    /// A fresh, empty buffer.
    pub fn new() -> (r: Option<CVec<T>>)
        ensures
            r matches Some(v) && v@ == Seq::<T>::empty(),
    {
        Some(CVec { vec: Vec::new() })
    }

    /// A fresh, empty buffer with room reserved for `capacity` elements.
    /// The capacity is advisory; the contents start empty either way.
    pub fn with_capacity(capacity: usize) -> (r: Option<CVec<T>>)
        ensures
            r matches Some(v) && v@ == Seq::<T>::empty(),
    {
        Some(CVec { vec: Vec::with_capacity(capacity) })
    }

    /// The number of elements currently held.
    pub fn len(&self) -> (r: usize)
        ensures
            r == self@.len(),
    {
        self.vec.len()
    }

    /// Append one element at the end.
    pub fn push(&mut self, value: T) -> (r: Option<()>)
        ensures
            r is Some,
            final(self)@ == old(self)@.push(value),
    {
        self.vec.push(value);
        Some(())
    }

    /// Remove and return the last element, if any.
    pub fn pop(&mut self) -> (r: Option<T>)
        ensures
            old(self)@.len() == 0 ==> r is None && final(self)@ == old(self)@,
            old(self)@.len() > 0 ==> (r matches Some(v) && v == old(self)@.last()
                && final(self)@ == old(self)@.drop_last()),
    {
        if self.vec.len() == 0 {
            None
        } else {
            Some(self.vec.pop().unwrap())
        }
    }

    /// Read access to the contents as a slice.
    pub fn as_slice(&self) -> (r: &[T])
        ensures
            r@ == self@,
    {
        self.vec.as_slice()
    }
}

impl<T: Copy> CVec<T> {
    /// The element at position `i`.
    pub fn get(&self, i: usize) -> (r: T)
        requires
            i < self@.len(),
        ensures
            r == self@[i as int],
    {
        self.vec[i]
    }
}

/// The contents after a back-reference copy: `n` more bytes, each read
/// `d` positions behind the end at the moment it is appended.
pub open spec fn spec_copy_back(out: Seq<u8>, d: int, n: int) -> Seq<u8>
    recommends
        1 <= d <= out.len(),
    decreases n,
{
    if n <= 0 {
        out
    } else {
        spec_copy_back(out.push(out[out.len() - d]), d, n - 1)
    }
}

impl CVec<u8> {
    /// Resolve a DEFLATE back-reference: produce `length` additional bytes,
    /// the i-th of which equals the byte `distance` positions before it at
    /// the moment it is generated.  The copy is byte by byte, never a block
    /// copy, so `length > distance` re-reads bytes this call itself produced
    /// (the run-length case).
    pub fn copy_back_pointer(&mut self, distance: usize, length: usize)
        requires
            1 <= distance <= old(self)@.len(),
        ensures
            final(self)@ == spec_copy_back(old(self)@, distance as int, length as int),
            final(self)@.len() == old(self)@.len() + length,
            forall|j: int| 0 <= j < old(self)@.len() ==> final(self)@[j] == old(self)@[j],
            forall|j: int|
                old(self)@.len() <= j < final(self)@.len()
                    ==> #[trigger] final(self)@[j] == final(self)@[j - distance],
    {
        let mut i: usize = 0;
        while i < length
            invariant
                1 <= distance <= old(self)@.len(),
                i <= length,
                self@.len() == old(self)@.len() + i,
                spec_copy_back(old(self)@, distance as int, length as int) == spec_copy_back(
                    self@,
                    distance as int,
                    length - i,
                ),
                forall|j: int| 0 <= j < old(self)@.len() ==> self@[j] == old(self)@[j],
                forall|j: int|
                    old(self)@.len() <= j < self@.len() ==> #[trigger] self@[j] == self@[j
                        - distance],
            decreases length - i,
        {
            let b = self.vec[self.vec.len() - distance];
            self.vec.push(b);
            i += 1;
        }
    }
}

} // verus!
