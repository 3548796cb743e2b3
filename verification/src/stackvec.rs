use vstd::prelude::*;

verus! {

/// A vector of at most `N` elements stored inline.
pub struct StackVec<T, const N: usize> {
    data: [T; N],
    len: usize,
}

impl<T, const N: usize> StackVec<T, N> {
    /// The stored array.
    pub closed spec fn contents(&self) -> Seq<T> {
        self.data@
    }

    /// The length counter.
    pub closed spec fn length(&self) -> nat {
        self.len as nat
    }

    /// Writes `elem` at position `len - 1` and increments the length; the
    /// length must already be at least 1 and at most `N - 2`.
    pub fn push(&mut self, elem: T)
        requires
            N >= 1,
            1 <= old(self).length() < N - 1,
        ensures
            final(self).contents() == old(self).contents().update(old(self).length() - 1, elem),
            final(self).length() == old(self).length() + 1,
    {
        assert(self.len < N - 1);
        self.push_unchecked(elem)
    }

    /// Writes `elem` at position `len - 1` and increments the length.
    pub fn push_unchecked(&mut self, elem: T)
        requires
            1 <= old(self).length() <= N,
            old(self).length() < usize::MAX,
        ensures
            final(self).contents() == old(self).contents().update(old(self).length() - 1, elem),
            final(self).length() == old(self).length() + 1,
    {
        proof {
            assert(self.data@.len() == N);
        }
        self.data[self.len - 1] = elem;
        self.len += 1;
    }

    /// The element stored at position `index` of the array.
    pub fn index(&self, index: usize) -> (r: &T)
        requires
            index < N,
        ensures
            *r == self.contents()[index as int],
    {
        &self.data[index]
    }

    /// The capacity `N`.
    pub fn cap(&self) -> (n: usize)
        ensures
            n == N,
    {
        N
    }
}

} // verus!
