//! The typed counterpart of the exclusive-reference iterator.

use vstd::prelude::*;
use crate::IterMut;
use crate::Index;
use crate::typed_index::TypedIndex;

verus! {

/// An iterator over exclusive references to the elements of an arena,
/// yielding typed-handle/reference pairs front to back or back to front.
pub struct TypedIterMut<'a, T> {
    pub(crate) inner: IterMut<'a, T>,
}

impl<'a, T> TypedIterMut<'a, T> {
    /// The raw-handle/value pairs not yet handed out, in storage order.
    pub closed spec fn remaining(&self) -> Seq<(Index, T)> {
        self.inner.remaining()
    }

    /// The wrapped iterator is well formed.
    pub closed spec fn wf(&self) -> bool {
        self.inner.wf()
    }

    /// Wrap the raw exclusive-reference iterator.
    pub(crate) fn wrap(inner: IterMut<'a, T>) -> (r: Self)
        ensures
            r.remaining() == inner.remaining(),
            inner.wf() ==> r.wf(),
    {
        TypedIterMut { inner }
    }

    /// How many pairs are left.
    pub fn len(&self) -> (r: usize)
        requires
            self.wf(),
        ensures
            r == self.remaining().len(),
    {
        self.inner.len()
    }

    /// The exact number of remaining pairs, as a lower and upper bound.
    pub fn size_hint(&self) -> (r: (usize, Option<usize>))
        requires
            self.wf(),
        ensures
            r.0 == self.remaining().len(),
            r.1 == Some(r.0),
    {
        self.inner.size_hint()
    }

    /// The next typed-handle/reference pair from the front, or `None`
    /// once no pair is left (and forever after).
    pub fn next(&mut self) -> (r: Option<(TypedIndex<T>, &mut T)>)
        requires
            old(self).wf(),
        ensures
            r is Some <==> old(self).remaining().len() > 0,
            r is Some ==> (r.unwrap().0.inner_spec(), *r.unwrap().1) == old(self).remaining()[0],
            r is Some ==> final(self).remaining() == old(self).remaining().drop_first(),
            r is Some ==> final(self).wf(),
            r is None ==> final(self).remaining() == old(self).remaining() && final(self).wf(),
    {
        match self.inner.next() {
            Some((idx, el)) => Some((TypedIndex::new(idx), el)),
            None => None,
        }
    }

    /// The next typed-handle/reference pair from the back, or `None`
    /// once no pair is left (and forever after).
    pub fn next_back(&mut self) -> (r: Option<(TypedIndex<T>, &mut T)>)
        requires
            old(self).wf(),
        ensures
            r is Some <==> old(self).remaining().len() > 0,
            r is Some ==> (r.unwrap().0.inner_spec(), *r.unwrap().1) == old(self).remaining().last(),
            r is Some ==> final(self).remaining() == old(self).remaining().drop_last(),
            r is Some ==> final(self).wf(),
            r is None ==> final(self).remaining() == old(self).remaining() && final(self).wf(),
    {
        match self.inner.next_back() {
            Some((idx, el)) => Some((TypedIndex::new(idx), el)),
            None => None,
        }
    }
}

} // verus!
