//! A phantom-typed wrapper around the arena handle, so that handles for
//! logically distinct entity kinds cannot be mixed up at compile time.

use vstd::prelude::*;
use crate::Arena;
use crate::Index;
use crate::grow_amount;

verus! {

/// An arena handle carrying a phantom type tag: a `TypedIndex<A>` and a
/// `TypedIndex<B>` are different types even though both wrap the same
/// kind of raw handle.
pub struct TypedIndex<T> {
    inner: Index,
    ph: core::marker::PhantomData<T>,
}

impl<T> TypedIndex<T> {
    /// The raw handle behind this typed handle.
    pub closed spec fn inner_spec(&self) -> Index {
        self.inner
    }

    /// The typed handle wrapping a raw handle.
    pub closed spec fn wrap_spec(inner: Index) -> Self {
        TypedIndex { inner, ph: core::marker::PhantomData }
    }

    /// A typed handle is nothing but its raw handle: two typed handles
    /// with the same raw handle are the same handle.
    pub proof fn lemma_wrap_spec(inner: Index, t: Self)
        ensures
            Self::wrap_spec(inner).inner_spec() == inner,
            t.inner_spec() == inner ==> t == Self::wrap_spec(inner),
    {
    }

    /// Create a typed handle from its raw parts.
    pub fn from_raw_parts(a: usize, b: u64) -> (r: Self)
        ensures
            r.inner_spec() == (Index { index: a, generation: b }),
    {
        Self::new(Index::from_raw_parts(a, b))
    }

    /// Convert this typed handle into its raw parts.
    pub fn into_raw_parts(self) -> (r: (usize, u64))
        ensures
            r == (self.inner_spec().index, self.inner_spec().generation),
    {
        self.inner.into_raw_parts()
    }

    /// Wrap a raw handle.
    pub fn new(inner: Index) -> (r: Self)
        ensures
            r.inner_spec() == inner,
            r == Self::wrap_spec(inner),
    {
        Self { inner, ph: core::marker::PhantomData }
    }

    /// The slot position of this handle.
    pub fn index(&self) -> (r: usize)
        ensures
            r == self.inner_spec().index,
    {
        self.inner.index
    }

    /// The generation stamp of this handle.
    pub fn generation(&self) -> (r: u64)
        ensures
            r == self.inner_spec().generation,
    {
        self.inner.generation
    }

    /// The raw handle behind this typed handle.
    pub fn inner(&self) -> (r: Index)
        ensures
            r == self.inner_spec(),
    {
        self.inner
    }
}

impl<T> Clone for TypedIndex<T> {
    /// A typed handle copies field for field.
    fn clone(&self) -> (r: Self)
        ensures
            r.inner_spec() == self.inner_spec(),
    {
        Self { inner: self.inner, ph: core::marker::PhantomData }
    }
}

impl<T> Copy for TypedIndex<T> {

}

impl<T> PartialEq for TypedIndex<T> {
    fn eq(&self, other: &Self) -> (r: bool) {
        self.inner == other.inner
    }
}

impl<T> vstd::std_specs::cmp::PartialEqSpecImpl for TypedIndex<T> {
    open spec fn obeys_eq_spec() -> bool {
        true
    }

    closed spec fn eq_spec(&self, other: &Self) -> bool {
        self.inner == other.inner
    }
}

impl<T> Eq for TypedIndex<T> {

}

impl<T> From<Index> for TypedIndex<T> {
    fn from(a: Index) -> (r: Self) {
        Self::new(a)
    }
}

impl<T> vstd::std_specs::convert::FromSpecImpl<Index> for TypedIndex<T> {
    open spec fn obeys_from_spec() -> bool {
        true
    }

    closed spec fn from_spec(a: Index) -> Self {
        TypedIndex::wrap_spec(a)
    }
}

impl<T> Arena<T> {
    /// Insert `value`, handing back a typed handle for it; allocates
    /// more capacity if necessary.
    pub fn typed_insert(&mut self, value: T) -> (r: TypedIndex<T>)
        requires
            old(self).wf(),
            old(self).free_list().len() > 0 || old(self).slots().len() + grow_amount(
                old(self).slots().len(),
            ) <= usize::MAX,
        ensures
            final(self).wf(),
            final(self).current_generation() == old(self).current_generation(),
            r.inner_spec().generation == old(self).current_generation(),
            final(self).valid(r.inner_spec()),
            final(self).value_of(r.inner_spec()) == value,
            final(self).len_spec() == old(self).len_spec() + 1,
            Arena::<T>::preserves_valid(*old(self), *final(self)),
            Arena::<T>::preserves_lost(*old(self), *final(self)),
    {
        TypedIndex::new(self.insert(value))
    }

    /// Insert the value returned by `create`, which receives its own
    /// typed handle; allocates more capacity if necessary.
    pub fn typed_insert_with<F: FnOnce(TypedIndex<T>) -> T>(&mut self, create: F) -> (r:
        TypedIndex<T>)
        requires
            old(self).wf(),
            forall|h: TypedIndex<T>| call_requires(create, (h,)),
            old(self).free_list().len() > 0 || old(self).slots().len() + grow_amount(
                old(self).slots().len(),
            ) <= usize::MAX,
        ensures
            final(self).wf(),
            final(self).current_generation() == old(self).current_generation(),
            r.inner_spec().generation == old(self).current_generation(),
            final(self).valid(r.inner_spec()),
            final(self).len_spec() == old(self).len_spec() + 1,
            Arena::<T>::preserves_valid(*old(self), *final(self)),
            Arena::<T>::preserves_lost(*old(self), *final(self)),
            call_ensures(
                create,
                (TypedIndex::<T>::wrap_spec(r.inner_spec()),),
                final(self).value_of(r.inner_spec()),
            ),
    {
        let wrapped = |index: Index| -> (out: T)
            requires
                forall|h: TypedIndex<T>| call_requires(create, (h,)),
            ensures
                call_ensures(create, (TypedIndex::<T>::wrap_spec(index),), out),
            {
                let typed = TypedIndex::<T>::new(index);
                proof {
                    TypedIndex::<T>::lemma_wrap_spec(index, typed);
                }
                create(typed)
            };
        let raw = self.insert_with(wrapped);
        TypedIndex::new(raw)
    }

    /// Remove the element behind a typed handle; returns the value if
    /// and only if the handle is currently valid.
    pub fn typed_remove(&mut self, index: TypedIndex<T>) -> (r: Option<T>)
        requires
            old(self).wf(),
            old(self).valid(index.inner_spec()) ==> old(self).current_generation() < u64::MAX,
        ensures
            final(self).wf(),
            r is Some <==> old(self).valid(index.inner_spec()),
            r is Some ==> r == Some(old(self).value_of(index.inner_spec())) && final(self).lost(
                index.inner_spec(),
            ),
            !old(self).valid(index.inner_spec()) ==> *final(self) == *old(self),
            Arena::<T>::preserves_lost(*old(self), *final(self)),
    {
        self.remove(index.inner())
    }
}

} // verus!
