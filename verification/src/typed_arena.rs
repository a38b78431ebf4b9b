//! An arena whose handles carry the element type as a phantom tag.

use vstd::prelude::*;
use crate::Arena;
use crate::Entry;
use crate::Index;
use crate::Iter;
use crate::grow_amount;
use crate::occupied_items;
use crate::typed_index::TypedIndex;
use crate::typed_iter_mut::TypedIterMut;

verus! {

/// An arena that hands out `TypedIndex<T>` handles instead of bare
/// `Index` handles; otherwise it behaves exactly like `Arena<T>`.
pub struct TypedArena<T> {
    inner: Arena<T>,
}

/// An iterator over shared references to the elements of a typed arena,
/// yielding typed-handle/reference pairs front to back or back to front.
pub struct TypedIter<'a, T> {
    inner: Iter<'a, T>,
}

impl<'a, T> TypedIter<'a, T> {
    /// The raw-handle/value pairs not yet handed out, in storage order.
    pub closed spec fn remaining(&self) -> Seq<(Index, T)> {
        self.inner.remaining()
    }

    /// The wrapped iterator is well formed.
    pub closed spec fn wf(&self) -> bool {
        self.inner.wf()
    }

    /// How many pairs are left.
    pub fn len(&self) -> (r: usize)
        requires
            self.wf(),
        ensures
            r == self.remaining().len(),
    {
        self.inner.len()
    }

    /// The exact number of remaining pairs, as a lower and upper bound.
    pub fn size_hint(&self) -> (r: (usize, Option<usize>))
        requires
            self.wf(),
        ensures
            r.0 == self.remaining().len(),
            r.1 == Some(r.0),
    {
        self.inner.size_hint()
    }

    /// The next typed-handle/reference pair from the front, or `None`
    /// once no pair is left (and forever after).
    pub fn next(&mut self) -> (r: Option<(TypedIndex<T>, &'a T)>)
        requires
            old(self).wf(),
        ensures
            final(self).wf(),
            r is Some <==> old(self).remaining().len() > 0,
            r is None ==> final(self).remaining() == old(self).remaining(),
            r is Some ==> (r.unwrap().0.inner_spec(), *r.unwrap().1) == old(self).remaining()[0]
                && final(self).remaining() == old(self).remaining().drop_first(),
    {
        match self.inner.next() {
            Some((idx, el)) => Some((TypedIndex::new(idx), el)),
            None => None,
        }
    }

    /// The next typed-handle/reference pair from the back, or `None`
    /// once no pair is left (and forever after).
    pub fn next_back(&mut self) -> (r: Option<(TypedIndex<T>, &'a T)>)
        requires
            old(self).wf(),
        ensures
            final(self).wf(),
            r is Some <==> old(self).remaining().len() > 0,
            r is None ==> final(self).remaining() == old(self).remaining(),
            r is Some ==> (r.unwrap().0.inner_spec(), *r.unwrap().1) == old(self).remaining().last() && final(self).remaining() == old(self).remaining().drop_last(),
    {
        match self.inner.next_back() {
            Some((idx, el)) => Some((TypedIndex::new(idx), el)),
            None => None,
        }
    }
}

impl<T> TypedArena<T> {
    /// The raw arena behind this typed arena.
    pub closed spec fn raw(&self) -> Arena<T> {
        self.inner
    }

    /// Constructs a new, empty typed arena with the default capacity.
    pub fn new() -> (r: Self)
        ensures
            r.raw().wf(),
            r.raw().len_spec() == 0,
            r.raw().current_generation() == 0,
            r.raw().capacity_spec() == crate::DEFAULT_CAPACITY,
    {
        TypedArena { inner: Arena::new() }
    }

    /// Constructs a new, empty typed arena with the specified capacity,
    /// normalized to at least one slot.
    pub fn with_capacity(n: usize) -> (r: Self)
        ensures
            r.raw().wf(),
            r.raw().len_spec() == 0,
            r.raw().current_generation() == 0,
            r.raw().capacity_spec() == (if n == 0 { 1nat } else { n as nat }),
    {
        TypedArena { inner: Arena::with_capacity(n) }
    }

    /// Clear all the items, keeping the allocation and the generation
    /// counter.
    pub fn clear(&mut self)
        requires
            old(self).raw().wf(),
        ensures
            final(self).raw().wf(),
            final(self).raw().len_spec() == 0,
            final(self).raw().current_generation() == old(self).raw().current_generation(),
            final(self).raw().capacity_spec() == old(self).raw().capacity_spec(),
            forall|h: Index| !final(self).raw().valid(h),
            Arena::<T>::preserves_lost(old(self).raw(), final(self).raw()),
    {
        self.inner.clear()
    }

    /// Attempts to insert `value` using existing capacity; succeeds if
    /// and only if some slot is free, else hands the value back.
    pub fn try_insert(&mut self, value: T) -> (r: Result<TypedIndex<T>, T>)
        requires
            old(self).raw().wf(),
        ensures
            final(self).raw().wf(),
            final(self).raw().current_generation() == old(self).raw().current_generation(),
            final(self).raw().capacity_spec() == old(self).raw().capacity_spec(),
            Arena::<T>::preserves_valid(old(self).raw(), final(self).raw()),
            Arena::<T>::preserves_lost(old(self).raw(), final(self).raw()),
            old(self).raw().free_list().len() == 0 ==> r == Err::<TypedIndex<T>, T>(value)
                && final(self).raw() == old(self).raw(),
            old(self).raw().free_list().len() > 0 ==> ({
                &&& r is Ok
                &&& final(self).raw().valid(r->Ok_0.inner_spec())
                &&& final(self).raw().value_of(r->Ok_0.inner_spec()) == value
                &&& r->Ok_0.inner_spec().generation == old(self).raw().current_generation()
                &&& final(self).raw().len_spec() == old(self).raw().len_spec() + 1
            }),
    {
        match self.inner.try_insert(value) {
            Ok(i) => Ok(TypedIndex::new(i)),
            Err(v) => Err(v),
        }
    }

    /// Attempts to insert the value returned by `create`, which receives
    /// its own typed handle, using existing capacity; succeeds if and
    /// only if some slot is free, else hands the closure back.
    pub fn try_insert_with<F: FnOnce(TypedIndex<T>) -> T>(&mut self, create: F) -> (r: Result<
        TypedIndex<T>,
        F,
    >)
        requires
            old(self).raw().wf(),
            forall|h: TypedIndex<T>| call_requires(create, (h,)),
        ensures
            final(self).raw().wf(),
            final(self).raw().current_generation() == old(self).raw().current_generation(),
            final(self).raw().capacity_spec() == old(self).raw().capacity_spec(),
            Arena::<T>::preserves_valid(old(self).raw(), final(self).raw()),
            Arena::<T>::preserves_lost(old(self).raw(), final(self).raw()),
            old(self).raw().free_list().len() == 0 ==> (r matches Err(f) && f == create)
                && final(self).raw() == old(self).raw(),
            old(self).raw().free_list().len() > 0 ==> ({
                &&& r is Ok
                &&& final(self).raw().valid(r->Ok_0.inner_spec())
                &&& r->Ok_0.inner_spec().generation == old(self).raw().current_generation()
                &&& final(self).raw().len_spec() == old(self).raw().len_spec() + 1
                &&& call_ensures(
                    create,
                    (TypedIndex::<T>::wrap_spec(r->Ok_0.inner_spec()),),
                    final(self).raw().value_of(r->Ok_0.inner_spec()),
                )
            }),
    {
        if self.inner.len() >= self.inner.capacity() {
            proof {
                old(self).raw().lemma_wf_counts();
            }
            return Err(create);
        }
        proof {
            old(self).raw().lemma_wf_counts();
        }
        let wrapped = |index: Index| -> (out: T)
            requires
                forall|h: TypedIndex<T>| call_requires(create, (h,)),
            ensures
                call_ensures(create, (TypedIndex::<T>::wrap_spec(index),), out),
            {
                let typed = TypedIndex::<T>::new(index);
                create(typed)
            };
        match self.inner.try_insert_with(wrapped) {
            Ok(i) => Ok(TypedIndex::new(i)),
            Err(_) => vstd::pervasive::unreached(),
        }
    }

    /// Insert `value`, allocating more capacity if necessary.
    pub fn insert(&mut self, value: T) -> (r: TypedIndex<T>)
        requires
            old(self).raw().wf(),
            old(self).raw().free_list().len() > 0 || old(self).raw().slots().len() + grow_amount(
                old(self).raw().slots().len(),
            ) <= usize::MAX,
        ensures
            final(self).raw().wf(),
            final(self).raw().current_generation() == old(self).raw().current_generation(),
            r.inner_spec().generation == old(self).raw().current_generation(),
            final(self).raw().valid(r.inner_spec()),
            final(self).raw().value_of(r.inner_spec()) == value,
            final(self).raw().len_spec() == old(self).raw().len_spec() + 1,
            Arena::<T>::preserves_valid(old(self).raw(), final(self).raw()),
            Arena::<T>::preserves_lost(old(self).raw(), final(self).raw()),
    {
        self.inner.typed_insert(value)
    }

    /// Insert the value returned by `create`, which receives its own
    /// typed handle, allocating more capacity if necessary.
    pub fn insert_with<F: FnOnce(TypedIndex<T>) -> T>(&mut self, create: F) -> (r: TypedIndex<T>)
        requires
            old(self).raw().wf(),
            forall|h: TypedIndex<T>| call_requires(create, (h,)),
            old(self).raw().free_list().len() > 0 || old(self).raw().slots().len() + grow_amount(
                old(self).raw().slots().len(),
            ) <= usize::MAX,
        ensures
            final(self).raw().wf(),
            final(self).raw().current_generation() == old(self).raw().current_generation(),
            r.inner_spec().generation == old(self).raw().current_generation(),
            final(self).raw().valid(r.inner_spec()),
            final(self).raw().len_spec() == old(self).raw().len_spec() + 1,
            Arena::<T>::preserves_valid(old(self).raw(), final(self).raw()),
            Arena::<T>::preserves_lost(old(self).raw(), final(self).raw()),
            call_ensures(
                create,
                (TypedIndex::<T>::wrap_spec(r.inner_spec()),),
                final(self).raw().value_of(r.inner_spec()),
            ),
    {
        self.inner.typed_insert_with(create)
    }

    /// Remove the element behind a typed handle; returns the value if
    /// and only if the handle is currently valid.
    pub fn remove(&mut self, i: TypedIndex<T>) -> (r: Option<T>)
        requires
            old(self).raw().wf(),
            old(self).raw().valid(i.inner_spec()) ==> old(self).raw().current_generation()
                < u64::MAX,
        ensures
            final(self).raw().wf(),
            r is Some <==> old(self).raw().valid(i.inner_spec()),
            r is Some ==> r == Some(old(self).raw().value_of(i.inner_spec())) && final(self).raw().lost(i.inner_spec()),
            !old(self).raw().valid(i.inner_spec()) ==> final(self).raw() == old(self).raw(),
            Arena::<T>::preserves_lost(old(self).raw(), final(self).raw()),
    {
        self.inner.typed_remove(i)
    }

    /// Retains only the elements for which the predicate answers `true`;
    /// rejected slots are removed through the normal removal path.
    pub fn retain<F: Fn(TypedIndex<T>, &T) -> bool>(&mut self, predicate: F)
        requires
            old(self).raw().wf(),
            forall|h: TypedIndex<T>, v: &T| call_requires(predicate, (h, v)),
            old(self).raw().current_generation() + old(self).raw().len_spec() <= u64::MAX,
        ensures
            final(self).raw().wf(),
            final(self).raw().capacity_spec() == old(self).raw().capacity_spec(),
            final(self).raw().len_spec() <= old(self).raw().len_spec(),
            forall|j: int|
                0 <= j < old(self).raw().slots().len() && (#[trigger] old(self).raw().slots()[j])
                    is Occupied ==> ({
                    let h = Index {
                        index: j as usize,
                        generation: old(self).raw().slots()[j].gen_of(),
                    };
                    let v = old(self).raw().slots()[j].value_of();
                    ||| (final(self).raw().slots()[j] == old(self).raw().slots()[j]
                        && call_ensures(
                        predicate,
                        (TypedIndex::<T>::wrap_spec(h), &v),
                        true,
                    ))
                    ||| ((final(self).raw().slots()[j]) is Free && final(self).raw().lost(h)
                        && call_ensures(predicate, (TypedIndex::<T>::wrap_spec(h), &v), false))
                }),
            Arena::<T>::preserves_lost(old(self).raw(), final(self).raw()),
    {
        let pred_ref = &predicate;
        let wrapped = |i: Index, v: &T| -> (out: bool)
            requires
                forall|h: TypedIndex<T>, w: &T| call_requires(*pred_ref, (h, w)),
            ensures
                call_ensures(*pred_ref, (TypedIndex::<T>::wrap_spec(i), v), out),
            {
                let typed = TypedIndex::<T>::new(i);
                pred_ref(typed, v)
            };
        self.inner.retain(wrapped);
        proof {
            assert forall|j: int|
                0 <= j < old(self).raw().slots().len() && (#[trigger] old(self).raw().slots()[j])
                    is Occupied implies ({
                let h = Index {
                    index: j as usize,
                    generation: old(self).raw().slots()[j].gen_of(),
                };
                let v = old(self).raw().slots()[j].value_of();
                ||| (self.raw().slots()[j] == old(self).raw().slots()[j] && call_ensures(
                    predicate,
                    (TypedIndex::<T>::wrap_spec(h), &v),
                    true,
                ))
                ||| ((self.raw().slots()[j]) is Free && self.raw().lost(h) && call_ensures(
                    predicate,
                    (TypedIndex::<T>::wrap_spec(h), &v),
                    false,
                ))
            }) by {}
        }
    }

    /// Is the element behind the typed handle in the arena?
    pub fn contains(&self, i: TypedIndex<T>) -> (r: bool)
        ensures
            r == self.raw().valid(i.inner_spec()),
    {
        self.inner.contains(i.inner())
    }

    /// Get a shared reference to the element behind the typed handle,
    /// or `None` when the handle does not match.
    pub fn get(&self, i: TypedIndex<T>) -> (r: Option<&T>)
        ensures
            r is Some <==> self.raw().valid(i.inner_spec()),
            r is Some ==> *r.unwrap() == self.raw().value_of(i.inner_spec()),
    {
        self.inner.get(i.inner())
    }

    /// Get an exclusive reference to the element behind the typed
    /// handle, or `None` when the handle does not match.
    pub fn get_mut(&mut self, i: TypedIndex<T>) -> (r: Option<&mut T>)
        ensures
            r is Some <==> old(self).raw().valid(i.inner_spec()),
            r is None ==> *final(self) == *old(self),
            (match r {
                Some(p) => {
                    &&& *p == old(self).raw().value_of(i.inner_spec())
                    &&& final(self).raw().slots() == old(self).raw().slots().update(
                        i.inner_spec().index as int,
                        Entry::Occupied {
                            generation: i.inner_spec().generation,
                            value: *final(p),
                        },
                    )
                    &&& final(self).raw().current_generation() == old(self).raw().current_generation()
                    &&& final(self).raw().len_spec() == old(self).raw().len_spec()
                },
                None => true,
            }),
            old(self).raw().wf() ==> final(self).raw().wf(),
    {
        self.inner.get_mut(i.inner())
    }

    /// Direct access to the element behind a typed handle that the
    /// caller has already established to be live. An absent handle is a
    /// caller contract violation.
    pub fn index(&self, i: TypedIndex<T>) -> (r: &T)
        requires
            self.raw().valid(i.inner_spec()),
        ensures
            *r == self.raw().value_of(i.inner_spec()),
    {
        self.inner.index(i.inner())
    }

    /// Direct exclusive access to the element behind a typed handle that
    /// the caller has already established to be live. An absent handle
    /// is a caller contract violation.
    pub fn index_mut(&mut self, i: TypedIndex<T>) -> (r: &mut T)
        requires
            old(self).raw().valid(i.inner_spec()),
        ensures
            *r == old(self).raw().value_of(i.inner_spec()),
            final(self).raw().slots() == old(self).raw().slots().update(
                i.inner_spec().index as int,
                Entry::Occupied { generation: i.inner_spec().generation, value: *final(r) },
            ),
            final(self).raw().current_generation() == old(self).raw().current_generation(),
            final(self).raw().len_spec() == old(self).raw().len_spec(),
            old(self).raw().wf() ==> final(self).raw().wf(),
    {
        self.inner.index_mut(i.inner())
    }

    /// The number of elements in the arena.
    pub fn len(&self) -> (r: usize)
        ensures
            r == self.raw().len_spec(),
    {
        self.inner.len()
    }

    /// The number of slots the arena can fill without further
    /// allocation.
    pub fn capacity(&self) -> (r: usize)
        ensures
            r == self.raw().capacity_spec(),
    {
        self.inner.capacity()
    }

    /// Allocate space for `additional_capacity` more slots, threaded
    /// into the free list ahead of the existing free slots.
    pub fn reserve(&mut self, additional_capacity: usize)
        requires
            old(self).raw().wf(),
            old(self).raw().slots().len() + additional_capacity <= usize::MAX,
        ensures
            final(self).raw().wf(),
            final(self).raw().current_generation() == old(self).raw().current_generation(),
            final(self).raw().len_spec() == old(self).raw().len_spec(),
            final(self).raw().capacity_spec() == old(self).raw().capacity_spec()
                + additional_capacity,
            Arena::<T>::preserves_valid(old(self).raw(), final(self).raw()),
            Arena::<T>::preserves_lost(old(self).raw(), final(self).raw()),
    {
        self.inner.reserve(additional_capacity)
    }

    /// Iterate over shared references to the elements, yielding
    /// typed-handle/reference pairs in storage order.
    pub fn iter(&self) -> (r: TypedIter<'_, T>)
        requires
            self.raw().wf(),
        ensures
            r.wf(),
            r.remaining() == occupied_items(self.raw().slots(), 0),
    {
        TypedIter { inner: self.inner.iter() }
    }

    /// Iterate over exclusive references to the elements, yielding
    /// typed-handle/reference pairs in storage order.
    pub fn iter_mut(&mut self) -> (r: TypedIterMut<'_, T>)
        requires
            old(self).raw().wf(),
        ensures
            r.wf(),
            r.remaining() == occupied_items(old(self).raw().slots(), 0),
            final(self).raw().current_generation() == old(self).raw().current_generation(),
            final(self).raw().len_spec() == old(self).raw().len_spec(),
    {
        TypedIterMut::wrap(self.inner.iter_mut())
    }

    /// Given a bare position, get the typed handle and a shared
    /// reference to the element there, or `None` if the position is out
    /// of range or the slot is free.
    pub fn get_unknown_gen(&self, i: usize) -> (r: Option<(TypedIndex<T>, &T)>)
        ensures
            r is Some <==> (i < self.raw().slots().len() && self.raw().slots()[i as int]
                is Occupied),
            (match r {
                Some(p) => {
                    &&& p.0.inner_spec() == (Index {
                        index: i,
                        generation: self.raw().slots()[i as int].gen_of(),
                    })
                    &&& self.raw().valid(p.0.inner_spec())
                    &&& *p.1 == self.raw().value_of(p.0.inner_spec())
                },
                None => true,
            }),
    {
        match self.inner.get_unknown_gen(i) {
            Some((v, idx)) => Some((TypedIndex::new(idx), v)),
            None => None,
        }
    }

    /// Given a bare position, get the typed handle and an exclusive
    /// reference to the element there, or `None` if the position is out
    /// of range or the slot is free.
    pub fn get_unknown_gen_mut(&mut self, i: usize) -> (r: Option<(TypedIndex<T>, &mut T)>)
        ensures
            r is Some <==> (i < old(self).raw().slots().len() && old(self).raw().slots()[i as int]
                is Occupied),
            r is None ==> *final(self) == *old(self),
            (match r {
                Some(p) => {
                    &&& p.0.inner_spec() == (Index {
                        index: i,
                        generation: old(self).raw().slots()[i as int].gen_of(),
                    })
                    &&& old(self).raw().valid(p.0.inner_spec())
                    &&& *p.1 == old(self).raw().value_of(p.0.inner_spec())
                    &&& final(self).raw().slots() == old(self).raw().slots().update(
                        i as int,
                        Entry::Occupied {
                            generation: p.0.inner_spec().generation,
                            value: *final(p.1),
                        },
                    )
                    &&& final(self).raw().current_generation() == old(self).raw().current_generation()
                    &&& final(self).raw().len_spec() == old(self).raw().len_spec()
                },
                None => true,
            }),
            old(self).raw().wf() ==> final(self).raw().wf(),
    {
        match self.inner.get_unknown_gen_mut(i) {
            Some((v, idx)) => Some((TypedIndex::new(idx), v)),
            None => None,
        }
    }

    /// Build a typed arena of exactly `max_index` slots from a listing
    /// of typed handles and values: each pair occupies its handle's
    /// position, stamped with its handle's generation, and every other
    /// slot stays free.
    pub fn raw_load(max_index: usize, pairs: Vec<(TypedIndex<T>, T)>) -> (r: Self)
        requires
            forall|k: int|
                0 <= k < pairs@.len() ==> (#[trigger] pairs@[k].0).inner_spec().index < max_index,
            forall|k: int, m: int|
                0 <= k < m < pairs@.len() ==> pairs@[k].0.inner_spec().index
                    != pairs@[m].0.inner_spec().index,
        ensures
            r.raw().wf(),
            r.raw().capacity_spec() == max_index,
            forall|k: int|
                0 <= k < pairs@.len() ==> r.raw().slots()[(#[trigger] pairs@[k].0).inner_spec().index as int]
                    == (Entry::Occupied {
                    generation: pairs@[k].0.inner_spec().generation,
                    value: pairs@[k].1,
                }),
            forall|j: int|
                0 <= j < max_index && (#[trigger] r.raw().slots()[j]) is Occupied ==> exists|k: int|
                    0 <= k < pairs@.len() && (#[trigger] pairs@[k].0).inner_spec().index == j,
    {
        let ghost orig = pairs@;
        let mut pairs = pairs;
        let mut listing: Vec<Option<(u64, T)>> = Vec::new();
        let mut j: usize = 0;
        while j < max_index
            invariant
                j <= max_index,
                listing@.len() == j,
                forall|m: int| 0 <= m < j ==> (#[trigger] listing@[m]) is None,
            decreases max_index - j,
        {
            listing.push(None);
            j = j + 1;
        }
        proof {
            assert(pairs.len() == pairs@.len());
        }
        let mut consumed: usize = 0;
        while pairs.len() > 0
            invariant
                orig.len() <= usize::MAX,
                consumed + pairs@.len() == orig.len(),
                pairs@ == orig.subrange(consumed as int, orig.len() as int),
                listing@.len() == max_index,
                forall|k: int|
                    0 <= k < orig.len() ==> (#[trigger] orig[k].0).inner_spec().index < max_index,
                forall|k: int, m: int|
                    0 <= k < m < orig.len() ==> orig[k].0.inner_spec().index
                        != orig[m].0.inner_spec().index,
                forall|k: int|
                    0 <= k < consumed ==> listing@[(#[trigger] orig[k].0).inner_spec().index as int]
                        == Some((orig[k].0.inner_spec().generation, orig[k].1)),
                forall|m: int|
                    0 <= m < max_index && (#[trigger] listing@[m]) is Some ==> exists|k: int|
                        0 <= k < consumed && (#[trigger] orig[k].0).inner_spec().index == m,
            decreases pairs@.len(),
        {
            proof {
                assert(pairs@[0] == orig[consumed as int]);
                assert(pairs@.drop_first() =~= pairs@.subrange(1, pairs@.len() as int));
            }
            let (t, v) = pairs.remove(0);
            let at = t.index();
            let g = t.generation();
            listing.set(at, Some((g, v)));
            consumed = consumed + 1;
            proof {
                assert forall|k: int|
                    0 <= k < consumed implies listing@[(#[trigger] orig[k].0).inner_spec().index as int]
                    == Some((orig[k].0.inner_spec().generation, orig[k].1)) by {
                    if k < consumed - 1 {
                        assert(orig[k].0.inner_spec().index != orig[consumed - 1].0.inner_spec().index);
                    }
                }
            }
        }
        let arena = Arena::from_slots(listing);
        TypedArena { inner: arena }
    }
}

impl<T> Default for TypedArena<T> {
    /// The default typed arena is empty, with the default capacity.
    fn default() -> (r: Self)
        ensures
            r.raw().wf(),
            r.raw().len_spec() == 0,
            r.raw().current_generation() == 0,
            r.raw().capacity_spec() == crate::DEFAULT_CAPACITY,
    {
        TypedArena::new()
    }
}

} // verus!
